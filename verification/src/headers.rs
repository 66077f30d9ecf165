//! The file header: magic bytes, format version, and the free-form extra
//! string that precede the record stream.

use crate::shared::bytes_to_string;
use crate::shared::next_chunk;
use crate::shared::spec_le_bytes;
use crate::shared::spec_le_value;
use crate::shared::widen;
use crate::shared::WpilogReadErrors;
use vstd::prelude::*;
use vstd::utf8::decode_utf8;
use vstd::utf8::encode_utf8;
use vstd::utf8::valid_utf8;

verus! {

broadcast use vstd::utf8::group_utf8_lib;

/// The six magic bytes `"WPILOG"` that begin every log file.
pub open spec fn spec_magic() -> Seq<u8> {
    seq![0x57u8, 0x50u8, 0x49u8, 0x4cu8, 0x4fu8, 0x47u8]
}

/// The immutable file header parsed before any record.
pub struct FileHeader {
    pub version_number: u16,
    pub extra_string: String,
}

/// The header denoted by a prefix of `bytes`: the version, the characters of
/// the extra string, and how many bytes the header occupies; or the first
/// error met while decoding it.
pub open spec fn spec_read_header(bytes: Seq<u8>) -> Result<
    (u16, Seq<char>, int),
    WpilogReadErrors,
> {
    if bytes.len() < 6 {
        Err(WpilogReadErrors::NoDataLeft)
    } else if bytes.subrange(0, 6) != spec_magic() {
        Err(WpilogReadErrors::InvalidHeader)
    } else if bytes.len() < 8 {
        Err(WpilogReadErrors::NoDataLeft)
    } else if spec_le_value(bytes.subrange(6, 8)) != 0x0100 {
        Err(WpilogReadErrors::UnsupportedWpilogVersion)
    } else if bytes.len() < 12 {
        Err(WpilogReadErrors::NoDataLeft)
    } else {
        let n = spec_le_value(bytes.subrange(8, 12)) as int;
        if bytes.len() < 12 + n {
            Err(WpilogReadErrors::NoDataLeft)
        } else if !valid_utf8(bytes.subrange(12, 12 + n)) {
            Err(WpilogReadErrors::InvalidHeader)
        } else {
            Ok((0x0100u16, decode_utf8(bytes.subrange(12, 12 + n)), 12 + n))
        }
    }
}

/// Parses the file header at the cursor: the magic bytes, the format version
/// (which must be the single supported value `0x0100`), and the
/// length-prefixed UTF-8 extra string.
pub fn read_header(file: &mut (Vec<u8>, usize)) -> (r: Result<FileHeader, WpilogReadErrors>)
    requires
        old(file).1 <= old(file).0@.len(),
    ensures
        final(file).0 == old(file).0,
        match spec_read_header(old(file).0@.skip(old(file).1 as int)) {
            Ok((version, extra, used)) => {
                &&& r is Ok
                &&& r.unwrap().version_number == version
                &&& r.unwrap().extra_string@ == extra
                &&& final(file).1 == old(file).1 + used
            },
            Err(e) => r == Err::<FileHeader, WpilogReadErrors>(e),
        },
{
    let ghost pos0 = old(file).1 as int;
    let ghost s = old(file).0@.skip(pos0);
    let magic = match next_chunk(file, 6) {
        Ok(c) => c,
        Err(e) => { return Err(e) },
    };
    proof {
        assert(magic@ =~= s.subrange(0, 6));
    }
    if !(magic[0] == 0x57 && magic[1] == 0x50 && magic[2] == 0x49 && magic[3] == 0x4c && magic[4]
        == 0x4f && magic[5] == 0x47) {
        proof {
            assert(magic@ != spec_magic());
        }
        return Err(WpilogReadErrors::InvalidHeader);
    }
    proof {
        assert(magic@ =~= spec_magic());
    }
    let version_bytes = match next_chunk(file, 2) {
        Ok(c) => c,
        Err(e) => { return Err(e) },
    };
    proof {
        assert(version_bytes@ =~= s.subrange(6, 8));
        crate::shared::lemma_le_value_bound(version_bytes@);
        crate::shared::lemma_pow256_values();
    }
    let version = widen(&version_bytes);
    if version != 0x0100 {
        return Err(WpilogReadErrors::UnsupportedWpilogVersion);
    }
    let len_bytes = match next_chunk(file, 4) {
        Ok(c) => c,
        Err(e) => { return Err(e) },
    };
    proof {
        assert(len_bytes@ =~= s.subrange(8, 12));
        crate::shared::lemma_le_value_bound(len_bytes@);
        crate::shared::lemma_pow256_values();
    }
    let extra_len = widen(&len_bytes);
    let extra_bytes = match next_chunk(file, extra_len as usize) {
        Ok(c) => c,
        Err(e) => { return Err(e) },
    };
    proof {
        if extra_len > 0 {
            assert(extra_bytes@ =~= s.subrange(12, 12 + extra_len as int));
        } else {
            assert(extra_bytes@ =~= s.subrange(12, 12 + extra_len as int));
        }
    }
    let extra_string = match bytes_to_string(extra_bytes) {
        Some(st) => st,
        None => { return Err(WpilogReadErrors::InvalidHeader) },
    };
    Ok(FileHeader { version_number: version as u16, extra_string })
}

/// Header round-trip: a byte sequence assembled from the magic, the supported
/// version, and the length-prefixed encoding of any extra string parses back
/// to exactly that version and extra string, consuming exactly the header
/// bytes, whatever follows them.
pub proof fn lemma_header_round_trip(extra: Seq<char>, rest: Seq<u8>)
    requires
        encode_utf8(extra).len() < 0x1_0000_0000,
    ensures
        ({
            let body = encode_utf8(extra);
            let bytes = spec_magic() + spec_le_bytes(0x0100, 2) + spec_le_bytes(body.len(), 4)
                + body + rest;
            spec_read_header(bytes) == Ok::<(u16, Seq<char>, int), WpilogReadErrors>(
                (0x0100u16, extra, 12 + body.len() as int),
            )
        }),
{
    let body = encode_utf8(extra);
    let n = body.len() as int;
    let bytes = spec_magic() + spec_le_bytes(0x0100, 2) + spec_le_bytes(body.len(), 4) + body
        + rest;
    crate::shared::lemma_pow256_values();
    crate::shared::lemma_le_round_trip(0x0100, 2);
    crate::shared::lemma_le_round_trip(body.len(), 4);
    assert(bytes.subrange(0, 6) =~= spec_magic());
    assert(bytes.subrange(6, 8) =~= spec_le_bytes(0x0100, 2));
    assert(bytes.subrange(8, 12) =~= spec_le_bytes(body.len(), 4));
    assert(bytes.subrange(12, 12 + n) =~= body);
}

/// A header whose first six bytes are not the magic is rejected as
/// `InvalidHeader`, whatever follows them.
pub proof fn lemma_header_bad_magic(bytes: Seq<u8>)
    requires
        bytes.len() >= 6,
        bytes.subrange(0, 6) != spec_magic(),
    ensures
        spec_read_header(bytes) == Err::<(u16, Seq<char>, int), WpilogReadErrors>(
            WpilogReadErrors::InvalidHeader,
        ),
{
}

/// A header carrying any version other than the single supported value is
/// rejected as `UnsupportedWpilogVersion`, whatever follows it.
pub proof fn lemma_header_bad_version(version: nat, rest: Seq<u8>)
    requires
        version < 0x10000,
        version != 0x0100,
    ensures
        spec_read_header(spec_magic() + spec_le_bytes(version, 2) + rest) == Err::<
            (u16, Seq<char>, int),
            WpilogReadErrors,
        >(WpilogReadErrors::UnsupportedWpilogVersion),
{
    let bytes = spec_magic() + spec_le_bytes(version, 2) + rest;
    crate::shared::lemma_pow256_values();
    crate::shared::lemma_le_round_trip(version, 2);
    assert(bytes.subrange(0, 6) =~= spec_magic());
    assert(bytes.subrange(6, 8) =~= spec_le_bytes(version, 2));
}

} // verus!
