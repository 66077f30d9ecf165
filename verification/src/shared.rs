//! Byte-cursor primitives and little-endian integer decoding shared by every
//! layer of the log reader.

use vstd::prelude::*;
use vstd::utf8::decode_utf8;
use vstd::utf8::valid_utf8;

verus! {

/// Errors arising while reading a log.
///
/// `FileDoesNotExist` and `ReadError` are produced by the I/O layer that loads
/// the log into memory; every other variant is produced while decoding bytes.
#[derive(Debug, Clone, PartialEq, Eq, Structural)]
pub enum WpilogReadErrors {
    FileDoesNotExist,
    ReadError,
    /// Fewer bytes remain than a read requires. Clean end of stream when it
    /// happens exactly at a record boundary, a truncation fault anywhere else.
    NoDataLeft,
    InvalidHeader,
    InvalidRecoard,
    UnsupportedWpilogVersion,
    MalformedData,
    UseOfEntryIdWithoutStart,
    UseOfEntryIdAfterFinish,
    EntryIdAlreadyStarted,
    SetMetadataWithoutStart,
    FinishWithoutStart,
    /// A Finish or SetMetadata control record targeted an entry whose latest
    /// binding is already finished.
    EntryAlreadyFinished,
}

/// The unsigned integer denoted by `bytes` read as little-endian.
pub open spec fn spec_le_value(bytes: Seq<u8>) -> nat
    decreases bytes.len(),
{
    if bytes.len() == 0 {
        0
    } else {
        bytes[0] as nat + 256 * spec_le_value(bytes.drop_first())
    }
}

/// The `n`-byte little-endian encoding of `v` (modulo 256^n).
pub open spec fn spec_le_bytes(v: nat, n: nat) -> Seq<u8>
    decreases n,
{
    if n == 0 {
        Seq::empty()
    } else {
        seq![(v % 256) as u8] + spec_le_bytes(v / 256, (n - 1) as nat)
    }
}

/// 256 to the power `n`: the number of values an `n`-byte field can hold.
pub open spec fn pow256(n: nat) -> nat
    decreases n,
{
    if n == 0 {
        1
    } else {
        256 * pow256((n - 1) as nat)
    }
}

pub proof fn lemma_pow256_values()
    ensures
        pow256(1) == 0x100,
        pow256(2) == 0x10000,
        pow256(4) == 0x1_0000_0000,
        pow256(8) == 0x1_0000_0000_0000_0000,
{
    reveal_with_fuel(pow256, 9);
}

pub proof fn lemma_pow256_monotone(m: nat, n: nat)
    requires
        m <= n,
    ensures
        pow256(m) <= pow256(n),
    decreases n,
{
    if m < n {
        lemma_pow256_monotone(m, (n - 1) as nat);
    }
}

/// A little-endian value is bounded by 256 to the number of its bytes.
pub proof fn lemma_le_value_bound(bytes: Seq<u8>)
    ensures
        spec_le_value(bytes) < pow256(bytes.len()),
    decreases bytes.len(),
{
    if bytes.len() > 0 {
        lemma_le_value_bound(bytes.drop_first());
    }
}

/// Encoding a value into `n` little-endian bytes and reading it back is the
/// identity whenever the value fits in `n` bytes.
pub proof fn lemma_le_round_trip(v: nat, n: nat)
    requires
        v < pow256(n),
    ensures
        spec_le_bytes(v, n).len() == n,
        spec_le_value(spec_le_bytes(v, n)) == v,
    decreases n,
{
    if n > 0 {
        lemma_le_round_trip(v / 256, (n - 1) as nat);
        assert(spec_le_bytes(v, n).drop_first() =~= spec_le_bytes(v / 256, (n - 1) as nat));
    }
}

/// Reads the next `size` bytes and advances the cursor past them.
///
/// The cursor is a fully buffered byte sequence paired with the current read
/// position. On failure the position is unchanged; the buffer never changes.
pub fn next_chunk(file: &mut (Vec<u8>, usize), size: usize) -> (r: Result<
    Vec<u8>,
    WpilogReadErrors,
>)
    ensures
        final(file).0 == old(file).0,
        r is Ok <==> (size == 0 || old(file).1 + size <= old(file).0@.len()),
        r is Ok ==> {
            &&& final(file).1 == old(file).1 + size
            &&& r.unwrap()@.len() == size
            &&& size > 0 ==> r.unwrap()@ == old(file).0@.subrange(
                old(file).1 as int,
                old(file).1 + size,
            )
        },
        r is Err ==> {
            &&& r == Err::<Vec<u8>, WpilogReadErrors>(WpilogReadErrors::NoDataLeft)
            &&& final(file).1 == old(file).1
        },
{
    if size == 0 {
        return Ok(Vec::new());
    }
    if file.1 > file.0.len() || size > file.0.len() - file.1 {
        return Err(WpilogReadErrors::NoDataLeft);
    }
    let mut out: Vec<u8> = Vec::new();
    let mut i: usize = 0;
    while i < size
        invariant
            i <= size,
            file.1 + size <= usize::MAX,
            file.1 + size <= file.0@.len(),
            *file == *old(file),
            out@ == file.0@.subrange(file.1 as int, file.1 + i),
        decreases size - i,
    {
        out.push(file.0[file.1 + i]);
        i += 1;
        assert(out@ =~= file.0@.subrange(file.1 as int, file.1 + i));
    }
    file.1 = file.1 + size;
    Ok(out)
}

/// Copies `data` into a buffer of exactly `size` bytes, zero-filling past the
/// end of `data` and dropping bytes beyond `size`.
pub fn pad_to_n_bytes(data: &Vec<u8>, size: usize) -> (r: Vec<u8>)
    ensures
        r@.len() == size,
        forall|i: int|
            0 <= i < size ==> r@[i] == (if i < data@.len() {
                data@[i]
            } else {
                0u8
            }),
{
    let mut out: Vec<u8> = Vec::new();
    let mut i: usize = 0;
    while i < size
        invariant
            i <= size,
            out@.len() == i,
            forall|j: int|
                0 <= j < i ==> out@[j] == (if j < data@.len() {
                    data@[j]
                } else {
                    0u8
                }),
        decreases size - i,
    {
        if i < data.len() {
            out.push(data[i]);
        } else {
            out.push(0);
        }
        i += 1;
    }
    out
}

/// Relies on `String::from_utf8`: it returns `Ok` exactly when the bytes are
/// a valid UTF-8 encoding, and the returned string then holds the characters
/// those bytes encode.
#[verifier::external_body]
pub(crate) fn bytes_to_string(data: Vec<u8>) -> (r: Option<String>)
    ensures
        r is Some <==> valid_utf8(data@),
        r is Some ==> r.unwrap()@ == decode_utf8(data@),
{
    match String::from_utf8(data) {
        Ok(s) => Some(s),
        Err(_) => None,
    }
}

/// Zero-extends up to eight little-endian bytes into a `u64`.
pub fn widen(bytes: &Vec<u8>) -> (r: u64)
    requires
        bytes@.len() <= 8,
    ensures
        r as nat == spec_le_value(bytes@),
{
    proof {
        lemma_pow256_values();
    }
    let mut r: u64 = 0;
    let mut i: usize = bytes.len();
    while i > 0
        invariant
            i <= bytes@.len() <= 8,
            r as nat == spec_le_value(bytes@.skip(i as int)),
        decreases i,
    {
        proof {
            lemma_le_value_bound(bytes@.skip(i - 1));
            lemma_pow256_monotone(bytes@.skip(i - 1).len(), 8);
            lemma_pow256_values();
            assert(bytes@.skip(i - 1).drop_first() =~= bytes@.skip(i as int));
        }
        i = i - 1;
        r = r * 256 + bytes[i] as u64;
    }
    assert(bytes@.skip(0) =~= bytes@);
    r
}

} // verus!
