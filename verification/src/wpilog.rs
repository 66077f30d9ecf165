//! The whole-log decoder: the file header followed by the record stream,
//! decoded in one pass against the entry registry.

use crate::control_records::lut_view;
use crate::control_records::spec_registry_wf;
use crate::headers::read_header;
use crate::headers::spec_read_header;
use crate::headers::FileHeader;
use crate::records::lemma_read_next_used_bounds;
use crate::records::read_next_record;
use crate::records::spec_read_next_record;
use crate::records::EntryBindingView;
use crate::records::EntryMetadata;
use crate::records::Record;
use crate::records::RecordView;
use crate::shared::WpilogReadErrors;
use vstd::hash_map::HashMapWithView;
use vstd::prelude::*;

verus! {

/// A fully decoded log: its header, its records in stream order, and the
/// final snapshot of the entry registry.
pub struct Wpilog {
    pub header: FileHeader,
    pub records: Vec<Record>,
    pub entry_data_lut: HashMapWithView<u32, Vec<EntryMetadata>>,
}

/// The records and final registry denoted by the record stream `s`, whose
/// first record has ordinal `ordinal`, against registry `reg`. The stream
/// ends cleanly only at a record boundary; any mid-record shortage of bytes
/// is an error.
pub open spec fn spec_read_records(
    s: Seq<u8>,
    ordinal: int,
    reg: Map<u32, Seq<EntryBindingView>>,
) -> Result<(Seq<RecordView>, Map<u32, Seq<EntryBindingView>>), WpilogReadErrors>
    decreases s.len(),
{
    if s.len() == 0 {
        Ok((Seq::empty(), reg))
    } else {
        match spec_read_next_record(s, ordinal, reg) {
            Ok(t) => {
                if 1 <= t.2 <= s.len() {
                    match spec_read_records(s.skip(t.2), ordinal + 1, t.1) {
                        Ok(rest) => Ok((seq![t.0] + rest.0, rest.1)),
                        Err(e) => Err(e),
                    }
                } else {
                    Err(WpilogReadErrors::NoDataLeft)
                }
            },
            Err(e) => Err(e),
        }
    }
}

/// The outcome denoted by a whole log file: header version, extra string,
/// decoded records, and the final registry; or the first error met.
pub open spec fn spec_read_wpilog(bytes: Seq<u8>) -> Result<
    (u16, Seq<char>, Seq<RecordView>, Map<u32, Seq<EntryBindingView>>),
    WpilogReadErrors,
> {
    match spec_read_header(bytes) {
        Ok(h) => match spec_read_records(bytes.skip(h.2), 0, Map::empty()) {
            Ok(r) => Ok((h.0, h.1, r.0, r.1)),
            Err(e) => Err(e),
        },
        Err(e) => Err(e),
    }
}

/// Decodes the record stream at the cursor until the input ends exactly at
/// a record boundary; the first error aborts the pass.
#[verifier::rlimit(100)]
#[verifier::spinoff_prover]
fn read_all_records(
    file: &mut (Vec<u8>, usize),
    entry_data_lut: &mut HashMapWithView<u32, Vec<EntryMetadata>>,
) -> (r: Result<Vec<Record>, WpilogReadErrors>)
    requires
        old(file).1 <= old(file).0@.len(),
        old(file).0@.len() <= u32::MAX,
        spec_registry_wf(lut_view(old(entry_data_lut)@)),
    ensures
        spec_registry_wf(lut_view(final(entry_data_lut)@)),
        match spec_read_records(
            old(file).0@.skip(old(file).1 as int),
            0,
            lut_view(old(entry_data_lut)@),
        ) {
            Ok(t) => {
                &&& r is Ok
                &&& r.unwrap().deep_view() == t.0
                &&& lut_view(final(entry_data_lut)@) == t.1
            },
            Err(e) => r is Err && r->Err_0 == e,
        },
{
    let ghost input = old(file).0@;
    let ghost start = old(file).1 as int;
    let ghost reg_in = lut_view(old(entry_data_lut)@);
    let mut records: Vec<Record> = Vec::new();
    proof {
        assert(records.deep_view() =~= Seq::<RecordView>::empty());
        match spec_read_records(input.skip(start), 0, reg_in) {
            Ok(rest) => {
                assert(records.deep_view() + rest.0 =~= rest.0);
            },
            Err(_) => {},
        }
    }
    while file.1 < file.0.len()
        invariant
            input == old(file).0@,
            start == old(file).1 as int,
            reg_in == lut_view(old(entry_data_lut)@),
            file.0@ == input,
            start <= file.1 <= file.0@.len(),
            input.len() <= u32::MAX,
            records@.len() <= file.1,
            spec_registry_wf(lut_view(entry_data_lut@)),
            spec_read_records(input.skip(start), 0, reg_in) == (match spec_read_records(
                input.skip(file.1 as int),
                records@.len() as int,
                lut_view(entry_data_lut@),
            ) {
                Ok(rest) => Ok::<
                    (Seq<RecordView>, Map<u32, Seq<EntryBindingView>>),
                    WpilogReadErrors,
                >((records.deep_view() + rest.0, rest.1)),
                Err(e) => Err::<
                    (Seq<RecordView>, Map<u32, Seq<EntryBindingView>>),
                    WpilogReadErrors,
                >(e),
            }),
        decreases file.0@.len() - file.1,
    {
        let ghost rem = input.skip(file.1 as int);
        let ghost reg0 = lut_view(entry_data_lut@);
        let ghost ord = records@.len() as int;
        let ghost old_records = records.deep_view();
        let current_record = records.len() as u32;
        let rec = match read_next_record(file, entry_data_lut, current_record) {
            Ok(rec) => rec,
            Err(e) => {
                proof {
                    assert(rem.len() > 0);
                    match spec_read_next_record(rem, ord, reg0) {
                        Ok(_) => {
                            assert(false);
                        },
                        Err(e2) => {
                            assert(spec_read_records(rem, ord, reg0) == Err::<
                                (Seq<RecordView>, Map<u32, Seq<EntryBindingView>>),
                                WpilogReadErrors,
                            >(e2));
                        },
                    }
                }
                return Err(e);
            },
        };
        records.push(rec);
        proof {
            lemma_read_next_used_bounds(rem, ord, reg0);
            let t = spec_read_next_record(rem, ord, reg0).unwrap();
            assert(input.skip(file.1 as int) =~= rem.skip(t.2));
            assert(records.deep_view() =~= old_records.push(t.0));
            match spec_read_records(input.skip(file.1 as int), ord + 1, lut_view(
                entry_data_lut@,
            )) {
                Ok(rest) => {
                    assert(old_records + (seq![t.0] + rest.0) =~= records.deep_view() + rest.0);
                },
                Err(_) => {},
            }
        }
    }
    proof {
        assert(input.skip(file.1 as int).len() == 0);
        assert(records.deep_view() + Seq::<RecordView>::empty() =~= records.deep_view());
    }
    Ok(records)
}

/// Decodes a fully buffered log: parses the header once, then the record
/// stream against an initially empty registry.
///
/// The length bound keeps record ordinals inside `u32`, which is what the
/// format stores in a binding's start and finish indices.
pub fn read_wpilog(file_content: Vec<u8>) -> (r: Result<Wpilog, WpilogReadErrors>)
    requires
        file_content@.len() <= u32::MAX,
    ensures
        match spec_read_wpilog(file_content@) {
            Ok(t) => {
                &&& r is Ok
                &&& r.unwrap().header.version_number == t.0
                &&& r.unwrap().header.extra_string@ == t.1
                &&& r.unwrap().records.deep_view() == t.2
                &&& lut_view(r.unwrap().entry_data_lut@) == t.3
                &&& spec_registry_wf(lut_view(r.unwrap().entry_data_lut@))
            },
            Err(e) => r is Err && r->Err_0 == e,
        },
{
    let ghost input = file_content@;
    let mut file: (Vec<u8>, usize) = (file_content, 0);
    proof {
        assert(input.skip(0) =~= input);
    }
    let header = match read_header(&mut file) {
        Ok(h) => h,
        Err(e) => { return Err(e) },
    };
    let mut entry_data_lut: HashMapWithView<u32, Vec<EntryMetadata>> = HashMapWithView::<
        u32,
        Vec<EntryMetadata>,
    >::new();
    proof {
        assert(lut_view(entry_data_lut@) =~= Map::<u32, Seq<EntryBindingView>>::empty());
    }
    let records = match read_all_records(&mut file, &mut entry_data_lut) {
        Ok(rs) => rs,
        Err(e) => { return Err(e) },
    };
    proof {
        assert(input == file_content@);
    }
    Ok(Wpilog { header, records, entry_data_lut })
}

} // verus!
