//! Control records: the Start/Finish/SetMetadata messages carried by records
//! with entry identifier zero, which drive the entry registry.
//!
//! A Start for an identifier whose previous binding is finished appends a
//! fresh binding to that identifier's history, so the full history stays
//! available to consumers; it never overwrites the finished binding.

use crate::records::json_parses;
use crate::records::process_metadata;
use crate::records::DataType;
use crate::records::DataTypeView;
use crate::records::EntryBindingView;
use crate::records::EntryMetadata;
use crate::records::Metadata;
use crate::records::RecordData;
use crate::records::RecordDataView;
use crate::shared::bytes_to_string;
use crate::shared::next_chunk;
use crate::shared::spec_le_value;
use crate::shared::widen;
use crate::shared::WpilogReadErrors;
use vstd::hash_map::HashMapWithView;
use vstd::prelude::*;
use vstd::string::StringSliceAdditionalSpecFns;
use vstd::utf8::decode_utf8;
use vstd::utf8::encode_utf8;
use vstd::utf8::is_ascii_chars;
use vstd::utf8::is_ascii_chars_encode_utf8;
use vstd::utf8::is_ascii_chars_nat_bound;
use vstd::utf8::is_char_boundary;
use vstd::utf8::is_leading_byte_width_1;
use vstd::utf8::length_of_first_scalar;
use vstd::utf8::pop_first_scalar;
use vstd::utf8::valid_utf8;

verus! {

broadcast use vstd::utf8::group_utf8_lib;

/// The three control-record subtypes, selected by the first payload byte.
pub enum ControlTypes {
    Start,
    Finish,
    SetMetadata,
}

/// The fields carried by a Start control record.
pub struct StartRecordData {
    pub entry_id_to_be_started: u32,
    pub entry_name: String,
    pub entry_type: DataType,
    pub entry_metadata: Metadata,
}

/// The fields carried by a Finish control record.
pub struct FinishRecordData {
    pub entry_to_be_finished: u32,
}

/// The fields carried by a SetMetadata control record.
pub struct SetMetaDataRecordData {
    pub entry_to_be_edited: u32,
    pub entry_new_metadata: Metadata,
}

pub open spec fn has_char_prefix(s: Seq<char>, p: Seq<char>) -> bool {
    s.len() >= p.len() && s.subrange(0, p.len() as int) == p
}

pub open spec fn has_char_suffix(s: Seq<char>, q: Seq<char>) -> bool {
    s.len() >= q.len() && s.subrange(s.len() - q.len(), s.len() as int) == q
}

pub open spec fn has_byte_prefix(b: Seq<u8>, p: Seq<u8>) -> bool {
    b.len() >= p.len() && b.subrange(0, p.len() as int) == p
}

pub open spec fn has_byte_suffix(b: Seq<u8>, q: Seq<u8>) -> bool {
    b.len() >= q.len() && b.subrange(b.len() - q.len(), b.len() as int) == q
}

/// The type denoted by a type string that matched none of the fixed names:
/// the three recognized prefixed forms carry a sub-type name, and anything
/// else decays to `Raw`.
pub open spec fn spec_prefixed_type(s: Seq<char>) -> DataTypeView {
    let st = "struct:"@;
    let ar = "[]"@;
    let pr = "proto:"@;
    let ph = "photonstruct:"@;
    if has_char_prefix(s, st) {
        if has_char_suffix(s, ar) {
            DataTypeView::StructArray(s.subrange(st.len() as int, s.len() - ar.len()))
        } else {
            DataTypeView::Struct(s.subrange(st.len() as int, s.len() as int))
        }
    } else if has_char_prefix(s, pr) {
        DataTypeView::ProtoBuff(s.subrange(pr.len() as int, s.len() as int))
    } else if has_char_prefix(s, ph) {
        DataTypeView::PhotonStruct(s.subrange(ph.len() as int, s.len() as int))
    } else {
        DataTypeView::Raw
    }
}

/// The type denoted by a full type string: one of the thirteen fixed names,
/// or a prefixed form per `spec_prefixed_type`.
pub open spec fn spec_type_from_string(s: Seq<char>) -> DataTypeView {
    if s == "raw"@ {
        DataTypeView::Raw
    } else if s == "boolean"@ {
        DataTypeView::Boolean
    } else if s == "int64"@ {
        DataTypeView::Integer
    } else if s == "float"@ {
        DataTypeView::Float
    } else if s == "double"@ {
        DataTypeView::Double
    } else if s == "string"@ {
        DataTypeView::String
    } else if s == "boolean[]"@ {
        DataTypeView::BooleanArray
    } else if s == "int64[]"@ {
        DataTypeView::IntegerArray
    } else if s == "float[]"@ {
        DataTypeView::FloatArray
    } else if s == "double[]"@ {
        DataTypeView::DoubleArray
    } else if s == "string[]"@ {
        DataTypeView::StringArray
    } else if s == "json"@ {
        DataTypeView::Json
    } else if s == "msgpack"@ {
        DataTypeView::MessagePack
    } else {
        spec_prefixed_type(s)
    }
}

/// Encoding a concatenation of character sequences concatenates their
/// encodings.
proof fn lemma_encode_utf8_concat(a: Seq<char>, b: Seq<char>)
    ensures
        encode_utf8(a + b) == encode_utf8(a) + encode_utf8(b),
    decreases a.len(),
{
    if a.len() == 0 {
        assert(a + b =~= b);
        assert(encode_utf8(a) + encode_utf8(b) =~= encode_utf8(b));
    } else {
        assert((a + b).drop_first() =~= a.drop_first() + b);
        lemma_encode_utf8_concat(a.drop_first(), b);
        assert((a + b)[0] == a[0]);
        assert(encode_utf8(a + b) =~= encode_utf8(a) + encode_utf8(b));
    }
}

/// A position reached by crossing only ASCII bytes of a valid UTF-8 sequence
/// is a character boundary.
proof fn lemma_ascii_block_boundary(bytes: Seq<u8>, k: int)
    requires
        valid_utf8(bytes),
        0 <= k <= bytes.len(),
        forall|i: int| 0 <= i < k ==> bytes[i] < 0x80,
    ensures
        is_char_boundary(bytes, k),
    decreases k,
{
    if k > 0 {
        assert(bytes.len() > 0);
        assert(is_leading_byte_width_1(bytes[0]));
        assert(length_of_first_scalar(bytes) == 1);
        let tail = pop_first_scalar(bytes);
        assert(tail =~= bytes.drop_first());
        assert(forall|i: int| 0 <= i < k - 1 ==> tail[i] < 0x80);
        lemma_ascii_block_boundary(tail, k - 1);
    }
}

/// For an ASCII pattern, a byte-level prefix of the UTF-8 encoding and a
/// character-level prefix of the decoded text are the same thing.
proof fn lemma_ascii_char_prefix(s: Seq<char>, p: Seq<char>)
    requires
        is_ascii_chars(p),
    ensures
        has_byte_prefix(encode_utf8(s), encode_utf8(p)) <==> has_char_prefix(s, p),
{
    let eb = encode_utf8(s);
    let ep = encode_utf8(p);
    is_ascii_chars_encode_utf8(p);
    is_ascii_chars_nat_bound(p);
    if has_char_prefix(s, p) {
        let tail = s.subrange(p.len() as int, s.len() as int);
        assert(s =~= p + tail);
        lemma_encode_utf8_concat(p, tail);
        assert(eb.subrange(0, ep.len() as int) =~= ep);
    }
    if has_byte_prefix(eb, ep) {
        assert(valid_utf8(eb));
        assert forall|i: int| 0 <= i < ep.len() implies eb[i] < 0x80 by {
            assert(eb[i] == eb.subrange(0, ep.len() as int)[i]);
            assert(ep[i] == p[i] as u8);
        }
        lemma_ascii_block_boundary(eb, ep.len() as int);
        vstd::utf8::decode_utf8_split(eb, ep.len() as int);
        assert(eb.subrange(0, ep.len() as int) == ep);
        assert(decode_utf8(ep) == p);
        assert(decode_utf8(eb) == s);
        assert(s.subrange(0, p.len() as int) =~= p);
    }
}

/// For an ASCII pattern, a byte-level suffix of the UTF-8 encoding and a
/// character-level suffix of the decoded text are the same thing.
proof fn lemma_ascii_char_suffix(s: Seq<char>, q: Seq<char>)
    requires
        is_ascii_chars(q),
    ensures
        has_byte_suffix(encode_utf8(s), encode_utf8(q)) <==> has_char_suffix(s, q),
{
    let eb = encode_utf8(s);
    let eq = encode_utf8(q);
    is_ascii_chars_encode_utf8(q);
    is_ascii_chars_nat_bound(q);
    if has_char_suffix(s, q) {
        let front = s.subrange(0, s.len() - q.len());
        assert(s =~= front + q);
        lemma_encode_utf8_concat(front, q);
        assert(eb.subrange(eb.len() - eq.len(), eb.len() as int) =~= eq);
    }
    if has_byte_suffix(eb, eq) {
        assert(valid_utf8(eb));
        let k = eb.len() - eq.len();
        if eq.len() == 0 {
            assert(q =~= Seq::<char>::empty());
            assert(s.subrange(s.len() - q.len(), s.len() as int) =~= q);
        } else {
            assert(eb[k] == eb.subrange(k, eb.len() as int)[0]);
            assert(eb[k] == q[0] as u8);
            assert(is_leading_byte_width_1(eb[k]));
            vstd::utf8::is_char_boundary_iff_is_leading_byte(eb, k);
            vstd::utf8::decode_utf8_split(eb, k);
            assert(eb.subrange(k, eb.len() as int) == eq);
            assert(decode_utf8(eq) == q);
            assert(decode_utf8(eb) == s);
            let front = decode_utf8(eb.subrange(0, k));
            assert(s =~= front + q);
            assert(s.subrange(s.len() - q.len(), s.len() as int) =~= q);
        }
    }
}

/// Whether `p` is a leading run of `b`, byte for byte.
fn bytes_has_prefix(b: &[u8], p: &[u8]) -> (r: bool)
    ensures
        r == has_byte_prefix(b@, p@),
{
    if p.len() > b.len() {
        return false;
    }
    let mut i: usize = 0;
    while i < p.len()
        invariant
            i <= p@.len() <= b@.len(),
            forall|j: int| 0 <= j < i ==> b@[j] == p@[j],
        decreases p@.len() - i,
    {
        if b[i] != p[i] {
            proof {
                assert(b@.subrange(0, p@.len() as int)[i as int] != p@[i as int]);
            }
            return false;
        }
        i += 1;
    }
    proof {
        assert(b@.subrange(0, p@.len() as int) =~= p@);
    }
    true
}

/// Whether `q` is a trailing run of `b`, byte for byte.
fn bytes_has_suffix(b: &[u8], q: &[u8]) -> (r: bool)
    ensures
        r == has_byte_suffix(b@, q@),
{
    if q.len() > b.len() {
        return false;
    }
    let bl: usize = b.len();
    let off: usize = bl - q.len();
    let mut i: usize = 0;
    while i < q.len()
        invariant
            i <= q@.len() <= b@.len(),
            bl == b@.len(),
            off == b@.len() - q@.len(),
            forall|j: int| 0 <= j < i ==> b@[off + j] == q@[j],
        decreases q@.len() - i,
    {
        if b[off + i] != q[i] {
            proof {
                assert(b@.subrange(b@.len() - q@.len(), b@.len() as int)[i as int] != q@[
                    i as int
                ]);
            }
            return false;
        }
        i += 1;
    }
    proof {
        assert(b@.subrange(b@.len() - q@.len(), b@.len() as int) =~= q@);
    }
    true
}

/// Recovers the type denoted by a type string that matched none of the fixed
/// names: `"struct:"`, `"struct:"..."[]"`, `"proto:"` and `"photonstruct:"`
/// carry a sub-type name; anything else decays to `Raw`.
pub fn process_structs_and_stuff_type_from_string(s: &str) -> (r: Result<
    DataType,
    WpilogReadErrors,
>)
    ensures
        r is Ok,
        r.unwrap()@ == spec_prefixed_type(s@),
{
    proof {
        reveal_strlit("struct:");
        reveal_strlit("proto:");
        reveal_strlit("photonstruct:");
        reveal_strlit("[]");
        assert(is_ascii_chars("struct:"@));
        assert(is_ascii_chars("proto:"@));
        assert(is_ascii_chars("photonstruct:"@));
        assert(is_ascii_chars("[]"@));
        lemma_ascii_char_prefix(s@, "struct:"@);
        lemma_ascii_char_prefix(s@, "proto:"@);
        lemma_ascii_char_prefix(s@, "photonstruct:"@);
        lemma_ascii_char_suffix(s@, "[]"@);
        is_ascii_chars_encode_utf8("struct:"@);
        is_ascii_chars_encode_utf8("proto:"@);
        is_ascii_chars_encode_utf8("photonstruct:"@);
        is_ascii_chars_encode_utf8("[]"@);
    }
    let b = s.as_bytes();
    let bl = b.len();
    proof {
        assert(s.spec_bytes().len() == bl);
    }
    let struct_lit = "struct:";
    let proto_lit = "proto:";
    let photon_lit = "photonstruct:";
    let array_lit = "[]";
    if bytes_has_prefix(b, struct_lit.as_bytes()) {
        proof {
            lemma_boundary_at_ascii_prefix(s@, "struct:"@);
        }
        let pair = s.split_at(struct_lit.len());
        let rest = pair.1;
        proof {
            lemma_split_after_ascii_prefix(s@, rest@, "struct:"@);
        }
        if bytes_has_suffix(b, array_lit.as_bytes()) {
            proof {
                lemma_rest_keeps_suffix(s@, "struct:"@, "[]"@);
                lemma_ascii_char_suffix(rest@, "[]"@);
                assert(rest.spec_bytes()[rest.spec_bytes().len() - 2] == '[' as u8);
                assert(is_leading_byte_width_1(rest.spec_bytes()[rest.spec_bytes().len() - 2]));
                vstd::utf8::is_char_boundary_iff_is_leading_byte(
                    rest.spec_bytes(),
                    rest.spec_bytes().len() - 2,
                );
            }
            let rl = rest.len();
            proof {
                assert(has_byte_suffix(encode_utf8(rest@), encode_utf8("[]"@)));
                assert(encode_utf8("[]"@).len() == 2);
                assert(rest.spec_bytes() == encode_utf8(rest@));
                assert(rest.spec_bytes().len() == bl - 7);
                assert(rl == bl - 7);
                assert(rl >= 2);
            }
            let pair2 = rest.split_at(rl - 2);
            let name = pair2.0;
            proof {
                lemma_front_chars_of_split(rest, name, 2);
                assert(name@ =~= s@.subrange(7, s@.len() - 2));
            }
            Ok(DataType::StructArray(name.to_owned()))
        } else {
            Ok(DataType::Struct(rest.to_owned()))
        }
    } else if bytes_has_prefix(b, proto_lit.as_bytes()) {
        proof {
            lemma_boundary_at_ascii_prefix(s@, "proto:"@);
        }
        let pair = s.split_at(proto_lit.len());
        proof {
            lemma_split_after_ascii_prefix(s@, pair.1@, "proto:"@);
        }
        Ok(DataType::ProtoBuff(pair.1.to_owned()))
    } else if bytes_has_prefix(b, photon_lit.as_bytes()) {
        proof {
            lemma_boundary_at_ascii_prefix(s@, "photonstruct:"@);
        }
        let pair = s.split_at(photon_lit.len());
        proof {
            lemma_split_after_ascii_prefix(s@, pair.1@, "photonstruct:"@);
        }
        Ok(DataType::PhotonStruct(pair.1.to_owned()))
    } else {
        Ok(DataType::Raw)
    }
}

/// The byte length of an ASCII character prefix is a character boundary of
/// the whole string's encoding.
proof fn lemma_boundary_at_ascii_prefix(s_chars: Seq<char>, p: Seq<char>)
    requires
        is_ascii_chars(p),
        has_char_prefix(s_chars, p),
    ensures
        is_char_boundary(encode_utf8(s_chars), encode_utf8(p).len() as int),
        encode_utf8(p).len() <= encode_utf8(s_chars).len(),
{
    let eb = encode_utf8(s_chars);
    let ep = encode_utf8(p);
    is_ascii_chars_encode_utf8(p);
    is_ascii_chars_nat_bound(p);
    let tail = s_chars.subrange(p.len() as int, s_chars.len() as int);
    assert(s_chars =~= p + tail);
    lemma_encode_utf8_concat(p, tail);
    assert(eb.subrange(0, ep.len() as int) =~= ep);
    assert forall|i: int| 0 <= i < ep.len() implies eb[i] < 0x80 by {
        assert(eb[i] == eb.subrange(0, ep.len() as int)[i]);
        assert(ep[i] == p[i] as u8);
    }
    lemma_ascii_block_boundary(eb, ep.len() as int);
}

/// A text whose encoding is the whole encoding with an ASCII character prefix
/// cut off holds exactly the characters after that prefix.
proof fn lemma_split_after_ascii_prefix(s_chars: Seq<char>, rest_chars: Seq<char>, p: Seq<char>)
    requires
        is_ascii_chars(p),
        has_char_prefix(s_chars, p),
        encode_utf8(rest_chars) =~= encode_utf8(s_chars).subrange(
            encode_utf8(p).len() as int,
            encode_utf8(s_chars).len() as int,
        ),
    ensures
        rest_chars == s_chars.subrange(p.len() as int, s_chars.len() as int),
{
    let eb = encode_utf8(s_chars);
    let ep = encode_utf8(p);
    is_ascii_chars_encode_utf8(p);
    is_ascii_chars_nat_bound(p);
    let tail = s_chars.subrange(p.len() as int, s_chars.len() as int);
    assert(s_chars =~= p + tail);
    lemma_encode_utf8_concat(p, tail);
    assert(encode_utf8(tail) =~= eb.subrange(ep.len() as int, eb.len() as int));
    assert(encode_utf8(rest_chars) == encode_utf8(tail));
    assert(decode_utf8(encode_utf8(rest_chars)) == rest_chars);
    assert(decode_utf8(encode_utf8(tail)) == tail);
}

/// A string with an ASCII prefix and a two-character ASCII suffix longer than
/// their overlap keeps the suffix on the part after the prefix.
proof fn lemma_rest_keeps_suffix(s: Seq<char>, p: Seq<char>, q: Seq<char>)
    requires
        p == "struct:"@,
        q == "[]"@,
        has_char_prefix(s, p),
        has_char_suffix(s, q),
    ensures
        s.len() >= p.len() + q.len(),
        has_char_suffix(s.subrange(p.len() as int, s.len() as int), q),
{
    reveal_strlit("struct:");
    reveal_strlit("[]");
    if s.len() == p.len() {
        assert(s.subrange(0, p.len() as int) == p);
        assert(s[5] == p[5]);
        assert(s.subrange(s.len() - 2, s.len() as int) == q);
        assert(s[5] == q[0]);
        assert(false);
    }
    if s.len() == p.len() + 1 {
        assert(s.subrange(0, p.len() as int) == p);
        assert(s[6] == p[6]);
        assert(s.subrange(s.len() - 2, s.len() as int) == q);
        assert(s[6] == q[0]);
        assert(false);
    }
    let rest = s.subrange(p.len() as int, s.len() as int);
    assert(rest.subrange(rest.len() - q.len(), rest.len() as int) =~= s.subrange(
        s.len() - q.len(),
        s.len() as int,
    ));
}

/// The first half of a split at `k` bytes from the end of an all-ASCII tail
/// holds exactly the characters before those last `k` characters.
proof fn lemma_front_chars_of_split(rest: &str, name: &str, k: int)
    requires
        0 <= k <= rest.spec_bytes().len(),
        is_char_boundary(rest.spec_bytes(), rest.spec_bytes().len() - k),
        name.spec_bytes() =~= rest.spec_bytes().subrange(0, rest.spec_bytes().len() - k),
        has_char_suffix(rest@, "[]"@),
        k == encode_utf8("[]"@).len(),
    ensures
        name@ == rest@.subrange(0, rest@.len() - 2),
{
    reveal_strlit("[]");
    is_ascii_chars_encode_utf8("[]"@);
    let q = "[]"@;
    let front = rest@.subrange(0, rest@.len() - q.len());
    assert(rest@ =~= front + q);
    lemma_encode_utf8_concat(front, q);
    assert(encode_utf8(front) =~= rest.spec_bytes().subrange(
        0,
        rest.spec_bytes().len() - k,
    ));
    assert(encode_utf8(name@) == encode_utf8(front));
    assert(decode_utf8(encode_utf8(name@)) == name@);
    assert(decode_utf8(encode_utf8(front)) == front);
}


/// The registry as a mathematical map: each identifier's ordered history of
/// bindings, oldest first.
pub open spec fn lut_view(m: Map<u32, Vec<EntryMetadata>>) -> Map<u32, Seq<EntryBindingView>> {
    m.map_values(|v: Vec<EntryMetadata>| v.deep_view())
}

/// The registry invariant: every identifier in the registry has at least one
/// binding, and at most its newest binding is still open.
pub open spec fn spec_registry_wf(reg: Map<u32, Seq<EntryBindingView>>) -> bool {
    forall|id: u32|
        #[trigger] reg.contains_key(id) ==> reg[id].len() > 0 && (forall|i: int|
            0 <= i < reg[id].len() - 1 ==> (#[trigger] reg[id][i]).finish_record_index is Some)
}

/// The registry after a Start of `id`: a new open binding is appended to the
/// identifier's history, unless its newest binding is still open.
pub open spec fn spec_start_effect(
    reg: Map<u32, Seq<EntryBindingView>>,
    id: u32,
    binding: EntryBindingView,
) -> Result<Map<u32, Seq<EntryBindingView>>, WpilogReadErrors> {
    if reg.contains_key(id) && reg[id].len() > 0 && reg[id].last().finish_record_index is None {
        Err(WpilogReadErrors::EntryIdAlreadyStarted)
    } else if reg.contains_key(id) {
        Ok(reg.insert(id, reg[id].push(binding)))
    } else {
        Ok(reg.insert(id, seq![binding]))
    }
}

/// The registry after a Finish of `id` at record `ordinal`: the newest
/// binding, which must be open, is closed at that ordinal.
pub open spec fn spec_finish_effect(
    reg: Map<u32, Seq<EntryBindingView>>,
    id: u32,
    ordinal: int,
) -> Result<Map<u32, Seq<EntryBindingView>>, WpilogReadErrors> {
    if !reg.contains_key(id) {
        Err(WpilogReadErrors::FinishWithoutStart)
    } else if reg[id].last().finish_record_index is Some {
        Err(WpilogReadErrors::EntryAlreadyFinished)
    } else {
        let updated = EntryBindingView { finish_record_index: Some(ordinal), ..reg[id].last() };
        Ok(reg.insert(id, reg[id].update(reg[id].len() - 1, updated)))
    }
}

/// The registry after a SetMetadata of `id`: the newest binding, which must
/// be open, has its metadata replaced.
pub open spec fn spec_set_metadata_effect(
    reg: Map<u32, Seq<EntryBindingView>>,
    id: u32,
    meta_present: bool,
) -> Result<Map<u32, Seq<EntryBindingView>>, WpilogReadErrors> {
    if !reg.contains_key(id) {
        Err(WpilogReadErrors::SetMetadataWithoutStart)
    } else if reg[id].last().finish_record_index is Some {
        Err(WpilogReadErrors::EntryAlreadyFinished)
    } else {
        let updated = EntryBindingView { meta_present, ..reg[id].last() };
        Ok(reg.insert(id, reg[id].update(reg[id].len() - 1, updated)))
    }
}

/// The outcome denoted by a Start control payload (after the subtype byte):
/// identifier, length-prefixed name and type string, and length-prefixed
/// metadata, applied to the registry.
pub open spec fn spec_start_payload(
    p: Seq<u8>,
    ordinal: int,
    reg: Map<u32, Seq<EntryBindingView>>,
) -> Result<(RecordDataView, Map<u32, Seq<EntryBindingView>>), WpilogReadErrors> {
    if p.len() < 8 {
        Err(WpilogReadErrors::InvalidRecoard)
    } else {
        let id = spec_le_value(p.subrange(0, 4)) as u32;
        let name_len = spec_le_value(p.subrange(4, 8)) as int;
        if p.len() < 8 + name_len {
            Err(WpilogReadErrors::InvalidRecoard)
        } else if !valid_utf8(p.subrange(8, 8 + name_len)) {
            Err(WpilogReadErrors::InvalidRecoard)
        } else {
            let name = decode_utf8(p.subrange(8, 8 + name_len));
            let o1 = 8 + name_len;
            if p.len() < o1 + 4 {
                Err(WpilogReadErrors::InvalidRecoard)
            } else {
                let type_len = spec_le_value(p.subrange(o1, o1 + 4)) as int;
                if p.len() < o1 + 4 + type_len {
                    Err(WpilogReadErrors::InvalidRecoard)
                } else if !valid_utf8(p.subrange(o1 + 4, o1 + 4 + type_len)) {
                    Err(WpilogReadErrors::InvalidRecoard)
                } else {
                    let ty = spec_type_from_string(decode_utf8(p.subrange(o1 + 4, o1 + 4 + type_len)));
                    let o2 = o1 + 4 + type_len;
                    if p.len() < o2 + 4 {
                        Err(WpilogReadErrors::InvalidRecoard)
                    } else {
                        let meta_len = spec_le_value(p.subrange(o2, o2 + 4)) as int;
                        if p.len() < o2 + 4 + meta_len {
                            Err(WpilogReadErrors::InvalidRecoard)
                        } else if meta_len > 0 && !json_parses(p.subrange(o2 + 4, o2 + 4 + meta_len)) {
                            Err(WpilogReadErrors::MalformedData)
                        } else {
                            let binding = EntryBindingView {
                                start_record_index: ordinal,
                                name,
                                data_type: ty,
                                meta_present: meta_len > 0,
                                finish_record_index: None,
                            };
                            match spec_start_effect(reg, id, binding) {
                                Ok(reg2) => Ok(
                                    (
                                        RecordDataView::Start {
                                            entry_id: id,
                                            name,
                                            entry_type: ty,
                                            meta_present: meta_len > 0,
                                        },
                                        reg2,
                                    ),
                                ),
                                Err(e) => Err(e),
                            }
                        }
                    }
                }
            }
        }
    }
}

/// The outcome denoted by a Finish control payload (after the subtype byte).
pub open spec fn spec_finish_payload(
    p: Seq<u8>,
    ordinal: int,
    reg: Map<u32, Seq<EntryBindingView>>,
) -> Result<(RecordDataView, Map<u32, Seq<EntryBindingView>>), WpilogReadErrors> {
    if p.len() < 4 {
        Err(WpilogReadErrors::InvalidRecoard)
    } else {
        let id = spec_le_value(p.subrange(0, 4)) as u32;
        match spec_finish_effect(reg, id, ordinal) {
            Ok(reg2) => Ok((RecordDataView::Finish { entry_id: id }, reg2)),
            Err(e) => Err(e),
        }
    }
}

/// The outcome denoted by a SetMetadata control payload (after the subtype
/// byte).
pub open spec fn spec_set_metadata_payload(
    p: Seq<u8>,
    reg: Map<u32, Seq<EntryBindingView>>,
) -> Result<(RecordDataView, Map<u32, Seq<EntryBindingView>>), WpilogReadErrors> {
    if p.len() < 8 {
        Err(WpilogReadErrors::InvalidRecoard)
    } else {
        let id = spec_le_value(p.subrange(0, 4)) as u32;
        let meta_len = spec_le_value(p.subrange(4, 8)) as int;
        if p.len() < 8 + meta_len {
            Err(WpilogReadErrors::InvalidRecoard)
        } else if meta_len > 0 && !json_parses(p.subrange(8, 8 + meta_len)) {
            Err(WpilogReadErrors::MalformedData)
        } else {
            match spec_set_metadata_effect(reg, id, meta_len > 0) {
                Ok(reg2) => Ok(
                    (
                        RecordDataView::SetMetadata { entry_id: id, meta_present: meta_len > 0 },
                        reg2,
                    ),
                ),
                Err(e) => Err(e),
            }
        }
    }
}

/// The outcome denoted by a whole control payload: the first byte selects the
/// subtype, and everything the subtype reads must lie inside the payload.
pub open spec fn spec_process_control_record(
    p: Seq<u8>,
    ordinal: int,
    reg: Map<u32, Seq<EntryBindingView>>,
) -> Result<(RecordDataView, Map<u32, Seq<EntryBindingView>>), WpilogReadErrors> {
    if p.len() < 1 {
        Err(WpilogReadErrors::InvalidRecoard)
    } else if p[0] == 0 {
        spec_start_payload(p.skip(1), ordinal, reg)
    } else if p[0] == 1 {
        spec_finish_payload(p.skip(1), ordinal, reg)
    } else if p[0] == 2 {
        spec_set_metadata_payload(p.skip(1), reg)
    } else {
        Err(WpilogReadErrors::InvalidRecoard)
    }
}

/// Lifecycle invariant: a control record applied to a well-formed registry
/// leaves it well-formed — every identifier keeps at least one binding, and
/// at most its newest binding is open.
pub proof fn lemma_lifecycle_invariant(
    p: Seq<u8>,
    ordinal: int,
    reg: Map<u32, Seq<EntryBindingView>>,
)
    requires
        spec_registry_wf(reg),
    ensures
        spec_process_control_record(p, ordinal, reg) matches Ok(pair) ==> spec_registry_wf(
            pair.1,
        ),
{
    if spec_process_control_record(p, ordinal, reg) is Ok {
        let reg2 = spec_process_control_record(p, ordinal, reg).unwrap().1;
        assert forall|id: u32| #[trigger] reg2.contains_key(id) implies reg2[id].len() > 0 && (
        forall|i: int|
            0 <= i < reg2[id].len() - 1 ==> (#[trigger] reg2[id][i]).finish_record_index
                is Some) by {
            if reg.contains_key(id) && reg2[id] != reg[id] {
                assert(reg[id].len() > 0);
            }
        }
    }
}

/// Whether two byte slices hold the same bytes.
fn bytes_eq(a: &[u8], b: &[u8]) -> (r: bool)
    ensures
        r == (a@ == b@),
{
    if a.len() != b.len() {
        return false;
    }
    let mut i: usize = 0;
    while i < a.len()
        invariant
            i <= a@.len(),
            a@.len() == b@.len(),
            forall|j: int| 0 <= j < i ==> a@[j] == b@[j],
        decreases a@.len() - i,
    {
        if a[i] != b[i] {
            return false;
        }
        i += 1;
    }
    proof {
        assert(a@ =~= b@);
    }
    true
}

/// UTF-8 encoding is injective: equal encodings mean equal texts.
proof fn lemma_encode_injective(a: Seq<char>, b: Seq<char>)
    ensures
        (encode_utf8(a) == encode_utf8(b)) <==> (a == b),
{
    if encode_utf8(a) == encode_utf8(b) {
        assert(decode_utf8(encode_utf8(a)) == a);
        assert(decode_utf8(encode_utf8(b)) == b);
    }
}

/// Maps a full type string to the `DataType` it declares.
pub fn data_type_from_type_string(s: &str) -> (r: Result<DataType, WpilogReadErrors>)
    ensures
        r is Ok,
        r.unwrap()@ == spec_type_from_string(s@),
{
    proof {
        lemma_encode_injective(s@, "raw"@);
        lemma_encode_injective(s@, "boolean"@);
        lemma_encode_injective(s@, "int64"@);
        lemma_encode_injective(s@, "float"@);
        lemma_encode_injective(s@, "double"@);
        lemma_encode_injective(s@, "string"@);
        lemma_encode_injective(s@, "boolean[]"@);
        lemma_encode_injective(s@, "int64[]"@);
        lemma_encode_injective(s@, "float[]"@);
        lemma_encode_injective(s@, "double[]"@);
        lemma_encode_injective(s@, "string[]"@);
        lemma_encode_injective(s@, "json"@);
        lemma_encode_injective(s@, "msgpack"@);
    }
    let b = s.as_bytes();
    if bytes_eq(b, "raw".as_bytes()) {
        Ok(DataType::Raw)
    } else if bytes_eq(b, "boolean".as_bytes()) {
        Ok(DataType::Boolean)
    } else if bytes_eq(b, "int64".as_bytes()) {
        Ok(DataType::Integer)
    } else if bytes_eq(b, "float".as_bytes()) {
        Ok(DataType::Float)
    } else if bytes_eq(b, "double".as_bytes()) {
        Ok(DataType::Double)
    } else if bytes_eq(b, "string".as_bytes()) {
        Ok(DataType::String)
    } else if bytes_eq(b, "boolean[]".as_bytes()) {
        Ok(DataType::BooleanArray)
    } else if bytes_eq(b, "int64[]".as_bytes()) {
        Ok(DataType::IntegerArray)
    } else if bytes_eq(b, "float[]".as_bytes()) {
        Ok(DataType::FloatArray)
    } else if bytes_eq(b, "double[]".as_bytes()) {
        Ok(DataType::DoubleArray)
    } else if bytes_eq(b, "string[]".as_bytes()) {
        Ok(DataType::StringArray)
    } else if bytes_eq(b, "json".as_bytes()) {
        Ok(DataType::Json)
    } else if bytes_eq(b, "msgpack".as_bytes()) {
        Ok(DataType::MessagePack)
    } else {
        process_structs_and_stuff_type_from_string(s)
    }
}

/// `lut_view` of an insert is an insert of the new history's view.
proof fn lemma_lut_view_insert(m: Map<u32, Vec<EntryMetadata>>, id: u32, v: Vec<EntryMetadata>)
    ensures
        lut_view(m.insert(id, v)) == lut_view(m).insert(id, v.deep_view()),
{
    assert(lut_view(m.insert(id, v)) =~= lut_view(m).insert(id, v.deep_view()));
}

/// `lut_view` of a remove is a remove.
proof fn lemma_lut_view_remove(m: Map<u32, Vec<EntryMetadata>>, id: u32)
    ensures
        lut_view(m.remove(id)) == lut_view(m).remove(id),
{
    assert(lut_view(m.remove(id)) =~= lut_view(m).remove(id));
}

/// Parses the payload of a Start control record from the cursor and applies
/// it to the registry: a new open binding for the identifier, unless its
/// newest binding is still open.
fn process_start_recoard(
    file: &mut (Vec<u8>, usize),
    current_record: u32,
    entry_data_lut: &mut HashMapWithView<u32, Vec<EntryMetadata>>,
) -> (r: Result<RecordData, WpilogReadErrors>)
    requires
        old(file).1 <= old(file).0@.len(),
        spec_registry_wf(lut_view(old(entry_data_lut)@)),
    ensures
        final(file).0 == old(file).0,
        spec_registry_wf(lut_view(final(entry_data_lut)@)),
        match spec_start_payload(
            old(file).0@.skip(old(file).1 as int),
            current_record as int,
            lut_view(old(entry_data_lut)@),
        ) {
            Ok(pair) => r is Ok && r.unwrap()@ == pair.0 && lut_view(final(entry_data_lut)@)
                == pair.1,
            Err(e) => r == Err::<RecordData, WpilogReadErrors>(e) && final(entry_data_lut)@ == old(
                entry_data_lut,
            )@,
        },
{
    let ghost p = old(file).0@.skip(old(file).1 as int);
    let ghost reg0 = lut_view(old(entry_data_lut)@);
    let id_bytes = match next_chunk(file, 4) {
        Ok(c) => c,
        Err(_) => { return Err(WpilogReadErrors::InvalidRecoard) },
    };
    let name_len_bytes = match next_chunk(file, 4) {
        Ok(c) => c,
        Err(_) => { return Err(WpilogReadErrors::InvalidRecoard) },
    };
    proof {
        assert(id_bytes@ =~= p.subrange(0, 4));
        assert(name_len_bytes@ =~= p.subrange(4, 8));
        crate::shared::lemma_le_value_bound(id_bytes@);
        crate::shared::lemma_le_value_bound(name_len_bytes@);
        crate::shared::lemma_pow256_values();
    }
    let id = widen(&id_bytes) as u32;
    let name_len = widen(&name_len_bytes);
    let name_bytes = match next_chunk(file, name_len as usize) {
        Ok(c) => c,
        Err(_) => { return Err(WpilogReadErrors::InvalidRecoard) },
    };
    proof {
        assert(name_bytes@ =~= p.subrange(8, 8 + name_len as int));
    }
    let entry_name = match bytes_to_string(name_bytes) {
        Some(st) => st,
        None => { return Err(WpilogReadErrors::InvalidRecoard) },
    };
    let ghost o1 = 8 + name_len as int;
    let type_len_bytes = match next_chunk(file, 4) {
        Ok(c) => c,
        Err(_) => { return Err(WpilogReadErrors::InvalidRecoard) },
    };
    proof {
        assert(type_len_bytes@ =~= p.subrange(o1, o1 + 4));
        crate::shared::lemma_le_value_bound(type_len_bytes@);
        crate::shared::lemma_pow256_values();
    }
    let type_len = widen(&type_len_bytes);
    let type_bytes = match next_chunk(file, type_len as usize) {
        Ok(c) => c,
        Err(_) => { return Err(WpilogReadErrors::InvalidRecoard) },
    };
    proof {
        assert(type_bytes@ =~= p.subrange(o1 + 4, o1 + 4 + type_len as int));
    }
    let type_string = match bytes_to_string(type_bytes) {
        Some(st) => st,
        None => { return Err(WpilogReadErrors::InvalidRecoard) },
    };
    let entry_type = match data_type_from_type_string(type_string.as_str()) {
        Ok(t) => t,
        Err(e) => { return Err(e) },
    };
    let ghost o2 = o1 + 4 + type_len as int;
    let meta_len_bytes = match next_chunk(file, 4) {
        Ok(c) => c,
        Err(_) => { return Err(WpilogReadErrors::InvalidRecoard) },
    };
    proof {
        assert(meta_len_bytes@ =~= p.subrange(o2, o2 + 4));
        crate::shared::lemma_le_value_bound(meta_len_bytes@);
        crate::shared::lemma_pow256_values();
    }
    let meta_len = widen(&meta_len_bytes);
    let meta_bytes = match next_chunk(file, meta_len as usize) {
        Ok(c) => c,
        Err(_) => { return Err(WpilogReadErrors::InvalidRecoard) },
    };
    proof {
        assert(meta_bytes@ =~= p.subrange(o2 + 4, o2 + 4 + meta_len as int));
    }
    let entry_metadata = match process_metadata(meta_bytes) {
        Ok(m) => m,
        Err(e) => { return Err(e) },
    };
    let ghost binding = EntryBindingView {
        start_record_index: current_record as int,
        name: entry_name@,
        data_type: entry_type@,
        meta_present: meta_len > 0,
        finish_record_index: None,
    };
    let em = EntryMetadata::new(
        current_record,
        entry_name.clone(),
        entry_type.clone(),
        entry_metadata.clone(),
    );
    proof {
        assert(em@ == binding);
    }
    match entry_data_lut.remove(&id) {
        None => {
            let mut v: Vec<EntryMetadata> = Vec::new();
            v.push(em);
            proof {
                assert(v.deep_view() =~= seq![binding]);
            }
            entry_data_lut.insert(id, v);
            proof {
                lemma_lut_view_remove(old(entry_data_lut)@, id);
                assert(old(entry_data_lut)@.remove(id) == old(entry_data_lut)@);
                lemma_lut_view_insert(old(entry_data_lut)@, id, v);
            }
        },
        Some(mut v2) => {
            proof {
                assert(reg0.contains_key(id));
                assert(v2.deep_view() == reg0[id]);
                assert(v2.deep_view().len() == v2@.len());
            }
            if v2[v2.len() - 1].finish_record_index.is_none() {
                proof {
                    assert(v2@[v2@.len() - 1]@ == reg0[id].last());
                }
                entry_data_lut.insert(id, v2);
                proof {
                    lemma_lut_view_remove(old(entry_data_lut)@, id);
                    lemma_lut_view_insert(old(entry_data_lut)@.remove(id), id, v2);
                    assert(lut_view(final(entry_data_lut)@) =~= reg0);
                    assert(final(entry_data_lut)@ =~= old(entry_data_lut)@);
                }
                return Err(WpilogReadErrors::EntryIdAlreadyStarted);
            }
            proof {
                assert(v2@[v2@.len() - 1]@ == reg0[id].last());
            }
            let ghost v2_old = v2.deep_view();
            v2.push(em);
            proof {
                assert(v2.deep_view() =~= v2_old.push(binding));
            }
            entry_data_lut.insert(id, v2);
            proof {
                lemma_lut_view_remove(old(entry_data_lut)@, id);
                lemma_lut_view_insert(old(entry_data_lut)@.remove(id), id, v2);
                assert(lut_view(final(entry_data_lut)@) =~= reg0.insert(id, reg0[id].push(binding)));
            }
        },
    }
    proof {
        lemma_lifecycle_start_effect(reg0, id, binding);
    }
    Ok(
        RecordData::Start(
            StartRecordData {
                entry_id_to_be_started: id,
                entry_name,
                entry_type,
                entry_metadata,
            },
        ),
    )
}

/// A successful Start keeps the registry well-formed.
proof fn lemma_lifecycle_start_effect(
    reg: Map<u32, Seq<EntryBindingView>>,
    id: u32,
    binding: EntryBindingView,
)
    requires
        spec_registry_wf(reg),
        binding.finish_record_index is None,
        spec_start_effect(reg, id, binding) is Ok,
    ensures
        spec_registry_wf(spec_start_effect(reg, id, binding).unwrap()),
{
    let reg2 = spec_start_effect(reg, id, binding).unwrap();
    assert forall|id2: u32| #[trigger] reg2.contains_key(id2) implies reg2[id2].len() > 0 && (
    forall|i: int|
        0 <= i < reg2[id2].len() - 1 ==> (#[trigger] reg2[id2][i]).finish_record_index is Some) by {
        if id2 != id {
            assert(reg2[id2] == reg[id2]);
        }
    }
}


/// A successful Finish keeps the registry well-formed.
proof fn lemma_lifecycle_finish_effect(reg: Map<u32, Seq<EntryBindingView>>, id: u32, ordinal: int)
    requires
        spec_registry_wf(reg),
        spec_finish_effect(reg, id, ordinal) is Ok,
    ensures
        spec_registry_wf(spec_finish_effect(reg, id, ordinal).unwrap()),
{
    let reg2 = spec_finish_effect(reg, id, ordinal).unwrap();
    assert forall|id2: u32| #[trigger] reg2.contains_key(id2) implies reg2[id2].len() > 0 && (
    forall|i: int|
        0 <= i < reg2[id2].len() - 1 ==> (#[trigger] reg2[id2][i]).finish_record_index is Some) by {
        if id2 != id {
            assert(reg2[id2] == reg[id2]);
        }
    }
}

/// A successful SetMetadata keeps the registry well-formed.
proof fn lemma_lifecycle_set_metadata_effect(
    reg: Map<u32, Seq<EntryBindingView>>,
    id: u32,
    meta_present: bool,
)
    requires
        spec_registry_wf(reg),
        spec_set_metadata_effect(reg, id, meta_present) is Ok,
    ensures
        spec_registry_wf(spec_set_metadata_effect(reg, id, meta_present).unwrap()),
{
    let reg2 = spec_set_metadata_effect(reg, id, meta_present).unwrap();
    assert forall|id2: u32| #[trigger] reg2.contains_key(id2) implies reg2[id2].len() > 0 && (
    forall|i: int|
        0 <= i < reg2[id2].len() - 1 ==> (#[trigger] reg2[id2][i]).finish_record_index is Some) by {
        if id2 != id {
            assert(reg2[id2] == reg[id2]);
        }
    }
}

/// Parses the payload of a Finish control record from the cursor and closes
/// the identifier's newest binding at the current record ordinal.
fn process_finish_recoard(
    file: &mut (Vec<u8>, usize),
    current_record: u32,
    entry_data_lut: &mut HashMapWithView<u32, Vec<EntryMetadata>>,
) -> (r: Result<RecordData, WpilogReadErrors>)
    requires
        old(file).1 <= old(file).0@.len(),
        spec_registry_wf(lut_view(old(entry_data_lut)@)),
    ensures
        final(file).0 == old(file).0,
        spec_registry_wf(lut_view(final(entry_data_lut)@)),
        match spec_finish_payload(
            old(file).0@.skip(old(file).1 as int),
            current_record as int,
            lut_view(old(entry_data_lut)@),
        ) {
            Ok(pair) => r is Ok && r.unwrap()@ == pair.0 && lut_view(final(entry_data_lut)@)
                == pair.1,
            Err(e) => r == Err::<RecordData, WpilogReadErrors>(e) && final(entry_data_lut)@ == old(
                entry_data_lut,
            )@,
        },
{
    let ghost p = old(file).0@.skip(old(file).1 as int);
    let ghost reg0 = lut_view(old(entry_data_lut)@);
    let id_bytes = match next_chunk(file, 4) {
        Ok(c) => c,
        Err(_) => { return Err(WpilogReadErrors::InvalidRecoard) },
    };
    proof {
        assert(id_bytes@ =~= p.subrange(0, 4));
        crate::shared::lemma_le_value_bound(id_bytes@);
        crate::shared::lemma_pow256_values();
    }
    let id = widen(&id_bytes) as u32;
    match entry_data_lut.remove(&id) {
        None => Err(WpilogReadErrors::FinishWithoutStart),
        Some(mut v) => {
            proof {
                assert(reg0.contains_key(id));
                assert(v.deep_view() == reg0[id]);
                assert(v.deep_view().len() == v@.len());
            }
            proof {
                assert(v@[v@.len() - 1]@ == reg0[id].last());
            }
            if v[v.len() - 1].finish_record_index.is_some() {
                entry_data_lut.insert(id, v);
                proof {
                    lemma_lut_view_remove(old(entry_data_lut)@, id);
                    lemma_lut_view_insert(old(entry_data_lut)@.remove(id), id, v);
                    assert(lut_view(final(entry_data_lut)@) =~= reg0);
                    assert(final(entry_data_lut)@ =~= old(entry_data_lut)@);
                }
                return Err(WpilogReadErrors::EntryAlreadyFinished);
            }
            let ghost v_old = v.deep_view();
            let mut last = match v.pop() {
                Some(l) => l,
                None => { return Err(WpilogReadErrors::FinishWithoutStart) },
            };
            last.finish_record_index = Some(current_record);
            v.push(last);
            proof {
                let updated = EntryBindingView {
                    finish_record_index: Some(current_record as int),
                    ..reg0[id].last()
                };
                assert(v.deep_view() =~= v_old.update(v_old.len() - 1, updated));
            }
            entry_data_lut.insert(id, v);
            proof {
                lemma_lut_view_remove(old(entry_data_lut)@, id);
                lemma_lut_view_insert(old(entry_data_lut)@.remove(id), id, v);
                let updated = EntryBindingView {
                    finish_record_index: Some(current_record as int),
                    ..reg0[id].last()
                };
                assert(lut_view(final(entry_data_lut)@) =~= reg0.insert(
                    id,
                    reg0[id].update(reg0[id].len() - 1, updated),
                ));
                lemma_lifecycle_finish_effect(reg0, id, current_record as int);
            }
            Ok(RecordData::Finish(FinishRecordData { entry_to_be_finished: id }))
        },
    }
}

/// Parses the payload of a SetMetadata control record from the cursor and
/// replaces the metadata of the identifier's newest binding, which must
/// still be open.
fn process_set_metadata_recoard(
    file: &mut (Vec<u8>, usize),
    entry_data_lut: &mut HashMapWithView<u32, Vec<EntryMetadata>>,
) -> (r: Result<RecordData, WpilogReadErrors>)
    requires
        old(file).1 <= old(file).0@.len(),
        spec_registry_wf(lut_view(old(entry_data_lut)@)),
    ensures
        final(file).0 == old(file).0,
        spec_registry_wf(lut_view(final(entry_data_lut)@)),
        match spec_set_metadata_payload(
            old(file).0@.skip(old(file).1 as int),
            lut_view(old(entry_data_lut)@),
        ) {
            Ok(pair) => r is Ok && r.unwrap()@ == pair.0 && lut_view(final(entry_data_lut)@)
                == pair.1,
            Err(e) => r == Err::<RecordData, WpilogReadErrors>(e) && final(entry_data_lut)@ == old(
                entry_data_lut,
            )@,
        },
{
    let ghost p = old(file).0@.skip(old(file).1 as int);
    let ghost reg0 = lut_view(old(entry_data_lut)@);
    let id_bytes = match next_chunk(file, 4) {
        Ok(c) => c,
        Err(_) => { return Err(WpilogReadErrors::InvalidRecoard) },
    };
    let meta_len_bytes = match next_chunk(file, 4) {
        Ok(c) => c,
        Err(_) => { return Err(WpilogReadErrors::InvalidRecoard) },
    };
    proof {
        assert(id_bytes@ =~= p.subrange(0, 4));
        assert(meta_len_bytes@ =~= p.subrange(4, 8));
        crate::shared::lemma_le_value_bound(id_bytes@);
        crate::shared::lemma_le_value_bound(meta_len_bytes@);
        crate::shared::lemma_pow256_values();
    }
    let id = widen(&id_bytes) as u32;
    let meta_len = widen(&meta_len_bytes);
    let meta_bytes = match next_chunk(file, meta_len as usize) {
        Ok(c) => c,
        Err(_) => { return Err(WpilogReadErrors::InvalidRecoard) },
    };
    proof {
        assert(meta_bytes@ =~= p.subrange(8, 8 + meta_len as int));
    }
    let entry_metadata = match process_metadata(meta_bytes) {
        Ok(m) => m,
        Err(e) => { return Err(e) },
    };
    match entry_data_lut.remove(&id) {
        None => Err(WpilogReadErrors::SetMetadataWithoutStart),
        Some(mut v) => {
            proof {
                assert(reg0.contains_key(id));
                assert(v.deep_view() == reg0[id]);
                assert(v.deep_view().len() == v@.len());
            }
            proof {
                assert(v@[v@.len() - 1]@ == reg0[id].last());
            }
            if v[v.len() - 1].finish_record_index.is_some() {
                entry_data_lut.insert(id, v);
                proof {
                    lemma_lut_view_remove(old(entry_data_lut)@, id);
                    lemma_lut_view_insert(old(entry_data_lut)@.remove(id), id, v);
                    assert(lut_view(final(entry_data_lut)@) =~= reg0);
                    assert(final(entry_data_lut)@ =~= old(entry_data_lut)@);
                }
                return Err(WpilogReadErrors::EntryAlreadyFinished);
            }
            let ghost v_old = v.deep_view();
            let mut last = match v.pop() {
                Some(l) => l,
                None => { return Err(WpilogReadErrors::SetMetadataWithoutStart) },
            };
            last.metadata = entry_metadata.clone();
            v.push(last);
            proof {
                let updated = EntryBindingView {
                    meta_present: meta_len > 0,
                    ..reg0[id].last()
                };
                assert(v.deep_view() =~= v_old.update(v_old.len() - 1, updated));
            }
            entry_data_lut.insert(id, v);
            proof {
                lemma_lut_view_remove(old(entry_data_lut)@, id);
                lemma_lut_view_insert(old(entry_data_lut)@.remove(id), id, v);
                let updated = EntryBindingView {
                    meta_present: meta_len > 0,
                    ..reg0[id].last()
                };
                assert(lut_view(final(entry_data_lut)@) =~= reg0.insert(
                    id,
                    reg0[id].update(reg0[id].len() - 1, updated),
                ));
                lemma_lifecycle_set_metadata_effect(reg0, id, meta_len > 0);
            }
            Ok(
                RecordData::SetMetadata(
                    SetMetaDataRecordData {
                        entry_to_be_edited: id,
                        entry_new_metadata: entry_metadata,
                    },
                ),
            )
        },
    }
}

/// Parses one whole control record from the cursor: the subtype byte selects
/// Start, Finish or SetMetadata, and the subtype's fields follow. Every read
/// is bounded by the cursor, so a control record can never consume bytes
/// past what its caller hands it.
pub fn process_control_record(
    file: &mut (Vec<u8>, usize),
    current_record: u32,
    entry_data_lut: &mut HashMapWithView<u32, Vec<EntryMetadata>>,
) -> (r: Result<RecordData, WpilogReadErrors>)
    requires
        old(file).1 <= old(file).0@.len(),
        spec_registry_wf(lut_view(old(entry_data_lut)@)),
    ensures
        final(file).0 == old(file).0,
        spec_registry_wf(lut_view(final(entry_data_lut)@)),
        match spec_process_control_record(
            old(file).0@.skip(old(file).1 as int),
            current_record as int,
            lut_view(old(entry_data_lut)@),
        ) {
            Ok(pair) => r is Ok && r.unwrap()@ == pair.0 && lut_view(final(entry_data_lut)@)
                == pair.1,
            Err(e) => r == Err::<RecordData, WpilogReadErrors>(e) && final(entry_data_lut)@ == old(
                entry_data_lut,
            )@,
        },
{
    let ghost p = old(file).0@.skip(old(file).1 as int);
    let subtype = match next_chunk(file, 1) {
        Ok(c) => c,
        Err(_) => { return Err(WpilogReadErrors::InvalidRecoard) },
    };
    proof {
        assert(subtype@ =~= p.subrange(0, 1));
        assert(subtype@[0] == p[0]);
        assert(file.0@.skip(file.1 as int) =~= p.skip(1));
    }
    let raw_control_type = subtype[0];
    let control_type = match raw_control_type {
        0 => ControlTypes::Start,
        1 => ControlTypes::Finish,
        2 => ControlTypes::SetMetadata,
        _ => { return Err(WpilogReadErrors::InvalidRecoard) },
    };
    match control_type {
        ControlTypes::Start => process_start_recoard(file, current_record, entry_data_lut),
        ControlTypes::Finish => process_finish_recoard(file, current_record, entry_data_lut),
        ControlTypes::SetMetadata => process_set_metadata_recoard(file, entry_data_lut),
    }
}

} // verus!
