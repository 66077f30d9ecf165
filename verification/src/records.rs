//! Records and typed values: the data model of a decoded log, and the value
//! decoder that turns raw payload bytes into typed values.

use crate::control_records::lut_view;
use crate::control_records::process_control_record;
use crate::control_records::spec_process_control_record;
use crate::control_records::spec_registry_wf;
use crate::control_records::FinishRecordData;
use crate::control_records::SetMetaDataRecordData;
use crate::control_records::StartRecordData;
use vstd::hash_map::HashMapWithView;
use crate::shared::bytes_to_string;
use crate::shared::next_chunk;
use crate::shared::pow256;
use crate::shared::spec_le_bytes;
use crate::shared::spec_le_value;
use crate::shared::widen;
use crate::shared::WpilogReadErrors;
use vstd::prelude::*;
use vstd::utf8::decode_utf8;
use vstd::utf8::valid_utf8;

verus! {

#[verifier::external_type_specification]
#[verifier::external_body]
pub struct ExValue(serde_json::Value);

/// Whether `bytes` form one well-formed JSON document. This only names the
/// acceptance condition of `serde_json::from_slice`; nothing in this crate
/// states what it is on given bytes.
pub uninterp spec fn json_parses(bytes: Seq<u8>) -> bool;

/// Relies on `serde_json::from_slice`: it returns `Ok` exactly when the bytes
/// are one well-formed JSON document, the condition named `json_parses`.
#[verifier::external_body]
pub(crate) fn json_from_bytes(data: &Vec<u8>) -> (r: Option<serde_json::Value>)
    ensures
        r is Some <==> json_parses(data@),
{
    match serde_json::from_slice(data.as_slice()) {
        Ok(v) => Some(v),
        Err(_) => None,
    }
}

/// Relies on the `Clone` implementation of `serde_json::Value`: the clone is
/// the same JSON value.
pub assume_specification[ <serde_json::Value as Clone>::clone ](v: &serde_json::Value) -> (res:
    serde_json::Value)
    ensures
        res == *v,
;

/// The declared type of an entry, recovered from its type string. The named
/// variants carry the sub-type name embedded in a prefixed type string.
#[derive(Debug)]
pub enum DataType {
    Raw,
    Boolean,
    Integer,
    Float,
    Double,
    String,
    BooleanArray,
    IntegerArray,
    FloatArray,
    DoubleArray,
    StringArray,
    Json,
    MessagePack,
    Struct(String),
    StructArray(String),
    PhotonStruct(String),
    ProtoBuff(String),
}

/// The mathematical shape of a `DataType`: the same tags, with the sub-type
/// names as character sequences.
pub enum DataTypeView {
    Raw,
    Boolean,
    Integer,
    Float,
    Double,
    String,
    BooleanArray,
    IntegerArray,
    FloatArray,
    DoubleArray,
    StringArray,
    Json,
    MessagePack,
    Struct(Seq<char>),
    StructArray(Seq<char>),
    PhotonStruct(Seq<char>),
    ProtoBuff(Seq<char>),
}

impl View for DataType {
    type V = DataTypeView;

    open spec fn view(&self) -> DataTypeView {
        match self {
            DataType::Raw => DataTypeView::Raw,
            DataType::Boolean => DataTypeView::Boolean,
            DataType::Integer => DataTypeView::Integer,
            DataType::Float => DataTypeView::Float,
            DataType::Double => DataTypeView::Double,
            DataType::String => DataTypeView::String,
            DataType::BooleanArray => DataTypeView::BooleanArray,
            DataType::IntegerArray => DataTypeView::IntegerArray,
            DataType::FloatArray => DataTypeView::FloatArray,
            DataType::DoubleArray => DataTypeView::DoubleArray,
            DataType::StringArray => DataTypeView::StringArray,
            DataType::Json => DataTypeView::Json,
            DataType::MessagePack => DataTypeView::MessagePack,
            DataType::Struct(name) => DataTypeView::Struct(name@),
            DataType::StructArray(name) => DataTypeView::StructArray(name@),
            DataType::PhotonStruct(name) => DataTypeView::PhotonStruct(name@),
            DataType::ProtoBuff(name) => DataTypeView::ProtoBuff(name@),
        }
    }
}

impl Clone for DataType {
    fn clone(&self) -> (res: Self)
        ensures
            res@ == self@,
    {
        match self {
            DataType::Raw => DataType::Raw,
            DataType::Boolean => DataType::Boolean,
            DataType::Integer => DataType::Integer,
            DataType::Float => DataType::Float,
            DataType::Double => DataType::Double,
            DataType::String => DataType::String,
            DataType::BooleanArray => DataType::BooleanArray,
            DataType::IntegerArray => DataType::IntegerArray,
            DataType::FloatArray => DataType::FloatArray,
            DataType::DoubleArray => DataType::DoubleArray,
            DataType::StringArray => DataType::StringArray,
            DataType::Json => DataType::Json,
            DataType::MessagePack => DataType::MessagePack,
            DataType::Struct(name) => DataType::Struct(name.clone()),
            DataType::StructArray(name) => DataType::StructArray(name.clone()),
            DataType::PhotonStruct(name) => DataType::PhotonStruct(name.clone()),
            DataType::ProtoBuff(name) => DataType::ProtoBuff(name.clone()),
        }
    }
}

/// Optional JSON metadata attached to an entry binding. The JSON value itself
/// is opaque to the decoder; contracts speak only of its presence.
#[derive(Debug)]
pub struct Metadata {
    pub metadata: Option<serde_json::Value>,
}

impl Clone for Metadata {
    fn clone(&self) -> (res: Self)
        ensures
            res == *self,
    {
        match &self.metadata {
            Some(v) => Metadata { metadata: Some(v.clone()) },
            None => Metadata { metadata: None },
        }
    }
}

/// Parses length-delimited metadata bytes: an empty payload means "no
/// metadata"; anything else must be one well-formed JSON document.
pub fn process_metadata(data: Vec<u8>) -> (r: Result<Metadata, WpilogReadErrors>)
    ensures
        r is Ok <==> (data@.len() == 0 || json_parses(data@)),
        r is Ok ==> (r.unwrap().metadata is Some <==> data@.len() > 0),
        r is Err ==> r == Err::<Metadata, WpilogReadErrors>(WpilogReadErrors::MalformedData),
{
    if data.len() == 0 {
        Ok(Metadata { metadata: None })
    } else {
        match json_from_bytes(&data) {
            Some(v) => Ok(Metadata { metadata: Some(v) }),
            None => Err(WpilogReadErrors::MalformedData),
        }
    }
}

/// One historical lifetime of an entry identifier: created by a Start control
/// record, optionally refreshed by SetMetadata, and closed at most once by a
/// Finish control record.
#[derive(Debug)]
pub struct EntryMetadata {
    pub start_record_index: u32,
    pub name: String,
    pub data_type: DataType,
    pub metadata: Metadata,
    pub finish_record_index: Option<u32>,
}

/// The mathematical shape of an `EntryMetadata`. The JSON metadata is opaque,
/// so only its presence is modelled.
pub struct EntryBindingView {
    pub start_record_index: int,
    pub name: Seq<char>,
    pub data_type: DataTypeView,
    pub meta_present: bool,
    pub finish_record_index: Option<int>,
}

impl View for EntryMetadata {
    type V = EntryBindingView;

    open spec fn view(&self) -> EntryBindingView {
        EntryBindingView {
            start_record_index: self.start_record_index as int,
            name: self.name@,
            data_type: self.data_type@,
            meta_present: self.metadata.metadata is Some,
            finish_record_index: match self.finish_record_index {
                Some(i) => Some(i as int),
                None => None,
            },
        }
    }
}

impl DeepView for EntryMetadata {
    type V = EntryBindingView;

    open spec fn deep_view(&self) -> EntryBindingView {
        self.view()
    }
}

impl EntryMetadata {
    /// A fresh, still-open binding beginning at the given record ordinal.
    pub fn new(
        start_record_index: u32,
        name: String,
        data_type: DataType,
        metadata: Metadata,
    ) -> (r: EntryMetadata)
        ensures
            r.start_record_index == start_record_index,
            r.name == name,
            r.data_type == data_type,
            r.metadata == metadata,
            r.finish_record_index is None,
    {
        EntryMetadata { start_record_index, name, data_type, metadata, finish_record_index: None }
    }
}

/// An entry identifier's full decoded history, for consumers that pair the
/// binding list with the records that used it.
pub struct Entry<'a> {
    pub meta_data: Vec<EntryMetadata>,
    pub records: Vec<&'a Record>,
}

impl<'a> Entry<'a> {
    pub fn new(meta_data: Vec<EntryMetadata>, records: Vec<&'a Record>) -> (r: Entry<'a>)
        ensures
            r.meta_data == meta_data,
            r.records == records,
    {
        Entry { meta_data, records }
    }
}

/// One decoded record: the entry it belongs to, its timestamp in microseconds
/// since log start, its 0-based position in the stream, and its decoded body.
pub struct Record {
    pub entry_id: u32,
    pub time_stamp: u64,
    pub ordinal: u32,
    pub data: RecordData,
}

/// The decoded body of a record. `Float` and `Double` carry IEEE-754 bit
/// patterns, recoverable with `f32::from_bits` / `f64::from_bits`; the opaque
/// variants carry their payload bytes unopened.
pub enum RecordData {
    Start(StartRecordData),
    Finish(FinishRecordData),
    SetMetadata(SetMetaDataRecordData),
    Raw(Vec<u8>),
    Boolean(bool),
    Integer(i64),
    Float(u32),
    Double(u64),
    String(String),
    BooleanArray(Vec<bool>),
    IntegerArray(Vec<i64>),
    FloatArray(Vec<u32>),
    DoubleArray(Vec<u64>),
    StringArray(Vec<String>),
    Json(Option<serde_json::Value>),
    MessagePack(Vec<u8>),
    Struct(Vec<u8>),
    StructArray(Vec<u8>),
    PhotonStruct(Vec<u8>),
    ProtoBuff(Vec<u8>),
}

/// The mathematical shape of a record body. JSON values are opaque, so the
/// `Json` variant records only whether a value is present.
pub enum RecordDataView {
    Start { entry_id: u32, name: Seq<char>, entry_type: DataTypeView, meta_present: bool },
    Finish { entry_id: u32 },
    SetMetadata { entry_id: u32, meta_present: bool },
    Raw(Seq<u8>),
    Boolean(bool),
    Integer(int),
    Float(u32),
    Double(u64),
    String(Seq<char>),
    BooleanArray(Seq<bool>),
    IntegerArray(Seq<int>),
    FloatArray(Seq<u32>),
    DoubleArray(Seq<u64>),
    StringArray(Seq<Seq<char>>),
    Json(bool),
    MessagePack(Seq<u8>),
    Struct(Seq<u8>),
    StructArray(Seq<u8>),
    PhotonStruct(Seq<u8>),
    ProtoBuff(Seq<u8>),
}

impl View for RecordData {
    type V = RecordDataView;

    open spec fn view(&self) -> RecordDataView {
        match self {
            RecordData::Start(s) => RecordDataView::Start {
                entry_id: s.entry_id_to_be_started,
                name: s.entry_name@,
                entry_type: s.entry_type@,
                meta_present: s.entry_metadata.metadata is Some,
            },
            RecordData::Finish(f) => RecordDataView::Finish { entry_id: f.entry_to_be_finished },
            RecordData::SetMetadata(m) => RecordDataView::SetMetadata {
                entry_id: m.entry_to_be_edited,
                meta_present: m.entry_new_metadata.metadata is Some,
            },
            RecordData::Raw(b) => RecordDataView::Raw(b@),
            RecordData::Boolean(b) => RecordDataView::Boolean(*b),
            RecordData::Integer(v) => RecordDataView::Integer(*v as int),
            RecordData::Float(v) => RecordDataView::Float(*v),
            RecordData::Double(v) => RecordDataView::Double(*v),
            RecordData::String(s) => RecordDataView::String(s@),
            RecordData::BooleanArray(v) => RecordDataView::BooleanArray(v@),
            RecordData::IntegerArray(v) => RecordDataView::IntegerArray(
                v@.map_values(|x: i64| x as int),
            ),
            RecordData::FloatArray(v) => RecordDataView::FloatArray(v@),
            RecordData::DoubleArray(v) => RecordDataView::DoubleArray(v@),
            RecordData::StringArray(v) => RecordDataView::StringArray(
                v@.map_values(|s: String| s@),
            ),
            RecordData::Json(j) => RecordDataView::Json(j is Some),
            RecordData::MessagePack(b) => RecordDataView::MessagePack(b@),
            RecordData::Struct(b) => RecordDataView::Struct(b@),
            RecordData::StructArray(b) => RecordDataView::StructArray(b@),
            RecordData::PhotonStruct(b) => RecordDataView::PhotonStruct(b@),
            RecordData::ProtoBuff(b) => RecordDataView::ProtoBuff(b@),
        }
    }
}

impl DeepView for RecordData {
    type V = RecordDataView;

    open spec fn deep_view(&self) -> RecordDataView {
        self.view()
    }
}

/// The mathematical shape of a `Record`.
pub struct RecordView {
    pub entry_id: u32,
    pub time_stamp: u64,
    pub ordinal: int,
    pub data: RecordDataView,
}

impl View for Record {
    type V = RecordView;

    open spec fn view(&self) -> RecordView {
        RecordView {
            entry_id: self.entry_id,
            time_stamp: self.time_stamp,
            ordinal: self.ordinal as int,
            data: self.data@,
        }
    }
}

impl DeepView for Record {
    type V = RecordView;

    open spec fn deep_view(&self) -> RecordView {
        self.view()
    }
}

/// The boolean denoted by one payload byte: 0 and 1 are the only legal values.
pub open spec fn spec_bool_byte(b: u8) -> Result<bool, WpilogReadErrors> {
    if b == 0 {
        Ok(false)
    } else if b == 1 {
        Ok(true)
    } else {
        Err(WpilogReadErrors::MalformedData)
    }
}

/// The signed 64-bit integer denoted by eight little-endian bytes, read as
/// two's complement.
pub open spec fn spec_i64_from_le(bytes: Seq<u8>) -> int {
    let v = spec_le_value(bytes) as int;
    if v < 0x8000_0000_0000_0000 {
        v
    } else {
        v - 0x1_0000_0000_0000_0000
    }
}

pub open spec fn spec_bool_array(p: Seq<u8>) -> Result<Seq<bool>, WpilogReadErrors> {
    if forall|i: int| 0 <= i < p.len() ==> p[i] == 0 || p[i] == 1 {
        Ok(Seq::new(p.len(), |i: int| p[i] == 1))
    } else {
        Err(WpilogReadErrors::MalformedData)
    }
}

pub open spec fn spec_integer_array(p: Seq<u8>) -> Result<Seq<int>, WpilogReadErrors> {
    if p.len() % 8 == 0 {
        Ok(Seq::new(p.len() / 8, |i: int| spec_i64_from_le(p.subrange(8 * i, 8 * i + 8))))
    } else {
        Err(WpilogReadErrors::MalformedData)
    }
}

pub open spec fn spec_float_array(p: Seq<u8>) -> Result<Seq<u32>, WpilogReadErrors> {
    if p.len() % 4 == 0 {
        Ok(Seq::new(p.len() / 4, |i: int| spec_le_value(p.subrange(4 * i, 4 * i + 4)) as u32))
    } else {
        Err(WpilogReadErrors::MalformedData)
    }
}

pub open spec fn spec_double_array(p: Seq<u8>) -> Result<Seq<u64>, WpilogReadErrors> {
    if p.len() % 8 == 0 {
        Ok(Seq::new(p.len() / 8, |i: int| spec_le_value(p.subrange(8 * i, 8 * i + 8)) as u64))
    } else {
        Err(WpilogReadErrors::MalformedData)
    }
}

/// The tail of a string-array payload: `n` strings read from `p` starting at
/// `pos`, each a 4-byte length followed by that many UTF-8 bytes.
pub open spec fn spec_string_array_items(p: Seq<u8>, pos: int, n: nat) -> Result<
    Seq<Seq<char>>,
    WpilogReadErrors,
>
    decreases n,
{
    if n == 0 {
        Ok(Seq::empty())
    } else if pos + 4 > p.len() {
        Err(WpilogReadErrors::MalformedData)
    } else {
        let slen = spec_le_value(p.subrange(pos, pos + 4)) as int;
        if pos + 4 + slen > p.len() {
            Err(WpilogReadErrors::MalformedData)
        } else if !valid_utf8(p.subrange(pos + 4, pos + 4 + slen)) {
            Err(WpilogReadErrors::MalformedData)
        } else {
            match spec_string_array_items(p, pos + 4 + slen, (n - 1) as nat) {
                Ok(rest) => Ok(seq![decode_utf8(p.subrange(pos + 4, pos + 4 + slen))] + rest),
                Err(e) => Err(e),
            }
        }
    }
}

/// A string-array payload: a 4-byte string count, then that many
/// length-prefixed UTF-8 strings. Bytes after the last string are ignored.
pub open spec fn spec_string_array(p: Seq<u8>) -> Result<Seq<Seq<char>>, WpilogReadErrors> {
    if p.len() < 4 {
        Err(WpilogReadErrors::MalformedData)
    } else {
        spec_string_array_items(p, 4, spec_le_value(p.subrange(0, 4)))
    }
}

/// The typed value denoted by a payload under a declared type, or the first
/// error met while decoding it.
pub open spec fn spec_decode_value(ty: DataTypeView, p: Seq<u8>) -> Result<
    RecordDataView,
    WpilogReadErrors,
> {
    match ty {
        DataTypeView::Raw => Ok(RecordDataView::Raw(p)),
        DataTypeView::Boolean => if p.len() != 1 {
            Err(WpilogReadErrors::MalformedData)
        } else {
            match spec_bool_byte(p[0]) {
                Ok(b) => Ok(RecordDataView::Boolean(b)),
                Err(e) => Err(e),
            }
        },
        DataTypeView::Integer => if p.len() != 8 {
            Err(WpilogReadErrors::MalformedData)
        } else {
            Ok(RecordDataView::Integer(spec_i64_from_le(p)))
        },
        DataTypeView::Float => if p.len() != 4 {
            Err(WpilogReadErrors::MalformedData)
        } else {
            Ok(RecordDataView::Float(spec_le_value(p) as u32))
        },
        DataTypeView::Double => if p.len() != 8 {
            Err(WpilogReadErrors::MalformedData)
        } else {
            Ok(RecordDataView::Double(spec_le_value(p) as u64))
        },
        DataTypeView::String => if valid_utf8(p) {
            Ok(RecordDataView::String(decode_utf8(p)))
        } else {
            Err(WpilogReadErrors::MalformedData)
        },
        DataTypeView::BooleanArray => match spec_bool_array(p) {
            Ok(v) => Ok(RecordDataView::BooleanArray(v)),
            Err(e) => Err(e),
        },
        DataTypeView::IntegerArray => match spec_integer_array(p) {
            Ok(v) => Ok(RecordDataView::IntegerArray(v)),
            Err(e) => Err(e),
        },
        DataTypeView::FloatArray => match spec_float_array(p) {
            Ok(v) => Ok(RecordDataView::FloatArray(v)),
            Err(e) => Err(e),
        },
        DataTypeView::DoubleArray => match spec_double_array(p) {
            Ok(v) => Ok(RecordDataView::DoubleArray(v)),
            Err(e) => Err(e),
        },
        DataTypeView::StringArray => match spec_string_array(p) {
            Ok(v) => Ok(RecordDataView::StringArray(v)),
            Err(e) => Err(e),
        },
        DataTypeView::Json => if p.len() == 0 {
            Ok(RecordDataView::Json(false))
        } else if json_parses(p) {
            Ok(RecordDataView::Json(true))
        } else {
            Err(WpilogReadErrors::MalformedData)
        },
        DataTypeView::MessagePack => Ok(RecordDataView::MessagePack(p)),
        DataTypeView::Struct(_) => Ok(RecordDataView::Struct(p)),
        DataTypeView::StructArray(_) => Ok(RecordDataView::StructArray(p)),
        DataTypeView::PhotonStruct(_) => Ok(RecordDataView::PhotonStruct(p)),
        DataTypeView::ProtoBuff(_) => Ok(RecordDataView::ProtoBuff(p)),
    }
}

/// Decodes one payload byte as a boolean: 0 and 1 are the only legal values.
pub fn process_boolean(byte: u8) -> (r: Result<bool, WpilogReadErrors>)
    ensures
        r == spec_bool_byte(byte),
{
    match byte {
        0 => Ok(false),
        1 => Ok(true),
        _ => Err(WpilogReadErrors::MalformedData),
    }
}

/// Splits an array payload into consecutive elements of `elem_size` bytes; a
/// trailing partial element makes the whole payload malformed.
pub fn process_array_data(data: &Vec<u8>, elem_size: usize) -> (r: Result<
    Vec<Vec<u8>>,
    WpilogReadErrors,
>)
    requires
        1 <= elem_size,
    ensures
        match r {
            Ok(chunks) => {
                &&& data@.len() as int % elem_size as int == 0
                &&& chunks@.len() == data@.len() as int / elem_size as int
                &&& forall|i: int|
                    0 <= i < chunks@.len() ==> chunks@[i]@ == data@.subrange(
                        elem_size as int * i,
                        elem_size as int * (i + 1),
                    )
            },
            Err(e) => {
                &&& e == WpilogReadErrors::MalformedData
                &&& data@.len() as int % elem_size as int != 0
            },
        },
{
    let n: usize = data.len();
    if n % elem_size != 0 {
        return Err(WpilogReadErrors::MalformedData);
    }
    let mut chunks: Vec<Vec<u8>> = Vec::new();
    let mut pos: usize = 0;
    proof {
        assert(chunks@.len() * elem_size as int == 0) by (nonlinear_arith)
            requires
                chunks@.len() == 0,
        ;
    }
    while pos < n
        invariant
            1 <= elem_size,
            n == data@.len(),
            pos <= n,
            n as int % elem_size as int == 0,
            pos == chunks@.len() * elem_size as int,
            forall|i: int|
                0 <= i < chunks@.len() ==> chunks@[i]@ == data@.subrange(
                    elem_size as int * i,
                    elem_size as int * (i + 1),
                ),
        decreases n - pos,
    {
        proof {
            assert(n - pos >= elem_size) by (nonlinear_arith)
                requires
                    n as int % elem_size as int == 0,
                    pos == chunks@.len() * elem_size as int,
                    pos < n,
                    1 <= elem_size,
            ;
        }
        let ghost old_chunks = chunks@;
        let ghost old_pos = pos as int;
        let mut chunk: Vec<u8> = Vec::new();
        let mut j: usize = 0;
        while j < elem_size
            invariant
                j <= elem_size,
                n == data@.len(),
                pos + elem_size <= n,
                chunk@ == data@.subrange(pos as int, pos + j),
            decreases elem_size - j,
        {
            chunk.push(data[pos + j]);
            j += 1;
            assert(chunk@ =~= data@.subrange(pos as int, pos + j));
        }
        chunks.push(chunk);
        pos += elem_size;
        proof {
            assert(pos == chunks@.len() * elem_size as int) by (nonlinear_arith)
                requires
                    chunks@.len() == old_chunks.len() + 1,
                    old_pos == old_chunks.len() * elem_size as int,
                    pos == old_pos + elem_size as int,
            ;
            assert forall|i: int| 0 <= i < chunks@.len() implies chunks@[i]@ == data@.subrange(
                elem_size as int * i,
                elem_size as int * (i + 1),
            ) by {
                if i < old_chunks.len() {
                    assert(chunks@[i] == old_chunks[i]);
                } else {
                    assert(chunks@[i]@ == data@.subrange(old_pos, old_pos + elem_size as int));
                    assert(old_pos == elem_size as int * i && old_pos + elem_size as int
                        == elem_size as int * (i + 1)) by (nonlinear_arith)
                        requires
                            i == old_chunks.len(),
                            old_pos == old_chunks.len() * elem_size as int,
                    ;
                }
            }
        }
    }
    proof {
        assert(chunks@.len() == n as int / elem_size as int) by (nonlinear_arith)
            requires
                pos == chunks@.len() * elem_size as int,
                pos == n,
                1 <= elem_size,
        ;
    }
    Ok(chunks)
}

fn process_boolean_array(data: &Vec<u8>) -> (r: Result<Vec<bool>, WpilogReadErrors>)
    ensures
        match spec_bool_array(data@) {
            Ok(v) => r is Ok && r.unwrap()@ == v,
            Err(e) => r == Err::<Vec<bool>, WpilogReadErrors>(e),
        },
{
    let mut out: Vec<bool> = Vec::new();
    let mut i: usize = 0;
    while i < data.len()
        invariant
            i <= data@.len(),
            out@.len() == i,
            forall|j: int| 0 <= j < i ==> (data@[j] == 0 || data@[j] == 1),
            forall|j: int| 0 <= j < i ==> out@[j] == (data@[j] == 1),
        decreases data@.len() - i,
    {
        match process_boolean(data[i]) {
            Ok(b) => out.push(b),
            Err(e) => {
                proof {
                    assert(!(data@[i as int] == 0 || data@[i as int] == 1));
                }
                return Err(e);
            },
        }
        i += 1;
    }
    proof {
        assert(out@ =~= Seq::new(data@.len(), |k: int| data@[k] == 1));
    }
    Ok(out)
}

fn process_integer_array(data: &Vec<u8>) -> (r: Result<Vec<i64>, WpilogReadErrors>)
    ensures
        match spec_integer_array(data@) {
            Ok(v) => r is Ok && r.unwrap()@.map_values(|x: i64| x as int) == v,
            Err(e) => r == Err::<Vec<i64>, WpilogReadErrors>(e),
        },
{
    let chunks = match process_array_data(data, 8) {
        Ok(c) => c,
        Err(e) => { return Err(e) },
    };
    let mut out: Vec<i64> = Vec::new();
    let mut i: usize = 0;
    while i < chunks.len()
        invariant
            i <= chunks@.len(),
            out@.len() == i,
            data@.len() as int % 8 == 0,
            chunks@.len() == data@.len() as int / 8,
            forall|k: int|
                0 <= k < chunks@.len() ==> chunks@[k]@ == data@.subrange(8 * k, 8 * (k + 1)),
            forall|k: int|
                0 <= k < i ==> out@[k] as int == spec_i64_from_le(data@.subrange(8 * k, 8 * k + 8)),
        decreases chunks@.len() - i,
    {
        let v = widen(&chunks[i]);
        out.push(i64_from_widened(v));
        i += 1;
    }
    proof {
        let v = spec_integer_array(data@).unwrap();
        assert(out@.map_values(|x: i64| x as int) =~= v);
    }
    Ok(out)
}

fn process_float_array(data: &Vec<u8>) -> (r: Result<Vec<u32>, WpilogReadErrors>)
    ensures
        match spec_float_array(data@) {
            Ok(v) => r is Ok && r.unwrap()@ == v,
            Err(e) => r == Err::<Vec<u32>, WpilogReadErrors>(e),
        },
{
    let chunks = match process_array_data(data, 4) {
        Ok(c) => c,
        Err(e) => { return Err(e) },
    };
    let mut out: Vec<u32> = Vec::new();
    let mut i: usize = 0;
    while i < chunks.len()
        invariant
            i <= chunks@.len(),
            out@.len() == i,
            data@.len() as int % 4 == 0,
            chunks@.len() == data@.len() as int / 4,
            forall|k: int|
                0 <= k < chunks@.len() ==> chunks@[k]@ == data@.subrange(4 * k, 4 * (k + 1)),
            forall|k: int|
                0 <= k < i ==> out@[k] == spec_le_value(data@.subrange(4 * k, 4 * k + 4)) as u32,
        decreases chunks@.len() - i,
    {
        proof {
            crate::shared::lemma_le_value_bound(chunks@[i as int]@);
            crate::shared::lemma_pow256_values();
        }
        let v = widen(&chunks[i]);
        out.push(v as u32);
        i += 1;
    }
    proof {
        let v = spec_float_array(data@).unwrap();
        assert(out@ =~= v);
    }
    Ok(out)
}

fn process_double_array(data: &Vec<u8>) -> (r: Result<Vec<u64>, WpilogReadErrors>)
    ensures
        match spec_double_array(data@) {
            Ok(v) => r is Ok && r.unwrap()@ == v,
            Err(e) => r == Err::<Vec<u64>, WpilogReadErrors>(e),
        },
{
    let chunks = match process_array_data(data, 8) {
        Ok(c) => c,
        Err(e) => { return Err(e) },
    };
    let mut out: Vec<u64> = Vec::new();
    let mut i: usize = 0;
    while i < chunks.len()
        invariant
            i <= chunks@.len(),
            out@.len() == i,
            data@.len() as int % 8 == 0,
            chunks@.len() == data@.len() as int / 8,
            forall|k: int|
                0 <= k < chunks@.len() ==> chunks@[k]@ == data@.subrange(8 * k, 8 * (k + 1)),
            forall|k: int|
                0 <= k < i ==> out@[k] == spec_le_value(data@.subrange(8 * k, 8 * k + 8)) as u64,
        decreases chunks@.len() - i,
    {
        proof {
            crate::shared::lemma_le_value_bound(chunks@[i as int]@);
            crate::shared::lemma_pow256_values();
        }
        let v = widen(&chunks[i]);
        out.push(v);
        i += 1;
    }
    proof {
        let v = spec_double_array(data@).unwrap();
        assert(out@ =~= v);
    }
    Ok(out)
}

/// Copies `size` bytes of `data` starting at `pos`, or reports that they are
/// not there.
fn take_bytes(data: &Vec<u8>, pos: usize, size: usize) -> (r: Option<Vec<u8>>)
    ensures
        r is Some <==> (size == 0 || pos + size <= data@.len()),
        r is Some ==> r.unwrap()@.len() == size,
        r is Some && size > 0 ==> r.unwrap()@ == data@.subrange(pos as int, pos + size),
{
    if size == 0 {
        return Some(Vec::new());
    }
    if pos > data.len() || size > data.len() - pos {
        return None;
    }
    let mut out: Vec<u8> = Vec::new();
    let mut i: usize = 0;
    while i < size
        invariant
            i <= size,
            pos + size <= usize::MAX,
            pos + size <= data@.len(),
            out@ == data@.subrange(pos as int, pos + i),
        decreases size - i,
    {
        out.push(data[pos + i]);
        i += 1;
        assert(out@ =~= data@.subrange(pos as int, pos + i));
    }
    Some(out)
}

fn process_string_array(data: &Vec<u8>) -> (r: Result<Vec<String>, WpilogReadErrors>)
    ensures
        match spec_string_array(data@) {
            Ok(ss) => r is Ok && r.unwrap()@.map_values(|s: String| s@) == ss,
            Err(e) => r == Err::<Vec<String>, WpilogReadErrors>(e),
        },
{
    let count_bytes = match take_bytes(data, 0, 4) {
        Some(c) => c,
        None => { return Err(WpilogReadErrors::MalformedData) },
    };
    let count = widen(&count_bytes);
    let n: usize = data.len();
    let mut pos: usize = 4;
    let mut out: Vec<String> = Vec::new();
    let mut i: u64 = 0;
    proof {
        assert(out@.map_values(|s: String| s@) =~= Seq::<Seq<char>>::empty());
        assert(spec_string_array(data@) == spec_string_array_items(data@, 4, count as nat));
        if spec_string_array_items(data@, 4, count as nat) is Ok {
            assert(Seq::<Seq<char>>::empty() + spec_string_array_items(
                data@,
                4,
                count as nat,
            ).unwrap() =~= spec_string_array_items(data@, 4, count as nat).unwrap());
        }
    }
    while i < count
        invariant
            i <= count,
            n == data@.len(),
            pos <= data@.len(),
            out@.len() == i,
            spec_string_array(data@) == (match spec_string_array_items(
                data@,
                pos as int,
                (count - i) as nat,
            ) {
                Ok(rest) => Ok::<Seq<Seq<char>>, WpilogReadErrors>(
                    out@.map_values(|s: String| s@) + rest,
                ),
                Err(e) => Err::<Seq<Seq<char>>, WpilogReadErrors>(e),
            }),
        decreases count - i,
    {
        let ghost pos0 = pos as int;
        let ghost n0 = (count - i) as nat;
        let len_bytes = match take_bytes(data, pos, 4) {
            Some(c) => c,
            None => { return Err(WpilogReadErrors::MalformedData) },
        };
        proof {
            crate::shared::lemma_le_value_bound(len_bytes@);
            crate::shared::lemma_pow256_values();
        }
        let slen = widen(&len_bytes);
        let sbytes = match take_bytes(data, pos + 4, slen as usize) {
            Some(c) => c,
            None => { return Err(WpilogReadErrors::MalformedData) },
        };
        proof {
            assert(sbytes@ =~= data@.subrange(pos0 + 4, pos0 + 4 + slen as int));
        }
        let s = match bytes_to_string(sbytes) {
            Some(s) => s,
            None => { return Err(WpilogReadErrors::MalformedData) },
        };
        pos = pos + 4 + slen as usize;
        let ghost old_out = out@;
        out.push(s);
        i += 1;
        proof {
            let f = |s2: String| s2@;
            assert(out@ =~= old_out.push(s));
            assert(out@.map_values(f) =~= old_out.map_values(f).push(s@));
            match spec_string_array_items(data@, pos as int, (count - i) as nat) {
                Ok(rest) => {
                    assert(old_out.map_values(f) + (seq![s@] + rest) =~= out@.map_values(f)
                        + rest);
                },
                Err(_) => {},
            }
        }
    }
    proof {
        assert(out@.map_values(|s: String| s@) + Seq::<Seq<char>>::empty() =~= out@.map_values(
            |s: String| s@,
        ));
    }
    Ok(out)
}

/// Decodes a payload under the declared type of its entry, per the decoding
/// rules of `spec_decode_value`.
pub fn process_data_from_standard_record(data_type: &DataType, data: Vec<u8>) -> (r: Result<
    RecordData,
    WpilogReadErrors,
>)
    ensures
        match spec_decode_value(data_type@, data@) {
            Ok(v) => r is Ok && r.unwrap()@ == v,
            Err(e) => r == Err::<RecordData, WpilogReadErrors>(e),
        },
{
    match data_type {
        DataType::Raw => Ok(RecordData::Raw(data)),
        DataType::Boolean => {
            if data.len() != 1 {
                return Err(WpilogReadErrors::MalformedData);
            }
            match process_boolean(data[0]) {
                Ok(b) => Ok(RecordData::Boolean(b)),
                Err(e) => Err(e),
            }
        },
        DataType::Integer => {
            if data.len() != 8 {
                return Err(WpilogReadErrors::MalformedData);
            }
            let v = widen(&data);
            Ok(RecordData::Integer(i64_from_widened(v)))
        },
        DataType::Float => {
            if data.len() != 4 {
                return Err(WpilogReadErrors::MalformedData);
            }
            proof {
                crate::shared::lemma_le_value_bound(data@);
                crate::shared::lemma_pow256_values();
            }
            let v = widen(&data);
            Ok(RecordData::Float(v as u32))
        },
        DataType::Double => {
            if data.len() != 8 {
                return Err(WpilogReadErrors::MalformedData);
            }
            let v = widen(&data);
            Ok(RecordData::Double(v))
        },
        DataType::String => {
            match bytes_to_string(data) {
                Some(s) => Ok(RecordData::String(s)),
                None => Err(WpilogReadErrors::MalformedData),
            }
        },
        DataType::BooleanArray => {
            match process_boolean_array(&data) {
                Ok(v) => Ok(RecordData::BooleanArray(v)),
                Err(e) => Err(e),
            }
        },
        DataType::IntegerArray => {
            match process_integer_array(&data) {
                Ok(v) => Ok(RecordData::IntegerArray(v)),
                Err(e) => Err(e),
            }
        },
        DataType::FloatArray => {
            match process_float_array(&data) {
                Ok(v) => Ok(RecordData::FloatArray(v)),
                Err(e) => Err(e),
            }
        },
        DataType::DoubleArray => {
            match process_double_array(&data) {
                Ok(v) => Ok(RecordData::DoubleArray(v)),
                Err(e) => Err(e),
            }
        },
        DataType::StringArray => {
            match process_string_array(&data) {
                Ok(v) => Ok(RecordData::StringArray(v)),
                Err(e) => Err(e),
            }
        },
        DataType::Json => {
            if data.len() == 0 {
                return Ok(RecordData::Json(None));
            }
            match json_from_bytes(&data) {
                Some(v) => Ok(RecordData::Json(Some(v))),
                None => Err(WpilogReadErrors::MalformedData),
            }
        },
        DataType::MessagePack => Ok(RecordData::MessagePack(data)),
        DataType::Struct(_) => Ok(RecordData::Struct(data)),
        DataType::StructArray(_) => Ok(RecordData::StructArray(data)),
        DataType::PhotonStruct(_) => Ok(RecordData::PhotonStruct(data)),
        DataType::ProtoBuff(_) => Ok(RecordData::ProtoBuff(data)),
    }
}

/// Reinterprets a zero-extended little-endian `u64` as the two's-complement
/// signed integer it encodes.
fn i64_from_widened(v: u64) -> (r: i64)
    ensures
        r as int == (if (v as int) < 0x8000_0000_0000_0000 {
            v as int
        } else {
            v as int - 0x1_0000_0000_0000_0000
        }),
{
    if v < 0x8000_0000_0000_0000 {
        v as i64
    } else {
        let w = v - 0x8000_0000_0000_0000;
        (w as i64) - 0x4000_0000_0000_0000 - 0x4000_0000_0000_0000
    }
}


/// The three field widths selected by a framing byte: identifier width
/// (1 to 4 bytes), payload-length width (1 to 4 bytes) and timestamp width
/// (1 to 8 bytes); the top bit is reserved.
pub open spec fn spec_frame_widths(b: u8) -> (int, int, int) {
    (((b & 0x03) + 1) as int, (((b >> 2) & 0x03) + 1) as int, (((b >> 4) & 0x07) + 1) as int)
}

/// The first binding in a history that is applicable at `ordinal`: one still
/// open, or one finished strictly before `ordinal`.
pub open spec fn spec_first_applicable(bindings: Seq<EntryBindingView>, ordinal: int) -> Result<
    EntryBindingView,
    WpilogReadErrors,
>
    decreases bindings.len(),
{
    if bindings.len() == 0 {
        Err(WpilogReadErrors::UseOfEntryIdAfterFinish)
    } else {
        match bindings[0].finish_record_index {
            None => Ok(bindings[0]),
            Some(i) => if i < ordinal {
                Ok(bindings[0])
            } else {
                spec_first_applicable(bindings.drop_first(), ordinal)
            },
        }
    }
}

/// The binding a value record for `id` at `ordinal` resolves against: the
/// oldest applicable one. An identifier with no history at all is a use
/// without start; one whose history has no applicable binding is a use after
/// finish.
pub open spec fn spec_applicable_binding(
    reg: Map<u32, Seq<EntryBindingView>>,
    id: u32,
    ordinal: int,
) -> Result<EntryBindingView, WpilogReadErrors> {
    if !reg.contains_key(id) {
        Err(WpilogReadErrors::UseOfEntryIdWithoutStart)
    } else {
        spec_first_applicable(reg[id], ordinal)
    }
}

/// The framing fields denoted by the head of `s`: entry identifier, payload
/// length, timestamp, and the number of bytes the framing occupies.
pub open spec fn spec_read_frame(s: Seq<u8>) -> Result<(u32, u32, u64, int), WpilogReadErrors> {
    if s.len() < 1 {
        Err(WpilogReadErrors::NoDataLeft)
    } else {
        let widths = spec_frame_widths(s[0]);
        let w_id = widths.0;
        let w_len = widths.1;
        let w_ts = widths.2;
        if s.len() < 1 + w_id {
            Err(WpilogReadErrors::NoDataLeft)
        } else {
            let entry_id = spec_le_value(s.subrange(1, 1 + w_id)) as u32;
            if s.len() < 1 + w_id + w_len {
                Err(WpilogReadErrors::NoDataLeft)
            } else {
                let payload_size = spec_le_value(s.subrange(1 + w_id, 1 + w_id + w_len)) as u32;
                if s.len() < 1 + w_id + w_len + w_ts {
                    Err(WpilogReadErrors::NoDataLeft)
                } else {
                    let time_stamp = spec_le_value(
                        s.subrange(1 + w_id + w_len, 1 + w_id + w_len + w_ts),
                    ) as u64;
                    Ok((entry_id, payload_size, time_stamp, 1 + w_id + w_len + w_ts))
                }
            }
        }
    }
}

/// The outcome denoted by the next record in `s` at `ordinal` against
/// registry `reg`: the decoded record, the registry afterwards, and how many
/// bytes the record occupies; or the first error met while decoding it.
#[verifier::opaque]
pub open spec fn spec_read_next_record(
    s: Seq<u8>,
    ordinal: int,
    reg: Map<u32, Seq<EntryBindingView>>,
) -> Result<(RecordView, Map<u32, Seq<EntryBindingView>>, int), WpilogReadErrors> {
    match spec_read_frame(s) {
        Err(e) => Err(e),
        Ok(frame) => {
            let entry_id = frame.0;
            let payload_size = frame.1 as int;
            let time_stamp = frame.2;
            let hdr = frame.3;
            if s.len() < hdr + payload_size {
                Err(WpilogReadErrors::NoDataLeft)
            } else {
                let payload = s.subrange(hdr, hdr + payload_size);
                if entry_id == 0 {
                    match spec_process_control_record(payload, ordinal, reg) {
                        Ok(pair) => Ok(
                            (
                                RecordView { entry_id: 0, time_stamp, ordinal, data: pair.0 },
                                pair.1,
                                hdr + payload_size,
                            ),
                        ),
                        Err(e) => Err(e),
                    }
                } else {
                    match spec_applicable_binding(reg, entry_id, ordinal) {
                        Ok(binding) => match spec_decode_value(binding.data_type, payload) {
                            Ok(dv) => Ok(
                                (
                                    RecordView { entry_id, time_stamp, ordinal, data: dv },
                                    reg,
                                    hdr + payload_size,
                                ),
                            ),
                            Err(e) => Err(e),
                        },
                        Err(e) => Err(e),
                    }
                }
            }
        },
    }
}

/// The framing byte that selects an identifier width of `w_id` bytes, a
/// payload-length width of `w_len` bytes and a timestamp width of `w_ts`
/// bytes.
pub open spec fn spec_frame_byte(w_id: u8, w_len: u8, w_ts: u8) -> u8 {
    (((w_id - 1) as u8) | (((w_len - 1) as u8) << 2) | (((w_ts - 1) as u8) << 4)) as u8
}

/// Framing round-trip, exhaustively over the width selectors: for every
/// identifier width 1 to 4, payload-length width 1 to 4 and timestamp width
/// 1 to 8, a frame assembled from values that fit those widths parses back
/// to exactly those values by zero-extension, whatever follows it.
pub proof fn lemma_framing_round_trip(
    w_id: u8,
    w_len: u8,
    w_ts: u8,
    entry_id: nat,
    payload_size: nat,
    time_stamp: nat,
    rest: Seq<u8>,
)
    requires
        1 <= w_id <= 4,
        1 <= w_len <= 4,
        1 <= w_ts <= 8,
        entry_id < pow256(w_id as nat),
        payload_size < pow256(w_len as nat),
        time_stamp < pow256(w_ts as nat),
    ensures
        ({
            let b = spec_frame_byte(w_id, w_len, w_ts);
            let s = seq![b] + spec_le_bytes(entry_id, w_id as nat) + spec_le_bytes(
                payload_size,
                w_len as nat,
            ) + spec_le_bytes(time_stamp, w_ts as nat) + rest;
            spec_read_frame(s) == Ok::<(u32, u32, u64, int), WpilogReadErrors>(
                (
                    entry_id as u32,
                    payload_size as u32,
                    time_stamp as u64,
                    1 + w_id as int + w_len as int + w_ts as int,
                ),
            )
        }),
{
    let b = spec_frame_byte(w_id, w_len, w_ts);
    let s = seq![b] + spec_le_bytes(entry_id, w_id as nat) + spec_le_bytes(
        payload_size,
        w_len as nat,
    ) + spec_le_bytes(time_stamp, w_ts as nat) + rest;
    assert((b & 0x03) == w_id - 1 && ((b >> 2) & 0x03) == w_len - 1 && ((b >> 4) & 0x07) == w_ts
        - 1) by (bit_vector)
        requires
            b == (((w_id - 1) as u8) | (((w_len - 1) as u8) << 2) | (((w_ts - 1) as u8) << 4)) as u8,
            1 <= w_id <= 4,
            1 <= w_len <= 4,
            1 <= w_ts <= 8,
    ;
    crate::shared::lemma_le_round_trip(entry_id, w_id as nat);
    crate::shared::lemma_le_round_trip(payload_size, w_len as nat);
    crate::shared::lemma_le_round_trip(time_stamp, w_ts as nat);
    crate::shared::lemma_le_value_bound(spec_le_bytes(entry_id, w_id as nat));
    crate::shared::lemma_pow256_monotone(w_id as nat, 4);
    crate::shared::lemma_pow256_monotone(w_len as nat, 4);
    crate::shared::lemma_pow256_monotone(w_ts as nat, 8);
    crate::shared::lemma_pow256_values();
    assert(s[0] == b);
    assert(s.subrange(1, 1 + w_id as int) =~= spec_le_bytes(entry_id, w_id as nat));
    assert(s.subrange(1 + w_id as int, 1 + w_id as int + w_len as int) =~= spec_le_bytes(
        payload_size,
        w_len as nat,
    ));
    assert(s.subrange(
        1 + w_id as int + w_len as int,
        1 + w_id as int + w_len as int + w_ts as int,
    ) =~= spec_le_bytes(time_stamp, w_ts as nat));
}

/// A record that decodes occupies at least its framing byte and at most the
/// rest of the stream.
pub proof fn lemma_read_next_used_bounds(
    s: Seq<u8>,
    ordinal: int,
    reg: Map<u32, Seq<EntryBindingView>>,
)
    ensures
        spec_read_next_record(s, ordinal, reg) matches Ok(t) ==> 1 <= t.2 <= s.len(),
{
    reveal(spec_read_next_record);
}

/// Resolves the binding a value record decodes against, per
/// `spec_applicable_binding`.
fn get_current_entry_data<'a>(
    entry_lut: &'a HashMapWithView<u32, Vec<EntryMetadata>>,
    current_record: u32,
    entry_id: u32,
) -> (r: Result<&'a EntryMetadata, WpilogReadErrors>)
    ensures
        match spec_applicable_binding(lut_view(entry_lut@), entry_id, current_record as int) {
            Ok(b) => r is Ok && r.unwrap()@ == b,
            Err(e) => r is Err && r->Err_0 == e,
        },
{
    let meta_list = match entry_lut.get(&entry_id) {
        Some(l) => l,
        None => { return Err(WpilogReadErrors::UseOfEntryIdWithoutStart) },
    };
    let ghost bindings = lut_view(entry_lut@)[entry_id];
    proof {
        assert(lut_view(entry_lut@).contains_key(entry_id));
        assert(bindings == meta_list.deep_view());
        assert(bindings.skip(0) =~= bindings);
        assert(spec_applicable_binding(lut_view(entry_lut@), entry_id, current_record as int)
            == spec_first_applicable(bindings, current_record as int));
    }
    let mut i: usize = 0;
    while i < meta_list.len()
        invariant
            i <= meta_list@.len(),
            bindings == meta_list.deep_view(),
            bindings.len() == meta_list@.len(),
            spec_applicable_binding(lut_view(entry_lut@), entry_id, current_record as int)
                == spec_first_applicable(bindings.skip(i as int), current_record as int),
        decreases meta_list@.len() - i,
    {
        proof {
            assert(bindings.skip(i as int)[0] == bindings[i as int]);
            assert(bindings[i as int] == meta_list@[i as int]@);
        }
        let data = &meta_list[i];
        proof {
            assert(*data == meta_list@[i as int]);
            assert(data@ == bindings.skip(i as int)[0]);
        }
        match data.finish_record_index {
            None => {
                proof {
                    assert(spec_applicable_binding(
                        lut_view(entry_lut@),
                        entry_id,
                        current_record as int,
                    ) == Ok::<EntryBindingView, WpilogReadErrors>(data@));
                }
                return Ok(data);
            },
            Some(idx) => {
                if idx < current_record {
                    proof {
                        assert(spec_applicable_binding(
                            lut_view(entry_lut@),
                            entry_id,
                            current_record as int,
                        ) == Ok::<EntryBindingView, WpilogReadErrors>(data@));
                    }
                    return Ok(data);
                }
            },
        }
        i += 1;
        proof {
            assert(bindings.skip(i - 1).drop_first() =~= bindings.skip(i as int));
        }
    }
    proof {
        assert(bindings.skip(i as int).len() == 0);
    }
    Err(WpilogReadErrors::UseOfEntryIdAfterFinish)
}

/// Decodes one record at the cursor: the bit-packed framing byte, the
/// zero-extended identifier, payload length and timestamp, and then either a
/// control record (identifier zero) or a typed value decoded against the
/// identifier's applicable binding.
pub fn read_next_record(
    file: &mut (Vec<u8>, usize),
    entry_lut: &mut HashMapWithView<u32, Vec<EntryMetadata>>,
    current_record: u32,
) -> (r: Result<Record, WpilogReadErrors>)
    requires
        old(file).1 <= old(file).0@.len(),
        spec_registry_wf(lut_view(old(entry_lut)@)),
    ensures
        final(file).0 == old(file).0,
        final(file).1 <= final(file).0@.len(),
        spec_registry_wf(lut_view(final(entry_lut)@)),
        match spec_read_next_record(
            old(file).0@.skip(old(file).1 as int),
            current_record as int,
            lut_view(old(entry_lut)@),
        ) {
            Ok(t) => {
                &&& r is Ok
                &&& r.unwrap()@ == t.0
                &&& lut_view(final(entry_lut)@) == t.1
                &&& final(file).1 == old(file).1 + t.2
            },
            Err(e) => r is Err && r->Err_0 == e && final(entry_lut)@ == old(entry_lut)@,
        },
{
    proof {
        reveal(spec_read_next_record);
    }
    let ghost p = old(file).0@.skip(old(file).1 as int);
    let ghost reg0 = lut_view(old(entry_lut)@);
    let frame = match next_chunk(file, 1) {
        Ok(c) => c,
        Err(e) => { return Err(e) },
    };
    let header_bit_field = frame[0];
    proof {
        assert(frame@ =~= p.subrange(0, 1));
        assert(header_bit_field == p[0]);
    }
    let m1 = header_bit_field & 0x03;
    let m2 = (header_bit_field >> 2) & 0x03;
    let m3 = (header_bit_field >> 4) & 0x07;
    proof {
        assert(m1 <= 3 && m2 <= 3 && m3 <= 7) by (bit_vector)
            requires
                m1 == header_bit_field & 0x03,
                m2 == (header_bit_field >> 2) & 0x03,
                m3 == (header_bit_field >> 4) & 0x07,
        ;
    }
    let id_width = (m1 + 1) as usize;
    let len_width = (m2 + 1) as usize;
    let ts_width = (m3 + 1) as usize;
    let id_bytes = match next_chunk(file, id_width) {
        Ok(c) => c,
        Err(e) => { return Err(e) },
    };
    proof {
        assert(id_bytes@ =~= p.subrange(1, 1 + id_width as int));
        crate::shared::lemma_le_value_bound(id_bytes@);
        crate::shared::lemma_pow256_monotone(id_bytes@.len(), 4);
        crate::shared::lemma_pow256_values();
    }
    let entry_id = widen(&id_bytes) as u32;
    let size_bytes = match next_chunk(file, len_width) {
        Ok(c) => c,
        Err(e) => { return Err(e) },
    };
    proof {
        assert(size_bytes@ =~= p.subrange(1 + id_width as int, 1 + id_width as int
            + len_width as int));
        crate::shared::lemma_le_value_bound(size_bytes@);
        crate::shared::lemma_pow256_monotone(size_bytes@.len(), 4);
        crate::shared::lemma_pow256_values();
    }
    let payload_size = widen(&size_bytes);
    let ts_bytes = match next_chunk(file, ts_width) {
        Ok(c) => c,
        Err(e) => { return Err(e) },
    };
    proof {
        assert(ts_bytes@ =~= p.subrange(
            1 + id_width as int + len_width as int,
            1 + id_width as int + len_width as int + ts_width as int,
        ));
    }
    let time_stamp = widen(&ts_bytes);
    let ghost hdr = 1 + id_width as int + len_width as int + ts_width as int;
    let payload = match next_chunk(file, payload_size as usize) {
        Ok(c) => c,
        Err(e) => { return Err(e) },
    };
    proof {
        assert(payload@ =~= p.subrange(hdr, hdr + payload_size as int));
    }
    let data: RecordData;
    if entry_id == 0 {
        let mut sub: (Vec<u8>, usize) = (payload, 0);
        proof {
            assert(sub.0@.skip(sub.1 as int) =~= p.subrange(hdr, hdr + payload_size as int));
        }
        data = match process_control_record(&mut sub, current_record, entry_lut) {
            Ok(d) => d,
            Err(e) => { return Err(e) },
        };
    } else {
        let binding = match get_current_entry_data(entry_lut, current_record, entry_id) {
            Ok(b) => b,
            Err(e) => { return Err(e) },
        };
        data = match process_data_from_standard_record(&binding.data_type, payload) {
            Ok(d) => d,
            Err(e) => { return Err(e) },
        };
    }
    Ok(Record { entry_id, time_stamp, ordinal: current_record, data })
}
} // verus!
