use wpilog_reader::control_records::data_type_from_type_string;
use wpilog_reader::control_records::process_structs_and_stuff_type_from_string;
use wpilog_reader::records::process_array_data;
use wpilog_reader::records::process_boolean;
use wpilog_reader::records::process_data_from_standard_record;
use wpilog_reader::records::process_metadata;
use wpilog_reader::records::DataType;
use wpilog_reader::records::RecordData;
use wpilog_reader::shared::next_chunk;
use wpilog_reader::shared::pad_to_n_bytes;
use wpilog_reader::shared::widen;
use wpilog_reader::shared::WpilogReadErrors;

#[test]
fn integer_array_sixteen_bytes() {
    let mut payload = Vec::new();
    payload.extend_from_slice(&3i64.to_le_bytes());
    payload.extend_from_slice(&(-4i64).to_le_bytes());
    let r = process_data_from_standard_record(&DataType::IntegerArray, payload).unwrap();
    match r {
        RecordData::IntegerArray(v) => assert_eq!(v, vec![3, -4]),
        _ => panic!("expected an integer array"),
    }
}

#[test]
fn integer_array_fifteen_bytes() {
    let payload = vec![0u8; 15];
    let r = process_data_from_standard_record(&DataType::IntegerArray, payload);
    assert!(matches!(r, Err(WpilogReadErrors::MalformedData)));
}

#[test]
fn json_empty_payload_is_absent() {
    let r = process_data_from_standard_record(&DataType::Json, Vec::new()).unwrap();
    assert!(matches!(r, RecordData::Json(None)));
}

#[test]
fn json_empty_object() {
    let r = process_data_from_standard_record(&DataType::Json, b"{}".to_vec()).unwrap();
    match r {
        RecordData::Json(Some(v)) => {
            assert!(v.is_object());
            assert_eq!(v.as_object().unwrap().len(), 0);
        }
        _ => panic!("expected a present JSON value"),
    }
}

#[test]
fn json_unterminated_object() {
    let r = process_data_from_standard_record(&DataType::Json, b"{".to_vec());
    assert!(matches!(r, Err(WpilogReadErrors::MalformedData)));
}

#[test]
fn type_string_struct() {
    let dt = process_structs_and_stuff_type_from_string("struct:Pose2d").unwrap();
    match dt {
        DataType::Struct(name) => assert_eq!(name, "Pose2d"),
        _ => panic!("expected a struct type"),
    }
}

#[test]
fn type_string_struct_array() {
    let dt = process_structs_and_stuff_type_from_string("struct:Pose2d[]").unwrap();
    match dt {
        DataType::StructArray(name) => assert_eq!(name, "Pose2d"),
        _ => panic!("expected a struct-array type"),
    }
}

#[test]
fn type_string_proto() {
    let dt = process_structs_and_stuff_type_from_string("proto:Foo").unwrap();
    match dt {
        DataType::ProtoBuff(name) => assert_eq!(name, "Foo"),
        _ => panic!("expected a protobuf type"),
    }
}

#[test]
fn type_string_photonstruct() {
    let dt = process_structs_and_stuff_type_from_string("photonstruct:Tag").unwrap();
    match dt {
        DataType::PhotonStruct(name) => assert_eq!(name, "Tag"),
        _ => panic!("expected a photon-struct type"),
    }
}

#[test]
fn type_string_unknown_decays_to_raw() {
    let dt = process_structs_and_stuff_type_from_string("weird").unwrap();
    assert!(matches!(dt, DataType::Raw));
}

#[test]
fn type_string_fixed_names() {
    assert!(matches!(
        data_type_from_type_string("boolean[]").unwrap(),
        DataType::BooleanArray
    ));
    assert!(matches!(
        data_type_from_type_string("msgpack").unwrap(),
        DataType::MessagePack
    ));
    assert!(matches!(
        data_type_from_type_string("double").unwrap(),
        DataType::Double
    ));
    assert!(matches!(
        data_type_from_type_string("string[]").unwrap(),
        DataType::StringArray
    ));
}

#[test]
fn boolean_byte_values() {
    assert_eq!(process_boolean(0), Ok(false));
    assert_eq!(process_boolean(1), Ok(true));
    assert!(matches!(
        process_boolean(2),
        Err(WpilogReadErrors::MalformedData)
    ));
}

#[test]
fn boolean_array_with_bad_byte() {
    let r = process_data_from_standard_record(&DataType::BooleanArray, vec![1, 0, 2]);
    assert!(matches!(r, Err(WpilogReadErrors::MalformedData)));
}

#[test]
fn boolean_array_decodes() {
    let r = process_data_from_standard_record(&DataType::BooleanArray, vec![1, 0, 1]).unwrap();
    match r {
        RecordData::BooleanArray(v) => assert_eq!(v, vec![true, false, true]),
        _ => panic!("expected a boolean array"),
    }
}

#[test]
fn float_scalar_bits() {
    let payload = 1.5f32.to_le_bytes().to_vec();
    let r = process_data_from_standard_record(&DataType::Float, payload).unwrap();
    match r {
        RecordData::Float(bits) => assert_eq!(f32::from_bits(bits), 1.5),
        _ => panic!("expected a float"),
    }
}

#[test]
fn double_array_bits() {
    let mut payload = Vec::new();
    payload.extend_from_slice(&2.5f64.to_le_bytes());
    payload.extend_from_slice(&(-0.5f64).to_le_bytes());
    let r = process_data_from_standard_record(&DataType::DoubleArray, payload).unwrap();
    match r {
        RecordData::DoubleArray(v) => {
            assert_eq!(v.len(), 2);
            assert_eq!(f64::from_bits(v[0]), 2.5);
            assert_eq!(f64::from_bits(v[1]), -0.5);
        }
        _ => panic!("expected a double array"),
    }
}

#[test]
fn string_value_utf8() {
    let r =
        process_data_from_standard_record(&DataType::String, "héllo".as_bytes().to_vec()).unwrap();
    match r {
        RecordData::String(s) => assert_eq!(s, "héllo"),
        _ => panic!("expected a string"),
    }
}

#[test]
fn string_value_bad_utf8() {
    let r = process_data_from_standard_record(&DataType::String, vec![0xff, 0xfe]);
    assert!(matches!(r, Err(WpilogReadErrors::MalformedData)));
}

#[test]
fn string_array_decodes() {
    let mut payload = Vec::new();
    payload.extend_from_slice(&2u32.to_le_bytes());
    payload.extend_from_slice(&2u32.to_le_bytes());
    payload.extend_from_slice(b"ab");
    payload.extend_from_slice(&1u32.to_le_bytes());
    payload.extend_from_slice(b"c");
    let r = process_data_from_standard_record(&DataType::StringArray, payload).unwrap();
    match r {
        RecordData::StringArray(v) => assert_eq!(v, vec!["ab".to_string(), "c".to_string()]),
        _ => panic!("expected a string array"),
    }
}

#[test]
fn string_array_truncated() {
    let mut payload = Vec::new();
    payload.extend_from_slice(&1u32.to_le_bytes());
    payload.extend_from_slice(&9u32.to_le_bytes());
    payload.extend_from_slice(b"ab");
    let r = process_data_from_standard_record(&DataType::StringArray, payload);
    assert!(matches!(r, Err(WpilogReadErrors::MalformedData)));
}

#[test]
fn raw_and_opaque_passthrough() {
    let r = process_data_from_standard_record(&DataType::Raw, vec![9, 8]).unwrap();
    assert!(matches!(r, RecordData::Raw(ref b) if b == &vec![9, 8]));
    let r = process_data_from_standard_record(&DataType::MessagePack, vec![1]).unwrap();
    assert!(matches!(r, RecordData::MessagePack(ref b) if b == &vec![1]));
    let r = process_data_from_standard_record(&DataType::Struct("P".to_string()), vec![7]).unwrap();
    assert!(matches!(r, RecordData::Struct(ref b) if b == &vec![7]));
}

#[test]
fn metadata_empty_and_json() {
    let m = process_metadata(Vec::new()).unwrap();
    assert!(m.metadata.is_none());
    let m = process_metadata(b"[1,2]".to_vec()).unwrap();
    assert!(m.metadata.is_some());
    assert!(matches!(
        process_metadata(b"nope".to_vec()),
        Err(WpilogReadErrors::MalformedData)
    ));
}

#[test]
fn next_chunk_reads_and_advances() {
    let mut cursor = (vec![1u8, 2, 3, 4], 0usize);
    assert_eq!(next_chunk(&mut cursor, 2).unwrap(), vec![1, 2]);
    assert_eq!(cursor.1, 2);
    assert_eq!(next_chunk(&mut cursor, 1).unwrap(), vec![3]);
    assert!(matches!(
        next_chunk(&mut cursor, 2),
        Err(WpilogReadErrors::NoDataLeft)
    ));
    assert_eq!(cursor.1, 3, "a failed read leaves the position unchanged");
}

#[test]
fn pad_to_n_bytes_pads_and_truncates() {
    assert_eq!(pad_to_n_bytes(&vec![5u8, 6], 4), vec![5, 6, 0, 0]);
    assert_eq!(pad_to_n_bytes(&vec![5u8, 6, 7], 2), vec![5, 6]);
}

#[test]
fn widen_zero_extends_little_endian() {
    assert_eq!(widen(&vec![0x34u8, 0x12]), 0x1234);
    assert_eq!(widen(&vec![]), 0);
    assert_eq!(widen(&vec![1u8, 0, 0, 0, 0, 0, 0, 0x80]), 0x8000_0000_0000_0001);
}

#[test]
fn array_chunking() {
    let chunks = process_array_data(&vec![1u8, 2, 3, 4], 2).unwrap();
    assert_eq!(chunks, vec![vec![1u8, 2], vec![3, 4]]);
    assert!(matches!(
        process_array_data(&vec![1u8, 2, 3], 2),
        Err(WpilogReadErrors::MalformedData)
    ));
}

#[test]
fn entry_types_group_history_and_records() {
    let binding = wpilog_reader::records::EntryMetadata::new(
        0,
        "t".to_string(),
        DataType::Integer,
        wpilog_reader::records::Metadata { metadata: None },
    );
    assert_eq!(binding.start_record_index, 0);
    assert_eq!(binding.name, "t");
    assert!(binding.finish_record_index.is_none());

    let rec = wpilog_reader::records::Record {
        entry_id: 1,
        time_stamp: 20,
        ordinal: 1,
        data: RecordData::Integer(42),
    };
    let entry = wpilog_reader::records::Entry::new(vec![binding], vec![&rec]);
    assert_eq!(entry.meta_data.len(), 1);
    assert_eq!(entry.records.len(), 1);
    assert_eq!(entry.records[0].entry_id, 1);
}
