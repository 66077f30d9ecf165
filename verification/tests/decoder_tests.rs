use wpilog_reader::headers::read_header;
use wpilog_reader::records::process_data_from_standard_record;
use wpilog_reader::records::DataType;
use wpilog_reader::records::RecordData;
use wpilog_reader::shared::WpilogReadErrors;
use wpilog_reader::wpilog::read_wpilog;

fn le(v: u64, n: usize) -> Vec<u8> {
    let mut out = Vec::new();
    let mut x = v;
    for _ in 0..n {
        out.push((x & 0xff) as u8);
        x >>= 8;
    }
    out
}

fn header_bytes(version: u16, extra: &str) -> Vec<u8> {
    let mut out = Vec::new();
    out.extend_from_slice(b"WPILOG");
    out.extend_from_slice(&le(version as u64, 2));
    out.extend_from_slice(&le(extra.len() as u64, 4));
    out.extend_from_slice(extra.as_bytes());
    out
}

/// One record frame with 1-byte identifier, 1-byte length, 1-byte timestamp.
fn record(entry_id: u8, timestamp: u8, payload: &[u8]) -> Vec<u8> {
    let mut out = Vec::new();
    out.push(0u8); // all width selectors 0: 1-byte fields
    out.push(entry_id);
    out.push(payload.len() as u8);
    out.push(timestamp);
    out.extend_from_slice(payload);
    out
}

fn start_payload(id: u32, name: &str, type_str: &str, metadata: &[u8]) -> Vec<u8> {
    let mut p = Vec::new();
    p.push(0u8); // Start subtype
    p.extend_from_slice(&le(id as u64, 4));
    p.extend_from_slice(&le(name.len() as u64, 4));
    p.extend_from_slice(name.as_bytes());
    p.extend_from_slice(&le(type_str.len() as u64, 4));
    p.extend_from_slice(type_str.as_bytes());
    p.extend_from_slice(&le(metadata.len() as u64, 4));
    p.extend_from_slice(metadata);
    p
}

fn finish_payload(id: u32) -> Vec<u8> {
    let mut p = Vec::new();
    p.push(1u8); // Finish subtype
    p.extend_from_slice(&le(id as u64, 4));
    p
}

fn set_metadata_payload(id: u32, metadata: &[u8]) -> Vec<u8> {
    let mut p = Vec::new();
    p.push(2u8); // SetMetadata subtype
    p.extend_from_slice(&le(id as u64, 4));
    p.extend_from_slice(&le(metadata.len() as u64, 4));
    p.extend_from_slice(metadata);
    p
}

#[test]
fn header_round_trip() {
    let mut cursor = (header_bytes(0x0100, "hello"), 0usize);
    let h = read_header(&mut cursor).unwrap();
    assert_eq!(h.version_number, 0x0100);
    assert_eq!(h.extra_string, "hello");
    assert_eq!(cursor.1, cursor.0.len());
}

#[test]
fn header_empty_extra() {
    let mut cursor = (header_bytes(0x0100, ""), 0usize);
    let h = read_header(&mut cursor).unwrap();
    assert_eq!(h.version_number, 0x0100);
    assert_eq!(h.extra_string, "");
}

#[test]
fn header_bad_magic() {
    let mut bytes = header_bytes(0x0100, "");
    bytes[0] = b'X';
    let mut cursor = (bytes, 0usize);
    assert!(matches!(
        read_header(&mut cursor),
        Err(WpilogReadErrors::InvalidHeader)
    ));
}

#[test]
fn header_bad_version() {
    let mut cursor = (header_bytes(0x0200, ""), 0usize);
    assert!(matches!(
        read_header(&mut cursor),
        Err(WpilogReadErrors::UnsupportedWpilogVersion)
    ));
}

#[test]
fn header_truncated() {
    let mut cursor = (b"WPIL".to_vec(), 0usize);
    assert!(matches!(
        read_header(&mut cursor),
        Err(WpilogReadErrors::NoDataLeft)
    ));
}

#[test]
fn framing_width_exhaustive() {
    // Every combination of the three width selectors round-trips a known
    // identifier, payload length and timestamp through zero-extension.
    for w_id in 1u8..=4 {
        for w_len in 1u8..=4 {
            for w_ts in 1u8..=8 {
                let mut bytes = header_bytes(0x0100, "");
                bytes.extend_from_slice(&record(0, 0, &start_payload(1, "t", "raw", b"")));
                let frame_byte = (w_id - 1) | ((w_len - 1) << 2) | ((w_ts - 1) << 4);
                let payload = [0xabu8, 0xcd];
                bytes.push(frame_byte);
                bytes.extend_from_slice(&le(1, w_id as usize));
                bytes.extend_from_slice(&le(payload.len() as u64, w_len as usize));
                bytes.extend_from_slice(&le(0x6f, w_ts as usize));
                bytes.extend_from_slice(&payload);
                let log = read_wpilog(bytes).unwrap();
                assert_eq!(log.records.len(), 2);
                let rec = &log.records[1];
                assert_eq!(rec.entry_id, 1);
                assert_eq!(rec.time_stamp, 0x6f);
                assert_eq!(rec.ordinal, 1);
                match &rec.data {
                    RecordData::Raw(b) => assert_eq!(b.as_slice(), &payload),
                    _ => panic!("expected a raw record"),
                }
            }
        }
    }
}

#[test]
fn lifecycle_start_then_boolean_value() {
    let mut bytes = header_bytes(0x0100, "");
    bytes.extend_from_slice(&record(0, 0, &start_payload(5, "x", "boolean", b"")));
    bytes.extend_from_slice(&record(5, 10, &[1]));
    bytes.extend_from_slice(&record(5, 11, &[0]));
    let log = read_wpilog(bytes).unwrap();
    assert_eq!(log.records.len(), 3);
    assert!(matches!(log.records[1].data, RecordData::Boolean(true)));
    assert!(matches!(log.records[2].data, RecordData::Boolean(false)));
    let history = log.entry_data_lut.get(&5).unwrap();
    assert_eq!(history.len(), 1);
    assert_eq!(history[0].name, "x");
    assert_eq!(history[0].start_record_index, 0);
    assert!(history[0].finish_record_index.is_none());
}

#[test]
fn lifecycle_value_before_start() {
    let mut bytes = header_bytes(0x0100, "");
    bytes.extend_from_slice(&record(5, 10, &[1]));
    assert!(matches!(
        read_wpilog(bytes),
        Err(WpilogReadErrors::UseOfEntryIdWithoutStart)
    ));
}

#[test]
fn lifecycle_double_start() {
    let mut bytes = header_bytes(0x0100, "");
    bytes.extend_from_slice(&record(0, 0, &start_payload(5, "x", "boolean", b"")));
    bytes.extend_from_slice(&record(0, 1, &start_payload(5, "y", "boolean", b"")));
    assert!(matches!(
        read_wpilog(bytes),
        Err(WpilogReadErrors::EntryIdAlreadyStarted)
    ));
}

#[test]
fn lifecycle_finish_then_restart() {
    let mut bytes = header_bytes(0x0100, "");
    bytes.extend_from_slice(&record(0, 0, &start_payload(5, "x", "boolean", b"")));
    bytes.extend_from_slice(&record(0, 1, &finish_payload(5)));
    bytes.extend_from_slice(&record(0, 2, &start_payload(5, "x2", "int64", b"")));
    let log = read_wpilog(bytes).unwrap();
    let history = log.entry_data_lut.get(&5).unwrap();
    assert_eq!(history.len(), 2);
    assert_eq!(history[0].name, "x");
    assert_eq!(history[0].finish_record_index, Some(1));
    assert_eq!(history[1].name, "x2");
    assert!(history[1].finish_record_index.is_none());
}

#[test]
fn value_after_finish_resolves_against_closed_binding() {
    // The applicable-binding search accepts a binding finished before the
    // current ordinal, so a value record after Finish still decodes.
    let mut bytes = header_bytes(0x0100, "");
    bytes.extend_from_slice(&record(0, 0, &start_payload(5, "x", "boolean", b"")));
    bytes.extend_from_slice(&record(0, 1, &finish_payload(5)));
    bytes.extend_from_slice(&record(5, 9, &[1]));
    let log = read_wpilog(bytes).unwrap();
    assert!(matches!(log.records[2].data, RecordData::Boolean(true)));
}

#[test]
fn finish_without_start() {
    let mut bytes = header_bytes(0x0100, "");
    bytes.extend_from_slice(&record(0, 0, &finish_payload(5)));
    assert!(matches!(
        read_wpilog(bytes),
        Err(WpilogReadErrors::FinishWithoutStart)
    ));
}

#[test]
fn finish_twice() {
    let mut bytes = header_bytes(0x0100, "");
    bytes.extend_from_slice(&record(0, 0, &start_payload(5, "x", "boolean", b"")));
    bytes.extend_from_slice(&record(0, 1, &finish_payload(5)));
    bytes.extend_from_slice(&record(0, 2, &finish_payload(5)));
    assert!(matches!(
        read_wpilog(bytes),
        Err(WpilogReadErrors::EntryAlreadyFinished)
    ));
}

#[test]
fn set_metadata_without_start() {
    let mut bytes = header_bytes(0x0100, "");
    bytes.extend_from_slice(&record(0, 0, &set_metadata_payload(5, b"{}")));
    assert!(matches!(
        read_wpilog(bytes),
        Err(WpilogReadErrors::SetMetadataWithoutStart)
    ));
}

#[test]
fn set_metadata_updates_open_binding() {
    let mut bytes = header_bytes(0x0100, "");
    bytes.extend_from_slice(&record(0, 0, &start_payload(5, "x", "boolean", b"")));
    bytes.extend_from_slice(&record(0, 1, &set_metadata_payload(5, b"{\"a\":1}")));
    let log = read_wpilog(bytes).unwrap();
    let history = log.entry_data_lut.get(&5).unwrap();
    assert!(history[0].metadata.metadata.is_some());
    match &log.records[1].data {
        RecordData::SetMetadata(m) => assert_eq!(m.entry_to_be_edited, 5),
        _ => panic!("expected a set-metadata record"),
    }
}

#[test]
fn set_metadata_after_finish() {
    let mut bytes = header_bytes(0x0100, "");
    bytes.extend_from_slice(&record(0, 0, &start_payload(5, "x", "boolean", b"")));
    bytes.extend_from_slice(&record(0, 1, &finish_payload(5)));
    bytes.extend_from_slice(&record(0, 2, &set_metadata_payload(5, b"{}")));
    assert!(matches!(
        read_wpilog(bytes),
        Err(WpilogReadErrors::EntryAlreadyFinished)
    ));
}

#[test]
fn bad_control_subtype() {
    let mut bytes = header_bytes(0x0100, "");
    bytes.extend_from_slice(&record(0, 0, &[7u8, 0, 0, 0, 0]));
    assert!(matches!(
        read_wpilog(bytes),
        Err(WpilogReadErrors::InvalidRecoard)
    ));
}

#[test]
fn control_record_exceeding_declared_payload() {
    // A Start whose fields would need more bytes than the declared payload
    // length is rejected, even though the stream has more bytes after it.
    let mut bytes = header_bytes(0x0100, "");
    let full = start_payload(5, "x", "boolean", b"");
    let truncated = &full[..full.len() - 2];
    bytes.extend_from_slice(&record(0, 0, truncated));
    bytes.extend_from_slice(&record(0, 1, &finish_payload(5)));
    assert!(matches!(
        read_wpilog(bytes),
        Err(WpilogReadErrors::InvalidRecoard)
    ));
}

#[test]
fn bad_start_metadata_json() {
    let mut bytes = header_bytes(0x0100, "");
    bytes.extend_from_slice(&record(0, 0, &start_payload(5, "x", "boolean", b"{")));
    assert!(matches!(
        read_wpilog(bytes),
        Err(WpilogReadErrors::MalformedData)
    ));
}

#[test]
fn truncated_mid_record_is_fatal() {
    let mut bytes = header_bytes(0x0100, "");
    bytes.extend_from_slice(&record(0, 0, &start_payload(5, "x", "boolean", b"")));
    bytes.push(0u8); // framing byte of a record that then ends
    assert!(matches!(
        read_wpilog(bytes),
        Err(WpilogReadErrors::NoDataLeft)
    ));
}

#[test]
fn end_to_end_integer_scenario() {
    let mut bytes = header_bytes(0x0100, "");
    bytes.extend_from_slice(&record(0, 0, &start_payload(1, "t", "int64", b"")));
    bytes.extend_from_slice(&record(1, 20, &le(42, 8)));
    let log = read_wpilog(bytes).unwrap();
    assert_eq!(log.header.version_number, 0x0100);
    assert_eq!(log.records.len(), 2);
    let history = log.entry_data_lut.get(&1).unwrap();
    assert_eq!(history.len(), 1);
    assert_eq!(history[0].name, "t");
    let rec = &log.records[1];
    assert_eq!(rec.entry_id, 1);
    assert_eq!(rec.time_stamp, 20);
    assert_eq!(rec.ordinal, 1);
    assert!(matches!(rec.data, RecordData::Integer(42)));
}

#[test]
fn negative_integer_value() {
    let neg = (-7i64).to_le_bytes();
    let r = process_data_from_standard_record(&DataType::Integer, neg.to_vec()).unwrap();
    assert!(matches!(r, RecordData::Integer(-7)));
}
