use gperf2flamegraph::parser::{parse_profiler_result, FormatError};

fn words(ws: &[u64]) -> Vec<u8> {
    let mut out = Vec::new();
    for w in ws {
        out.extend_from_slice(&w.to_le_bytes());
    }
    out
}

#[test]
fn round_trip_empty_trace() {
    // Header [0,3,0,P,0] followed immediately by the terminator (0,1,0).
    let bytes = words(&[0, 3, 0, 42, 0, 0, 1, 0]);
    let pr = parse_profiler_result(&bytes).unwrap();
    assert_eq!(pr.sampling_period_in_us, 42);
    assert_eq!(pr.stacktraces.len(), 0);
    assert_eq!(pr.proc_mapped_objects, "");
}

#[test]
fn malformed_header_is_format_error() {
    // count = 1 instead of 0: decoding fails, no partial trace.
    let bytes = words(&[1, 3, 0, 42, 0, 0, 1, 0]);
    let r = parse_profiler_result(&bytes);
    assert_eq!(r.err(), Some(FormatError::InvalidHeader));
}

#[test]
fn bad_slot_count_is_format_error() {
    let bytes = words(&[0, 4, 0, 42, 0, 0, 1, 0]);
    assert_eq!(parse_profiler_result(&bytes).err(), Some(FormatError::InvalidHeader));
}

#[test]
fn bad_trailer_is_format_error() {
    // Terminator must carry exactly one dummy address.
    let bytes = words(&[0, 3, 0, 42, 0, 0, 2, 0, 0]);
    assert_eq!(parse_profiler_result(&bytes).err(), Some(FormatError::InvalidTrailer));
}

#[test]
fn truncated_header_is_error() {
    let bytes = words(&[0, 3, 0]);
    assert_eq!(parse_profiler_result(&bytes).err(), Some(FormatError::Truncated));
}

#[test]
fn truncated_record_is_error() {
    // A record declaring three addresses but providing one.
    let bytes = words(&[0, 3, 0, 42, 0, 5, 3, 0x1000]);
    assert_eq!(parse_profiler_result(&bytes).err(), Some(FormatError::Truncated));
}

#[test]
fn records_and_tail_text_decode() {
    let mut bytes = words(&[0, 3, 0, 7, 0, 2, 3, 0x10, 0x20, 0x30, 9, 1, 0xdead, 0, 1, 0]);
    bytes.extend_from_slice(b"map line here\n");
    let pr = parse_profiler_result(&bytes).unwrap();
    assert_eq!(pr.sampling_period_in_us, 7);
    assert_eq!(pr.stacktraces.len(), 2);
    assert_eq!(pr.stacktraces[0].sample_count, 2);
    assert_eq!(pr.stacktraces[0].pcs, vec![0x10, 0x20, 0x30]);
    assert!(pr.stacktraces[0].symbols.is_none());
    assert_eq!(pr.stacktraces[1].sample_count, 9);
    assert_eq!(pr.stacktraces[1].pcs, vec![0xdead]);
    // The lossy tail decode keeps ASCII text as it is.
    assert_eq!(pr.proc_mapped_objects, "map line here\n");
}

#[test]
fn empty_record_is_valid() {
    let bytes = words(&[0, 3, 0, 7, 0, 4, 0, 0, 1, 0]);
    let pr = parse_profiler_result(&bytes).unwrap();
    assert_eq!(pr.stacktraces.len(), 1);
    assert_eq!(pr.stacktraces[0].sample_count, 4);
    assert!(pr.stacktraces[0].pcs.is_empty());
}
