use gperf2flamegraph::text::{
    parse_hex_u64, split_fields, split_lines, string_from_chars, to_chars, u64_to_dec_string,
};

#[test]
fn hex_parsing_exact_values() {
    assert_eq!(parse_hex_u64(&to_chars("0")), Some(0));
    assert_eq!(parse_hex_u64(&to_chars("ff")), Some(255));
    assert_eq!(parse_hex_u64(&to_chars("DeadBeef")), Some(0xdead_beef));
    assert_eq!(parse_hex_u64(&to_chars("ffffffffffffffff")), Some(u64::MAX));
    assert_eq!(parse_hex_u64(&to_chars("10000000000000000")), None);
    assert_eq!(parse_hex_u64(&to_chars("")), None);
    assert_eq!(parse_hex_u64(&to_chars("12g4")), None);
}

#[test]
fn decimal_formatting_exact_values() {
    assert_eq!(u64_to_dec_string(0), "0");
    assert_eq!(u64_to_dec_string(7), "7");
    assert_eq!(u64_to_dec_string(1234567890), "1234567890");
    assert_eq!(u64_to_dec_string(u64::MAX), "18446744073709551615");
}

#[test]
fn chars_round_trip_through_string() {
    // string_from_chars must really append each character.
    let chars = to_chars("profil\u{00e9}");
    assert_eq!(string_from_chars(&chars), "profil\u{00e9}");
    assert_eq!(chars.len(), 7);
}

#[test]
fn line_splitting_matches_expectations() {
    let lines = split_lines(&to_chars("a\r\nb\n\nc"));
    let as_strings: Vec<String> = lines.iter().map(string_from_chars).collect();
    assert_eq!(as_strings, vec!["a", "b", "", "c"]);
}

#[test]
fn field_splitting_skips_whitespace_runs() {
    let fields = split_fields(&to_chars("  one \t two\nthree  "));
    let as_strings: Vec<String> = fields.iter().map(string_from_chars).collect();
    assert_eq!(as_strings, vec!["one", "two", "three"]);
}
