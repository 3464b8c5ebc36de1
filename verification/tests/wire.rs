use poa_bench::text::{
    decimal_string, push_decimal, push_text, same_text, scan_decimal, starts_with,
    to_chars,
};
use poa_bench::wire::{
    check_frame, expect_piece, parse_field, parse_quoted, parse_record, push_escaped, push_field,
    push_quoted, write_record, Field,
};

fn chars(s: &str) -> Vec<char> {
    s.chars().collect()
}

#[test]
fn numerals_are_canonical() {
    assert_eq!(decimal_string(0), "0");
    assert_eq!(decimal_string(7), "7");
    assert_eq!(decimal_string(10), "10");
    assert_eq!(decimal_string(1_234_567_890), "1234567890");
    assert_eq!(decimal_string(u64::MAX), "18446744073709551615");
    let mut out = "x=".to_string();
    push_decimal(&mut out, 305);
    assert_eq!(out, "x=305");
}

#[test]
fn numerals_are_read_up_to_the_first_other_character() {
    assert_eq!(scan_decimal(&chars("0"), 0), Some((0, 1)));
    assert_eq!(scan_decimal(&chars("42,"), 0), Some((42, 2)));
    assert_eq!(scan_decimal(&chars("a907}"), 1), Some((907, 4)));
    assert_eq!(scan_decimal(&chars("18446744073709551615"), 0), Some((u64::MAX as u128, 20)));
    assert_eq!(scan_decimal(&chars("18446744073709551616"), 0), Some((1u128 << 64, 20)));
    assert_eq!(
        scan_decimal(&chars("340282366920938463463374607431768211455"), 0),
        Some((u128::MAX, 39))
    );
}

#[test]
fn what_is_no_canonical_numeral_is_refused() {
    assert_eq!(scan_decimal(&chars(""), 0), None);
    assert_eq!(scan_decimal(&chars("x"), 0), None);
    assert_eq!(scan_decimal(&chars("12"), 2), None);
    assert_eq!(scan_decimal(&chars("007"), 0), None);
    assert_eq!(scan_decimal(&chars("00"), 0), None);
    assert_eq!(scan_decimal(&chars("340282366920938463463374607431768211456"), 0), None);
    assert_eq!(scan_decimal(&chars("9999999999999999999999999999999999999999"), 0), None);
    assert_eq!(scan_decimal(&chars("+5"), 0), None);
}

#[test]
fn text_helpers() {
    assert_eq!(to_chars("héllo"), vec!['h', 'é', 'l', 'l', 'o']);
    assert!(same_text("abc", "abc"));
    assert!(!same_text("abc", "abd"));
    assert!(!same_text("abc", "ab"));
    assert!(same_text("", ""));
    assert!(starts_with("synthetic/x", "synthetic/"));
    assert!(starts_with("abc", ""));
    assert!(starts_with("abc", "abc"));
    assert!(!starts_with("ab", "abc"));
    assert!(!starts_with("xbc", "a"));
    let mut out = String::new();
    push_text(&mut out, "ab");
    push_text(&mut out, "");
    push_text(&mut out, "234");
    assert_eq!(out, "ab234");
}

#[test]
fn escapes() {
    let mut out = String::new();
    for c in ['a', '"', '\\', '\n', '\u{0}', '\u{1f}', ' ', '\u{7f}', 'é', '/'] {
        push_escaped(&mut out, c);
    }
    assert_eq!(out, "a\\\"\\\\\\u000a\\u0000\\u001f \u{7f}é/");
}

#[test]
fn quoted_text_is_valid_json_and_reads_back() {
    let mut out = String::new();
    push_quoted(&mut out, "say \"hi\"\\\t");
    assert_eq!(out, "\"say \\\"hi\\\"\\\\\\u0009\"");
    assert_eq!(parse_quoted(&chars(&out), 0), Some(("say \"hi\"\\\t".to_string(), 20)));
    let mut empty = String::new();
    push_quoted(&mut empty, "");
    assert_eq!(empty, "\"\"");
    assert_eq!(parse_quoted(&chars("\"\"x"), 0), Some((String::new(), 2)));
}

#[test]
fn texts_written_otherwise_are_refused() {
    for bad in [
        "",
        "abc",
        "\"abc",
        "\"a\nb\"",
        "\"\\n\"",
        "\"\\u0041\"",
        "\"\\u000A\"",
        "\"\\u00\"",
        "\"\\u002\"",
        "\"\\",
        "\"\\x\"",
        "\"\\u0020\"",
        "\"\\u1000\"",
    ] {
        assert_eq!(parse_quoted(&chars(bad), 0), None, "{:?}", bad);
    }
}

#[test]
fn fields_on_the_wire() {
    let mut out = String::new();
    push_field(&mut out, &Field::Number(0));
    out.push(',');
    push_field(&mut out, &Field::Number(-42));
    out.push(',');
    push_field(&mut out, &Field::Number(18_446_744_073_709_551_615));
    out.push(',');
    push_field(&mut out, &Field::Number(-18_446_744_073_709_551_615));
    out.push(',');
    push_field(&mut out, &Field::Null);
    out.push(',');
    push_field(&mut out, &Field::Text("a,b".to_string()));
    assert_eq!(out, "0,-42,18446744073709551615,-18446744073709551615,null,\"a,b\"");
    let mut wide = String::new();
    push_field(&mut wide, &Field::Number(i128::MAX));
    wide.push(' ');
    push_field(&mut wide, &Field::Number(i128::MIN));
    assert_eq!(
        wide,
        "170141183460469231731687303715884105727 -170141183460469231731687303715884105728"
    );
}

#[test]
fn fields_are_read_by_their_first_character() {
    assert_eq!(parse_field(&chars("null}"), 0), Some((Field::Null, 4)));
    assert_eq!(parse_field(&chars("-12,"), 0), Some((Field::Number(-12), 3)));
    assert_eq!(parse_field(&chars("12"), 0), Some((Field::Number(12), 2)));
    assert_eq!(parse_field(&chars("\"x\""), 0), Some((Field::Text("x".to_string()), 3)));
    assert_eq!(parse_field(&chars("nul"), 0), None);
    assert_eq!(parse_field(&chars("nule"), 0), None);
    assert_eq!(parse_field(&chars("-0"), 0), None);
    assert_eq!(parse_field(&chars("-"), 0), None);
    assert_eq!(parse_field(&chars("true"), 0), None);
    assert_eq!(parse_field(&chars(""), 0), None);
    assert_eq!(parse_field(&chars("1.5"), 0), Some((Field::Number(1), 1)));
    assert_eq!(
        parse_field(&chars("170141183460469231731687303715884105727"), 0),
        Some((Field::Number(i128::MAX), 39))
    );
    assert_eq!(parse_field(&chars("170141183460469231731687303715884105728"), 0), None);
    assert_eq!(
        parse_field(&chars("-170141183460469231731687303715884105728"), 0),
        Some((Field::Number(i128::MIN), 40))
    );
    assert_eq!(parse_field(&chars("-170141183460469231731687303715884105729"), 0), None);
    assert_eq!(parse_field(&chars("-340282366920938463463374607431768211456"), 0), None);
}

#[test]
fn pieces_are_matched_exactly() {
    assert_eq!(expect_piece(&chars("{\"a\":1}"), 0, "{\"a\":"), Some(5));
    assert_eq!(expect_piece(&chars("{\"a\":1}"), 6, "}"), Some(7));
    assert_eq!(expect_piece(&chars("{\"a\":1}"), 6, "}}"), None);
    assert_eq!(expect_piece(&chars("abc"), 1, ""), Some(1));
    assert_eq!(expect_piece(&chars("abc"), 0, "abd"), None);
}

#[test]
fn records_read_back() {
    let frame = vec!["{\"a\":", ",\"b\":", ",\"c\":", "}"];
    let fields = vec![Field::Number(5), Field::Text("x\"y".to_string()), Field::Null];
    let line = write_record(&frame, &fields).unwrap();
    assert_eq!(line, "{\"a\":5,\"b\":\"x\\\"y\",\"c\":null}");
    assert_eq!(parse_record(&chars(&line), &frame), Some(fields));
}

#[test]
fn a_record_needs_a_piece_more_than_fields() {
    let frame = vec!["[", ",", "]"];
    assert_eq!(write_record(&frame, &vec![Field::Null]), None);
    assert_eq!(write_record(&frame, &vec![Field::Null, Field::Null, Field::Null]), None);
    assert_eq!(write_record(&Vec::new(), &Vec::new()), None);
    assert_eq!(
        write_record(&frame, &vec![Field::Null, Field::Number(1)]),
        Some("[null,1]".to_string())
    );
    assert_eq!(write_record(&vec!["only"], &Vec::new()), Some("only".to_string()));
}

#[test]
fn a_frame_must_end_numbers() {
    assert!(check_frame(&vec!["{", ",", "}"]));
    assert!(check_frame(&vec!["", "x"]));
    assert!(check_frame(&vec!["123"]));
    assert!(!check_frame(&Vec::new()));
    assert!(!check_frame(&vec!["{", "", "}"]));
    assert!(!check_frame(&vec!["{", "0,", "}"]));
    assert!(!check_frame(&vec!["{", ",", "9"]));
    // In such a frame nothing is read, not even what was written in it.
    let bad = vec!["a", "0"];
    let line = write_record(&bad, &vec![Field::Number(1)]).unwrap();
    assert_eq!(line, "a10");
    assert_eq!(parse_record(&chars(&line), &bad), None);
}

#[test]
fn readers_past_the_end_find_nothing() {
    assert_eq!(scan_decimal(&chars("12"), 3), None);
    assert_eq!(parse_quoted(&chars("\"a\""), 4), None);
    assert_eq!(parse_field(&chars("1"), 2), None);
    assert_eq!(expect_piece(&chars("ab"), 3, ""), None);
    assert_eq!(expect_piece(&chars("ab"), 2, ""), Some(2));
}

#[test]
fn records_in_another_shape_are_refused() {
    let frame = vec!["{\"a\":", ",\"b\":", "}"];
    for bad in [
        "",
        "{\"a\":5,\"b\":6",
        "{\"a\":5,\"b\":6}}",
        "{\"a\":5, \"b\":6}",
        "{\"b\":5,\"a\":6}",
        "{\"a\":5}",
        "{\"a\":5,\"b\":06}",
        "{\"a\":5,\"b\":6.0}",
        "{\"a\":,\"b\":6}",
    ] {
        assert_eq!(parse_record(&chars(bad), &frame), None, "{:?}", bad);
    }
    assert_eq!(
        parse_record(&chars("{\"a\":5,\"b\":6}"), &frame),
        Some(vec![Field::Number(5), Field::Number(6)])
    );
}
