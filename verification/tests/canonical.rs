use quantik_core::bench::canonical::{
    canonical_json, escape_string, in_unit_interval, python_float_repr, scientific_text,
};
use quantik_core::bench::compact::{compact_json, fmt, fmt_int, fmt_thousands};
use quantik_core::bench::hashing::{json_digest, sha256_hex};
use quantik_core::bench::json::{parse_json, Json};

fn json(text: &str) -> Json {
    parse_json(text).unwrap()
}

#[test]
fn float_repr_matches_python() {
    let cases: [(f64, &str); 14] = [
        (0.000047, "4.7e-05"),
        (0.0001, "0.0001"),
        (0.000175, "0.000175"),
        (7.959543, "7.959543"),
        (30.0, "30.0"),
        (1.0, "1.0"),
        (-0.5, "-0.5"),
        (0.1, "0.1"),
        (1e-5, "1e-05"),
        (1e22, "1e+22"),
        (1e16, "1e+16"),
        (9999999999999998.0, "9999999999999998.0"),
        (0.0, "0.0"),
        (1.414, "1.414"),
    ];
    for (x, expected) in cases {
        assert_eq!(python_float_repr(&format!("{x:e}")), expected, "for {x}");
    }
}

#[test]
fn canonical_matches_python_layout() {
    let value = json(r#"{"b": [1, 2.5, null, true], "a": {"nested": "ok", "t": 4.7e-5}}"#);
    assert_eq!(
        canonical_json(&value),
        r#"{"a":{"nested":"ok","t":4.7e-05},"b":[1,2.5,null,true]}"#
    );
}

#[test]
fn non_ascii_escaped_like_python() {
    let value = json("{\"s\": \"h\u{e9}llo \u{2014} \u{1f389}\"}");
    assert_eq!(
        canonical_json(&value),
        "{\"s\":\"h\\u00e9llo \\u2014 \\ud83c\\udf89\"}"
    );
}

#[test]
fn control_characters_are_escaped() {
    let mut out = String::from(">");
    escape_string("a\"\\\n\t\u{1}", &mut out);
    assert_eq!(out, ">\"a\\\"\\\\\\n\\t\\u0001\"");
}

#[test]
fn members_are_written_in_order() {
    assert_eq!(canonical_json(&json(r#"{"b":1,"a":-2}"#)), r#"{"a":-2,"b":1}"#);
}

#[test]
fn scientific_texts_are_shortest() {
    assert_eq!(scientific_text(0, 9), "0e0");
    assert_eq!(scientific_text(1_500_000_000, 9), "1.5e0");
    assert_eq!(scientific_text(47_000, 9), "4.7e-5");
    assert!(in_unit_interval("5e-1"));
    assert!(in_unit_interval("1e0"));
    assert!(!in_unit_interval("1.5e0"));
    assert!(!in_unit_interval("-5e-1"));
}

#[test]
fn digests_are_those_of_sha_256() {
    assert_eq!(
        sha256_hex("abc"),
        "ba7816bf8f01cfea414140de5dae2223b00361a396177a9cb410ff61f20015ad"
    );
    let value = json(r#"{ "b": 1, "a": 2 }"#);
    assert_eq!(json_digest(&value), sha256_hex(r#"{"a":2,"b":1}"#));
}

#[test]
fn compact_text_keeps_characters() {
    let value = json("{\"s\": \"h\u{e9}\\n\", \"n\": [1, 2.5, 1e300]}");
    assert_eq!(
        compact_json(&value),
        "{\"n\":[1,2.5,1e+300],\"s\":\"h\u{e9}\\n\"}"
    );
}

#[test]
fn thousands_separator() {
    assert_eq!(fmt_thousands(&json("1234567.0")), "1,234,567");
    assert_eq!(fmt_thousands(&json("12.0")), "12");
    assert_eq!(fmt_thousands(&Json::Null), "-");
}

#[test]
fn numbers_are_shown_with_decimals() {
    assert_eq!(fmt(&json("0.9"), 3), "0.900");
    assert_eq!(fmt(&json("2"), 1), "2.0");
    assert_eq!(fmt(&Json::Null, 3), "-");
    assert_eq!(fmt_int(&json("1234.4")), "1234");
    assert_eq!(fmt_int(&json("-7")), "-7");
}

#[test]
fn malformed_json_is_refused() {
    assert!(parse_json("{").is_err());
    assert!(parse_json("[1,]").is_err());
}

#[test]
fn whole_numbers_keep_their_sign_and_size() {
    assert!(matches!(json("18446744073709551615"), Json::Unsigned(u64::MAX)));
    assert!(matches!(json("-9223372036854775808"), Json::Negative(i64::MIN)));
    match json("0.00005") {
        Json::Float(text) => assert_eq!(text, "5e-5"),
        other => panic!("{other:?}"),
    }
}

#[test]
fn delete_is_escaped() {
    let mut out = String::new();
    escape_string("~\u{7f}", &mut out);
    assert_eq!(out, "\"~\\u007f\"");
}

#[test]
fn special_floats_read_as_in_python() {
    assert_eq!(python_float_repr("inf"), "inf");
    assert_eq!(python_float_repr("-inf"), "-inf");
    assert_eq!(python_float_repr("NaN"), "nan");
}

#[test]
fn objects_with_the_raw_mark_are_not_read_back() {
    let text = "{\"$serde_json::private::RawValue\":5}";
    assert!(parse_json(text).is_err());
}
