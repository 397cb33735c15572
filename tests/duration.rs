use oas_media::duration::{
    normalize_duration, parse_timestamp, DurationError, DurationInput, DurationValue, Seconds,
};
use serde_json::Value;

fn duration_input(doc: &str) -> DurationInput {
    let v: Value = serde_json::from_str(doc).expect("failed to deserialize");
    match v.get("duration").cloned() {
        None | Some(Value::Null) => DurationInput::Absent,
        Some(Value::Number(n)) => DurationInput::Number(n),
        Some(Value::String(s)) => DurationInput::Text(s),
        Some(other) => DurationInput::Other(other.to_string()),
    }
}

fn seconds_f32(s: &Seconds) -> f32 {
    let frac: String = s.frac.iter().collect();
    if frac.is_empty() {
        s.whole as f32
    } else {
        format!("{}.{}", s.whole, frac).parse().unwrap()
    }
}

fn decode_duration(doc: &str) -> Option<f32> {
    match normalize_duration(duration_input(doc)).expect("failed to deserialize") {
        None => None,
        Some(DurationValue::Number(n)) => n.as_f64().map(|x| x as f32),
        Some(DurationValue::Timestamp(s)) => Some(seconds_f32(&s)),
    }
}

fn chars(s: &str) -> Vec<char> {
    s.chars().collect()
}

#[test]
fn deserialize_duration() {
    let source = r#"
    {
        "contentUrl": "foo",
        "duration": "02:03"
    }
    "#;
    assert_eq!(decode_duration(source), Some(123.));

    let source = r#"
   {
       "contentUrl": "foo",
       "duration": "02:03:01"
   }
   "#;
    assert_eq!(decode_duration(source), Some(7381.));

    let source = r#"
   {
       "contentUrl": "foo",
       "duration": "64"
   }
   "#;
    assert_eq!(decode_duration(source), Some(64.));

    let source = r#"
    {
        "contentUrl": "foo",
        "duration": 123
    }
    "#;
    assert_eq!(decode_duration(source), Some(123.));

    let source = r#"
    {
        "contentUrl": "foo",
        "duration": 562.5011
    }
    "#;
    assert_eq!(decode_duration(source), Some(562.5011));

    let source = r#"
   {
       "contentUrl": "foo"
   }
   "#;
    assert_eq!(decode_duration(source), None);
}

#[test]
fn timestamp_two_fields_is_minutes_and_seconds() {
    let v = parse_timestamp("02:03").unwrap();
    assert_eq!(v.whole, 123);
    assert!(v.frac.is_empty());
}

#[test]
fn timestamp_three_fields_with_fraction() {
    let v = parse_timestamp("01:02:03.25").unwrap();
    assert_eq!(v.whole, 3723);
    assert_eq!(v.frac, chars("25"));
}

#[test]
fn timestamp_hours_are_not_bounded_by_a_day() {
    let v = parse_timestamp("100:00:00").unwrap();
    assert_eq!(v.whole, 360000);
    let v = parse_timestamp("0:75").unwrap();
    assert_eq!(v.whole, 75);
}

#[test]
fn timestamp_seconds_only_with_fraction() {
    let v = parse_timestamp("562.5011").unwrap();
    assert_eq!(v.whole, 562);
    assert_eq!(v.frac, chars("5011"));
}

#[test]
fn timestamp_rejects_malformed_strings() {
    for bad in ["", "1:2:3:4", "ab:cd", "-5", "1.5:30", "5.", ".5", "1..2", "1:", ":1", " 1", "1.2.3"] {
        match parse_timestamp(bad) {
            Err(DurationError::Format(raw)) => assert_eq!(raw, bad),
            other => panic!("{:?} gave {:?}", bad, other),
        }
    }
}

#[test]
fn timestamp_too_large_for_whole_seconds() {
    match parse_timestamp("18446744073709551616") {
        Err(DurationError::TooLarge(raw)) => assert_eq!(raw, "18446744073709551616"),
        other => panic!("{:?}", other),
    }
    assert_eq!(parse_timestamp("18446744073709551615").unwrap().whole, u64::MAX);
    match parse_timestamp("5124095576030431:00:16") {
        Err(DurationError::TooLarge(_)) => {}
        other => panic!("{:?}", other),
    }
    match parse_timestamp("99999999999999999999:x") {
        Err(DurationError::Format(_)) => {}
        other => panic!("{:?}", other),
    }
}

#[test]
fn null_duration_is_absent_and_not_an_error() {
    let doc = r#"{"contentUrl":"foo","duration":null}"#;
    assert!(matches!(normalize_duration(duration_input(doc)), Ok(None)));
    assert!(matches!(normalize_duration(DurationInput::Absent), Ok(None)));
}

#[test]
fn empty_duration_string_is_an_error() {
    let doc = r#"{"contentUrl":"foo","duration":""}"#;
    match normalize_duration(duration_input(doc)) {
        Err(DurationError::Format(raw)) => assert_eq!(raw, ""),
        other => panic!("{:?}", other),
    }
}

#[test]
fn other_json_shapes_are_format_errors() {
    for doc in [
        r#"{"duration":true}"#,
        r#"{"duration":[1]}"#,
        r#"{"duration":{"s":1}}"#,
    ] {
        match normalize_duration(duration_input(doc)) {
            Err(DurationError::Format(raw)) => {
                let v: Value = serde_json::from_str(doc).unwrap();
                assert_eq!(raw, v["duration"].to_string());
            }
            other => panic!("{:?}", other),
        }
    }
}

#[test]
fn numeric_duration_is_kept_as_written() {
    let doc = r#"{"duration":-5}"#;
    match normalize_duration(duration_input(doc)) {
        Ok(Some(DurationValue::Number(n))) => assert_eq!(n.as_i64(), Some(-5)),
        other => panic!("{:?}", other),
    }
}

#[test]
fn timestamp_text_goes_through_normalizer() {
    match normalize_duration(DurationInput::Text("02:03:01".to_string())) {
        Ok(Some(DurationValue::Timestamp(s))) => {
            assert_eq!(s.whole, 7381);
            assert!(s.frac.is_empty());
        }
        other => panic!("{:?}", other),
    }
}
