use chrono::{Local, TimeZone};
use qemu_hmp::format::{
    clock_args,
    format_event, format_event_at, format_event_data, format_event_time, format_kv, json_colored,
    json_fallback,
};
use qemu_hmp::json::{to_compact, Json};

fn s(t: &str) -> Json {
    Json::Str(t.to_string())
}

fn n(t: &str) -> Json {
    Json::Number(t.to_string())
}

fn obj(members: Vec<(&str, Json)>) -> Json {
    Json::Object(members.into_iter().map(|(k, v)| (k.to_string(), v)).collect())
}

fn timestamp(secs: u64, us: u64) -> Json {
    obj(vec![("seconds", n(&secs.to_string())), ("microseconds", n(&us.to_string()))])
}

#[test]
fn json_fallback_null() {
    assert_eq!(json_fallback(&Json::Null), "");
}

#[test]
fn json_fallback_string() {
    let v = s("hello");
    assert_eq!(json_fallback(&v), "hello");
}

#[test]
fn json_fallback_object() {
    let v = obj(vec![("a", n("1"))]);
    let out = json_fallback(&v);
    assert!(out.contains("\"a\""));
    assert!(out.contains('1'));
}

#[test]
fn json_fallback_pretty_layout() {
    let v = obj(vec![("a", Json::Array(vec![n("1"), Json::Bool(true)])), ("b", obj(vec![]))]);
    assert_eq!(json_fallback(&v), "{\n  \"a\": [\n    1,\n    true\n  ],\n  \"b\": {}\n}");
}

#[test]
fn event_time_formatting() {
    let secs: u64 = 12 * 3600 + 30 * 60 + 45;
    let us: u64 = 123_456;
    let dt = Local.timestamp_opt(secs as i64, (us * 1000) as u32).single().unwrap();
    let expected = dt.format("%H:%M:%S%.3f").to_string();
    assert_eq!(format_event_time(secs, us), expected);
}

#[test]
fn event_time_midnight_utc() {
    let dt = Local.timestamp_opt(0, 0).single().unwrap();
    let expected = dt.format("%H:%M:%S%.3f").to_string();
    assert_eq!(format_event_time(0, 0), expected);
}

#[test]
fn event_data_empty_object() {
    let v = obj(vec![]);
    assert_eq!(format_event_data(&v), "");
}

#[test]
fn event_data_simple_fields() {
    let v = obj(vec![("device", s("ide1-cd0")), ("tray-open", Json::Bool(true))]);
    let out = format_event_data(&v);
    assert!(out.starts_with("{ "));
    assert!(out.ends_with(" }"));
    assert!(out.contains("device: \"ide1-cd0\""));
    assert!(out.contains("tray_open: true"));
}

#[test]
fn event_format_with_data() {
    let secs: u64 = 45045;
    let us: u64 = 230000;
    let event = obj(vec![
        ("event", s("DEVICE_TRAY_MOVED")),
        (
            "data",
            obj(vec![
                ("device", s("ide1-cd0")),
                ("id", s("/machine/unattached/device[4]")),
                ("tray-open", Json::Bool(true)),
            ]),
        ),
        ("timestamp", timestamp(secs, us)),
    ]);
    let expected_time = format_event_time(secs, us);
    let out = format_event(&event);
    assert!(out.starts_with("✨ DEVICE_TRAY_MOVED {"), "got: {out}");
    assert!(out.contains("device: \"ide1-cd0\""), "got: {out}");
    assert!(out.contains("tray_open: true"), "got: {out}");
    assert!(out.ends_with(&format!("[{expected_time}]")), "got: {out}");
}

#[test]
fn event_format_empty_data() {
    let event = obj(vec![("event", s("STOP")), ("data", obj(vec![])), ("timestamp", timestamp(0, 0))]);
    let expected_time = format_event_time(0, 0);
    let out = format_event(&event);
    assert_eq!(out, format!("✨ STOP [{expected_time}]"));
}

#[test]
fn event_without_name_or_object() {
    assert_eq!(format_event_at(&obj(vec![]), "12:00:00.000"), "✨ UNKNOWN [12:00:00.000]");
    assert_eq!(format_event_at(&Json::Array(vec![n("1"), s("a\"b")]), "t"), "[1,\"a\\\"b\"]");
}

#[test]
fn kv_nested_and_arrays() {
    let v = obj(vec![("a-b", Json::Null), ("list", Json::Array(vec![n("1"), s("x")]))]);
    assert_eq!(format_kv("k", &v), "k: { a_b: null, list: [1, \"x\"] }");
}

#[test]
fn compact_escapes_strings() {
    let v = obj(vec![("q", s("line\nquote\"\u{1}"))]);
    assert_eq!(to_compact(&v), "{\"q\":\"line\\nquote\\\"\\u0001\"}");
}

#[test]
fn colored_scalars_and_nesting() {
    assert_eq!(json_colored(&Json::Null), "\x1b[90mnull\x1b[0m");
    assert_eq!(json_colored(&Json::Bool(false)), "\x1b[33mfalse\x1b[0m");
    assert_eq!(json_colored(&Json::Array(vec![])), "[]");
    let v = obj(vec![("k", n("7"))]);
    assert_eq!(json_colored(&v), "{\n  \x1b[1;34m\"k\"\x1b[0m: \x1b[36m7\x1b[0m\n}");
}

#[test]
fn event_time_is_a_clock_time() {
    for (secs, us) in [(0u64, 0u64), (1_700_000_000, 123_456), (86_399, 999_999), (u64::MAX, 5)] {
        let t = format_event_time(secs, us);
        let b: Vec<char> = t.chars().collect();
        assert_eq!(b.len(), 12, "{t}");
        assert_eq!((b[2], b[5], b[8]), (':', ':', '.'), "{t}");
        for (i, c) in b.iter().enumerate() {
            if i != 2 && i != 5 && i != 8 {
                assert!(c.is_ascii_digit(), "{t}");
            }
        }
        let two = |i: usize| (b[i] as u32 - 48) * 10 + (b[i + 1] as u32 - 48);
        assert!(two(0) <= 23 && two(3) <= 59 && two(6) <= 60, "{t}");
    }
}

#[test]
fn event_time_milliseconds_come_from_the_timestamp() {
    assert_eq!(&format_event_time(1_700_000_000, 123_456)[9..], "123");
    assert_eq!(&format_event_time(0, 5)[9..], "000");
    assert_eq!(&format_event_time(86_399, 999_999)[9..], "999");
    // Nanoseconds past 2·10⁹ have no time: the epoch stands in.
    assert_eq!(format_event_time(1_700_000_000, 2_500_000), format_event_time(0, 0));
}

#[test]
fn clock_arguments_keep_the_low_bits() {
    assert_eq!(clock_args(1_700_000_000, 123_456), (1_700_000_000, 123_456_000));
    assert_eq!(clock_args(u64::MAX, 5_000_000), (-1, 705_032_704));
}
