use fraud_api::logging::{
    format_json_log, format_json_log_at, format_json_timing, format_json_timing_at,
    format_log_line, format_timing_line, now_unix_ms, push_json_string, timer_start,
    to_unix_ms, transport_from_env, whole_units, Category, Level, Transport,
};

#[test]
fn json_log_contains_core_fields() {
    let line = format_json_log(Level::Info, Category::Request, "hello world");
    assert!(line.starts_with('{'));
    assert!(line.contains("\"event\":\"log\""));
    assert!(line.contains("\"level\":\"INFO\""));
    assert!(line.contains("\"category\":\"request\""));
    assert!(line.contains("\"message\":\"hello world\""));
}

#[test]
fn json_timing_contains_timing_fields() {
    let line = format_json_timing(
        Level::Debug,
        Category::IoUring,
        "send_fd_total",
        123,
        0,
        "fd=7 retries=1 result=ok",
    );
    assert!(line.contains("\"event\":\"timing\""));
    assert!(line.contains("\"op\":\"send_fd_total\""));
    assert!(line.contains("\"elapsed_us\":123"));
    assert!(line.contains("\"elapsed_ms\":0"));
    assert!(line.contains("\"context\":\"fd=7 retries=1 result=ok\""));
}

#[test]
fn text_formatters_match_human_readable_output() {
    let line = format_log_line(Transport::Text, Level::Info, Category::Request, "hello");
    assert_eq!(line, "[INFO] [request] hello");

    let timing = format_timing_line(
        Transport::Text,
        Level::Warn,
        Category::IoUring,
        "send_fd_total",
        12,
        0,
        "fd=7",
    );
    assert_eq!(
        timing,
        "[WARN] [iouring] op=send_fd_total elapsed_us=12 elapsed_ms=0 fd=7"
    );
}

#[test]
fn transport_selection_accepts_json_only() {
    assert_eq!(transport_from_env(None), Transport::Text);
    assert_eq!(transport_from_env(Some("text")), Transport::Text);
    assert_eq!(transport_from_env(Some("json")), Transport::Json);
    assert_eq!(transport_from_env(Some("both")), Transport::Text);
}

#[test]
fn transport_ignores_case_but_nothing_else() {
    assert_eq!(transport_from_env(Some("JSON")), Transport::Json);
    assert_eq!(transport_from_env(Some("JsOn")), Transport::Json);
    assert_eq!(transport_from_env(Some(" json")), Transport::Text);
    assert_eq!(transport_from_env(Some("jso")), Transport::Text);
    assert_eq!(transport_from_env(Some("")), Transport::Text);
}

#[test]
fn a_message_in_json_is_written_out() {
    assert_eq!(
        format_json_log_at(1700000000000, Level::Warn, Category::IoUring, "a\"b"),
        "{\"ts\":1700000000000,\"event\":\"log\",\"level\":\"WARN\",\"category\":\"iouring\",\"message\":\"a\\\"b\"}"
    );
}

#[test]
fn a_timing_in_json_is_written_out() {
    assert_eq!(
        format_json_timing_at(5, Level::Debug, Category::Request, "knn", 1234, 1, "fd=3"),
        "{\"ts\":5,\"event\":\"timing\",\"level\":\"DEBUG\",\"category\":\"request\",\"op\":\"knn\",\"elapsed_us\":1234,\"elapsed_ms\":1,\"context\":\"fd=3\"}"
    );
}

#[test]
fn the_json_transport_is_used() {
    let line = format_log_line(Transport::Json, Level::Info, Category::Request, "x");
    assert!(line.starts_with("{\"ts\":"));
    let timing = format_timing_line(
        Transport::Json,
        Level::Info,
        Category::Request,
        "op",
        1,
        0,
        "",
    );
    assert!(timing.ends_with(",\"context\":\"\"}"));
}

#[test]
fn quotes_and_control_characters_are_escaped() {
    let mut out = String::from("x");
    push_json_string(&mut out, "\"\\\n\r\t\u{1}\u{1f}\u{7f}é→");
    assert_eq!(out, "x\"\\\"\\\\\\n\\r\\t\\u0001\\u001f\u{7f}é→\"");
}

#[test]
fn a_json_string_holds_no_control_characters() {
    let text: String = (0u8..128).map(|b| b as char).collect();
    let mut out = String::new();
    push_json_string(&mut out, &text);
    assert!(out.chars().all(|c| c >= ' '));
}

#[test]
fn a_written_string_is_read_back_by_a_json_reader() {
    let text: String = (0u8..128).map(|b| b as char).collect();
    let mut out = String::new();
    push_json_string(&mut out, &text);
    let back: String = serde_json::from_str(&out).unwrap();
    assert_eq!(back, text);
}

#[test]
fn times_pass() {
    let timer = timer_start();
    let (us, ms) = timer.elapsed();
    assert_eq!(ms, us / 1000);
    assert!(now_unix_ms() > 1_600_000_000_000);
}

#[test]
fn levels_are_ordered() {
    assert!(Level::Debug < Level::Info);
    assert!(Level::Info < Level::Warn);
}

#[test]
fn spans_are_given_in_whole_units() {
    assert_eq!(whole_units(0, 0), (0, 0));
    assert_eq!(whole_units(0, 999), (0, 0));
    assert_eq!(whole_units(0, 1_999_999), (1999, 1));
    assert_eq!(whole_units(3, 4_567_890), (3_004_567, 3004));
    assert_eq!(
        whole_units(u64::MAX, 999_999_999),
        (u64::MAX as u128 * 1_000_000 + 999_999, u64::MAX as u128 * 1000 + 999)
    );
    let span = std::time::Duration::new(77, 123_456_789);
    assert_eq!(whole_units(77, 123_456_789), (span.as_micros(), span.as_millis()));
}

#[test]
fn times_before_1970_count_as_zero() {
    assert_eq!(to_unix_ms(None), 0);
    assert_eq!(to_unix_ms(Some((1_700_000_000, 250_999_999))), 1_700_000_000_250);
}

#[test]
fn a_timer_follows_the_clock() {
    let timer = timer_start();
    let other = std::time::Instant::now();
    while other.elapsed().as_millis() < 20 {}
    let (us, ms) = timer.elapsed();
    assert!(us >= 20_000 && ms >= 20);
    assert!(ms < 10_000);
}
