use cri_tail::cri::{parse_cri_log_line, parse_cri_log_lines, LogLine, OutputStream};
use cri_tail::timestamp::parse_timestamp;

fn record(ts: &str, stream: OutputStream, tags: &[&str], body: &str) -> LogLine {
    LogLine {
        datetime: parse_timestamp(ts).unwrap(),
        stream,
        tags: tags.iter().map(|t| t.to_string()).collect(),
        line: body.to_string(),
    }
}

#[test]
fn test_parsing_rfc3339() {
    let dt = parse_timestamp("2021-01-16T02:02:11.040118643Z").unwrap();
    assert_eq!(dt.timestamp_nanos(), 1610762531040118643);
    let dt2 = parse_timestamp("2021-01-16T10:26:39.765975201Z").unwrap();
    assert_eq!(dt2.timestamp_nanos(), 1610792799765975201);
    let dt3 = parse_timestamp("2021-01-16T07:21:59.755423898Z").unwrap();
    assert_eq!(dt3.timestamp_nanos(), 1610781719755423898);
    let dt4 = parse_timestamp("2021-01-11T17:23:27.333350133Z").unwrap();
    assert_eq!(dt4.timestamp_nanos(), 1610385807333350133);
}

#[test]
fn test_parsing_cri_log_line() {
    let test_log = "2021-01-11T17:23:43.253214031Z stderr F I0111 17:23:43.252724       1 serving.go:312] Generated self-signed cert (apiserver.local.config/certificates/apiserver.crt, apiserver.local.config/certificates/apiserver.key)";

    let log_lines = parse_cri_log_lines(test_log);
    assert_eq!(log_lines, vec![
        LogLine {
            datetime: parse_timestamp("2021-01-11T17:23:43.253214031Z").unwrap(),
            stream: OutputStream::StdErr,
            tags: vec!["F".to_string()],
            line: "I0111 17:23:43.252724       1 serving.go:312] Generated self-signed cert (apiserver.local.config/certificates/apiserver.crt, apiserver.local.config/certificates/apiserver.key)".to_string(),
        }
    ]);

    let test_log2 = "2021-01-15T17:52:00.032546259Z stdout F Response {
2021-01-15T17:52:00.032616721Z stdout F   \"status\": 200,
2021-01-15T17:52:00.032635758Z stdout F   \"headers\": {";

    let log_lines = parse_cri_log_lines(test_log2);
    assert_eq!(log_lines, vec![
        LogLine {
            datetime: parse_timestamp("2021-01-15T17:52:00.032546259+00:00").unwrap(),
            stream: OutputStream::StdOut,
            tags: vec!["F".to_string()],
            line: "Response {".to_string(),
        },
        LogLine {
            datetime: parse_timestamp("2021-01-15T17:52:00.032616721+00:00").unwrap(),
            stream: OutputStream::StdOut,
            tags: vec!["F".to_string()],
            line: "  \"status\": 200,".to_string(),
        },
        LogLine {
            datetime: parse_timestamp("2021-01-15T17:52:00.032635758+00:00").unwrap(),
            stream: OutputStream::StdOut,
            tags: vec!["F".to_string()],
            line: "  \"headers\": {".to_string(),
        }
    ]);

    let test_log3 = "2021-01-15T17:52:00.049462502Z stdout F ^[[0mPOST /gaction/fulfillment ^[[32m200^[[0m 10.169 ms - 161^[[0m
2021-01-16T10:11:07.88429767Z stdout F ^[[0mGET / ^[[33m404^[[0m 4.801 ms - 139^[[0m
2021-01-17T17:15:19.906752568Z stdout F ^[[0mGET / ^[[33m404^[[0m 4.442 ms - 139^[[0m";

    let log_lines = parse_cri_log_lines(test_log3);
    assert_eq!(log_lines, vec![
        LogLine {
            datetime: parse_timestamp("2021-01-15T17:52:00.049462502Z").unwrap(),
            stream: OutputStream::StdOut,
            tags: vec!["F".to_string()],
            line: "^[[0mPOST /gaction/fulfillment ^[[32m200^[[0m 10.169 ms - 161^[[0m".to_string(),
        },
        LogLine {
            datetime: parse_timestamp("2021-01-16T10:11:07.88429767Z").unwrap(),
            stream: OutputStream::StdOut,
            tags: vec!["F".to_string()],
            line: "^[[0mGET / ^[[33m404^[[0m 4.801 ms - 139^[[0m".to_string(),
        },
        LogLine {
            datetime: parse_timestamp("2021-01-17T17:15:19.906752568Z").unwrap(),
            stream: OutputStream::StdOut,
            tags: vec!["F".to_string()],
            line: "^[[0mGET / ^[[33m404^[[0m 4.442 ms - 139^[[0m".to_string(),
        },
    ]);
}

#[test]
fn timestamp_with_one_fraction_digit() {
    let t = parse_timestamp("2021-01-16T02:02:11.5Z").unwrap();
    assert_eq!(t.timestamp(), 1610762531);
    assert_eq!(t.timestamp_subsec_nanos(), 500000000);
    assert_eq!(t.timestamp_nanos(), 1610762531500000000);
    assert_eq!(t.offset_seconds(), 0);
}

#[test]
fn timestamp_on_leap_day() {
    let t = parse_timestamp("2020-02-29T00:00:00.000000001Z").unwrap();
    assert_eq!(t.timestamp_nanos(), 1582934400000000001);
}

#[test]
fn timestamp_with_negative_offset() {
    let t = parse_timestamp("2021-01-16T02:02:11.5-05:00").unwrap();
    assert_eq!(t.offset_seconds(), -18000);
    assert_eq!(t.timestamp(), 1610762531 + 18000);
}

#[test]
fn timestamp_out_of_range_is_rejected() {
    assert!(parse_timestamp("2021-13-01T00:00:00.1Z").is_none());
    assert!(parse_timestamp("2021-02-29T00:00:00.1Z").is_none());
    assert!(parse_timestamp("not a time").is_none());
    assert!(parse_timestamp("2021-01-16T02:02:11.5+24:00").is_none());
}

#[test]
fn stderr_line_keeps_body_verbatim() {
    let body = "a: {\"k\": [1, 2]} \u{1b}[31mred\u{1b}[0m  trailing ";
    let line = format!("2021-01-16T02:02:11.040118643Z stderr F {}", body);
    let r = parse_cri_log_line(&line).unwrap();
    assert_eq!(r.stream, OutputStream::StdErr);
    assert_eq!(r.tags, vec!["F".to_string()]);
    assert_eq!(r.line, body);
    assert_eq!(r.datetime.timestamp_nanos(), 1610762531040118643);
}

#[test]
fn stdout_word_gives_stdout() {
    let r = parse_cri_log_line("2021-01-16T02:02:11.1Z stdout P x").unwrap();
    assert_eq!(r.stream, OutputStream::StdOut);
    assert_eq!(r.tags, vec!["P".to_string()]);
}

#[test]
fn other_stream_word_does_not_match() {
    assert!(parse_cri_log_line("2021-01-16T02:02:11.1Z stdxxx F x").is_none());
    assert!(parse_cri_log_line("2021-01-16T02:02:11.1Z Stdout F x").is_none());
}

#[test]
fn tags_split_on_colons() {
    let r = parse_cri_log_line("2021-01-16T02:02:11.1Z stdout P:somecontainer body").unwrap();
    assert_eq!(r.tags, vec!["P".to_string(), "somecontainer".to_string()]);
    let r = parse_cri_log_line("2021-01-16T02:02:11.1Z stdout a::b body").unwrap();
    assert_eq!(r.tags, vec!["a".to_string(), "".to_string(), "b".to_string()]);
    assert_eq!(r.line, "body");
}

#[test]
fn empty_body_is_kept() {
    let r = parse_cri_log_line("2021-01-16T02:02:11.1Z stdout F ").unwrap();
    assert_eq!(r.line, "");
}

#[test]
fn missing_fields_do_not_match() {
    assert!(parse_cri_log_line("").is_none());
    assert!(parse_cri_log_line("2021-01-16T02:02:11.1Z stdout F").is_none());
    assert!(parse_cri_log_line("2021-01-16T02:02:11.1Z stdout\tF x").is_none());
    assert!(parse_cri_log_line("2021-01-16T02:02:11.1Z stdout F\tx").is_none());
    assert!(parse_cri_log_line("2021-01-16T02:02:11.1Z stdout F x\ny").is_none());
}

#[test]
fn positive_offset_line_parses() {
    let r = parse_cri_log_line("2021-01-16T03:02:11.040118643+01:00 stdout F x").unwrap();
    assert_eq!(r.datetime.offset_seconds(), 3600);
    assert_eq!(r.datetime.timestamp_nanos(), 1610762531040118643);
    assert_eq!(r.stream, OutputStream::StdOut);
    assert_eq!(r.line, "x");
}

#[test]
fn negative_offset_line_parses() {
    let r = parse_cri_log_line("2021-01-15T21:32:11.040118643-04:30 stderr P:c y").unwrap();
    assert_eq!(r.datetime.offset_seconds(), -16200);
    assert_eq!(r.datetime.timestamp_nanos(), 1610762531040118643);
    assert_eq!(r.tags, vec!["P".to_string(), "c".to_string()]);
}

#[test]
fn bad_timestamp_makes_line_not_match() {
    assert!(parse_cri_log_line("2021-13-16T02:02:11.1Z stdout F x").is_none());
    assert!(parse_cri_log_line("12:34 stdout F x").is_none());
}

#[test]
fn batch_of_three_keeps_order() {
    let blob = "2021-01-16T02:02:11.1Z stdout F one\n2021-01-16T02:02:12.1Z stderr F two\n2021-01-16T02:02:13.1Z stdout F three";
    let r = parse_cri_log_lines(blob);
    assert_eq!(r, vec![
        record("2021-01-16T02:02:11.1Z", OutputStream::StdOut, &["F"], "one"),
        record("2021-01-16T02:02:12.1Z", OutputStream::StdErr, &["F"], "two"),
        record("2021-01-16T02:02:13.1Z", OutputStream::StdOut, &["F"], "three"),
    ]);
}

#[test]
fn malformed_line_is_left_out() {
    let blob = "2021-01-16T02:02:11.1Z stdout F one\ngarbage here\n2021-01-16T02:02:13.1Z stdout F three";
    let r = parse_cri_log_lines(blob);
    assert_eq!(r, vec![
        record("2021-01-16T02:02:11.1Z", OutputStream::StdOut, &["F"], "one"),
        record("2021-01-16T02:02:13.1Z", OutputStream::StdOut, &["F"], "three"),
    ]);
}

#[test]
fn trailing_newline_and_empty_input() {
    let r = parse_cri_log_lines("2021-01-16T02:02:11.1Z stdout F one\n");
    assert_eq!(r.len(), 1);
    assert!(parse_cri_log_lines("").is_empty());
    assert!(parse_cri_log_lines("\n\n").is_empty());
}

#[test]
fn log_lines_compare_by_content() {
    let a = record("2021-01-16T02:02:11.1Z", OutputStream::StdOut, &["F"], "x");
    let b = record("2021-01-16T02:02:11.1Z", OutputStream::StdOut, &["P"], "x");
    let c = record("2021-01-16T02:02:11.1Z", OutputStream::StdOut, &["F"], "x");
    assert!(a != b);
    assert!(a == c);
}
