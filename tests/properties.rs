use structy::{canonical_level, parse_line, parse_logfmt, Formatter, Hue, LogValue, ParseError};

fn plain(depth: u32) -> Formatter {
    Formatter::new_with_params(true, false, depth, String::new(), vec![])
}

#[test]
fn scenario_single_field() {
    assert_eq!(plain(1).reformat_str("{\"a\": 17}").unwrap(), "a=17");
}

#[test]
fn scenario_time_and_field() {
    let out = plain(1)
        .reformat_str("{\"time\": \"2018-01-29T00:50:43.176Z\", \"a\": 17}")
        .unwrap();
    assert_eq!(out, "[2018-01-29T00:50:43.176Z] a=17");
}

#[test]
fn scenario_time_level_field() {
    let out = plain(1)
        .reformat_str("{\"time\": \"2018-01-29T00:50:43.176Z\", \"level\": \"debug\", \"a\": 17}")
        .unwrap();
    assert_eq!(out, "[2018-01-29T00:50:43.176Z] DEBUG: a=17");
}

#[test]
fn scenario_logfmt_line() {
    let out = plain(1)
        .reformat_str("time=\"2018-01-29T00:50:43.176Z\" level=\"fatal\" message=\"it's burning\"")
        .unwrap();
    assert_eq!(out, "[2018-01-29T00:50:43.176Z] FATAL: it's burning");
}

#[test]
fn scenario_nested_compact() {
    let out = plain(1).reformat_str("{\"a\": 17, \"nested\": {\"prop1\": 5}}").unwrap();
    assert_eq!(out, "a=17 nested={\"prop1\":5}");
}

#[test]
fn depth_two_expands_nested_object() {
    let out = plain(2).reformat_str("{\"a\": 17, \"nested\": {\"prop1\": 5}}").unwrap();
    assert_eq!(out, "a=17 nested=prop1=5");
}

#[test]
fn depth_two_nested_keys_sorted_and_compact_below() {
    let out = plain(2)
        .reformat_str("{\"n\": {\"z\": [1, 2], \"b\": {\"y\": \"t\", \"x\": null}}}")
        .unwrap();
    assert_eq!(out, "n=b={\"x\":null,\"y\":\"t\"} z=[1,2]");
}

#[test]
fn level_table_without_colors() {
    for (level, shown) in [("debug", "DEBUG: "), ("info", " INFO: "), ("warn", " WARN: ")] {
        let line = format!("{{\"level\": \"{}\", \"a\": 1}}", level);
        assert_eq!(plain(1).reformat_str(&line).unwrap(), format!("{}a=1", shown));
    }
}

#[test]
fn blank_level_stays_a_field() {
    assert_eq!(plain(1).reformat_str("{\"level\": \"\"}").unwrap(), "level=\"\"");
    assert_eq!(plain(1).reformat_str("{\"level\": \"   \"}").unwrap(), "level=\"   \"");
}

#[test]
fn level_is_matched_without_case() {
    assert_eq!(plain(1).reformat_str("{\"level\": \"Info\"}").unwrap(), " INFO:");
    assert_eq!(plain(1).reformat_str("{\"level\": \"ERROR\"}").unwrap(), "ERROR:");
}

#[test]
fn level_not_a_text_stays_a_field() {
    assert_eq!(plain(1).reformat_str("{\"level\": 3}").unwrap(), "level=3");
}

#[test]
fn canonical_level_tokens() {
    assert_eq!(canonical_level("trace", "TRACE"), ("TRACE".to_string(), None));
    assert_eq!(canonical_level("info", "INFO"), (" INFO".to_string(), Some(Hue::Blue)));
    assert_eq!(canonical_level("fatal", "FATAL"), ("FATAL".to_string(), Some(Hue::Red)));
    assert_eq!(canonical_level("notice", "NOTICE"), ("NOTIC".to_string(), None));
    assert_eq!(canonical_level("x", "X"), ("    X".to_string(), None));
    assert_eq!(canonical_level("", ""), ("     ".to_string(), None));
}

#[test]
fn ordinary_fields_in_key_order() {
    let out = plain(1).reformat_str("{\"zeta\": 1, \"alpha\": 2, \"Mid\": 3, \"beta\": 4}").unwrap();
    assert_eq!(out, "Mid=3 alpha=2 beta=4 zeta=1");
}

#[test]
fn key_order_does_not_depend_on_input_order() {
    let a = plain(1).reformat_str("c=1 a=2 b=3").unwrap();
    let b = plain(1).reformat_str("b=3 c=1 a=2").unwrap();
    assert_eq!(a, "a=2 b=3 c=1");
    assert_eq!(a, b);
}

#[test]
fn json_and_logfmt_render_alike() {
    let fmt = Formatter::new_with_params(false, false, 1, String::new(), vec!["b".to_string()]);
    let j = fmt
        .reformat_str("{\"msg\": \"hello world\", \"b\": \"x y\", \"a\": 17, \"ok\": true, \"n\": null}")
        .unwrap();
    let l = fmt.reformat_str("a=17 b=\"x y\" msg=\"hello world\" n=null ok=true").unwrap();
    assert_eq!(j, l);
}

#[test]
fn classification_repeats() {
    let fmt = plain(1);
    let line = "{\"time\": \"2018-01-29T00:50:43.176Z\", \"msg\": \"m\", \"level\": \"warn\", \"x\": 1}";
    let first = fmt.reformat_str(line).unwrap();
    assert_eq!(first, fmt.reformat_str(line).unwrap());
    assert_eq!(first, "[2018-01-29T00:50:43.176Z]  WARN: m x=1");
}

#[test]
fn message_before_msg() {
    let out = plain(1).reformat_str("{\"msg\": \"second\", \"message\": \"first\"}").unwrap();
    assert_eq!(out, "first msg=\"second\"");
}

#[test]
fn one_timestamp_only() {
    let out = plain(1)
        .reformat_str("{\"timestamp\": \"2018-01-29T00:50:43.500Z\", \"time\": \"2018-01-29T00:50:43.176Z\"}")
        .unwrap();
    assert_eq!(out, "[2018-01-29T00:50:43.176Z] timestamp=\"2018-01-29T00:50:43.500Z\"");
}

#[test]
fn invalid_timestamp_stays_a_field() {
    let out = plain(1).reformat_str("{\"time\": \"yesterday\", \"a\": 1}").unwrap();
    assert_eq!(out, "a=1 time=\"yesterday\"");
}

#[test]
fn number_text_is_kept() {
    let out = plain(1)
        .reformat_str("{\"id\": 123456789012345678901234567890, \"x\": 1.50}")
        .unwrap();
    assert_eq!(out, "id=123456789012345678901234567890 x=1.50");
}

#[test]
fn string_field_is_json_quoted() {
    let out = plain(1).reformat_str("{\"d\": \"a\\\"b\\nc\"}").unwrap();
    assert_eq!(out, "d=\"a\\\"b\\nc\"");
}

#[test]
fn logfmt_escapes_and_scalars() {
    let out = plain(1).reformat_str("m=\"say \\\"hi\\\"\" n=5 t=true z=null w=word").unwrap();
    assert_eq!(out, "m=\"say \\\"hi\\\"\" n=5 t=true w=\"word\" z=null");
}

#[test]
fn logfmt_last_write_wins() {
    assert_eq!(plain(1).reformat_str("a=1 a=2").unwrap(), "a=2");
}

#[test]
fn logfmt_non_scalar_json_is_text() {
    assert_eq!(plain(1).reformat_str("a=[1,2]").unwrap(), "a=\"[1,2]\"");
}

#[test]
fn malformed_lines() {
    assert_eq!(plain(1).reformat_str("{"), Err(ParseError::MalformedInput));
    assert_eq!(plain(1).reformat_str("a=\"open"), Err(ParseError::MalformedInput));
    assert_eq!(plain(1).reformat_str("a=1 bare"), Err(ParseError::MalformedInput));
    assert_eq!(plain(1).reformat_str("=1"), Err(ParseError::MalformedInput));
    assert_eq!(plain(1).reformat_str("   "), Err(ParseError::MalformedInput));
}

#[test]
fn empty_line_is_empty_record() {
    assert_eq!(plain(1).reformat_str("").unwrap(), "");
    assert!(matches!(parse_logfmt(""), Some(LogValue::Object(f)) if f.is_empty()));
}

#[test]
fn parse_line_reads_json_first() {
    assert!(matches!(parse_line("5"), Ok(LogValue::Number(t)) if t == "5"));
    assert!(matches!(parse_line("k=v"), Ok(LogValue::Object(_))));
    assert!(matches!(parse_line("nope"), Err(ParseError::MalformedInput)));
}

#[test]
fn top_level_array_expands_at_depth_two() {
    let out = plain(2).reformat_str("[\"a\", [1, 2], {\"k\": 1}]").unwrap();
    assert_eq!(out, "[a [1 2] k=1]");
}

#[test]
fn to_json_is_compact_with_sorted_keys() {
    let v = LogValue::Object(vec![
        ("b".to_string(), LogValue::Array(vec![LogValue::Bool(true), LogValue::Null])),
        ("a".to_string(), LogValue::String("q\"".to_string())),
    ]);
    assert_eq!(v.to_json(), "{\"a\":\"q\\\"\",\"b\":[true,null]}");
}

#[test]
fn no_level_leaves_level_field() {
    let fmt = Formatter::new_with_params(true, true, 1, String::new(), vec![]);
    assert_eq!(fmt.reformat_str("{\"level\": \"info\", \"a\": 1}").unwrap(), "a=1 level=\"info\"");
}

#[test]
fn colored_level_and_highlight() {
    let fmt = Formatter::new_with_params(false, false, 1, String::new(), vec!["k".to_string()]);
    let out = fmt.reformat_str("level=Warn k=1").unwrap();
    assert_eq!(out, "\u{1b}[33m WARN\u{1b}[0m: \u{1b}[4;33mk\u{1b}[0m=\u{1b}[37m1\u{1b}[0m");
}

#[test]
fn format_level_table() {
    let fmt = plain(1);
    assert_eq!(fmt.format_level("debug"), Some("DEBUG: ".to_string()));
    assert_eq!(fmt.format_level("info"), Some(" INFO: ".to_string()));
    assert_eq!(fmt.format_level("warn"), Some(" WARN: ".to_string()));
    assert_eq!(fmt.format_level("DeBuG"), Some("DEBUG: ".to_string()));
    assert_eq!(fmt.format_level("trace"), Some("TRACE: ".to_string()));
    assert_eq!(fmt.format_level("éééééé"), Some("ÉÉÉÉÉ: ".to_string()));
    assert_eq!(fmt.format_level("ééé"), Some("  ÉÉÉ: ".to_string()));
    assert_eq!(fmt.format_level(""), None);
}

#[test]
fn format_level_colored() {
    let fmt = Formatter::new_with_params(false, false, 1, String::new(), vec![]);
    assert_eq!(fmt.format_level("debug"), Some("\u{1b}[32mDEBUG\u{1b}[0m: ".to_string()));
    assert_eq!(fmt.format_level("fatal"), Some("\u{1b}[31mFATAL\u{1b}[0m: ".to_string()));
    assert_eq!(fmt.format_level("unknown"), Some("UNKNO: ".to_string()));
    assert_eq!(fmt.format_level("sha"), Some("  SHA: ".to_string()));
}

#[test]
fn level_alone_has_no_trailing_space() {
    assert_eq!(plain(1).reformat_str("{\"level\": \"debug\"}").unwrap(), "DEBUG:");
    assert_eq!(plain(1).reformat_str("{\"level\": \"debug\", \"msg\": \"m\"}").unwrap(), "DEBUG: m");
}

#[test]
fn control_characters_are_escaped() {
    let out = plain(1).reformat_str("{\"d\": \"a\\u0001\\tb\\\\\"}").unwrap();
    assert_eq!(out, "d=\"a\\u0001\\tb\\\\\"");
}
