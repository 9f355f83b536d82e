use structy::Formatter;

fn new_formatter() -> Formatter {
    Formatter::new_with_params(false, false, 1, "".to_string(), vec![])
}

#[test]
fn reformat_obj_one_param() {
    let mut fmt = new_formatter();
    fmt.no_colors = true;
    let a = fmt.reformat_str("{\"a\": 17}").unwrap();
    assert_eq!(a, "a=17");
}

#[test]
fn reformat_obj_one_param_color() {
    let fmt = new_formatter();
    let a = fmt.reformat_str("{\"a\": 17}").unwrap();
    assert_eq!(a, "\u{1b}[2;4ma\u{1b}[0m=\u{1b}[37m17\u{1b}[0m");
}

#[test]
fn reformat_obj_multiple_params() {
    let mut fmt = new_formatter();
    fmt.no_colors = true;
    let a = fmt
        .reformat_str("{\"a\": 17, \"c\": 15, \"d\": \"210\"}")
        .unwrap();
    assert_eq!(a, "a=17 c=15 d=\"210\"");
}

#[test]
fn reformat_obj_multiple_params_color() {
    let fmt = new_formatter();
    let a = fmt
        .reformat_str("{\"a\": 17, \"c\": 15, \"d\": \"210\"}")
        .unwrap();
    assert_eq!(a, "\u{1b}[2;4ma\u{1b}[0m=\u{1b}[37m17\u{1b}[0m \u{1b}[2;4mc\u{1b}[0m=\u{1b}[37m15\u{1b}[0m \u{1b}[2;4md\u{1b}[0m=\u{1b}[37m\"210\"\u{1b}[0m");
}

#[test]
fn reformat_obj_multiple_params_parse_depth_2() {
    let mut fmt = new_formatter();
    fmt.no_colors = true;
    fmt.parse_depth = 2;
    let a = fmt
        .reformat_str("{\"a\": 17, \"c\": 15, \"d\": \"210\"}")
        .unwrap();
    assert_eq!(a, "a=17 c=15 d=210");
}

#[test]
fn reformat_obj_with_time() {
    let mut fmt = new_formatter();
    fmt.no_colors = true;
    let a = fmt
        .reformat_str("{\"time\": \"2018-01-29T00:50:43.176Z\", \"a\": 17}")
        .unwrap();
    assert_eq!(a, "[2018-01-29T00:50:43.176Z] a=17");
}

#[test]
fn reformat_obj_with_time_color() {
    let fmt = new_formatter();
    let a = fmt
        .reformat_str("{\"time\": \"2018-01-29T00:50:43.176Z\", \"a\": 17}")
        .unwrap();
    assert_eq!(a, "[\u{1b}[1;34m2018-01-29T00:50:43.176Z\u{1b}[0m] \u{1b}[2;4ma\u{1b}[0m=\u{1b}[37m17\u{1b}[0m");
}

#[test]
fn reformat_obj_with_time_custom() {
    let mut fmt = new_formatter();
    fmt.no_colors = true;
    fmt.timestamp_prop = "custom_timestamp".to_string();
    let a = fmt
        .reformat_str("{\"custom_timestamp\": \"2018-01-29T00:50:43.176Z\", \"a\": 17}")
        .unwrap();
    assert_eq!(a, "[2018-01-29T00:50:43.176Z] a=17");
}

#[test]
fn reformat_obj_with_time_and_custom() {
    let mut fmt = new_formatter();
    fmt.no_colors = true;
    fmt.timestamp_prop = "custom_timestamp".to_string();
    let a = fmt.reformat_str("{\"custom_timestamp\": \"2018-01-29T00:50:43.500Z\", \"time\": \"2018-01-29T00:50:43.176Z\", \"a\": 17}")
        .unwrap();
    assert_eq!(
        a,
        "[2018-01-29T00:50:43.500Z] a=17 time=\"2018-01-29T00:50:43.176Z\""
    );
}

#[test]
fn reformat_obj_with_time_no_colors() {
    let mut fmt = new_formatter();
    fmt.no_colors = true;
    let a = fmt
        .reformat_str("{\"time\": \"2018-01-29T00:50:43.176Z\", \"a\": 17}")
        .unwrap();
    assert_eq!(a, "[2018-01-29T00:50:43.176Z] a=17");
}

#[test]
fn reformat_obj_with_timestamp() {
    let mut fmt = new_formatter();
    fmt.no_colors = true;
    let a = fmt
        .reformat_str("{\"timestamp\": \"2018-01-29T00:50:43.176Z\", \"a\": 17}")
        .unwrap();
    assert_eq!(a, "[2018-01-29T00:50:43.176Z] a=17");
}

#[test]
fn reformat_obj_with_time_no_params() {
    let fmt = new_formatter();
    let a = fmt
        .reformat_str("{\"time\": \"2018-01-29T00:50:43.176Z\"}")
        .unwrap();
    assert_eq!(a, "[\u{1b}[1;34m2018-01-29T00:50:43.176Z\u{1b}[0m]");
}

#[test]
fn reformat_obj_with_time_and_level_trace() {
    let fmt = new_formatter();
    let a = fmt
        .reformat_str(
            "{\"time\": \"2018-01-29T00:50:43.176Z\", \"level\": \"trace\", \"a\": 17}",
        )
        .unwrap();
    assert_eq!(
        a,
        "[\u{1b}[1;34m2018-01-29T00:50:43.176Z\u{1b}[0m] TRACE: \u{1b}[2;4ma\u{1b}[0m=\u{1b}[37m17\u{1b}[0m"
    );
}

#[test]
fn reformat_obj_with_time_and_level_unknown() {
    let fmt = new_formatter();
    let a = fmt
        .reformat_str(
            "{\"time\": \"2018-01-29T00:50:43.176Z\", \"level\": \"unknown\", \"a\": 17}",
        )
        .unwrap();
    assert_eq!(
        a,
        "[\u{1b}[1;34m2018-01-29T00:50:43.176Z\u{1b}[0m] UNKNO: \u{1b}[2;4ma\u{1b}[0m=\u{1b}[37m17\u{1b}[0m"
    );
}

#[test]
fn reformat_obj_with_time_and_level_blank() {
    let mut fmt = new_formatter();
    fmt.no_colors = true;
    let a = fmt
        .reformat_str("{\"time\": \"2018-01-29T00:50:43.176Z\", \"level\": \"\", \"a\": 17}")
        .unwrap();
    assert_eq!(a, "[2018-01-29T00:50:43.176Z] a=17 level=\"\"");
}

#[test]
fn reformat_obj_with_time_and_level_short() {
    let fmt = new_formatter();
    let a = fmt
        .reformat_str("{\"time\": \"2018-01-29T00:50:43.176Z\", \"level\": \"sha\", \"a\": 17}")
        .unwrap();
    assert_eq!(
        a,
        "[\u{1b}[1;34m2018-01-29T00:50:43.176Z\u{1b}[0m]   SHA: \u{1b}[2;4ma\u{1b}[0m=\u{1b}[37m17\u{1b}[0m"
    );
}

#[test]
fn reformat_obj_with_time_and_level_debug() {
    let fmt = new_formatter();
    let a = fmt
        .reformat_str(
            "{\"time\": \"2018-01-29T00:50:43.176Z\", \"level\": \"debug\", \"a\": 17}",
        )
        .unwrap();
    assert_eq!(
        a,
        "[\u{1b}[1;34m2018-01-29T00:50:43.176Z\u{1b}[0m] \u{1b}[32mDEBUG\u{1b}[0m: \u{1b}[2;4ma\u{1b}[0m=\u{1b}[37m17\u{1b}[0m"
    );
}

#[test]
fn reformat_obj_with_time_and_level_debug_no_colors() {
    let mut fmt = new_formatter();
    fmt.no_colors = true;
    let a = fmt
        .reformat_str(
            "{\"time\": \"2018-01-29T00:50:43.176Z\", \"level\": \"debug\", \"a\": 17}",
        )
        .unwrap();
    assert_eq!(a, "[2018-01-29T00:50:43.176Z] DEBUG: a=17");
}

#[test]
fn reformat_obj_with_time_and_level_info() {
    let fmt = new_formatter();
    let a = fmt
        .reformat_str(
            "{\"time\": \"2018-01-29T00:50:43.176Z\", \"level\": \"info\", \"a\": 17}",
        )
        .unwrap();
    assert_eq!(
        a,
        "[\u{1b}[1;34m2018-01-29T00:50:43.176Z\u{1b}[0m] \u{1b}[34m INFO\u{1b}[0m: \u{1b}[2;4ma\u{1b}[0m=\u{1b}[37m17\u{1b}[0m"
    );
}

#[test]
fn reformat_obj_with_time_and_level_warn() {
    let fmt = new_formatter();
    let a = fmt
        .reformat_str(
            "{\"time\": \"2018-01-29T00:50:43.176Z\", \"level\": \"warn\", \"a\": 17}",
        )
        .unwrap();
    assert_eq!(
        a,
        "[\u{1b}[1;34m2018-01-29T00:50:43.176Z\u{1b}[0m] \u{1b}[33m WARN\u{1b}[0m: \u{1b}[2;4ma\u{1b}[0m=\u{1b}[37m17\u{1b}[0m"
    );
}

#[test]
fn reformat_obj_with_time_and_level_error() {
    let fmt = new_formatter();
    let a = fmt
        .reformat_str(
            "{\"time\": \"2018-01-29T00:50:43.176Z\", \"level\": \"error\", \"a\": 17}",
        )
        .unwrap();
    assert_eq!(
        a,
        "[\u{1b}[1;34m2018-01-29T00:50:43.176Z\u{1b}[0m] \u{1b}[31mERROR\u{1b}[0m: \u{1b}[2;4ma\u{1b}[0m=\u{1b}[37m17\u{1b}[0m"
    );
}

#[test]
fn reformat_obj_with_time_and_level_fatal() {
    let fmt = new_formatter();
    let a = fmt
        .reformat_str(
            "{\"time\": \"2018-01-29T00:50:43.176Z\", \"level\": \"fatal\", \"a\": 17}",
        )
        .unwrap();
    assert_eq!(
        a,
        "[\u{1b}[1;34m2018-01-29T00:50:43.176Z\u{1b}[0m] \u{1b}[31mFATAL\u{1b}[0m: \u{1b}[2;4ma\u{1b}[0m=\u{1b}[37m17\u{1b}[0m"
    );
}

#[test]
fn reformat_obj_with_time_message_and_level() {
    let fmt = new_formatter();
    let a = fmt.reformat_str(
        "{\"time\": \"2018-01-29T00:50:43.176Z\", \"level\": \"fatal\", \"message\": \"it's burning\"}",
    ).unwrap();
    assert_eq!(
        a,
        "[\u{1b}[1;34m2018-01-29T00:50:43.176Z\u{1b}[0m] \u{1b}[31mFATAL\u{1b}[0m: it's burning"
    );
}

#[test]
fn reformat_obj_with_time_message_attr_and_level() {
    let fmt = new_formatter();
    let a = fmt.reformat_str(
        "{\"time\": \"2018-01-29T00:50:43.176Z\", \"level\": \"fatal\", \"message\": \"something is on fire!\", \"a\": 17}",
    ).unwrap();
    assert_eq!(
        a,
        "[\u{1b}[1;34m2018-01-29T00:50:43.176Z\u{1b}[0m] \u{1b}[31mFATAL\u{1b}[0m: something is on fire! \u{1b}[2;4ma\u{1b}[0m=\u{1b}[37m17\u{1b}[0m"
    );
}

#[test]
fn reformat_obj_with_time_message_attr_and_no_level() {
    let mut fmt = new_formatter();
    fmt.no_level = true;
    fmt.no_colors = true;
    let a = fmt.reformat_str(
        "{\"time\": \"2018-01-29T00:50:43.176Z\", \"level\": \"fatal\", \"message\": \"something is on fire!\", \"a\": 17}",
    ).unwrap();
    assert_eq!(
        a,
        "[2018-01-29T00:50:43.176Z] something is on fire! a=17 level=\"fatal\""
    );
}

#[test]
fn reformat_obj_with_time_message_attr_and_no_level_nested_json() {
    let mut fmt = new_formatter();
    fmt.no_colors = true;
    fmt.no_level = true;
    let a = fmt
        .reformat_str(
            "{\"time\": \"2018-01-29T00:50:43.176Z\", \"level\": \"fatal\", \"a\": 17}",
        )
        .unwrap();
    assert_eq!(a, "[2018-01-29T00:50:43.176Z] a=17 level=\"fatal\"");
}

#[test]
fn reformat_obj_with_time_message_attr_and_no_level_nested_json2() {
    let mut fmt = new_formatter();
    fmt.no_colors = true;
    fmt.no_level = true;
    let a = fmt.reformat_str(
        "{\"time\": \"2018-01-29T00:50:43.176Z\", \"level\": \"fatal\", \"a\": 17, \"nested\": {\"prop1\": 5}}",
    ).unwrap();
    assert_eq!(
        a,
        "[2018-01-29T00:50:43.176Z] a=17 level=\"fatal\" nested={\"prop1\":5}"
    );
}

#[test]
fn reformat_obj_with_time_message_attrs_and_level() {
    let fmt = new_formatter();
    let a = fmt.reformat_str(
        "{\"time\": \"2018-01-29T00:50:43.176Z\", \"level\": \"fatal\", \"message\": \"something is on fire!\", \"a\": 17, \"b\": 18}",
    ).unwrap();
    assert_eq!(
        a,
        "[\u{1b}[1;34m2018-01-29T00:50:43.176Z\u{1b}[0m] \u{1b}[31mFATAL\u{1b}[0m: something is on fire! \u{1b}[2;4ma\u{1b}[0m=\u{1b}[37m17\u{1b}[0m \u{1b}[2;4mb\u{1b}[0m=\u{1b}[37m18\u{1b}[0m"
    );
}

#[test]
fn reformat_obj_with_time_message_attrs_and_level_highlight_property() {
    let mut fmt = new_formatter();
    fmt.highlight_properties.push("b".to_string());
    let a = fmt.reformat_str(
        "{\"time\": \"2018-01-29T00:50:43.176Z\", \"level\": \"fatal\", \"message\": \"something is on fire!\", \"a\": 17, \"b\": 18}",
    ).unwrap();
    assert_eq!(
        a,
        "[\u{1b}[1;34m2018-01-29T00:50:43.176Z\u{1b}[0m] \u{1b}[31mFATAL\u{1b}[0m: something is on fire! \u{1b}[2;4ma\u{1b}[0m=\u{1b}[37m17\u{1b}[0m \u{1b}[4;33mb\u{1b}[0m=\u{1b}[37m18\u{1b}[0m"
    );
}

#[test]
fn reformat_obj_with_time_message_attrs_and_level_highlight_properties() {
    let mut fmt = new_formatter();
    fmt.highlight_properties.push("a".to_string());
    fmt.highlight_properties.push("b".to_string());
    let a = fmt.reformat_str(
        "{\"time\": \"2018-01-29T00:50:43.176Z\", \"level\": \"fatal\", \"message\": \"something is on fire!\", \"a\": 17, \"b\": 18}",
    ).unwrap();
    assert_eq!(
        a,
        "[\u{1b}[1;34m2018-01-29T00:50:43.176Z\u{1b}[0m] \u{1b}[31mFATAL\u{1b}[0m: something is on fire! \u{1b}[4;33ma\u{1b}[0m=\u{1b}[37m17\u{1b}[0m \u{1b}[4;33mb\u{1b}[0m=\u{1b}[37m18\u{1b}[0m"
    );
}

#[test]
fn reformat_null() {
    let fmt = new_formatter();
    let a = fmt.reformat_str("null").unwrap();
    assert_eq!(a, "null");
}

#[test]
fn reformat_number() {
    let fmt = new_formatter();
    let a = fmt.reformat_str("5").unwrap();
    assert_eq!(a, "5");
}

#[test]
fn reformat_string() {
    let fmt = new_formatter();
    let a = fmt.reformat_str("\"imma string\"").unwrap();
    assert_eq!(a, "imma string");
}

#[test]
fn reformat_unparsable_string() {
    let fmt = new_formatter();
    let a = fmt.reformat_str("{");
    assert!(a.is_err());
}

#[test]
fn reformat_obj_with_malformed_json() {
    let fmt = new_formatter();
    let a = fmt.reformat_str("{\"time\": \"2018-01-29T00:50:43.176Z\" \"a\": 17}");
    assert!(a.is_err())
}

#[test]
fn reformat_array() {
    let fmt = new_formatter();
    let a = fmt
        .reformat_str("[\"value1\", 1, 2, 3, \"value2\"]")
        .unwrap();
    assert_eq!(a, "[\"value1\" 1 2 3 \"value2\"]");
}
