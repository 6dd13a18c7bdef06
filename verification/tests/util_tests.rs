use hase_client::arg_parser::ArgParser;
use hase_client::logger::Logger;
use hase_client::logger::LEVEL_DEEP_TRACE;
use hase_client::logger::LEVEL_INFO;
use hase_client::logger::LEVEL_NONE;
use hase_client::logger::LEVEL_TRACE;
use hase_client::numbers::parse_i32;
use hase_client::numbers::render_u32;

fn args(list: &[&str]) -> Vec<String> {
    list.iter().map(|s| s.to_string()).collect()
}

#[test]
fn parse_i32_accepts_exactly_decimal_i32() {
    assert_eq!(parse_i32("0"), Some(0));
    assert_eq!(parse_i32("007"), Some(7));
    assert_eq!(parse_i32("13050"), Some(13050));
    assert_eq!(parse_i32("-42"), Some(-42));
    assert_eq!(parse_i32("2147483647"), Some(2147483647));
    assert_eq!(parse_i32("2147483648"), None);
    assert_eq!(parse_i32("-2147483648"), Some(-2147483648));
    assert_eq!(parse_i32("-2147483649"), None);
    assert_eq!(parse_i32(""), None);
    assert_eq!(parse_i32("-"), None);
    assert_eq!(parse_i32("12a"), None);
    assert_eq!(parse_i32(" 5"), None);
    assert_eq!(parse_i32("99999999999999999999"), None);
}

#[test]
fn render_u32_writes_decimal() {
    assert_eq!(render_u32(0), "0");
    assert_eq!(render_u32(7), "7");
    assert_eq!(render_u32(13050), "13050");
    assert_eq!(render_u32(4294967295), "4294967295");
}

#[test]
fn arg_parser_pairs_flags_with_values() {
    let parser = ArgParser::new(&args(&["-h", "example.org", "-p", "13050", "-r", "code"]));
    assert_eq!(parser.get_string("-h"), Some("example.org".to_string()));
    assert_eq!(parser.get_string("-p"), Some("13050".to_string()));
    assert_eq!(parser.get_string("-r"), Some("code".to_string()));
    assert_eq!(parser.get_string("--host"), None);
    assert_eq!(parser.get_int("-p"), Some(13050));
    assert_eq!(parser.get_int("-h"), None);
}

#[test]
fn arg_parser_last_value_wins_and_trailing_key_is_dropped() {
    let parser = ArgParser::new(&args(&["-p", "1", "-p", "2", "-x"]));
    assert_eq!(parser.get_string("-p"), Some("2".to_string()));
    assert_eq!(parser.get_string("-x"), None);
    let empty = ArgParser::new(&args(&[]));
    assert_eq!(empty.get_string("-h"), None);
}

// a message is kept exactly when its level is at most the logger's
// configured level, with the level constants of the wire client
#[test]
fn logger_keeps_messages_within_its_level() {
    let keep_all = Logger::new(LEVEL_NONE);
    assert_eq!(keep_all.error("boom"), Some("[ERROR]       boom".to_string()));
    assert_eq!(keep_all.warn("careful"), Some("[WARN]        careful".to_string()));
    assert_eq!(keep_all.info("hello"), Some("[INFO]        hello".to_string()));
    assert_eq!(keep_all.debug("details"), Some("[DEBUG]       details".to_string()));
    assert_eq!(keep_all.very_deep_trace("x"), Some("[V_DEEP_TRACE]x".to_string()));

    let info_logger = Logger::new(LEVEL_INFO);
    assert_eq!(info_logger.info("hello"), Some("[INFO]        hello".to_string()));
    assert_eq!(info_logger.debug("details"), Some("[DEBUG]       details".to_string()));
    assert_eq!(info_logger.warn("careful"), None);
    assert_eq!(info_logger.error("boom"), None);

    let deep = Logger::new(LEVEL_DEEP_TRACE);
    assert_eq!(deep.trace("fine"), None);
    assert_eq!(deep.deep_trace("deep"), Some("[DEEP_TRACE]  deep".to_string()));
    assert_eq!(deep.very_deep_trace("deeper"), Some("[V_DEEP_TRACE]deeper".to_string()));

    let trace_logger = Logger::new(LEVEL_TRACE);
    assert_eq!(trace_logger.trace("fine"), Some("[TRACE]       fine".to_string()));
    assert_eq!(trace_logger.debug("details"), None);
}
