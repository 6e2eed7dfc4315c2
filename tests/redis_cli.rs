use rcli::redis_cli::{parse_int, reply_kind, CommandType, Config, OptionError, RedisCommand, ReplyKind};

#[test]
fn config_defaults() {
    let c = Config::new();
    assert_eq!(c.hostip, "127.0.0.1");
    assert_eq!(c.hostport, 6379);
    assert_eq!(c.repeat, 1);
    assert_eq!(c.dbnum, 0);
    assert_eq!(c.auth, None);
    assert!(!c.interactive);
}

#[test]
fn build_finds_command_ignoring_case() {
    let c = RedisCommand::build(vec!["get", "key"]).unwrap();
    assert_eq!(c.name, "GET");
    assert_eq!(c.arity, 2);
    assert!(matches!(c.flags, CommandType::Inline));
    assert_eq!(c.argv, vec!["key"]);
}

#[test]
fn build_unknown_command() {
    let e = RedisCommand::build(vec!["nosuch", "x"]).unwrap_err();
    assert_eq!(e, "Unknown command: nosuch");
}

#[test]
fn build_checks_exact_arity() {
    let e = RedisCommand::build(vec!["SET", "k"]).unwrap_err();
    assert_eq!(e, "Wrong number of arguments for 'SET'");
    assert!(RedisCommand::build(vec!["SET", "k", "v"]).is_ok());
    assert!(RedisCommand::build(vec!["SET", "k", "v", "w"]).is_err());
}

#[test]
fn build_checks_least_arity() {
    let e = RedisCommand::build(vec!["Del"]).unwrap_err();
    assert_eq!(e, "Wrong number of arguments for 'DEL'");
    let c = RedisCommand::build(vec!["Del", "a", "b", "c"]).unwrap();
    assert_eq!(c.argv, vec!["a", "b", "c"]);
    assert!(RedisCommand::build(vec!["mset", "a", "1"]).is_ok());
    assert!(RedisCommand::build(vec!["mset", "a"]).is_err());
}

#[test]
fn inline_wire_form() {
    let c = RedisCommand::build(vec!["get", "key"]).unwrap();
    assert_eq!(c.to_resp(), "GET key\r\n");
    let c = RedisCommand::build(vec!["PING"]).unwrap();
    assert_eq!(c.to_resp(), "PING\r\n");
}

#[test]
fn bulk_wire_form() {
    let c = RedisCommand::build(vec!["set", "key", "héllo"]).unwrap();
    assert_eq!(c.to_resp(), "*3\r\n$3\r\nSET\r\n$3\r\nkey\r\n$6\r\nhéllo\r\n");
}

#[test]
fn multibulk_wire_form_with_many_args() {
    let args = vec!["MSET", "a", "1", "b", "2", "c", "3", "d", "4", "e", "5"];
    let c = RedisCommand::build(args).unwrap();
    let s = c.to_resp();
    assert!(s.starts_with("*11\r\n$4\r\nMSET\r\n$1\r\na\r\n$1\r\n1\r\n"));
    assert!(s.ends_with("$1\r\ne\r\n$1\r\n5\r\n"));
}

#[test]
fn long_argument_length_in_decimal() {
    let v = "x".repeat(1234);
    let c = RedisCommand::build(vec!["echo", &v]).unwrap();
    let expected = format!("*2\r\n$4\r\nECHO\r\n$1234\r\n{}\r\n", v);
    assert_eq!(c.to_resp(), expected);
}

fn words(v: &[&str]) -> Vec<String> {
    v.iter().map(|s| s.to_string()).collect()
}

#[test]
fn parse_int_accepts_signs_and_ranges() {
    assert_eq!(parse_int("6380", 0, 65535), Some(6380));
    assert_eq!(parse_int("+7", 0, 255), Some(7));
    assert_eq!(parse_int("007", 0, 255), Some(7));
    assert_eq!(parse_int("-1", -10, 10), Some(-1));
    assert_eq!(parse_int("-0", 0, 255), None);
    assert_eq!(parse_int("256", 0, 255), None);
    assert_eq!(parse_int("65536", 0, 65535), None);
    assert_eq!(parse_int("", 0, 255), None);
    assert_eq!(parse_int("+", 0, 255), None);
    assert_eq!(parse_int("-", i64::MIN, i64::MAX), None);
    assert_eq!(parse_int("1a", 0, 255), None);
    assert_eq!(parse_int(" 1", 0, 255), None);
    assert_eq!(parse_int("9223372036854775807", i64::MIN, i64::MAX), Some(i64::MAX));
    assert_eq!(parse_int("-9223372036854775808", i64::MIN, i64::MAX), Some(i64::MIN));
    assert_eq!(parse_int("9223372036854775808", i64::MIN, i64::MAX), None);
    assert_eq!(parse_int("123456789012345678901234567890", i64::MIN, i64::MAX), None);
}

#[test]
fn parse_options_reads_all_flags() {
    let mut c = Config::new();
    let args = words(&["prog", "-h", "example", "-p", "7000", "-r", "-3", "-n", "4", "-a", "pw", "-i", "GET", "k"]);
    assert_eq!(c.parse_options(&args).unwrap(), 12);
    assert_eq!(c.hostip, "example");
    assert_eq!(c.hostport, 7000);
    assert_eq!(c.repeat, -3);
    assert_eq!(c.dbnum, 4);
    assert_eq!(c.auth, Some("pw".to_string()));
    assert!(c.interactive);
}

#[test]
fn parse_options_stops_at_first_other_word() {
    let mut c = Config::new();
    assert_eq!(c.parse_options(&words(&["prog"])).unwrap(), 1);
    assert_eq!(c.parse_options(&words(&["prog", "PING", "-i"])).unwrap(), 1);
    assert!(!c.interactive);
    assert_eq!(c.parse_options(&words(&["prog", "-p"])).unwrap(), 1);
    assert_eq!(c.hostport, 6379);
}

#[test]
fn parse_options_errors() {
    let mut c = Config::new();
    assert!(matches!(c.parse_options(&words(&["prog", "-h"])), Err(OptionError::Usage)));
    match Config::new().parse_options(&words(&["prog", "-p", "70000"])) {
        Err(OptionError::InvalidPort(s)) => assert_eq!(s, "70000"),
        other => panic!("{:?}", other),
    }
    match Config::new().parse_options(&words(&["prog", "-r", "x"])) {
        Err(OptionError::InvalidRepeat(s)) => assert_eq!(s, "x"),
        other => panic!("{:?}", other),
    }
    match Config::new().parse_options(&words(&["prog", "-n", "-1"])) {
        Err(OptionError::InvalidDbNum(s)) => assert_eq!(s, "-1"),
        other => panic!("{:?}", other),
    }
}

#[test]
fn reply_kinds_by_first_byte() {
    assert_eq!(reply_kind(b'+'), Some(ReplyKind::Status));
    assert_eq!(reply_kind(b'-'), Some(ReplyKind::Error));
    assert_eq!(reply_kind(b':'), Some(ReplyKind::Integer));
    assert_eq!(reply_kind(b'$'), Some(ReplyKind::Bulk));
    assert_eq!(reply_kind(b'*'), Some(ReplyKind::MultiBulk));
    assert_eq!(reply_kind(b'x'), None);
}
