use redis_lite::command_router::config::{ConfigCommand, ConfigCommandAction};
use redis_lite::command_router::{
    split_id, Command, EchoCommand, GetCommand, IncrCommand, KeysCommand, ParsingError,
    SetCommand, TypeCommand, XAddCommand, XRangeCommand, XRangeStatement, XReadCommand,
};

fn request(parts: &[&str]) -> String {
    let mut s = format!("*{}\r\n", parts.len());
    for p in parts {
        s.push_str(&format!("${}\r\n{}\r\n", p.len(), p));
    }
    s
}

fn parse(parts: &[&str]) -> Result<Command, ParsingError> {
    Command::new(&request(parts))
}

#[test]
fn ping_and_echo() {
    assert_eq!(parse(&["PING"]), Ok(Command::Ping));
    assert_eq!(parse(&["echo", "Hey"]), Ok(Command::Echo(EchoCommand { echo: "hey".to_string() })));
}

#[test]
fn set_with_and_without_px() {
    assert_eq!(
        parse(&["SET", "foo", "bar"]),
        Ok(Command::SetValue(SetCommand { key: "foo".into(), value: "bar".into(), expire_after: None }))
    );
    assert_eq!(
        parse(&["set", "foo", "bar", "PX", "100"]),
        Ok(Command::SetValue(SetCommand {
            key: "foo".into(),
            value: "bar".into(),
            expire_after: Some("100".into())
        }))
    );
    assert_eq!(
        parse(&["set", "foo", "bar", "ex", "100"]),
        Ok(Command::SetValue(SetCommand { key: "foo".into(), value: "bar".into(), expire_after: None }))
    );
}

#[test]
fn simple_commands() {
    assert_eq!(parse(&["get", "k"]), Ok(Command::Get(GetCommand { key: "k".into() })));
    assert_eq!(parse(&["INFO", "replication"]), Ok(Command::Info));
    assert_eq!(parse(&["REPLCONF", "a"]), Ok(Command::Replconf));
    assert_eq!(parse(&["keys", "*"]), Ok(Command::Keys(KeysCommand { pattern: "*".into() })));
    assert_eq!(parse(&["multi"]), Ok(Command::Multi));
    assert_eq!(parse(&["exec"]), Ok(Command::Exec));
    assert_eq!(parse(&["discard"]), Ok(Command::Discard));
    assert_eq!(parse(&["type", "k"]), Ok(Command::Type(TypeCommand { key: "k".into() })));
    assert_eq!(parse(&["flushall"]), Ok(Command::Unrecognized));
}

#[test]
fn config_get() {
    assert_eq!(
        parse(&["CONFIG", "GET", "dir"]),
        Ok(Command::Config(ConfigCommand { action: ConfigCommandAction::Get("dir".into()) }))
    );
    assert_eq!(
        parse(&["config", "set", "dir"]),
        Ok(Command::Config(ConfigCommand { action: ConfigCommandAction::Unrecognized }))
    );
    assert_eq!(
        ConfigCommand::from_statements(&["get", "dbfilename"]),
        ConfigCommand { action: ConfigCommandAction::Get("dbfilename".into()) }
    );
}

#[test]
fn incr_with_default_and_given_step() {
    assert_eq!(parse(&["incr", "n"]), Ok(Command::Incr(IncrCommand { key: "n".into(), step: 1 })));
    assert_eq!(parse(&["incr", "n", "-5"]), Ok(Command::Incr(IncrCommand { key: "n".into(), step: -5 })));
}

#[test]
fn xadd_fields() {
    assert_eq!(
        parse(&["XADD", "s", "1-1", "temp", "36", "hum", "95"]),
        Ok(Command::XAdd(XAddCommand {
            key: "s".into(),
            id: "1-1".into(),
            data: vec![("temp".into(), "36".into()), ("hum".into(), "95".into())],
        }))
    );
    // an item with one space is a field and its value; a repeated field keeps its last value
    assert_eq!(
        parse(&["xadd", "s", "0-1", "a 1", "b", "2", "a", "3"]),
        Ok(Command::XAdd(XAddCommand {
            key: "s".into(),
            id: "0-1".into(),
            data: vec![("a".into(), "3".into()), ("b".into(), "2".into())],
        }))
    );
}

#[test]
fn xrange_statements() {
    assert_eq!(
        parse(&["xrange", "s", "-", "+"]),
        Ok(Command::XRange(XRangeCommand {
            key: "s".into(),
            start_statement: XRangeStatement::Negative,
            end_statement: XRangeStatement::Positive,
        }))
    );
    assert_eq!(
        parse(&["xrange", "s", "10-2", "20"]),
        Ok(Command::XRange(XRangeCommand {
            key: "s".into(),
            start_statement: XRangeStatement::Id((Some(10), Some(2))),
            end_statement: XRangeStatement::Id((Some(20), None)),
        }))
    );
    assert_eq!(split_id("5-x".to_string()), (Some(5), None));
    assert_eq!(XRangeStatement::from_str("+"), Ok(XRangeStatement::Positive));
}

#[test]
fn xread_plain_and_blocking() {
    assert_eq!(
        parse(&["xread", "streams", "a", "b", "0-1", "0-2"]),
        Ok(Command::XRead(XReadCommand {
            keys: vec![("a".into(), "0-1".into()), ("b".into(), "0-2".into())],
            blocking: None,
        }))
    );
    assert_eq!(
        parse(&["xread", "block", "1000", "streams", "a", "$"]),
        Ok(Command::XRead(XReadCommand { keys: vec![("a".into(), "$".into())], blocking: Some(1000) }))
    );
    // exactly three statements after the first word: the third is split at spaces
    assert_eq!(
        parse(&["xread", "streams", "x", "y", "k1 k2 1-0 2-0"]),
        Ok(Command::XRead(XReadCommand {
            keys: vec![("k1".into(), "1-0".into()), ("k2".into(), "2-0".into())],
            blocking: None,
        }))
    );
}

#[test]
fn parsing_errors() {
    assert_eq!(Command::new(""), Err(ParsingError));
    assert_eq!(Command::new("*x\r\n"), Err(ParsingError));
    assert_eq!(Command::new("*2\r\n$4\r\nping\r\n"), Err(ParsingError));
    assert_eq!(Command::new("*0\r\n"), Err(ParsingError));
    assert_eq!(ParsingError.message(), "Error parsing command");
}

#[test]
fn requests_that_cannot_be_read() {
    assert_eq!(Command::parse_checked("\r\n*1\r\n"), None);
    assert_eq!(Command::parse_checked("é1\r\n"), None);
    assert_eq!(Command::parse_checked(&request(&["echo"])), None);
    assert_eq!(Command::parse_checked(&request(&["incr", "k", "x"])), None);
    assert_eq!(Command::parse_checked(&request(&["ping"])), Some(Ok(Command::Ping)));
}

#[test]
fn length_lines() {
    assert_eq!(Command::length_statment("$12"), Ok(12));
    assert_eq!(Command::length_statment("*-1"), Ok(-1));
    assert_eq!(Command::length_statment("$"), Err(ParsingError));
}

#[test]
fn from_lowercase_reads_an_already_lowered_request() {
    assert_eq!(Command::from_lowercase("*1\r\n$4\r\nping\r\n"), Some(Ok(Command::Ping)));
    assert_eq!(Command::from_lowercase("*1\r\n$4\r\nPING\r\n"), Some(Ok(Command::Unrecognized)));
}

#[test]
fn xrange_statement_from_str_trait() {
    assert_eq!("-".parse::<XRangeStatement>(), Ok(XRangeStatement::Negative));
    assert_eq!("7-3".parse::<XRangeStatement>(), Ok(XRangeStatement::Id((Some(7), Some(3)))));
}

#[test]
fn ascii_requests_read_without_regard_to_case() {
    let lower = request(&["set", "mykey", "hello", "px", "100"]);
    let upper = lower.to_ascii_uppercase();
    let mixed = request(&["SeT", "MyKey", "HeLLo", "Px", "100"]);
    assert_eq!(Command::new(&lower), Command::new(&upper));
    assert_eq!(Command::new(&lower), Command::new(&mixed));
    assert_eq!(
        Command::new(&upper),
        Ok(Command::SetValue(SetCommand {
            key: "mykey".into(),
            value: "hello".into(),
            expire_after: Some("100".into()),
        }))
    );
    assert_eq!(Command::parse_checked(&upper), Command::parse_checked(&lower));
    let bad = "*1\r\nXYZ\r\n".to_string();
    assert_eq!(Command::parse_checked(&bad), Command::parse_checked(&bad.to_ascii_lowercase()));
}
