use kadrs::command::{Command, Method};
use kadrs::error::Error;
use kadrs::key::Key;
use std::str::FromStr;

#[test]
fn test_parse_ping() {
    let command = "PING".parse::<Command>().unwrap();
    assert_eq!(command, Command::Ping);
}

#[test]
fn test_parse_store() {
    let command = "STORE key val".parse::<Command>().unwrap();
    assert_eq!(command, Command::Store(Key::from("key"), b"val".to_vec()));
}

#[test]
fn test_parse_find_node() {
    let command = "FIND_NODE key".parse::<Command>().unwrap();
    assert_eq!(command, Command::FindNode(Key::from("key")));
}

#[test]
fn test_parse_find_value() {
    let command = "FIND_VALUE key".parse::<Command>().unwrap();
    assert_eq!(command, Command::FindValue(Key::from("key")));
}

#[test]
fn test_parse_error() {
    let result = Command::from_str("INVALID_COMMAND kkkk");
    assert!(result.is_err(), "parse should return error")
}

#[test]
fn parse_unknown_command_keeps_line() {
    assert_eq!(
        Command::parse("INVALID_COMMAND kkkk"),
        Err(Error::CommandParse("INVALID_COMMAND kkkk".to_owned()))
    );
    assert_eq!(Command::parse(""), Err(Error::CommandParse(String::new())));
    assert_eq!(Command::parse("ping"), Err(Error::CommandParse("ping".to_owned())));
}

#[test]
fn parse_wrong_argument_counts() {
    assert_eq!(
        Command::parse("PING now"),
        Err(Error::InvalidArgumentLength(Method::Ping, 0, 1))
    );
    assert_eq!(
        Command::parse("STORE key"),
        Err(Error::InvalidArgumentLength(Method::Store, 2, 1))
    );
    assert_eq!(
        Command::parse("FIND_NODE"),
        Err(Error::InvalidArgumentLength(Method::FindNode, 1, 0))
    );
    assert_eq!(
        Command::parse("FIND_VALUE a b"),
        Err(Error::InvalidArgumentLength(Method::FindValue, 1, 2))
    );
    // a double space makes an empty word
    assert_eq!(
        Command::parse("FIND_VALUE  key"),
        Err(Error::InvalidArgumentLength(Method::FindValue, 1, 2))
    );
}

#[test]
fn parse_store_keeps_value_bytes() {
    assert_eq!(
        Command::parse("STORE k h\u{e9}llo"),
        Ok(Command::Store(Key::from("k"), "h\u{e9}llo".as_bytes().to_vec()))
    );
    assert_eq!(
        Command::parse("STORE  v"),
        Ok(Command::Store(Key::from(""), b"v".to_vec()))
    );
}
