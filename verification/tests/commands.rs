//! Command parsing and execution: arity rules, the expiry modifier, the
//! wire-level request/reply scenarios, and lazy expiration end to end.

use respkv::cmd::{respond, Command, CommandError};
use respkv::resp::{RespDT, RespHandler};
use respkv::store::Db;

fn bulk(s: &[u8]) -> RespDT {
    RespDT::Bulk(s.to_vec())
}

fn command_array(words: &[&[u8]]) -> RespDT {
    RespDT::Array(words.iter().map(|w| bulk(w)).collect())
}

fn parse(words: &[&[u8]], now: u64) -> Result<Command, CommandError> {
    Command::try_from(command_array(words), now)
}

/// Feeds one encoded request through decode, parse and execute.
fn serve(db: &mut Db, input: &[u8], now: u64) -> Vec<u8> {
    let mut parser = RespHandler::new(input.to_vec());
    let value = parser.decode().unwrap().unwrap();
    respond(value, db, now)
}

#[test]
fn ping_parses_and_replies_pong() {
    assert!(matches!(parse(&[b"ping"], 0), Ok(Command::Ping(_))));
    assert!(matches!(parse(&[b"PING"], 0), Ok(Command::Ping(_))));
    let mut db = Db::new();
    assert_eq!(serve(&mut db, b"*1\r\n$4\r\nPING\r\n", 0), b"+PONG\r\n".to_vec());
}

#[test]
fn echo_replies_with_its_argument() {
    match parse(&[b"ECHO", b"hey"], 0) {
        Ok(Command::Echo(c)) => assert_eq!(c.message, b"hey".to_vec()),
        other => panic!("unexpected: {:?}", other),
    }
    let mut db = Db::new();
    assert_eq!(
        serve(&mut db, b"*2\r\n$4\r\nECHO\r\n$3\r\nhey\r\n", 0),
        b"+hey\r\n".to_vec()
    );
}

#[test]
fn echo_arity_errors() {
    assert_eq!(parse(&[b"echo"], 0).unwrap_err(), CommandError::InvalidArguments);
    assert_eq!(
        parse(&[b"echo", b"a", b"b"], 0).unwrap_err(),
        CommandError::InvalidArguments
    );
}

#[test]
fn get_arity_errors() {
    assert_eq!(parse(&[b"get"], 0).unwrap_err(), CommandError::InvalidArguments);
    assert_eq!(
        parse(&[b"get", b"a", b"b"], 0).unwrap_err(),
        CommandError::InvalidArguments
    );
}

#[test]
fn set_arity_errors() {
    assert_eq!(parse(&[b"set"], 0).unwrap_err(), CommandError::InvalidArguments);
    assert_eq!(
        parse(&[b"set", b"k"], 0).unwrap_err(),
        CommandError::InvalidArguments
    );
    // Three arguments: neither the plain nor the expiry-bearing form.
    assert_eq!(
        parse(&[b"set", b"k", b"v", b"px"], 0).unwrap_err(),
        CommandError::InvalidArguments
    );
    // Four arguments whose third is not the expiry keyword.
    assert_eq!(
        parse(&[b"set", b"k", b"v", b"ex", b"10"], 0).unwrap_err(),
        CommandError::InvalidArguments
    );
}

#[test]
fn set_without_expiry_parses() {
    match parse(&[b"SET", b"k", b"v"], 99) {
        Ok(Command::SetKey(c)) => {
            assert_eq!(c.key, b"k".to_vec());
            assert_eq!(c.value, b"v".to_vec());
            assert_eq!(c.expiry, None);
        },
        other => panic!("unexpected: {:?}", other),
    }
}

#[test]
fn set_with_px_parses_to_absolute_expiry() {
    match parse(&[b"set", b"k", b"v", b"PX", b"10"], 1000) {
        Ok(Command::SetKey(c)) => assert_eq!(c.expiry, Some(1010)),
        other => panic!("unexpected: {:?}", other),
    }
    // The modifier keyword is case-insensitive.
    match parse(&[b"set", b"k", b"v", b"Px", b"7"], 0) {
        Ok(Command::SetKey(c)) => assert_eq!(c.expiry, Some(7)),
        other => panic!("unexpected: {:?}", other),
    }
}

#[test]
fn bad_expiry_values_are_reported() {
    assert_eq!(
        parse(&[b"set", b"k", b"v", b"px", b"-5"], 0).unwrap_err(),
        CommandError::InvalidArguments
    );
    assert_eq!(
        parse(&[b"set", b"k", b"v", b"px", b"ten"], 0).unwrap_err(),
        CommandError::InvalidArguments
    );
    // An expiry that would overflow the 64-bit clock.
    assert_eq!(
        parse(&[b"set", b"k", b"v", b"px", b"18446744073709551615"], 1).unwrap_err(),
        CommandError::InvalidArguments
    );
}

#[test]
fn unknown_command_is_reported() {
    assert_eq!(parse(&[b"llen", b"mylist"], 0).unwrap_err(), CommandError::UnknownCommand);
}

#[test]
fn non_command_values_are_invalid() {
    assert_eq!(
        Command::try_from(RespDT::SimpleString(b"ping".to_vec()), 0).unwrap_err(),
        CommandError::InvalidCommand
    );
    assert_eq!(
        Command::try_from(RespDT::Array(Vec::new()), 0).unwrap_err(),
        CommandError::InvalidCommand
    );
    assert_eq!(
        Command::try_from(
            RespDT::Array(vec![RespDT::Integer(1), RespDT::Bulk(b"x".to_vec())]),
            0
        )
        .unwrap_err(),
        CommandError::InvalidCommand
    );
    // A non-bulk argument in a required position.
    assert_eq!(
        Command::try_from(
            RespDT::Array(vec![bulk(b"echo"), RespDT::Integer(1)]),
            0
        )
        .unwrap_err(),
        CommandError::InvalidCommand
    );
}

#[test]
fn set_then_get_round_trip_on_the_wire() {
    let mut db = Db::new();
    assert_eq!(
        serve(&mut db, b"*3\r\n$3\r\nSET\r\n$1\r\na\r\n$1\r\n1\r\n", 0),
        b"+OK\r\n".to_vec()
    );
    assert_eq!(
        serve(&mut db, b"*2\r\n$3\r\nGET\r\n$1\r\na\r\n", 0),
        b"+1\r\n".to_vec()
    );
}

#[test]
fn get_missing_key_replies_null_bulk() {
    let mut db = Db::new();
    assert_eq!(
        serve(&mut db, b"*2\r\n$3\r\nGET\r\n$7\r\nmissing\r\n", 0),
        b"$-1\r\n".to_vec()
    );
}

#[test]
fn command_error_earns_an_error_reply() {
    let mut db = Db::new();
    assert_eq!(
        serve(&mut db, b"*2\r\n$4\r\nLLEN\r\n$6\r\nmylist\r\n", 0),
        b"-ERR unknown command\r\n".to_vec()
    );
    assert_eq!(
        serve(&mut db, b"*1\r\n$4\r\nECHO\r\n", 0),
        b"-ERR invalid arguments\r\n".to_vec()
    );
}

#[test]
fn ttl_expires_lazily_at_read_time() {
    let mut db = Db::new();
    // SET k v PX 10 at time 0 gives the entry an absolute expiry of 10.
    assert_eq!(
        serve(&mut db, b"*5\r\n$3\r\nSET\r\n$1\r\nk\r\n$1\r\nv\r\n$2\r\nPX\r\n$2\r\n10\r\n", 0),
        b"+OK\r\n".to_vec()
    );
    // Read before the expiry: the value, store untouched.
    assert_eq!(
        serve(&mut db, b"*2\r\n$3\r\nGET\r\n$1\r\nk\r\n", 5),
        b"+v\r\n".to_vec()
    );
    // Read after the expiry: absent, and the entry is removed.
    assert_eq!(
        serve(&mut db, b"*2\r\n$3\r\nGET\r\n$1\r\nk\r\n", 15),
        b"$-1\r\n".to_vec()
    );
    // Even a read back at an earlier time now finds nothing: the removal
    // was a real side effect, not a view at one timestamp.
    assert_eq!(
        serve(&mut db, b"*2\r\n$3\r\nGET\r\n$1\r\nk\r\n", 0),
        b"$-1\r\n".to_vec()
    );
}
