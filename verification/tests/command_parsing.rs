//! Reading commands out of RESP requests (`extract_command`).

use ember::command::command::{extract_command, extract_command_at, Command, CommandError};
use ember::resp::types::RespType;

// A RESP array of bulk strings, as a client sends a command.
fn make_cmd(parts: &[&str]) -> RespType {
    RespType::Array(parts.iter().map(|s| RespType::BulkString(s.to_string())).collect())
}

#[test]
fn extract_ping() {
    assert!(matches!(extract_command(&make_cmd(&["PING"])).unwrap(), Command::PING));
}

#[test]
fn extract_ping_case_insensitive() {
    assert!(matches!(extract_command(&make_cmd(&["ping"])).unwrap(), Command::PING));
    assert!(matches!(extract_command(&make_cmd(&["Ping"])).unwrap(), Command::PING));
}

#[test]
fn extract_echo() {
    let cmd = extract_command(&make_cmd(&["ECHO", "hello"])).unwrap();
    assert!(matches!(cmd, Command::ECHO(ref s) if s == "hello"));
}

#[test]
fn extract_set_without_expiry() {
    let cmd = extract_command(&make_cmd(&["SET", "mykey", "myval"])).unwrap();
    assert!(matches!(cmd, Command::SET(ref k, ref v, None) if k == "mykey" && v == "myval"));
}

#[test]
fn extract_set_with_ex_flag() {
    let cmd = extract_command(&make_cmd(&["SET", "k", "v", "EX", "10"])).unwrap();
    assert!(matches!(cmd, Command::SET(_, _, Some(_))));
}

#[test]
fn extract_set_with_px_flag() {
    let cmd = extract_command(&make_cmd(&["SET", "k", "v", "PX", "5000"])).unwrap();
    assert!(matches!(cmd, Command::SET(_, _, Some(_))));
}

#[test]
fn extract_set_missing_value_returns_error() {
    assert!(extract_command(&make_cmd(&["SET", "only_key"])).is_err());
}

#[test]
fn extract_get() {
    let cmd = extract_command(&make_cmd(&["GET", "mykey"])).unwrap();
    assert!(matches!(cmd, Command::GET(ref k) if k == "mykey"));
}

#[test]
fn extract_delete() {
    let cmd = extract_command(&make_cmd(&["DELETE", "mykey"])).unwrap();
    assert!(matches!(cmd, Command::DELETE(ref k) if k == "mykey"));
}

#[test]
fn extract_lpush_preserves_value_order() {
    let cmd = extract_command(&make_cmd(&["LPUSH", "list", "a", "b", "c"])).unwrap();
    if let Command::LPUSH(key, vals) = cmd {
        assert_eq!(key, "list");
        assert_eq!(vals, vec!["a", "b", "c"]);
    } else {
        panic!("expected Command::LPUSH");
    }
}

#[test]
fn extract_rpush_preserves_value_order() {
    let cmd = extract_command(&make_cmd(&["RPUSH", "list", "x", "y"])).unwrap();
    if let Command::RPUSH(key, vals) = cmd {
        assert_eq!(key, "list");
        assert_eq!(vals, vec!["x", "y"]);
    } else {
        panic!("expected Command::RPUSH");
    }
}

#[test]
fn extract_lrange_positive_indices() {
    let cmd = extract_command(&make_cmd(&["LRANGE", "list", "0", "4"])).unwrap();
    assert!(matches!(cmd, Command::LRANGE(ref k, 0, 4) if k == "list"));
}

#[test]
fn extract_lrange_negative_stop() {
    let cmd = extract_command(&make_cmd(&["LRANGE", "list", "0", "-1"])).unwrap();
    assert!(matches!(cmd, Command::LRANGE(ref k, 0, -1) if k == "list"));
}

#[test]
fn extract_expire_without_option() {
    let cmd = extract_command(&make_cmd(&["EXPIRE", "key", "30"])).unwrap();
    assert!(matches!(cmd, Command::EXPIRE(ref k, _, None) if k == "key"));
}

#[test]
fn extract_expire_with_nx_option() {
    let cmd = extract_command(&make_cmd(&["EXPIRE", "key", "30", "NX"])).unwrap();
    assert!(matches!(cmd, Command::EXPIRE(_, _, Some(ref opt)) if opt == "NX"));
}

#[test]
fn extract_transaction_commands() {
    assert!(matches!(extract_command(&make_cmd(&["MULTI"])).unwrap(), Command::MULTI));
    assert!(matches!(extract_command(&make_cmd(&["EXEC"])).unwrap(), Command::EXEC));
    assert!(matches!(extract_command(&make_cmd(&["DISCARD"])).unwrap(), Command::DISCARD));
}

#[test]
fn extract_save() {
    assert!(matches!(extract_command(&make_cmd(&["SAVE"])).unwrap(), Command::SAVE));
}

#[test]
fn extract_unknown_command_returns_error() {
    assert!(extract_command(&make_cmd(&["FOOBAR"])).is_err());
}

#[test]
fn extract_empty_array_returns_error() {
    assert!(extract_command(&RespType::Array(vec![])).is_err());
}

#[test]
fn extract_non_array_returns_error() {
    assert!(extract_command(&RespType::SimpleString("PING".into())).is_err());
    assert!(extract_command(&RespType::BulkString("PING".into())).is_err());
}

// Exact expiry times, from a fixed clock reading.

#[test]
fn set_ex_is_seconds_from_now() {
    let cmd = extract_command_at(&make_cmd(&["SET", "k", "v", "ex", "10"]), 1_000).unwrap();
    assert!(matches!(cmd, Command::SET(_, _, Some(11_000))));
}

#[test]
fn set_px_is_milliseconds_from_now() {
    let cmd = extract_command_at(&make_cmd(&["SET", "k", "v", "PX", "5000"]), 1_000).unwrap();
    assert!(matches!(cmd, Command::SET(_, _, Some(6_000))));
}

#[test]
fn set_with_unknown_flag_has_no_expiry() {
    let cmd = extract_command_at(&make_cmd(&["SET", "k", "v", "KEEP", "5"]), 1_000).unwrap();
    assert!(matches!(cmd, Command::SET(_, _, None)));
}

#[test]
fn set_with_unparsable_amount_expires_now() {
    let cmd = extract_command_at(&make_cmd(&["SET", "k", "v", "EX", "soon"]), 1_000).unwrap();
    assert!(matches!(cmd, Command::SET(_, _, Some(1_000))));
}

#[test]
fn expire_is_seconds_from_now() {
    let cmd = extract_command_at(&make_cmd(&["EXPIRE", "key", " 30 "]), 500).unwrap();
    assert!(matches!(cmd, Command::EXPIRE(_, 30_500, None)));
}

#[test]
fn expire_with_negative_seconds_is_already_past() {
    let cmd = extract_command_at(&make_cmd(&["EXPIRE", "key", "-2"]), 500).unwrap();
    assert!(matches!(cmd, Command::EXPIRE(_, 0, None)));
    let cmd = extract_command_at(&make_cmd(&["EXPIRE", "key", "-1"]), 5_000).unwrap();
    assert!(matches!(cmd, Command::EXPIRE(_, 4_000, None)));
}

#[test]
fn expire_with_bad_option_is_an_error() {
    let r = extract_command_at(&make_cmd(&["EXPIRE", "key", "30", "YY"]), 0);
    assert_eq!(r.unwrap_err(), CommandError::ExpireOption);
}

#[test]
fn set_arguments_must_be_bulk_strings() {
    let req = RespType::Array(vec![
        RespType::BulkString("SET".into()),
        RespType::Integer(1),
        RespType::BulkString("v".into()),
    ]);
    assert_eq!(extract_command(&req).unwrap_err(), CommandError::SetArgumentType);
}

#[test]
fn command_name_must_be_bulk_string() {
    let req = RespType::Array(vec![RespType::SimpleString("PING".into())]);
    assert_eq!(extract_command(&req).unwrap_err(), CommandError::InvalidFormat);
}

#[test]
fn command_is_an_alias_of_ping() {
    assert!(matches!(extract_command(&make_cmd(&["command"])).unwrap(), Command::PING));
}

#[test]
fn each_argument_error_has_its_message() {
    let cases = [
        (make_cmd(&["SET", "k"]), CommandError::SetArity, "SET command requires two arguments."),
        (make_cmd(&["FOOBAR"]), CommandError::Unknown, "Unknown command."),
        (RespType::Array(vec![]), CommandError::InvalidFormat, "Invalid command format."),
    ];
    for (req, err, msg) in cases.iter() {
        let e = extract_command(req).unwrap_err();
        assert_eq!(e, *err);
        assert_eq!(e.message(), *msg);
    }
    let echo = RespType::Array(vec![RespType::BulkString("ECHO".into()), RespType::Null]);
    assert_eq!(extract_command(&echo).unwrap_err().message(), "ECHO command requires an argument.");
    let get = RespType::Array(vec![RespType::BulkString("GET".into()), RespType::Null]);
    assert_eq!(extract_command(&get).unwrap_err(), CommandError::GetArgument);
    let del = RespType::Array(vec![RespType::BulkString("DELETE".into()), RespType::Null]);
    assert_eq!(extract_command(&del).unwrap_err(), CommandError::DeleteArgument);
    let lp = RespType::Array(vec![RespType::BulkString("LPUSH".into()), RespType::Null]);
    assert_eq!(extract_command(&lp).unwrap_err(), CommandError::LPushArgument);
    let rp = RespType::Array(vec![RespType::BulkString("RPUSH".into()), RespType::Null]);
    assert_eq!(extract_command(&rp).unwrap_err(), CommandError::RPushArgument);
    let lr = RespType::Array(vec![
        RespType::BulkString("LRANGE".into()),
        RespType::BulkString("l".into()),
        RespType::Null,
        RespType::BulkString("1".into()),
    ]);
    assert_eq!(extract_command(&lr).unwrap_err(), CommandError::LRangeArgument);
    let ex = RespType::Array(vec![
        RespType::BulkString("EXPIRE".into()),
        RespType::Null,
        RespType::BulkString("1".into()),
    ]);
    assert_eq!(extract_command(&ex).unwrap_err(), CommandError::ExpireArgument);
}
