//! Running commands against the store, with transactions, and serving a
//! connection's buffered bytes.

use ember::command::command::Command;
use ember::command::dispatcher::{dispatch, dispatch_at, DispatchError, Failure};
use ember::config::client::{Client, Step};
use ember::database::store::{DbError, RedisObject, DB};
use ember::rdb::reader::load_rdb_at;
use ember::resp::types::RespType;

fn ok() -> RespType {
    RespType::SimpleString("Ok".into())
}

fn queued() -> RespType {
    RespType::SimpleString("QUEUED".into())
}

fn run(client: &mut Client, db: &mut DB, cmd: Command) -> Result<RespType, DispatchError> {
    let mut snaps = Vec::new();
    dispatch_at(client, db, cmd, 1_000, &mut snaps)
}

#[test]
fn ping_echo_set_get() {
    let mut c = Client::new();
    let mut db = DB::new_in_memory();
    assert_eq!(run(&mut c, &mut db, Command::PING), Ok(RespType::SimpleString("Pong".into())));
    assert_eq!(run(&mut c, &mut db, Command::ECHO("hi".into())), Ok(RespType::BulkString("hi".into())));
    assert_eq!(run(&mut c, &mut db, Command::SET("k".into(), "v".into(), None)), Ok(ok()));
    assert_eq!(run(&mut c, &mut db, Command::GET("k".into())), Ok(RespType::BulkString("v".into())));
    assert_eq!(run(&mut c, &mut db, Command::DELETE("k".into())), Ok(RespType::BulkString("Ok".into())));
    assert_eq!(run(&mut c, &mut db, Command::GET("k".into())), Ok(RespType::BulkString("nil".into())));
}

#[test]
fn get_of_a_list_is_an_error() {
    let mut c = Client::new();
    let mut db = DB::new_in_memory();
    run(&mut c, &mut db, Command::RPUSH("l".into(), vec!["a".into()])).unwrap();
    let e = run(&mut c, &mut db, Command::GET("l".into())).unwrap_err();
    assert_eq!(e, DispatchError::Command(Failure::WrongType));
    assert_eq!(e.message(), "Wrong data type. Expected String, got List.");
}

#[test]
fn lrange_replies_with_bulk_strings() {
    let mut c = Client::new();
    let mut db = DB::new_in_memory();
    run(&mut c, &mut db, Command::RPUSH("l".into(), vec!["a".into(), "b".into()])).unwrap();
    run(&mut c, &mut db, Command::LPUSH("l".into(), vec!["z".into()])).unwrap();
    assert_eq!(
        run(&mut c, &mut db, Command::LRANGE("l".into(), 0, -1)),
        Ok(RespType::Array(vec![
            RespType::BulkString("z".into()),
            RespType::BulkString("a".into()),
            RespType::BulkString("b".into()),
        ]))
    );
    assert_eq!(run(&mut c, &mut db, Command::LRANGE("none".into(), 0, -1)), Ok(RespType::BulkString("nil".into())));
}

#[test]
fn store_errors_carry_their_message() {
    let mut c = Client::new();
    let mut db = DB::new_in_memory();
    let e = run(&mut c, &mut db, Command::EXPIRE("ghost".into(), 5, None)).unwrap_err();
    assert_eq!(e, DispatchError::Command(Failure::Db(DbError::EntryNotFound)));
    assert_eq!(e.message(), "Failed to execute command. E: Entry not found.");
}

#[test]
fn transaction_queues_then_runs_in_order() {
    let mut c = Client::new();
    let mut db = DB::new_in_memory();
    assert_eq!(run(&mut c, &mut db, Command::MULTI), Ok(ok()));
    assert_eq!(run(&mut c, &mut db, Command::SET("k".into(), "1".into(), None)), Ok(queued()));
    assert_eq!(run(&mut c, &mut db, Command::GET("k".into())), Ok(queued()));
    // Nothing ran yet.
    assert_eq!(db.get_at("k".into(), 0).unwrap(), RedisObject::String("nil".into()));
    assert_eq!(
        run(&mut c, &mut db, Command::EXEC),
        Ok(RespType::Array(vec![ok(), RespType::BulkString("1".into())]))
    );
    assert!(!c.in_transaction);
    assert!(c.queued_commands.is_empty());
}

#[test]
fn nested_multi_is_refused() {
    let mut c = Client::new();
    let mut db = DB::new_in_memory();
    run(&mut c, &mut db, Command::MULTI).unwrap();
    let e = run(&mut c, &mut db, Command::MULTI).unwrap_err();
    assert_eq!(e, DispatchError::NestedMulti);
    assert_eq!(e.message(), "Can not nest multi");
    assert!(c.in_transaction);
}

#[test]
fn discard_drops_the_queue() {
    let mut c = Client::new();
    let mut db = DB::new_in_memory();
    run(&mut c, &mut db, Command::MULTI).unwrap();
    run(&mut c, &mut db, Command::SET("k".into(), "1".into(), None)).unwrap();
    assert_eq!(run(&mut c, &mut db, Command::DISCARD), Ok(ok()));
    assert!(!c.in_transaction && c.queued_commands.is_empty());
    assert_eq!(db.get_at("k".into(), 0).unwrap(), RedisObject::String("nil".into()));
}

#[test]
fn failing_exec_keeps_the_transaction() {
    let mut c = Client::new();
    let mut db = DB::new_in_memory();
    run(&mut c, &mut db, Command::RPUSH("l".into(), vec!["a".into()])).unwrap();
    run(&mut c, &mut db, Command::MULTI).unwrap();
    run(&mut c, &mut db, Command::SET("k".into(), "1".into(), None)).unwrap();
    run(&mut c, &mut db, Command::GET("l".into())).unwrap();
    run(&mut c, &mut db, Command::SET("j".into(), "2".into(), None)).unwrap();
    let e = run(&mut c, &mut db, Command::EXEC).unwrap_err();
    assert_eq!(e, DispatchError::Queued(Failure::WrongType));
    assert_eq!(
        e.message(),
        "Failed to execute queued commands. E: Wrong data type. Expected String, got List."
    );
    // The first command ran; the last did not; the client is still in the
    // transaction with its queue.
    assert_eq!(db.get_at("k".into(), 0).unwrap(), RedisObject::String("1".into()));
    assert_eq!(db.get_at("j".into(), 0).unwrap(), RedisObject::String("nil".into()));
    assert!(c.in_transaction);
    assert_eq!(c.queued_commands.len(), 3);
}

#[test]
fn save_hands_out_a_snapshot() {
    let mut c = Client::new();
    let mut db = DB::new_in_memory();
    let mut snaps = Vec::new();
    dispatch_at(&mut c, &mut db, Command::SET("k".into(), "v".into(), Some(5_000)), 0, &mut snaps).unwrap();
    assert_eq!(dispatch_at(&mut c, &mut db, Command::SAVE, 0, &mut snaps), Ok(ok()));
    assert_eq!(snaps.len(), 1);
    let (data, exps) = load_rdb_at(&snaps[0], 0).unwrap();
    assert_eq!(data, vec![("k".to_string(), RedisObject::String("v".into()))]);
    assert_eq!(exps, vec![("k".to_string(), 5_000u64)]);
}

#[test]
fn saves_in_a_transaction_are_each_taken() {
    let mut c = Client::new();
    let mut db = DB::new_in_memory();
    let mut snaps = Vec::new();
    for cmd in [Command::MULTI, Command::SAVE, Command::SET("k".into(), "v".into(), None), Command::SAVE] {
        dispatch_at(&mut c, &mut db, cmd, 0, &mut snaps).unwrap();
    }
    assert!(snaps.is_empty());
    dispatch_at(&mut c, &mut db, Command::EXEC, 0, &mut snaps).unwrap();
    assert_eq!(snaps.len(), 2);
    assert_eq!(load_rdb_at(&snaps[0], 0).unwrap().0.len(), 0);
    assert_eq!(load_rdb_at(&snaps[1], 0).unwrap().0.len(), 1);
}

#[test]
fn dispatch_reads_the_clock() {
    let mut c = Client::new();
    let mut db = DB::new_in_memory();
    let mut snaps = Vec::new();
    // An expiry far in the future has not passed by the clock.
    dispatch(&mut c, &mut db, Command::SET("k".into(), "v".into(), Some(u64::MAX)), &mut snaps).unwrap();
    assert_eq!(dispatch(&mut c, &mut db, Command::GET("k".into()), &mut snaps), Ok(RespType::BulkString("v".into())));
    // One in 1970 has.
    dispatch(&mut c, &mut db, Command::SET("k".into(), "v".into(), Some(1)), &mut snaps).unwrap();
    assert_eq!(dispatch(&mut c, &mut db, Command::GET("k".into()), &mut snaps), Ok(RespType::BulkString("nil".into())));
}

// Serving buffered bytes.

fn step(c: &mut Client, db: &mut DB, bytes: &[u8]) -> Step {
    let mut snaps = Vec::new();
    c.step_at(db, bytes, 0, &mut snaps)
}

#[test]
fn step_waits_for_a_whole_request() {
    let mut c = Client::new();
    let mut db = DB::new_in_memory();
    assert!(matches!(step(&mut c, &mut db, b"*1\r\n$4\r\nPI"), Step::NeedMore));
    assert!(matches!(step(&mut c, &mut db, b""), Step::NeedMore));
}

#[test]
fn step_serves_the_first_of_pipelined_requests() {
    let mut c = Client::new();
    let mut db = DB::new_in_memory();
    let bytes = b"*1\r\n$4\r\nPING\r\n*2\r\n$4\r\nECHO\r\n$2\r\nhi\r\n";
    match step(&mut c, &mut db, bytes) {
        Step::Reply(n, r) => {
            assert_eq!(n, 14);
            assert_eq!(r, RespType::SimpleString("Pong".into()));
            match step(&mut c, &mut db, &bytes[n..]) {
                Step::Reply(m, r2) => {
                    assert_eq!(n + m, bytes.len());
                    assert_eq!(r2, RespType::BulkString("hi".into()));
                }
                other => panic!("unexpected {other:?}"),
            }
        }
        other => panic!("unexpected {other:?}"),
    }
}

#[test]
fn step_answers_errors_with_their_message() {
    let mut c = Client::new();
    let mut db = DB::new_in_memory();
    match step(&mut c, &mut db, b"FOO bar\r\n") {
        Step::Reply(n, r) => {
            assert_eq!(n, 9);
            assert_eq!(r, RespType::SimpleError("Unknown command.".into()));
        }
        other => panic!("unexpected {other:?}"),
    }
    match step(&mut c, &mut db, b"#x\r\n") {
        Step::Invalid(r) => assert!(matches!(r, RespType::SimpleError(_))),
        other => panic!("unexpected {other:?}"),
    }
    match step(&mut c, &mut db, b"GET nothing\r\nMULTI\r\n") {
        Step::Reply(n, r) => {
            assert_eq!(n, 13);
            assert_eq!(r, RespType::BulkString("nil".into()));
        }
        other => panic!("unexpected {other:?}"),
    }
}

#[test]
fn step_reports_missing_arguments() {
    let mut c = Client::new();
    let mut db = DB::new_in_memory();
    assert!(matches!(step(&mut c, &mut db, b"GET\r\n"), Step::MissingArguments(5)));
    assert!(matches!(step(&mut c, &mut db, b"LRANGE l 0\r\n"), Step::MissingArguments(12)));
}

#[test]
fn step_runs_a_transaction() {
    let mut c = Client::new();
    let mut db = DB::new_in_memory();
    let mut replies = Vec::new();
    for req in [&b"MULTI\r\n"[..], b"SET a 1\r\n", b"NESTED\r\n", b"MULTI\r\n", b"EXEC\r\n"] {
        match step(&mut c, &mut db, req) {
            Step::Reply(_, r) => replies.push(r),
            other => panic!("unexpected {other:?}"),
        }
    }
    assert_eq!(
        replies,
        vec![
            ok(),
            queued(),
            RespType::SimpleError("Unknown command.".into()),
            RespType::SimpleError("Can not nest multi".into()),
            RespType::Array(vec![ok()]),
        ]
    );
}

#[test]
fn queued_transaction_commands_take_effect_when_run() {
    let mut db = DB::new_in_memory();
    let mut setup = Client::new();
    run(&mut setup, &mut db, Command::RPUSH("l".into(), vec!["a".into()])).unwrap();
    // A hand-built queue: DISCARD runs, then GET fails on the list.
    let mut c = Client {
        in_transaction: true,
        queued_commands: vec![Command::SET("k".into(), "1".into(), None), Command::DISCARD, Command::GET("l".into())],
    };
    let e = run(&mut c, &mut db, Command::EXEC).unwrap_err();
    assert_eq!(e, DispatchError::Queued(Failure::WrongType));
    assert!(!c.in_transaction);
    assert!(c.queued_commands.is_empty());
    // A queue whose commands all succeed leaves the transaction whatever
    // they set.
    let mut c2 = Client { in_transaction: true, queued_commands: vec![Command::MULTI, Command::PING] };
    assert_eq!(
        run(&mut c2, &mut db, Command::EXEC),
        Ok(RespType::Array(vec![ok(), RespType::SimpleString("Pong".into())]))
    );
    assert!(!c2.in_transaction && c2.queued_commands.is_empty());
}
