//! Runs commands against the store, within a client's transaction state.
use vstd::prelude::*;
use crate::command::command::{Command, CommandView};
use crate::config::client::{Client, ClientView, is_control};
use crate::database::store::{
    DB, DbError, DbView, RedisObject, RedisValue, db_error_text, in_sync, is_snapshot_of, law_store_keeps_maps_in_sync,
    lemma_object_values,
    object_values, spec_expire, spec_get, spec_lrange, spec_push, spec_set, without_key,
};
use crate::resp::types::{RespType, RespValue, lemma_values_of, values_of};

verus! {

/// Why a single command failed.
#[derive(Debug, Clone, Copy, PartialEq, Eq, Structural)]
pub enum Failure {
    /// The store refused the operation.
    Db(DbError),
    /// `GET` of a key that holds a list.
    WrongType,
}

/// Why a dispatched command failed.
#[derive(Debug, Clone, Copy, PartialEq, Eq, Structural)]
pub enum DispatchError {
    /// `MULTI` inside a transaction.
    NestedMulti,
    /// The command failed.
    Command(Failure),
    /// A command queued in the transaction failed during `EXEC`.
    Queued(Failure),
}

pub open spec fn failure_text(f: Failure) -> Seq<char> {
    match f {
        Failure::Db(e) => "Failed to execute command. E: "@ + db_error_text(e),
        Failure::WrongType => "Wrong data type. Expected String, got List."@,
    }
}

pub open spec fn dispatch_error_text(e: DispatchError) -> Seq<char> {
    match e {
        DispatchError::NestedMulti => "Can not nest multi"@,
        DispatchError::Command(f) => failure_text(f),
        DispatchError::Queued(f) => "Failed to execute queued commands. E: "@ + failure_text(f),
    }
}

impl Failure {
    /// The message sent back to the client.
    pub fn message(&self) -> (r: String)
        ensures
            r@ == failure_text(*self),
    {
        match self {
            Failure::Db(e) => {
                let mut s = String::from_str("Failed to execute command. E: ");
                let m = e.message();
                s.append(m.as_str());
                s
            },
            Failure::WrongType => String::from_str("Wrong data type. Expected String, got List."),
        }
    }
}

impl DispatchError {
    /// The message sent back to the client.
    pub fn message(&self) -> (r: String)
        ensures
            r@ == dispatch_error_text(*self),
    {
        match self {
            DispatchError::NestedMulti => String::from_str("Can not nest multi"),
            DispatchError::Command(f) => f.message(),
            DispatchError::Queued(f) => {
                let mut s = String::from_str("Failed to execute queued commands. E: ");
                let m = f.message();
                s.append(m.as_str());
                s
            },
        }
    }
}

/// The reply `+Ok`.
pub open spec fn ok_reply() -> RespValue {
    RespValue::SimpleString("Ok"@)
}

/// List items made from texts.
pub open spec fn text_values(vs: Seq<Seq<char>>) -> Seq<RedisValue> {
    vs.map_values(|s: Seq<char>| RedisValue::Text(s))
}

/// The text items of a list as bulk strings, in order; other items are
/// left out.
pub open spec fn text_items(l: Seq<RedisValue>) -> Seq<RespValue>
    decreases l.len(),
{
    if l.len() == 0 {
        Seq::empty()
    } else {
        let rest = text_items(l.drop_last());
        match l.last() {
            RedisValue::Text(s) => rest.push(RespValue::BulkString(s)),
            RedisValue::List(_) => rest,
        }
    }
}

/// What a command that a transaction queues does at time `now`: the store
/// after it and its reply. (The transaction commands are run by
/// `spec_dispatch`.)
pub open spec fn spec_run(db: DbView, cmd: CommandView, now: u64) -> (DbView, Result<RespValue, Failure>) {
    match cmd {
        CommandView::PING => (db, Ok(RespValue::SimpleString("Pong"@))),
        CommandView::ECHO(m) => (db, Ok(RespValue::BulkString(m))),
        CommandView::SET(k, v, e) => (spec_set(db, k, RedisValue::Text(v), e), Ok(ok_reply())),
        CommandView::GET(k) => {
            let (d, v) = spec_get(db, k, now);
            match v {
                RedisValue::Text(s) => (d, Ok(RespValue::BulkString(s))),
                RedisValue::List(_) => (d, Err(Failure::WrongType)),
            }
        },
        CommandView::DELETE(k) => (without_key(db, k), Ok(RespValue::BulkString("Ok"@))),
        CommandView::EXPIRE(k, t, o) => match spec_expire(db, k, t, o) {
            Ok(d) => (d, Ok(ok_reply())),
            Err(e) => (db, Err(Failure::Db(e))),
        },
        CommandView::LPUSH(k, vs) => match spec_push(db, k, text_values(vs), true) {
            Ok(d) => (d, Ok(ok_reply())),
            Err(e) => (db, Err(Failure::Db(e))),
        },
        CommandView::RPUSH(k, vs) => match spec_push(db, k, text_values(vs), false) {
            Ok(d) => (d, Ok(ok_reply())),
            Err(e) => (db, Err(Failure::Db(e))),
        },
        CommandView::LRANGE(k, a, b) => {
            let (d, r) = spec_lrange(db, k, a, b, now);
            match r {
                Ok(RedisValue::List(l)) => (d, Ok(RespValue::Array(text_items(l)))),
                Ok(RedisValue::Text(s)) => (d, Ok(RespValue::BulkString(s))),
                Err(e) => (d, Err(Failure::Db(e))),
            }
        },
        CommandView::SAVE => (db, Ok(ok_reply())),
        CommandView::MULTI => (db, Ok(ok_reply())),
        CommandView::DISCARD => (db, Ok(ok_reply())),
        CommandView::EXEC => (db, Ok(ok_reply())),
    }
}

/// The stores at which `cmd` takes a snapshot: `db` for `SAVE`, none
/// otherwise.
pub open spec fn saves_of(db: DbView, cmd: CommandView) -> Seq<DbView> {
    if cmd is SAVE {
        seq![db]
    } else {
        Seq::empty()
    }
}

/// `after` is `before` followed by one snapshot of each store in `states`,
/// each taken at time `now`.
pub open spec fn snapshots_added(before: Seq<Vec<u8>>, after: Seq<Vec<u8>>, states: Seq<DbView>, now: u64) -> bool {
    &&& after.len() == before.len() + states.len()
    &&& forall|i: int| 0 <= i < before.len() ==> #[trigger] after[i]@ == before[i]@
    &&& forall|j: int| 0 <= j < states.len() ==> is_snapshot_of(#[trigger] after[before.len() + j]@, states[j], now)
}

proof fn lemma_snapshots_chain(a: Seq<Vec<u8>>, b: Seq<Vec<u8>>, c: Seq<Vec<u8>>, x: Seq<DbView>, y: Seq<DbView>, now: u64)
    requires
        snapshots_added(a, b, x, now),
        snapshots_added(b, c, y, now),
    ensures
        snapshots_added(a, c, x + y, now),
{
    assert forall|j: int| 0 <= j < (x + y).len() implies is_snapshot_of(#[trigger] c[a.len() + j]@, (x + y)[j], now) by {
        if j < x.len() {
            assert(c[a.len() + j]@ == b[a.len() + j]@);
        } else {
            assert(c[b.len() + (j - x.len())]@ == c[a.len() + j]@);
        }
    }
}

pub open spec fn reply_outcome(r: Result<RespType, Failure>) -> Result<RespValue, Failure> {
    match r {
        Ok(v) => Ok(v.value()),
        Err(f) => Err(f),
    }
}

/// Bulk strings of the text items of `list`.
fn text_replies(list: &Vec<RedisObject>) -> (r: Vec<RespType>)
    ensures
        values_of(r@) == text_items(object_values(list@)),
{
    proof {
        lemma_object_values(list@);
    }
    let mut out: Vec<RespType> = Vec::new();
    let mut i: usize = 0;
    while i < list.len()
        invariant
            i <= list@.len(),
            object_values(list@).len() == list@.len(),
            forall|j: int| 0 <= j < list@.len() ==> #[trigger] object_values(list@)[j] == list@[j].value(),
            values_of(out@) == text_items(object_values(list@).subrange(0, i as int)),
        decreases list@.len() - i,
    {
        let ghost prev = out@;
        proof {
            assert(object_values(list@).subrange(0, i + 1).drop_last() =~= object_values(list@).subrange(
                0,
                i as int,
            ));
            lemma_values_of(prev);
        }
        match &list[i] {
            RedisObject::String(s) => {
                out.push(RespType::BulkString(s.clone()));
                proof {
                    lemma_values_of(out@);
                    assert(values_of(out@) =~= values_of(prev).push(RespValue::BulkString(s@)));
                }
            },
            RedisObject::List(_) => {},
        }
        i = i + 1;
    }
    assert(object_values(list@).subrange(0, list@.len() as int) =~= object_values(list@));
    out
}

/// List items made from `vals`.
fn text_objects(vals: &Vec<String>) -> (r: Vec<RedisObject>)
    ensures
        object_values(r@) == text_values(vals@.map_values(|s: String| s@)),
{
    let mut out: Vec<RedisObject> = Vec::new();
    let mut i: usize = 0;
    while i < vals.len()
        invariant
            i <= vals@.len(),
            out@.len() == i,
            forall|j: int| 0 <= j < i ==> #[trigger] out@[j].value() == RedisValue::Text(vals@[j]@),
        decreases vals@.len() - i,
    {
        out.push(RedisObject::String(vals[i].clone()));
        i = i + 1;
    }
    proof {
        lemma_object_values(out@);
        assert(object_values(out@) =~= text_values(vals@.map_values(|s: String| s@)));
    }
    out
}

/// Runs one command that a transaction queues, at time `now`; a `SAVE`
/// adds a snapshot of the store to `snapshots`.
fn run_command(db: &mut DB, cmd: &Command, now: u64, snapshots: &mut Vec<Vec<u8>>) -> (r: Result<RespType, Failure>)
    requires
        old(db).wf(),
    ensures
        final(db).wf(),
        final(db)@ == spec_run(old(db)@, cmd@, now).0,
        reply_outcome(r) == spec_run(old(db)@, cmd@, now).1,
        snapshots_added(old(snapshots)@, final(snapshots)@, saves_of(old(db)@, cmd@), now),
{
    match cmd {
        Command::PING => Ok(RespType::SimpleString(String::from_str("Pong"))),
        Command::ECHO(m) => Ok(RespType::BulkString(m.clone())),
        Command::SET(k, v, e) => {
            let _ = db.set(k.clone(), RedisObject::String(v.clone()), *e);
            Ok(RespType::SimpleString(String::from_str("Ok")))
        },
        Command::GET(k) => match db.get_at(k.clone(), now) {
            Ok(RedisObject::String(s)) => Ok(RespType::BulkString(s)),
            Ok(RedisObject::List(_)) => Err(Failure::WrongType),
            Err(e) => Err(Failure::Db(e)),
        },
        Command::DELETE(k) => {
            let _ = db.delete(k.clone());
            Ok(RespType::BulkString(String::from_str("Ok")))
        },
        Command::EXPIRE(k, t, o) => {
            let opt: Option<String> = match o {
                Some(s) => Some(s.clone()),
                None => None,
            };
            match db.expire(k.clone(), *t, opt) {
                Ok(()) => Ok(RespType::SimpleString(String::from_str("Ok"))),
                Err(e) => Err(Failure::Db(e)),
            }
        },
        Command::LPUSH(k, vals) => {
            let values = text_objects(vals);
            match db.lpush(k.clone(), values) {
                Ok(()) => Ok(RespType::SimpleString(String::from_str("Ok"))),
                Err(e) => Err(Failure::Db(e)),
            }
        },
        Command::RPUSH(k, vals) => {
            let values = text_objects(vals);
            match db.rpush(k.clone(), values) {
                Ok(()) => Ok(RespType::SimpleString(String::from_str("Ok"))),
                Err(e) => Err(Failure::Db(e)),
            }
        },
        Command::LRANGE(k, a, b) => match db.lrange_at(k.clone(), *a, *b, now) {
            Ok(RedisObject::List(list)) => {
                let items = text_replies(&list);
                Ok(RespType::Array(items))
            },
            Ok(RedisObject::String(s)) => Ok(RespType::BulkString(s)),
            Err(e) => Err(Failure::Db(e)),
        },
        Command::SAVE => {
            let image = db.save_rdb_at(now);
            snapshots.push(image);
            Ok(RespType::SimpleString(String::from_str("Ok")))
        },
        Command::MULTI => Ok(RespType::SimpleString(String::from_str("Ok"))),
        Command::DISCARD => Ok(RespType::SimpleString(String::from_str("Ok"))),
        Command::EXEC => Ok(RespType::SimpleString(String::from_str("Ok"))),
    }
}

/// What a queued command that ran does to the client's transaction state:
/// `MULTI` enters a transaction, `DISCARD` leaves one, both with the queue
/// emptied; the last of them counts.
pub open spec fn control_after(flag: Option<bool>, cmd: CommandView) -> Option<bool> {
    match cmd {
        CommandView::MULTI => Some(true),
        CommandView::DISCARD => Some(false),
        _ => flag,
    }
}

/// The client after a run of its queue that failed: as it was, unless a
/// queued `MULTI` or `DISCARD` ran.
pub open spec fn client_after(c: ClientView, flag: Option<bool>) -> ClientView {
    match flag {
        None => c,
        Some(b) => ClientView { in_transaction: b, queued: Seq::empty() },
    }
}

/// `EXEC`'s run of the queue `q` at time `now`: the commands in order until
/// one fails; gives the store after, the replies or the failure, the stores
/// at which a snapshot was taken, and the last transaction command that
/// ran (`control_after`).
pub open spec fn spec_run_queue(db: DbView, q: Seq<CommandView>, now: u64) -> (
    DbView,
    Result<Seq<RespValue>, Failure>,
    Seq<DbView>,
    Option<bool>,
)
    decreases q.len(),
{
    if q.len() == 0 {
        (db, Ok(Seq::empty()), Seq::empty(), None)
    } else {
        let (d1, r1, s1, f1) = spec_run_queue(db, q.drop_last(), now);
        match r1 {
            Err(f) => (d1, Err(f), s1, f1),
            Ok(rs) => {
                let (d2, r2) = spec_run(d1, q.last(), now);
                let s2 = s1 + saves_of(d1, q.last());
                match r2 {
                    Ok(v) => (d2, Ok(rs.push(v)), s2, control_after(f1, q.last())),
                    Err(f) => (d2, Err(f), s2, f1),
                }
            },
        }
    }
}

/// What `dispatch` does with `cmd` at time `now`, for a client in state
/// `c`: the client and the store after, the reply, and the stores at which
/// a snapshot was taken. Inside a transaction `MULTI` is refused, `EXEC`
/// and `DISCARD` run, and any other command is queued.
pub open spec fn spec_dispatch(c: ClientView, db: DbView, cmd: CommandView, now: u64) -> (
    ClientView,
    DbView,
    Result<RespValue, DispatchError>,
    Seq<DbView>,
) {
    if c.in_transaction && cmd is MULTI {
        (c, db, Err(DispatchError::NestedMulti), Seq::empty())
    } else if c.in_transaction && !(cmd is EXEC || cmd is DISCARD) {
        (
            ClientView { in_transaction: true, queued: c.queued.push(cmd) },
            db,
            Ok(RespValue::SimpleString("QUEUED"@)),
            Seq::empty(),
        )
    } else {
        spec_execute(c, db, cmd, now)
    }
}

/// A command run at once (outside a transaction, or `EXEC` and `DISCARD`
/// inside one). An `EXEC` whose queue fails leaves the client as it was,
/// unless a queued `MULTI` or `DISCARD` ran before the failure.
pub open spec fn spec_execute(c: ClientView, db: DbView, cmd: CommandView, now: u64) -> (
    ClientView,
    DbView,
    Result<RespValue, DispatchError>,
    Seq<DbView>,
) {
    match cmd {
        CommandView::MULTI => (ClientView { in_transaction: true, queued: Seq::empty() }, db, Ok(ok_reply()), Seq::empty()),
        CommandView::DISCARD => (ClientView { in_transaction: false, queued: Seq::empty() }, db, Ok(ok_reply()), Seq::empty()),
        CommandView::EXEC => {
            let (d, r, s, flag) = spec_run_queue(db, c.queued, now);
            match r {
                Ok(rs) => (ClientView { in_transaction: false, queued: Seq::empty() }, d, Ok(RespValue::Array(rs)), s),
                Err(f) => (client_after(c, flag), d, Err(DispatchError::Queued(f)), s),
            }
        },
        _ => {
            let (d, r) = spec_run(db, cmd, now);
            (
                c,
                d,
                match r {
                    Ok(v) => Ok(v),
                    Err(f) => Err(DispatchError::Command(f)),
                },
                saves_of(db, cmd),
            )
        },
    }
}

pub open spec fn dispatch_outcome(r: Result<RespType, DispatchError>) -> Result<RespValue, DispatchError> {
    match r {
        Ok(v) => Ok(v.value()),
        Err(e) => Err(e),
    }
}

/// Once a prefix of the queue fails, the rest of the queue is not run.
proof fn lemma_run_queue_stops(db: DbView, q: Seq<CommandView>, k: int, j: int, now: u64)
    requires
        0 <= k <= j <= q.len(),
        spec_run_queue(db, q.subrange(0, k), now).1 is Err,
    ensures
        spec_run_queue(db, q.subrange(0, j), now) == spec_run_queue(db, q.subrange(0, k), now),
    decreases j - k,
{
    if j > k {
        lemma_run_queue_stops(db, q, k, j - 1, now);
        assert(q.subrange(0, j).drop_last() =~= q.subrange(0, j - 1));
    }
}

/// The transaction state that `flag` leaves: as `in_tx` was, or as the
/// last queued `MULTI` or `DISCARD` set it.
pub open spec fn in_transaction_after(in_tx: bool, flag: Option<bool>) -> bool {
    match flag {
        None => in_tx,
        Some(b) => b,
    }
}

/// Runs the commands queued in the transaction, in order. A queued `MULTI`
/// or `DISCARD` sets the transaction state and empties the queue; on a
/// failure the queue is kept unless one of them ran, and the failure is
/// returned.
fn run_queue(client: &mut Client, db: &mut DB, now: u64, snapshots: &mut Vec<Vec<u8>>) -> (r: Result<Vec<RespType>, Failure>)
    requires
        old(db).wf(),
        old(client).wf(),
    ensures
        final(db).wf(),
        final(client).wf(),
        final(db)@ == spec_run_queue(old(db)@, old(client)@.queued, now).0,
        match spec_run_queue(old(db)@, old(client)@.queued, now).1 {
            Ok(rs) => r matches Ok(v) && values_of(v@) == rs && final(client).queued_commands@.len() == 0,
            Err(f) => r == Err::<Vec<RespType>, Failure>(f) && final(client)@ == client_after(
                old(client)@,
                spec_run_queue(old(db)@, old(client)@.queued, now).3,
            ),
        },
        snapshots_added(old(snapshots)@, final(snapshots)@, spec_run_queue(old(db)@, old(client)@.queued, now).2, now),
{
    let ghost q = old(client)@.queued;
    let mut queue: Vec<Command> = Vec::new();
    std::mem::swap(&mut queue, &mut client.queued_commands);
    assert(queue@.map_values(|c: Command| c@) == q);
    let mut replies: Vec<RespType> = Vec::new();
    let mut reset: Option<bool> = None;
    let mut i: usize = 0;
    assert(q.subrange(0, 0) =~= Seq::<CommandView>::empty());
    while i < queue.len()
        invariant
            i <= queue@.len(),
            q == queue@.map_values(|c: Command| c@),
            queue@ == old(client).queued_commands@,
            old(client).wf(),
            client.queued_commands@.len() == 0,
            client.in_transaction == in_transaction_after(old(client).in_transaction, reset),
            reset == spec_run_queue(old(db)@, q.subrange(0, i as int), now).3,
            db.wf(),
            db@ == spec_run_queue(old(db)@, q.subrange(0, i as int), now).0,
            spec_run_queue(old(db)@, q.subrange(0, i as int), now).1 == Ok::<Seq<RespValue>, Failure>(values_of(replies@)),
            snapshots_added(old(snapshots)@, snapshots@, spec_run_queue(old(db)@, q.subrange(0, i as int), now).2, now),
        decreases queue@.len() - i,
    {
        let ghost d1 = db@;
        let ghost s1 = snapshots@;
        let ghost prev = replies@;
        let ghost f1 = reset;
        proof {
            assert(q.subrange(0, i + 1).drop_last() =~= q.subrange(0, i as int));
            assert(q.subrange(0, i + 1).last() == queue@[i as int]@);
        }
        let res = run_command(db, &queue[i], now, snapshots);
        proof {
            lemma_snapshots_chain(old(snapshots)@, s1, snapshots@, spec_run_queue(old(db)@, q.subrange(0, i as int), now).2, saves_of(d1, queue@[i as int]@), now);
        }
        match res {
            Ok(rep) => {
                match &queue[i] {
                    Command::MULTI => {
                        client.in_transaction = true;
                        reset = Some(true);
                    },
                    Command::DISCARD => {
                        client.in_transaction = false;
                        reset = Some(false);
                    },
                    _ => {},
                }
                assert(reset == control_after(f1, queue@[i as int]@));
                replies.push(rep);
                proof {
                    lemma_values_of(replies@);
                    lemma_values_of(prev);
                    assert(values_of(replies@) =~= values_of(prev).push(rep.value()));
                }
            },
            Err(f) => {
                proof {
                    let p1 = q.subrange(0, i + 1);
                    assert(p1.drop_last() =~= q.subrange(0, i as int));
                    assert(p1.last() == queue@[i as int]@);
                    assert(spec_run(d1, p1.last(), now).1 == Err::<RespValue, Failure>(f));
                    assert(spec_run_queue(old(db)@, p1, now).1 == Err::<Seq<RespValue>, Failure>(f));
                    assert(spec_run_queue(old(db)@, p1, now).0 == db@);
                    assert(spec_run_queue(old(db)@, p1, now).3 == reset);
                    lemma_run_queue_stops(old(db)@, q, i + 1, q.len() as int, now);
                    assert(q.subrange(0, q.len() as int) =~= q);
                    assert(spec_run_queue(old(db)@, q, now).1 == Err::<Seq<RespValue>, Failure>(f));
                    assert(spec_run_queue(old(db)@, q, now).0 == db@);
                }
                match reset {
                    None => {
                        client.queued_commands = queue;
                    },
                    Some(_) => {
                        assert(client@.queued =~= Seq::<CommandView>::empty());
                    },
                }
                return Err(f);
            },
        }
        i = i + 1;
    }
    assert(q.subrange(0, queue@.len() as int) =~= q);
    Ok(replies)
}

/// Runs `cmd` at once: `MULTI` and `DISCARD` set the transaction state,
/// `EXEC` runs the queue, any other command runs against the store.
fn execute(client: &mut Client, db: &mut DB, cmd: Command, now: u64, snapshots: &mut Vec<Vec<u8>>) -> (r: Result<RespType, DispatchError>)
    requires
        old(db).wf(),
        old(client).wf(),
    ensures
        final(db).wf(),
        final(client).wf(),
        final(client)@ == spec_execute(old(client)@, old(db)@, cmd@, now).0,
        final(db)@ == spec_execute(old(client)@, old(db)@, cmd@, now).1,
        dispatch_outcome(r) == spec_execute(old(client)@, old(db)@, cmd@, now).2,
        snapshots_added(old(snapshots)@, final(snapshots)@, spec_execute(old(client)@, old(db)@, cmd@, now).3, now),
{
    match cmd {
        Command::MULTI => {
            client.in_transaction = true;
            client.queued_commands.clear();
            assert(client@.queued =~= Seq::<CommandView>::empty());
            assert(snapshots@ =~= old(snapshots)@);
            Ok(RespType::SimpleString(String::from_str("Ok")))
        },
        Command::DISCARD => {
            client.in_transaction = false;
            client.queued_commands.clear();
            assert(client@.queued =~= Seq::<CommandView>::empty());
            assert(snapshots@ =~= old(snapshots)@);
            Ok(RespType::SimpleString(String::from_str("Ok")))
        },
        Command::EXEC => {
            match run_queue(client, db, now, snapshots) {
                Ok(replies) => {
                    client.in_transaction = false;
                    assert(client@.queued =~= Seq::<CommandView>::empty());
                    proof {
                        lemma_values_of(replies@);
                    }
                    Ok(RespType::Array(replies))
                },
                Err(f) => Err(DispatchError::Queued(f)),
            }
        },
        other => {
            match run_command(db, &other, now, snapshots) {
                Ok(reply) => Ok(reply),
                Err(f) => Err(DispatchError::Command(f)),
            }
        },
    }
}

/// Handles `cmd` for `client` at time `now`: inside a transaction `MULTI`
/// is refused, `EXEC` and `DISCARD` run and any other command is queued;
/// outside one the command runs. Each `SAVE` that runs adds a snapshot of
/// the store to `snapshots`, for the caller to write out.
pub fn dispatch_at(client: &mut Client, db: &mut DB, cmd: Command, now: u64, snapshots: &mut Vec<Vec<u8>>) -> (r: Result<RespType, DispatchError>)
    requires
        old(db).wf(),
        old(client).wf(),
    ensures
        final(db).wf(),
        final(client).wf(),
        final(client)@ == spec_dispatch(old(client)@, old(db)@, cmd@, now).0,
        final(db)@ == spec_dispatch(old(client)@, old(db)@, cmd@, now).1,
        dispatch_outcome(r) == spec_dispatch(old(client)@, old(db)@, cmd@, now).2,
        snapshots_added(old(snapshots)@, final(snapshots)@, spec_dispatch(old(client)@, old(db)@, cmd@, now).3, now),
{
    if client.in_transaction {
        match cmd {
            Command::MULTI => {
                assert(snapshots@ =~= old(snapshots)@);
                return Err(DispatchError::NestedMulti);
            },
            Command::EXEC => {
                return execute(client, db, Command::EXEC, now, snapshots);
            },
            Command::DISCARD => {
                return execute(client, db, Command::DISCARD, now, snapshots);
            },
            other => {
                let ghost c = other@;
                client.queued_commands.push(other);
                assert(client@.queued =~= old(client)@.queued.push(c));
                assert(snapshots@ =~= old(snapshots)@);
                return Ok(RespType::SimpleString(String::from_str("QUEUED")));
            },
        }
    }
    execute(client, db, cmd, now, snapshots)
}

/// `dispatch_at` with the time taken from the store's clock.
pub fn dispatch(client: &mut Client, db: &mut DB, cmd: Command, snapshots: &mut Vec<Vec<u8>>) -> (r: Result<RespType, DispatchError>)
    requires
        old(db).wf(),
        old(client).wf(),
    ensures
        final(db).wf(),
        final(client).wf(),
        exists|now: u64|
            {
                &&& final(client)@ == #[trigger] spec_dispatch(old(client)@, old(db)@, cmd@, now).0
                &&& final(db)@ == spec_dispatch(old(client)@, old(db)@, cmd@, now).1
                &&& dispatch_outcome(r) == spec_dispatch(old(client)@, old(db)@, cmd@, now).2
                &&& snapshots_added(old(snapshots)@, final(snapshots)@, spec_dispatch(old(client)@, old(db)@, cmd@, now).3, now)
            },
{
    let now = db.now();
    dispatch_at(client, db, cmd, now, snapshots)
}

// ---------------------------------------------------------------------------
// Laws of transactions
// ---------------------------------------------------------------------------

/// Commands dispatched one after the other at time `now`: the client and
/// the store after the last, and the replies in order.
pub open spec fn dispatch_all(c: ClientView, db: DbView, cmds: Seq<CommandView>, now: u64) -> (
    ClientView,
    DbView,
    Seq<Result<RespValue, DispatchError>>,
)
    decreases cmds.len(),
{
    if cmds.len() == 0 {
        (c, db, Seq::empty())
    } else {
        let (c1, d1, rs) = dispatch_all(c, db, cmds.drop_last(), now);
        let (c2, d2, r, _s) = spec_dispatch(c1, d1, cmds.last(), now);
        (c2, d2, rs.push(r))
    }
}

/// None of `cmds` is `MULTI`, `EXEC` or `DISCARD`.
pub open spec fn plain_commands(cmds: Seq<CommandView>) -> bool {
    forall|i: int| 0 <= i < cmds.len() ==> !is_control(#[trigger] cmds[i])
}

/// The reply `+QUEUED`, `n` times.
pub open spec fn queued_replies(n: nat) -> Seq<Result<RespValue, DispatchError>> {
    Seq::new(n, |i: int| Ok::<RespValue, DispatchError>(RespValue::SimpleString("QUEUED"@)))
}

/// After `MULTI`, each command is queued, answered `QUEUED`, and leaves the
/// store as it was.
pub proof fn law_commands_are_queued(c: ClientView, db: DbView, cmds: Seq<CommandView>, now: u64)
    requires
        !c.in_transaction,
        plain_commands(cmds),
    ensures
        dispatch_all(c, db, seq![CommandView::MULTI] + cmds, now) == (
            ClientView { in_transaction: true, queued: cmds },
            db,
            seq![Ok::<RespValue, DispatchError>(ok_reply())] + queued_replies(cmds.len()),
        ),
    decreases cmds.len(),
{
    let all = seq![CommandView::MULTI] + cmds;
    if cmds.len() == 0 {
        assert(all.drop_last() =~= Seq::<CommandView>::empty());
        assert(all.last() == CommandView::MULTI);
        assert(cmds =~= Seq::<CommandView>::empty());
        assert(queued_replies(0) =~= Seq::<Result<RespValue, DispatchError>>::empty());
        let e0 = dispatch_all(c, db, all.drop_last(), now);
        assert(e0.0 == c && e0.1 == db && e0.2 =~= Seq::<Result<RespValue, DispatchError>>::empty());
        let r = dispatch_all(c, db, all, now);
        assert(r.0 == ClientView { in_transaction: true, queued: Seq::<CommandView>::empty() });
        assert(r.1 == db);
        assert(r.2 =~= seq![Ok::<RespValue, DispatchError>(ok_reply())] + queued_replies(0));
    } else {
        let init = cmds.drop_last();
        assert(plain_commands(init)) by {
            assert forall|i: int| 0 <= i < init.len() implies !is_control(#[trigger] init[i]) by {
                assert(init[i] == cmds[i]);
            }
        }
        law_commands_are_queued(c, db, init, now);
        assert(all.drop_last() =~= seq![CommandView::MULTI] + init);
        assert(all.last() == cmds.last());
        assert(!is_control(cmds[cmds.len() - 1]));
        assert(init.push(cmds.last()) =~= cmds);
        let prev = dispatch_all(c, db, seq![CommandView::MULTI] + init, now);
        let step = spec_dispatch(prev.0, prev.1, cmds.last(), now);
        assert(step.0 == ClientView { in_transaction: true, queued: cmds });
        assert(step.1 == db);
        let r = dispatch_all(c, db, all, now);
        assert(r.0 == step.0);
        assert(r.1 == step.1);
        assert(r.2 == prev.2.push(step.2));
        assert((seq![Ok::<RespValue, DispatchError>(ok_reply())] + queued_replies(init.len())).push(
            Ok::<RespValue, DispatchError>(RespValue::SimpleString("QUEUED"@)),
        ) =~= seq![Ok::<RespValue, DispatchError>(ok_reply())] + queued_replies(cmds.len()));
    }
}

/// A queue without transaction commands leaves the transaction state alone.
proof fn lemma_plain_queue_keeps_state(db: DbView, cmds: Seq<CommandView>, now: u64)
    requires
        plain_commands(cmds),
    ensures
        spec_run_queue(db, cmds, now).3 is None,
    decreases cmds.len(),
{
    if cmds.len() > 0 {
        let init = cmds.drop_last();
        assert(plain_commands(init)) by {
            assert forall|i: int| 0 <= i < init.len() implies !is_control(#[trigger] init[i]) by {
                assert(init[i] == cmds[i]);
            }
        }
        assert(!is_control(cmds[cmds.len() - 1]));
        lemma_plain_queue_keeps_state(db, init, now);
    }
}

/// **Transactions**: `MULTI`, commands, `EXEC` runs the commands in order
/// against the store, only at `EXEC`. The reply to `EXEC` is the array of
/// their replies, and the client leaves the transaction; when one fails,
/// the reply is that failure, the commands before it keep their effect, and
/// the client stays in the transaction with its queue.
pub proof fn law_transaction_exec(c: ClientView, db: DbView, cmds: Seq<CommandView>, now: u64)
    requires
        !c.in_transaction,
        plain_commands(cmds),
    ensures
        ({
            let (c2, d2, rs) = dispatch_all(c, db, seq![CommandView::MULTI] + cmds + seq![CommandView::EXEC], now);
            let (d, r, _s, _flag) = spec_run_queue(db, cmds, now);
            &&& d2 == d
            &&& rs.len() == cmds.len() + 2
            &&& rs.take(cmds.len() as int + 1) == seq![Ok::<RespValue, DispatchError>(ok_reply())] + queued_replies(cmds.len())
            &&& match r {
                Ok(replies) => rs.last() == Ok::<RespValue, DispatchError>(RespValue::Array(replies)) && c2
                    == ClientView { in_transaction: false, queued: Seq::<CommandView>::empty() },
                Err(f) => rs.last() == Err::<RespValue, DispatchError>(DispatchError::Queued(f)) && c2
                    == ClientView { in_transaction: true, queued: cmds },
            }
        }),
{
    law_commands_are_queued(c, db, cmds, now);
    lemma_plain_queue_keeps_state(db, cmds, now);
    let all = seq![CommandView::MULTI] + cmds + seq![CommandView::EXEC];
    assert(all.drop_last() =~= seq![CommandView::MULTI] + cmds);
    let (c2, d2, rs) = dispatch_all(c, db, all, now);
    let prefix = seq![Ok::<RespValue, DispatchError>(ok_reply())] + queued_replies(cmds.len());
    assert(rs.take(cmds.len() as int + 1) =~= prefix);
}

/// `MULTI`, commands, `DISCARD` leaves the store as it was and the client
/// out of any transaction with nothing queued.
pub proof fn law_transaction_discard(c: ClientView, db: DbView, cmds: Seq<CommandView>, now: u64)
    requires
        !c.in_transaction,
        plain_commands(cmds),
    ensures
        ({
            let (c2, d2, rs) = dispatch_all(c, db, seq![CommandView::MULTI] + cmds + seq![CommandView::DISCARD], now);
            &&& d2 == db
            &&& c2 == ClientView { in_transaction: false, queued: Seq::<CommandView>::empty() }
            &&& rs == seq![Ok::<RespValue, DispatchError>(ok_reply())] + queued_replies(cmds.len()) + seq![
                Ok::<RespValue, DispatchError>(ok_reply()),
            ]
        }),
{
    law_commands_are_queued(c, db, cmds, now);
    let all = seq![CommandView::MULTI] + cmds + seq![CommandView::DISCARD];
    assert(all.drop_last() =~= seq![CommandView::MULTI] + cmds);
    let (c2, d2, rs) = dispatch_all(c, db, all, now);
    assert(rs =~= seq![Ok::<RespValue, DispatchError>(ok_reply())] + queued_replies(cmds.len()) + seq![
        Ok::<RespValue, DispatchError>(ok_reply()),
    ]);
}

/// `MULTI` inside a transaction is refused and changes nothing.
pub proof fn law_nested_multi(c: ClientView, db: DbView, now: u64)
    requires
        c.in_transaction,
    ensures
        spec_dispatch(c, db, CommandView::MULTI, now) == (c, db, Err::<RespValue, DispatchError>(DispatchError::NestedMulti), Seq::<DbView>::empty()),
{
}

/// **Pushes onto a list**: outside a transaction, `RPUSH key v1 .. vn` on a
/// key that holds the list `l` leaves it holding `l` followed by the
/// values, in the order given, and `LPUSH` leaves it holding the values
/// followed by `l`; on a missing key both leave it holding the values. Each
/// answers `+Ok`, touches no other key and no expiry time, and a command run
/// from a transaction's queue does the same.
pub proof fn law_dispatch_push(c: ClientView, db: DbView, k: Seq<char>, vs: Seq<Seq<char>>, now: u64)
    requires
        !c.in_transaction,
    ensures
        ({
            let items = vs.map_values(|s: Seq<char>| RedisValue::Text(s));
            let pushed = |l: Seq<RedisValue>| DbView { data: db.data.insert(k, RedisValue::List(l)), expirations: db.expirations };
            let ok = Ok::<RespValue, DispatchError>(RespValue::SimpleString("Ok"@));
            &&& db.data.contains_key(k) && db.data[k] is List ==> {
                let l = db.data[k]->List_0;
                &&& spec_dispatch(c, db, CommandView::RPUSH(k, vs), now) == (c, pushed(l + items), ok, Seq::<DbView>::empty())
                &&& spec_dispatch(c, db, CommandView::LPUSH(k, vs), now) == (c, pushed(items + l), ok, Seq::<DbView>::empty())
                &&& spec_run(db, CommandView::RPUSH(k, vs), now).0 == pushed(l + items)
                &&& spec_run(db, CommandView::LPUSH(k, vs), now).0 == pushed(items + l)
            }
            &&& !db.data.contains_key(k) ==> {
                &&& spec_dispatch(c, db, CommandView::RPUSH(k, vs), now) == (c, pushed(items), ok, Seq::<DbView>::empty())
                &&& spec_dispatch(c, db, CommandView::LPUSH(k, vs), now) == (c, pushed(items), ok, Seq::<DbView>::empty())
                &&& spec_run(db, CommandView::RPUSH(k, vs), now).0 == pushed(items)
                &&& spec_run(db, CommandView::LPUSH(k, vs), now).0 == pushed(items)
            }
        }),
{
    let items = vs.map_values(|s: Seq<char>| RedisValue::Text(s));
    assert(text_values(vs) =~= items);
}

/// A transaction whose commands all succeed leaves the store as sending
/// the commands one by one outside a transaction does, and its replies are
/// theirs.
pub proof fn law_exec_matches_direct(c: ClientView, db: DbView, cmds: Seq<CommandView>, now: u64)
    requires
        !c.in_transaction,
        plain_commands(cmds),
        spec_run_queue(db, cmds, now).1 is Ok,
    ensures
        dispatch_all(c, db, cmds, now).0 == c,
        dispatch_all(c, db, cmds, now).1 == spec_run_queue(db, cmds, now).0,
        dispatch_all(c, db, cmds, now).2 == spec_run_queue(db, cmds, now).1->Ok_0.map_values(
            |v: RespValue| Ok::<RespValue, DispatchError>(v),
        ),
    decreases cmds.len(),
{
    if cmds.len() > 0 {
        let init = cmds.drop_last();
        assert(plain_commands(init)) by {
            assert forall|i: int| 0 <= i < init.len() implies !is_control(#[trigger] init[i]) by {
                assert(init[i] == cmds[i]);
            }
        }
        assert(!is_control(cmds[cmds.len() - 1]));
        law_exec_matches_direct(c, db, init, now);
        let rs = spec_run_queue(db, cmds, now).1->Ok_0;
        let rs0 = spec_run_queue(db, init, now).1->Ok_0;
        assert(rs.map_values(|v: RespValue| Ok::<RespValue, DispatchError>(v)) =~= rs0.map_values(
            |v: RespValue| Ok::<RespValue, DispatchError>(v),
        ).push(Ok::<RespValue, DispatchError>(rs.last())));
    } else {
        assert(spec_run_queue(db, cmds, now).1->Ok_0.map_values(|v: RespValue| Ok::<RespValue, DispatchError>(v))
            =~= Seq::<Result<RespValue, DispatchError>>::empty());
    }
}

/// One command keeps the store's maps in sync.
proof fn lemma_run_in_sync(db: DbView, cmd: CommandView, now: u64)
    requires
        in_sync(db),
    ensures
        in_sync(spec_run(db, cmd, now).0),
{
    match cmd {
        CommandView::SET(k, v, e) => law_store_keeps_maps_in_sync(db, k, RedisValue::Text(v), e, Seq::empty(), true, 0, 0, 0, None, Seq::empty(), now),
        CommandView::GET(k) => law_store_keeps_maps_in_sync(db, k, RedisValue::Text(Seq::empty()), None, Seq::empty(), true, 0, 0, 0, None, Seq::empty(), now),
        CommandView::DELETE(k) => law_store_keeps_maps_in_sync(db, k, RedisValue::Text(Seq::empty()), None, Seq::empty(), true, 0, 0, 0, None, Seq::empty(), now),
        CommandView::EXPIRE(k, t, o) => law_store_keeps_maps_in_sync(db, k, RedisValue::Text(Seq::empty()), None, Seq::empty(), true, 0, 0, t, o, Seq::empty(), now),
        CommandView::LPUSH(k, vs) => law_store_keeps_maps_in_sync(db, k, RedisValue::Text(Seq::empty()), None, text_values(vs), true, 0, 0, 0, None, Seq::empty(), now),
        CommandView::RPUSH(k, vs) => law_store_keeps_maps_in_sync(db, k, RedisValue::Text(Seq::empty()), None, text_values(vs), false, 0, 0, 0, None, Seq::empty(), now),
        CommandView::LRANGE(k, a, b) => law_store_keeps_maps_in_sync(db, k, RedisValue::Text(Seq::empty()), None, Seq::empty(), true, a, b, 0, None, Seq::empty(), now),
        _ => {},
    }
}

proof fn lemma_run_queue_in_sync(db: DbView, q: Seq<CommandView>, now: u64)
    requires
        in_sync(db),
    ensures
        in_sync(spec_run_queue(db, q, now).0),
    decreases q.len(),
{
    if q.len() > 0 {
        lemma_run_queue_in_sync(db, q.drop_last(), now);
        lemma_run_in_sync(spec_run_queue(db, q.drop_last(), now).0, q.last(), now);
    }
}

/// **The maps stay in sync** through dispatch: no command, queued or run,
/// leaves an expiry time on a key without a value.
pub proof fn law_dispatch_keeps_maps_in_sync(c: ClientView, db: DbView, cmd: CommandView, now: u64)
    requires
        in_sync(db),
    ensures
        in_sync(spec_dispatch(c, db, cmd, now).1),
{
    lemma_run_in_sync(db, cmd, now);
    lemma_run_queue_in_sync(db, c.queued, now);
}

} // verus!
