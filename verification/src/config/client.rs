//! The state a connection keeps between requests.
use vstd::prelude::*;
use crate::command::command::{
    Command, CommandView, arguments_are_present, arguments_present, command_error_text,
    extract_command_at, spec_extract,
};
use crate::command::dispatcher::{dispatch_at, dispatch_error_text, snapshots_added, spec_dispatch};
use crate::database::store::{DB, DbView};
use crate::resp::parser::{ParseError, ParseFailure, Parser, spec_parse};
use crate::resp::round_trip::{law_resp_round_trip, wire_safe};
use crate::resp::types::{RespType, RespValue, resp_bytes};

verus! {

/// The transaction state of one connection.
#[derive(Clone)]
pub struct Client {
    pub in_transaction: bool,
    pub queued_commands: Vec<Command>,
}

/// A client with its queued commands taken by their views.
pub struct ClientView {
    pub in_transaction: bool,
    pub queued: Seq<CommandView>,
}

impl View for Client {
    type V = ClientView;

    open spec fn view(&self) -> ClientView {
        ClientView {
            in_transaction: self.in_transaction,
            queued: self.queued_commands@.map_values(|c: Command| c@),
        }
    }
}

/// `MULTI`, `EXEC` and `DISCARD`: the commands a transaction never queues.
pub open spec fn is_control(c: CommandView) -> bool {
    c is MULTI || c is EXEC || c is DISCARD
}

impl Client {
    /// No `EXEC` is queued: running it from the queue would run the queue
    /// again, without end.
    pub open spec fn wf(&self) -> bool {
        forall|i: int| 0 <= i < self.queued_commands@.len() ==> !(#[trigger] self.queued_commands@[i]@ is EXEC)
    }

    /// A client outside any transaction, with nothing queued.
    pub fn new() -> (r: Client)
        ensures
            !r.in_transaction,
            r.queued_commands@.len() == 0,
            r.wf(),
    {
        Client { in_transaction: false, queued_commands: Vec::new() }
    }
}

/// What to do after looking at the bytes a connection has buffered.
#[derive(Debug)]
pub enum Step {
    /// No complete request is buffered yet: read more.
    NeedMore,
    /// The buffered bytes are malformed: send the reply and drop them.
    Invalid(RespType),
    /// A request took the first `.0` bytes: drop them and send the reply.
    Reply(usize, RespType),
    /// A request (the first `.0` bytes) names a command without the
    /// arguments that the command reads.
    MissingArguments(usize),
}

/// A `Step` with its reply taken by its value.
pub enum StepView {
    NeedMore,
    Invalid(RespValue),
    Reply(int, RespValue),
    MissingArguments(int),
}

impl View for Step {
    type V = StepView;

    open spec fn view(&self) -> StepView {
        match self {
            Step::NeedMore => StepView::NeedMore,
            Step::Invalid(v) => StepView::Invalid(v.value()),
            Step::Reply(n, v) => StepView::Reply(*n as int, v.value()),
            Step::MissingArguments(n) => StepView::MissingArguments(*n as int),
        }
    }
}

/// What a connection does with its buffered bytes `buf` at time `now`:
/// the client and the store after, the step, and the stores at which a
/// snapshot was taken. The first request is parsed, read as a command and
/// dispatched; a failure at any stage is answered with an error reply that
/// carries its message.
pub open spec fn spec_step(c: ClientView, db: DbView, buf: Seq<u8>, now: u64) -> (
    ClientView,
    DbView,
    StepView,
    Seq<DbView>,
) {
    match spec_parse(buf) {
        Err(ParseFailure::Incomplete) => (c, db, StepView::NeedMore, Seq::empty()),
        Err(ParseFailure::Invalid(m)) => (c, db, StepView::Invalid(RespValue::SimpleError(m)), Seq::empty()),
        Ok((v, n)) => if !arguments_present(v) {
            (c, db, StepView::MissingArguments(n), Seq::empty())
        } else {
            match spec_extract(v, now) {
                Err(e) => (c, db, StepView::Reply(n, RespValue::SimpleError(command_error_text(e))), Seq::empty()),
                Ok(cmd) => {
                    let (c2, d2, r, s) = spec_dispatch(c, db, cmd, now);
                    (
                        c2,
                        d2,
                        StepView::Reply(
                            n,
                            match r {
                                Ok(x) => x,
                                Err(e) => RespValue::SimpleError(dispatch_error_text(e)),
                            },
                        ),
                        s,
                    )
                },
            }
        },
    }
}

impl Client {
    /// Looks at the bytes `buf` that the connection has buffered, at time
    /// `now`, and serves the first request in them (see `spec_step`).
    pub fn step_at(&mut self, db: &mut DB, buf: &[u8], now: u64, snapshots: &mut Vec<Vec<u8>>) -> (r: Step)
        requires
            old(db).wf(),
            old(self).wf(),
        ensures
            final(db).wf(),
            final(self).wf(),
            final(self)@ == spec_step(old(self)@, old(db)@, buf@, now).0,
            final(db)@ == spec_step(old(self)@, old(db)@, buf@, now).1,
            r@ == spec_step(old(self)@, old(db)@, buf@, now).2,
            snapshots_added(old(snapshots)@, final(snapshots)@, spec_step(old(self)@, old(db)@, buf@, now).3, now),
            r matches Step::Reply(n, _) ==> 0 < n <= buf@.len(),
            r matches Step::MissingArguments(n) ==> 0 < n <= buf@.len(),
    {
        let (request, consumed) = match Parser::parse(buf) {
            Ok(p) => p,
            Err(ParseError::Incomplete) => {
                assert(snapshots@ =~= old(snapshots)@);
                return Step::NeedMore;
            },
            Err(ParseError::Invalid(msg)) => {
                assert(snapshots@ =~= old(snapshots)@);
                return Step::Invalid(RespType::SimpleError(msg));
            },
        };
        if !arguments_are_present(&request) {
            assert(snapshots@ =~= old(snapshots)@);
            return Step::MissingArguments(consumed);
        }
        let cmd = match extract_command_at(&request, now) {
            Ok(cmd) => cmd,
            Err(e) => {
                assert(snapshots@ =~= old(snapshots)@);
                return Step::Reply(consumed, RespType::SimpleError(e.message()));
            },
        };
        match dispatch_at(self, db, cmd, now, snapshots) {
            Ok(reply) => Step::Reply(consumed, reply),
            Err(e) => Step::Reply(consumed, RespType::SimpleError(e.message())),
        }
    }

    /// `step_at` with the time taken from the store's clock.
    pub fn step(&mut self, db: &mut DB, buf: &[u8], snapshots: &mut Vec<Vec<u8>>) -> (r: Step)
        requires
            old(db).wf(),
            old(self).wf(),
        ensures
            final(db).wf(),
            final(self).wf(),
            exists|now: u64|
                {
                    &&& final(self)@ == #[trigger] spec_step(old(self)@, old(db)@, buf@, now).0
                    &&& final(db)@ == spec_step(old(self)@, old(db)@, buf@, now).1
                    &&& r@ == spec_step(old(self)@, old(db)@, buf@, now).2
                    &&& snapshots_added(old(snapshots)@, final(snapshots)@, spec_step(old(self)@, old(db)@, buf@, now).3, now)
                },
            r matches Step::Reply(n, _) ==> 0 < n <= buf@.len(),
            r matches Step::MissingArguments(n) ==> 0 < n <= buf@.len(),
    {
        let now = db.now();
        self.step_at(db, buf, now, snapshots)
    }
}

/// Pipelined requests are served one at a time: when the buffered bytes
/// start with the encoding of a request, a step takes exactly the bytes of
/// that request, whatever follows it.
pub proof fn law_step_takes_one_request(c: ClientView, db: DbView, v: RespValue, rest: Seq<u8>, now: u64)
    requires
        wire_safe(v),
    ensures
        match spec_step(c, db, resp_bytes(v) + rest, now).2 {
            StepView::Reply(n, _) => n == resp_bytes(v).len(),
            StepView::MissingArguments(n) => n == resp_bytes(v).len(),
            _ => false,
        },
{
    law_resp_round_trip(v, rest);
}

} // verus!
