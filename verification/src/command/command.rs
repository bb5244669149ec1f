//! Commands, and how they are read from a RESP request.
use vstd::prelude::*;
use crate::resp::types::{RespType, RespValue, lemma_values_of, values_of};
use crate::utils::clock::now_millis;
use crate::utils::text::{ascii_upper, str_eq, to_ascii_uppercase};
use crate::utils::{int_argument, parse_int};

verus! {

/// A request the server understands. Expiry times are absolute, in
/// milliseconds since the Unix epoch.
#[derive(Debug, Clone)]
pub enum Command {
    PING,
    ECHO(String),
    SET(String, String, Option<u64>),
    GET(String),
    DELETE(String),
    LPUSH(String, Vec<String>),
    RPUSH(String, Vec<String>),
    LRANGE(String, i32, i32),
    EXPIRE(String, u64, Option<String>),
    MULTI,
    DISCARD,
    EXEC,
    SAVE,
}

/// A command with its strings taken by their characters.
pub enum CommandView {
    PING,
    ECHO(Seq<char>),
    SET(Seq<char>, Seq<char>, Option<u64>),
    GET(Seq<char>),
    DELETE(Seq<char>),
    LPUSH(Seq<char>, Seq<Seq<char>>),
    RPUSH(Seq<char>, Seq<Seq<char>>),
    LRANGE(Seq<char>, i32, i32),
    EXPIRE(Seq<char>, u64, Option<Seq<char>>),
    MULTI,
    DISCARD,
    EXEC,
    SAVE,
}

pub open spec fn texts(v: Seq<String>) -> Seq<Seq<char>> {
    v.map_values(|s: String| s@)
}

impl View for Command {
    type V = CommandView;

    open spec fn view(&self) -> CommandView {
        match self {
            Command::PING => CommandView::PING,
            Command::ECHO(m) => CommandView::ECHO(m@),
            Command::SET(k, v, e) => CommandView::SET(k@, v@, *e),
            Command::GET(k) => CommandView::GET(k@),
            Command::DELETE(k) => CommandView::DELETE(k@),
            Command::LPUSH(k, vs) => CommandView::LPUSH(k@, texts(vs@)),
            Command::RPUSH(k, vs) => CommandView::RPUSH(k@, texts(vs@)),
            Command::LRANGE(k, a, b) => CommandView::LRANGE(k@, *a, *b),
            Command::EXPIRE(k, t, o) => CommandView::EXPIRE(k@, *t, match o {
                Some(s) => Some(s@),
                None => None,
            }),
            Command::MULTI => CommandView::MULTI,
            Command::DISCARD => CommandView::DISCARD,
            Command::EXEC => CommandView::EXEC,
            Command::SAVE => CommandView::SAVE,
        }
    }
}

/// Why a request is not a command.
#[derive(Debug, Clone, Copy, PartialEq, Eq, Structural)]
pub enum CommandError {
    InvalidFormat,
    EchoArgument,
    SetArity,
    SetArgumentType,
    GetArgument,
    DeleteArgument,
    LPushArgument,
    RPushArgument,
    LRangeArgument,
    ExpireArgument,
    ExpireOption,
    Unknown,
}

/// The message of a `CommandError`, as sent back to the client.
pub open spec fn command_error_text(e: CommandError) -> Seq<char> {
    match e {
        CommandError::InvalidFormat => "Invalid command format."@,
        CommandError::EchoArgument => "ECHO command requires an argument."@,
        CommandError::SetArity => "SET command requires two arguments."@,
        CommandError::SetArgumentType => "SET arguments must be bulk strings."@,
        CommandError::GetArgument => "GET command requires an argument."@,
        CommandError::DeleteArgument => "DELETE command requires an argument."@,
        CommandError::LPushArgument => "LPUSH command requires an argument."@,
        CommandError::RPushArgument => "RPUSH command requires an argument."@,
        CommandError::LRangeArgument => "LRANGE command requires an argument."@,
        CommandError::ExpireArgument => "EXPIRE command requires an argument."@,
        CommandError::ExpireOption => "Invalid option in expire command. Only NX, XX, GT, LT are supported."@,
        CommandError::Unknown => "Unknown command."@,
    }
}

impl CommandError {
    /// The message sent back to the client.
    pub fn message(&self) -> (r: String)
        ensures
            r@ == command_error_text(*self),
    {
        let m = match self {
            CommandError::InvalidFormat => "Invalid command format.",
            CommandError::EchoArgument => "ECHO command requires an argument.",
            CommandError::SetArity => "SET command requires two arguments.",
            CommandError::SetArgumentType => "SET arguments must be bulk strings.",
            CommandError::GetArgument => "GET command requires an argument.",
            CommandError::DeleteArgument => "DELETE command requires an argument.",
            CommandError::LPushArgument => "LPUSH command requires an argument.",
            CommandError::RPushArgument => "RPUSH command requires an argument.",
            CommandError::LRangeArgument => "LRANGE command requires an argument.",
            CommandError::ExpireArgument => "EXPIRE command requires an argument.",
            CommandError::ExpireOption => "Invalid option in expire command. Only NX, XX, GT, LT are supported.",
            CommandError::Unknown => "Unknown command.",
        };
        String::from_str(m)
    }
}

// ---------------------------------------------------------------------------
// What a request means
// ---------------------------------------------------------------------------

/// The point in time `ms` milliseconds after `now`, where `ms` is taken as
/// an unsigned 64-bit count (`ms as u64`); times past the end of the clock
/// stay at its end.
pub open spec fn deadline(now: u64, ms: i32) -> u64 {
    let add: int = if ms >= 0 { ms as int } else { ms as int + 0x1_0000_0000_0000_0000 };
    if now + add > u64::MAX { u64::MAX } else { (now + add) as u64 }
}

/// The point in time `secs` seconds after `now` (before it, for a negative
/// count), held within the range of the clock.
pub open spec fn deadline_in_seconds(now: u64, secs: i32) -> u64 {
    let t: int = now + secs * 1000;
    if t < 0 {
        0
    } else if t > u64::MAX {
        u64::MAX
    } else {
        t as u64
    }
}

/// The texts of the bulk strings among `args`, in order; other values are
/// left out.
pub open spec fn bulk_texts(args: Seq<RespValue>) -> Seq<Seq<char>>
    decreases args.len(),
{
    if args.len() == 0 {
        Seq::empty()
    } else {
        let rest = bulk_texts(args.drop_last());
        match args.last() {
            RespValue::BulkString(s) => rest.push(s),
            _ => rest,
        }
    }
}

/// The number of arguments a command reads without checking they are there.
pub open spec fn needed_arguments(cmd: Seq<char>) -> nat {
    if cmd == "ECHO"@ || cmd == "GET"@ || cmd == "DELETE"@ || cmd == "LPUSH"@ || cmd == "RPUSH"@ {
        1
    } else if cmd == "LRANGE"@ {
        3
    } else if cmd == "EXPIRE"@ {
        2
    } else {
        0
    }
}

/// A request that names a command carries at least the arguments that the
/// command reads.
pub open spec fn arguments_present(v: RespValue) -> bool {
    match v {
        RespValue::Array(items) => items.len() == 0 || match items[0] {
            RespValue::BulkString(c) => needed_arguments(ascii_upper(c)) <= items.len() - 1,
            _ => true,
        },
        _ => true,
    }
}

/// The expiry of a `SET` with the flag and amount `flag`, `amount`.
pub open spec fn set_expiry(flag: Seq<char>, amount: Seq<char>, now: u64) -> Option<u64> {
    let n = int_argument(amount);
    let f = ascii_upper(flag);
    if f == "EX"@ {
        Some(deadline(now, vstd::wrapping::i32_specs::wrapping_mul(n, 1000)))
    } else if f == "PX"@ {
        Some(deadline(now, n))
    } else {
        None
    }
}

pub open spec fn is_expire_option(o: Seq<char>) -> bool {
    o == "NX"@ || o == "XX"@ || o == "GT"@ || o == "LT"@
}

/// The command named `cmd` (already in upper case) with arguments `args`,
/// read at time `now`.
pub open spec fn spec_parse_command(cmd: Seq<char>, args: Seq<RespValue>, now: u64) -> Result<
    CommandView,
    CommandError,
> {
    if cmd == "PING"@ || cmd == "COMMAND"@ {
        Ok(CommandView::PING)
    } else if cmd == "ECHO"@ {
        match args[0] {
            RespValue::BulkString(m) => Ok(CommandView::ECHO(m)),
            _ => Err(CommandError::EchoArgument),
        }
    } else if cmd == "SET"@ {
        if args.len() < 2 {
            Err(CommandError::SetArity)
        } else {
            match (args[0], args[1]) {
                (RespValue::BulkString(k), RespValue::BulkString(v)) => if args.len() < 4 {
                    Ok(CommandView::SET(k, v, None))
                } else {
                    Ok(
                        CommandView::SET(
                            k,
                            v,
                            match (args[2], args[3]) {
                                (RespValue::BulkString(f), RespValue::BulkString(e)) => set_expiry(
                                    f,
                                    e,
                                    now,
                                ),
                                _ => None,
                            },
                        ),
                    )
                },
                _ => Err(CommandError::SetArgumentType),
            }
        }
    } else if cmd == "GET"@ {
        match args[0] {
            RespValue::BulkString(k) => Ok(CommandView::GET(k)),
            _ => Err(CommandError::GetArgument),
        }
    } else if cmd == "DELETE"@ {
        match args[0] {
            RespValue::BulkString(k) => Ok(CommandView::DELETE(k)),
            _ => Err(CommandError::DeleteArgument),
        }
    } else if cmd == "LPUSH"@ {
        match args[0] {
            RespValue::BulkString(k) => Ok(CommandView::LPUSH(k, bulk_texts(args.drop_first()))),
            _ => Err(CommandError::LPushArgument),
        }
    } else if cmd == "RPUSH"@ {
        match args[0] {
            RespValue::BulkString(k) => Ok(CommandView::RPUSH(k, bulk_texts(args.drop_first()))),
            _ => Err(CommandError::RPushArgument),
        }
    } else if cmd == "LRANGE"@ {
        match (args[0], args[1], args[2]) {
            (
                RespValue::BulkString(k),
                RespValue::BulkString(a),
                RespValue::BulkString(b),
            ) => Ok(CommandView::LRANGE(k, int_argument(a), int_argument(b))),
            _ => Err(CommandError::LRangeArgument),
        }
    } else if cmd == "EXPIRE"@ {
        match (args[0], args[1]) {
            (RespValue::BulkString(k), RespValue::BulkString(e)) => {
                let opt: Result<Option<Seq<char>>, CommandError> = if args.len() > 2 {
                    match args[2] {
                        RespValue::BulkString(o) => if is_expire_option(o) {
                            Ok(Some(o))
                        } else {
                            Err(CommandError::ExpireOption)
                        },
                        _ => Ok(None),
                    }
                } else {
                    Ok(None)
                };
                match opt {
                    Ok(o) => Ok(CommandView::EXPIRE(k, deadline_in_seconds(now, int_argument(e)), o)),
                    Err(err) => Err(err),
                }
            },
            _ => Err(CommandError::ExpireArgument),
        }
    } else if cmd == "MULTI"@ {
        Ok(CommandView::MULTI)
    } else if cmd == "DISCARD"@ {
        Ok(CommandView::DISCARD)
    } else if cmd == "EXEC"@ {
        Ok(CommandView::EXEC)
    } else if cmd == "SAVE"@ {
        Ok(CommandView::SAVE)
    } else {
        Err(CommandError::Unknown)
    }
}

/// The command that a request stands for, read at time `now`.
pub open spec fn spec_extract(v: RespValue, now: u64) -> Result<CommandView, CommandError> {
    match v {
        RespValue::Array(items) => if items.len() == 0 {
            Err(CommandError::InvalidFormat)
        } else {
            match items[0] {
                RespValue::BulkString(c) => spec_parse_command(ascii_upper(c), items.drop_first(), now),
                _ => Err(CommandError::InvalidFormat),
            }
        },
        _ => Err(CommandError::InvalidFormat),
    }
}

pub open spec fn command_outcome(r: Result<Command, CommandError>) -> Result<CommandView, CommandError> {
    match r {
        Ok(c) => Ok(c@),
        Err(e) => Err(e),
    }
}


/// `now` moved `secs` seconds on, as `deadline_in_seconds` says.
fn seconds_after(now: u64, secs: i32) -> (r: u64)
    ensures
        r == deadline_in_seconds(now, secs),
{
    let t: i128 = now as i128 + (secs as i128) * 1000;
    if t < 0 {
        0
    } else if t > u64::MAX as i128 {
        u64::MAX
    } else {
        t as u64
    }
}

/// `now` moved `ms` milliseconds on, as `deadline` says.
fn deadline_after(now: u64, ms: i32) -> (r: u64)
    ensures
        r == deadline(now, ms),
{
    let add: u64 = if ms >= 0 {
        ms as u64
    } else {
        u64::MAX - ((-(ms as i64) - 1) as u64)
    };
    now.saturating_add(add)
}

/// The text of `arr[i]` when it is a bulk string.
fn bulk_arg(arr: &Vec<RespType>, i: usize) -> (r: Option<&String>)
    requires
        i < arr@.len(),
    ensures
        match arr@[i as int].value() {
            RespValue::BulkString(t) => r matches Some(s) && s@ == t,
            _ => r is None,
        },
{
    match &arr[i] {
        RespType::BulkString(s) => Some(s),
        _ => None,
    }
}

/// The texts of the bulk strings in `arr[from..]`.
fn collect_bulk(arr: &Vec<RespType>, from: usize) -> (r: Vec<String>)
    requires
        from <= arr@.len(),
    ensures
        texts(r@) == bulk_texts(values_of(arr@).subrange(from as int, arr@.len() as int)),
{
    let ghost a = values_of(arr@);
    proof {
        lemma_values_of(arr@);
    }
    let mut out: Vec<String> = Vec::new();
    let mut j = from;
    assert(texts(out@) =~= bulk_texts(a.subrange(from as int, from as int)));
    while j < arr.len()
        invariant
            from <= j <= arr@.len(),
            a == values_of(arr@),
            a.len() == arr@.len(),
            forall|k: int| 0 <= k < arr@.len() ==> #[trigger] a[k] == arr@[k].value(),
            texts(out@) == bulk_texts(a.subrange(from as int, j as int)),
        decreases arr@.len() - j,
    {
        let ghost prev = out@;
        let ghost sub = a.subrange(from as int, j + 1);
        assert(sub.drop_last() =~= a.subrange(from as int, j as int));
        assert(sub.last() == arr@[j as int].value());
        match bulk_arg(arr, j) {
            Some(s) => {
                out.push(s.clone());
                assert(texts(out@) =~= texts(prev).push(s@));
            },
            None => {},
        }
        j = j + 1;
    }
    out
}

/// Whether a request carries the arguments its command reads
/// (`arguments_present`).
pub fn arguments_are_present(resp: &RespType) -> (r: bool)
    ensures
        r == arguments_present(resp.value()),
{
    proof {
        reveal_strlit("ECHO");
    }
    match resp {
        RespType::Array(arr) => {
            proof {
                lemma_values_of(arr@);
            }
            if arr.len() == 0 {
                return true;
            }
            match &arr[0] {
                RespType::BulkString(c) => {
                    let cmd = to_ascii_uppercase(c.as_str());
                    let needed: usize = if str_eq(cmd.as_str(), "ECHO") || str_eq(cmd.as_str(), "GET")
                        || str_eq(cmd.as_str(), "DELETE") || str_eq(cmd.as_str(), "LPUSH")
                        || str_eq(cmd.as_str(), "RPUSH") {
                        1
                    } else if str_eq(cmd.as_str(), "LRANGE") {
                        3
                    } else if str_eq(cmd.as_str(), "EXPIRE") {
                        2
                    } else {
                        0
                    };
                    needed <= arr.len() - 1
                },
                _ => true,
            }
        },
        _ => true,
    }
}

/// Reads the command in a request at time `now`.
pub fn extract_command_at(resp: &RespType, now: u64) -> (r: Result<Command, CommandError>)
    requires
        arguments_present(resp.value()),
    ensures
        command_outcome(r) == spec_extract(resp.value(), now),
{
    match resp {
        RespType::Array(arr) => {
            proof {
                lemma_values_of(arr@);
            }
            if arr.len() == 0 {
                return Err(CommandError::InvalidFormat);
            }
            let command = match &arr[0] {
                RespType::BulkString(cmd) => to_ascii_uppercase(cmd.as_str()),
                _ => return Err(CommandError::InvalidFormat),
            };
            parse_command(&command, arr, now)
        },
        _ => Err(CommandError::InvalidFormat),
    }
}

/// Reads the command in a request, with expiry times taken from the wall
/// clock (milliseconds since the Unix epoch). `Client::step` reads the
/// store's clock instead and calls `extract_command_at`.
pub fn extract_command(resp: &RespType) -> (r: Result<Command, CommandError>)
    requires
        arguments_present(resp.value()),
    ensures
        exists|now: u64| command_outcome(r) == spec_extract(resp.value(), now),
{
    let now = now_millis();
    extract_command_at(resp, now)
}

/// The command named `cmd` with the arguments `arr[1..]`.
fn parse_command(cmd: &String, arr: &Vec<RespType>, now: u64) -> (r: Result<Command, CommandError>)
    requires
        arr@.len() >= 1,
        needed_arguments(cmd@) <= arr@.len() - 1,
    ensures
        command_outcome(r) == spec_parse_command(cmd@, values_of(arr@).drop_first(), now),
{
    let ghost args = values_of(arr@).drop_first();
    proof {
        lemma_values_of(arr@);
        assert forall|i: int| 0 <= i < args.len() implies #[trigger] args[i] == arr@[i + 1].value() by {}
    }
    let c = cmd.as_str();
    if str_eq(c, "PING") || str_eq(c, "COMMAND") {
        Ok(Command::PING)
    } else if str_eq(c, "ECHO") {
        match bulk_arg(arr, 1) {
            Some(m) => Ok(Command::ECHO(m.clone())),
            None => Err(CommandError::EchoArgument),
        }
    } else if str_eq(c, "SET") {
        if arr.len() < 3 {
            return Err(CommandError::SetArity);
        }
        match (bulk_arg(arr, 1), bulk_arg(arr, 2)) {
            (Some(k), Some(v)) => {
                if arr.len() < 5 {
                    return Ok(Command::SET(k.clone(), v.clone(), None));
                }
                let expiry = match (bulk_arg(arr, 3), bulk_arg(arr, 4)) {
                    (Some(flag), Some(amount)) => {
                        let n = parse_int(amount);
                        let f = to_ascii_uppercase(flag.as_str());
                        if str_eq(f.as_str(), "EX") {
                            Some(deadline_after(now, n.wrapping_mul(1000)))
                        } else if str_eq(f.as_str(), "PX") {
                            Some(deadline_after(now, n))
                        } else {
                            None
                        }
                    },
                    _ => None,
                };
                Ok(Command::SET(k.clone(), v.clone(), expiry))
            },
            _ => Err(CommandError::SetArgumentType),
        }
    } else if str_eq(c, "GET") {
        match bulk_arg(arr, 1) {
            Some(k) => Ok(Command::GET(k.clone())),
            None => Err(CommandError::GetArgument),
        }
    } else if str_eq(c, "DELETE") {
        match bulk_arg(arr, 1) {
            Some(k) => Ok(Command::DELETE(k.clone())),
            None => Err(CommandError::DeleteArgument),
        }
    } else if str_eq(c, "LPUSH") {
        match bulk_arg(arr, 1) {
            Some(k) => {
                let vals = collect_bulk(arr, 2);
                assert(values_of(arr@).subrange(2, arr@.len() as int) =~= args.drop_first());
                Ok(Command::LPUSH(k.clone(), vals))
            },
            None => Err(CommandError::LPushArgument),
        }
    } else if str_eq(c, "RPUSH") {
        match bulk_arg(arr, 1) {
            Some(k) => {
                let vals = collect_bulk(arr, 2);
                assert(values_of(arr@).subrange(2, arr@.len() as int) =~= args.drop_first());
                Ok(Command::RPUSH(k.clone(), vals))
            },
            None => Err(CommandError::RPushArgument),
        }
    } else if str_eq(c, "LRANGE") {
        match (bulk_arg(arr, 1), bulk_arg(arr, 2), bulk_arg(arr, 3)) {
            (Some(k), Some(a), Some(b)) => Ok(Command::LRANGE(k.clone(), parse_int(a), parse_int(b))),
            _ => Err(CommandError::LRangeArgument),
        }
    } else if str_eq(c, "EXPIRE") {
        match (bulk_arg(arr, 1), bulk_arg(arr, 2)) {
            (Some(k), Some(e)) => {
                let option: Option<String> = if arr.len() > 3 {
                    match bulk_arg(arr, 3) {
                        Some(o) => {
                            let os = o.as_str();
                            if str_eq(os, "NX") || str_eq(os, "XX") || str_eq(os, "GT") || str_eq(os, "LT") {
                                Some(o.clone())
                            } else {
                                return Err(CommandError::ExpireOption);
                            }
                        },
                        None => None,
                    }
                } else {
                    None
                };
                let at = seconds_after(now, parse_int(e));
                Ok(Command::EXPIRE(k.clone(), at, option))
            },
            _ => Err(CommandError::ExpireArgument),
        }
    } else if str_eq(c, "MULTI") {
        Ok(Command::MULTI)
    } else if str_eq(c, "DISCARD") {
        Ok(Command::DISCARD)
    } else if str_eq(c, "EXEC") {
        Ok(Command::EXEC)
    } else if str_eq(c, "SAVE") {
        Ok(Command::SAVE)
    } else {
        Err(CommandError::Unknown)
    }
}

/// **The options of `EXPIRE`**: the request `EXPIRE key secs` reads as an
/// expiry `secs` seconds after `now` (held within the clock's range) with
/// no option; with a third argument `NX`, `XX`, `GT` or `LT` it reads with
/// that option, and with any other text there it is refused as an invalid
/// option. Both forms carry every argument the command needs.
pub proof fn law_expire_request(k: Seq<char>, secs: Seq<char>, opt: Seq<char>, now: u64)
    ensures
        ({
            let t: int = now + int_argument(secs) * 1000;
            let at: u64 = if t < 0 { 0 } else if t > u64::MAX { u64::MAX } else { t as u64 };
            let two = RespValue::Array(
                seq![RespValue::BulkString("EXPIRE"@), RespValue::BulkString(k), RespValue::BulkString(secs)],
            );
            let three = RespValue::Array(
                seq![
                    RespValue::BulkString("EXPIRE"@),
                    RespValue::BulkString(k),
                    RespValue::BulkString(secs),
                    RespValue::BulkString(opt),
                ],
            );
            &&& arguments_present(two)
            &&& arguments_present(three)
            &&& spec_extract(two, now) == Ok::<CommandView, CommandError>(CommandView::EXPIRE(k, at, None))
            &&& (opt == "NX"@ || opt == "XX"@ || opt == "GT"@ || opt == "LT"@) ==> spec_extract(three, now)
                == Ok::<CommandView, CommandError>(CommandView::EXPIRE(k, at, Some(opt)))
            &&& !(opt == "NX"@ || opt == "XX"@ || opt == "GT"@ || opt == "LT"@) ==> spec_extract(three, now)
                == Err::<CommandView, CommandError>(CommandError::ExpireOption)
        }),
{
    reveal_strlit("EXPIRE");
    reveal_strlit("PING");
    reveal_strlit("COMMAND");
    reveal_strlit("ECHO");
    reveal_strlit("SET");
    reveal_strlit("GET");
    reveal_strlit("DELETE");
    reveal_strlit("LPUSH");
    reveal_strlit("RPUSH");
    reveal_strlit("LRANGE");
    let name = "EXPIRE"@;
    assert(ascii_upper(name) =~= name);
    assert("EXPIRE"@[0] != "LRANGE"@[0] && "EXPIRE"@[0] != "DELETE"@[0]);
    assert(name != "LRANGE"@ && name != "DELETE"@ && name != "ECHO"@ && name != "GET"@ && name != "LPUSH"@
        && name != "RPUSH"@ && name != "PING"@ && name != "COMMAND"@ && name != "SET"@);
    assert(needed_arguments(name) == 2);
    let two = seq![RespValue::BulkString(name), RespValue::BulkString(k), RespValue::BulkString(secs)];
    let three = seq![
        RespValue::BulkString(name),
        RespValue::BulkString(k),
        RespValue::BulkString(secs),
        RespValue::BulkString(opt),
    ];
    assert(two.drop_first() =~= seq![RespValue::BulkString(k), RespValue::BulkString(secs)]);
    assert(three.drop_first() =~= seq![RespValue::BulkString(k), RespValue::BulkString(secs), RespValue::BulkString(opt)]);
}

/// **Which requests lack an argument**: `EXPIRE` needs its key and amount
/// (its option is read only when it is there), `LRANGE` its key, start and
/// stop, and `ECHO`, `GET`, `DELETE`, `LPUSH` and `RPUSH` one argument; a
/// request for any other command lacks none. Command names are read
/// without regard to ASCII case.
pub proof fn law_arguments_needed(name: Seq<char>, args: Seq<RespValue>)
    ensures
        ({
            let req = RespValue::Array(seq![RespValue::BulkString(name)] + args);
            let u = ascii_upper(name);
            &&& u == "EXPIRE"@ ==> (arguments_present(req) <==> args.len() >= 2)
            &&& u == "LRANGE"@ ==> (arguments_present(req) <==> args.len() >= 3)
            &&& (u == "ECHO"@ || u == "GET"@ || u == "DELETE"@ || u == "LPUSH"@ || u == "RPUSH"@) ==> (
            arguments_present(req) <==> args.len() >= 1)
            &&& !(u == "EXPIRE"@ || u == "LRANGE"@ || u == "ECHO"@ || u == "GET"@ || u == "DELETE"@ || u == "LPUSH"@
                || u == "RPUSH"@) ==> arguments_present(req)
        }),
{
    reveal_strlit("EXPIRE");
    reveal_strlit("ECHO");
    reveal_strlit("GET");
    reveal_strlit("DELETE");
    reveal_strlit("LPUSH");
    reveal_strlit("RPUSH");
    reveal_strlit("LRANGE");
    let items = seq![RespValue::BulkString(name)] + args;
    assert(items[0] == RespValue::BulkString(name));
    assert(items.len() == args.len() + 1);
    assert("EXPIRE"@[0] != "LRANGE"@[0] && "EXPIRE"@[0] != "DELETE"@[0] && "LRANGE"@[0] != "DELETE"@[0]);
    assert("LPUSH"@[0] != "RPUSH"@[0]);
    assert("EXPIRE"@ != "LRANGE"@ && "EXPIRE"@ != "DELETE"@ && "LRANGE"@ != "DELETE"@ && "LPUSH"@ != "RPUSH"@);
    assert("EXPIRE"@.len() != "ECHO"@.len() && "EXPIRE"@.len() != "GET"@.len() && "EXPIRE"@.len() != "LPUSH"@.len());
    assert("LRANGE"@.len() != "ECHO"@.len() && "LRANGE"@.len() != "GET"@.len() && "LRANGE"@.len() != "RPUSH"@.len());
}

/// A request that is not an array, an empty array, or one whose first item
/// is not a bulk string names no command.
pub proof fn law_extract_needs_a_name(v: RespValue, now: u64)
    ensures
        !(v is Array) ==> spec_extract(v, now) == Err::<CommandView, CommandError>(CommandError::InvalidFormat),
        v matches RespValue::Array(items) ==> (items.len() == 0 || !(items[0] is BulkString)) ==> spec_extract(v, now)
            == Err::<CommandView, CommandError>(CommandError::InvalidFormat),
{
}

/// A command's name is read without regard to ASCII case.
pub proof fn law_command_name_case(name1: Seq<char>, name2: Seq<char>, args: Seq<RespValue>, now: u64)
    requires
        ascii_upper(name1) == ascii_upper(name2),
    ensures
        spec_extract(RespValue::Array(seq![RespValue::BulkString(name1)] + args), now) == spec_extract(
            RespValue::Array(seq![RespValue::BulkString(name2)] + args),
            now,
        ),
{
    assert((seq![RespValue::BulkString(name1)] + args).drop_first() =~= args);
    assert((seq![RespValue::BulkString(name2)] + args).drop_first() =~= args);
}

} // verus!
