//! What the server decides at start-up: the port from the command line,
//! and the port to try after a failed bind.
use vstd::prelude::*;
use crate::utils::text::str_eq;

verus! {

/// The port used when the command line names none.
pub open spec fn default_port() -> Seq<char> {
    "6379"@
}

/// The port named on the command line, reading `args` from position `i`
/// with `port` found so far: `--port` followed by a value sets it (the last
/// one wins); a `--port` at the end is ignored, as is anything else.
pub open spec fn port_from(args: Seq<Seq<char>>, i: int, port: Seq<char>) -> Seq<char>
    decreases args.len() - i,
{
    if i < 0 || i >= args.len() {
        port
    } else if args[i] == "--port"@ {
        if i + 1 < args.len() {
            port_from(args, i + 2, args[i + 1])
        } else {
            port_from(args, i + 1, port)
        }
    } else {
        port_from(args, i + 1, port)
    }
}

/// The port that the command line `args` asks for; `args[0]` is the
/// program's name.
pub open spec fn spec_port(args: Seq<Seq<char>>) -> Seq<char> {
    port_from(args, 1, default_port())
}

/// Reads the port from the command line `args` (the program's name first).
pub fn parse_args(args: &Vec<String>) -> (r: String)
    ensures
        r@ == spec_port(args@.map_values(|s: String| s@)),
{
    let ghost a = args@.map_values(|s: String| s@);
    let mut port = String::from_str("6379");
    let mut i: usize = 1;
    while i < args.len()
        invariant
            1 <= i,
            a == args@.map_values(|s: String| s@),
            port_from(a, i as int, port@) == spec_port(a),
        decreases args@.len() + 1 - i,
    {
        if str_eq(args[i].as_str(), "--port") {
            if i + 1 < args.len() {
                port = args[i + 1].clone();
                i = i + 2;
            } else {
                i = i + 1;
            }
        } else {
            i = i + 1;
        }
    }
    port
}

/// After a bind to `port` failed: when the address was in use, the next
/// port to try (`port + 1`, wrapping as a release build does); otherwise
/// none, and the failure stands.
pub fn port_after_failure(port: u16, addr_in_use: bool) -> (r: Option<u16>)
    ensures
        addr_in_use ==> r == Some(vstd::wrapping::u16_specs::wrapping_add(port, 1)),
        !addr_in_use ==> r is None,
{
    if addr_in_use {
        Some(port.wrapping_add(1))
    } else {
        None
    }
}

} // verus!
