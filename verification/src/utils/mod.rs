pub mod clock;
pub mod text;

use vstd::prelude::*;
use crate::utils::text::{chars_of, parse_i32, parse_i32_chars, trim, trim_bounds};

verus! {

/// The value of an integer argument: `s` with surrounding white space
/// removed, read as an `i32`; 0 when that is not a valid `i32`.
pub open spec fn int_argument(s: Seq<char>) -> i32 {
    match parse_i32(trim(s)) {
        Some(v) => v,
        None => 0,
    }
}

/// Reads an integer argument (`s.trim().parse::<i32>()`), falling back to 0.
pub fn parse_int(s: &String) -> (r: i32)
    ensures
        r == int_argument(s@),
{
    let chars = chars_of(s.as_str());
    let (lo, hi) = trim_bounds(&chars);
    match parse_i32_chars(&chars, lo, hi) {
        Some(v) => v,
        None => 0,
    }
}

} // verus!
