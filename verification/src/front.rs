//! Pure pieces of the front-ends: the option value that an end-of-input
//! string names, the configuration one batch request runs under, and the
//! tape trimming that batch responses apply.

use vstd::prelude::*;

use crate::{Config, EofBehavior};

verus! {

/// A byte sequence without its trailing zeros.
pub open spec fn spec_trim(s: Seq<u8>) -> Seq<u8>
    decreases s.len(),
{
    if s.len() > 0 && s.last() == 0 {
        spec_trim(s.drop_last())
    } else {
        s
    }
}

/// Removes trailing zero bytes, the form in which batch responses report a
/// tape.
pub fn trim_tape(tape: Vec<u8>) -> (r: Vec<u8>)
    ensures
        r@ == spec_trim(tape@),
{
    let mut t = tape;
    while t.len() > 0 && t[t.len() - 1] == 0
        invariant
            spec_trim(t@) == spec_trim(tape@),
        decreases t@.len(),
    {
        let _ = t.pop();
    }
    t
}

/// What `str::to_lowercase` returns: a function of the characters alone.
pub uninterp spec fn lower_of(s: Seq<char>) -> Seq<char>;

/// Relies on str::to_lowercase: the result depends on the characters alone.
#[verifier::external_body]
fn lowercase(s: &str) -> (r: String)
    ensures
        r@ == lower_of(s@),
{
    s.to_lowercase()
}

/// The end-of-input behavior a lowercased option string names: anything but
/// `unchanged` and `max` means zero.
pub open spec fn spec_parse_eof(t: Seq<char>) -> EofBehavior {
    if t == "unchanged"@ {
        EofBehavior::Unchanged
    } else if t == "max"@ {
        EofBehavior::MaxValue
    } else {
        EofBehavior::Zero
    }
}

/// Reads an end-of-input behavior from an option string, case-insensitively.
pub fn parse_eof_string(s: &str) -> (r: EofBehavior)
    ensures
        r == spec_parse_eof(lower_of(s@)),
{
    let lower = lowercase(s);
    if lower == String::from_str("unchanged") {
        EofBehavior::Unchanged
    } else if lower == String::from_str("max") {
        EofBehavior::MaxValue
    } else {
        EofBehavior::Zero
    }
}

/// The configuration one batch request runs under: fields the request names
/// override the base, and output flushing is off inside batch mode.
pub fn merge_config(
    base: &Config,
    tape_size: Option<usize>,
    op_limit: Option<usize>,
    eof_behavior: Option<EofBehavior>,
) -> (r: Config)
    ensures
        r.tape_size == (match tape_size {
            Some(v) => v,
            None => base.tape_size,
        }),
        r.op_limit == (match op_limit {
            Some(v) => Some(v),
            None => base.op_limit,
        }),
        r.eof_behavior == (match eof_behavior {
            Some(e) => e,
            None => base.eof_behavior,
        }),
        r.flush_output == false,
{
    Config {
        tape_size: match tape_size {
            Some(v) => v,
            None => base.tape_size,
        },
        op_limit: match op_limit {
            Some(v) => Some(v),
            None => base.op_limit,
        },
        eof_behavior: match eof_behavior {
            Some(e) => e,
            None => base.eof_behavior,
        },
        flush_output: false,
    }
}

} // verus!
