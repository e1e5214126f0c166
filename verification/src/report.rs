//! Human-readable error messages.
//!
//! Every error renders to a fixed sentence around the 1-based line and
//! column of the faulting instruction or bracket; the exact text of each
//! message is pinned down by [`spec_compile_message`] and
//! [`spec_execute_message`].

use vstd::prelude::*;

use crate::{CompileError, ExecutionError};

verus! {

/// The character for one decimal digit.
pub open spec fn digit_char(d: nat) -> char {
    if d == 0 {
        '0'
    } else if d == 1 {
        '1'
    } else if d == 2 {
        '2'
    } else if d == 3 {
        '3'
    } else if d == 4 {
        '4'
    } else if d == 5 {
        '5'
    } else if d == 6 {
        '6'
    } else if d == 7 {
        '7'
    } else if d == 8 {
        '8'
    } else {
        '9'
    }
}

/// The decimal digits of a number, most significant first.
pub open spec fn dec_digits(n: nat) -> Seq<char>
    decreases n,
{
    if n < 10 {
        seq![digit_char(n)]
    } else {
        dec_digits(n / 10).push(digit_char(n % 10))
    }
}

/// One decimal digit as a string slice.
fn digit_str(d: usize) -> (r: &'static str)
    requires
        d < 10,
    ensures
        r@ == seq![digit_char(d as nat)],
{
    proof {
        reveal_strlit("0");
        reveal_strlit("1");
        reveal_strlit("2");
        reveal_strlit("3");
        reveal_strlit("4");
        reveal_strlit("5");
        reveal_strlit("6");
        reveal_strlit("7");
        reveal_strlit("8");
        reveal_strlit("9");
    }
    let r = if d == 0 {
        "0"
    } else if d == 1 {
        "1"
    } else if d == 2 {
        "2"
    } else if d == 3 {
        "3"
    } else if d == 4 {
        "4"
    } else if d == 5 {
        "5"
    } else if d == 6 {
        "6"
    } else if d == 7 {
        "7"
    } else if d == 8 {
        "8"
    } else {
        "9"
    };
    proof {
        assert(r@ =~= seq![digit_char(d as nat)]);
    }
    r
}

/// The digit characters of a digit stack, last collected first.
spec fn digits_chars(ds: Seq<usize>) -> Seq<char> {
    Seq::new(ds.len(), |k: int| digit_char(ds[ds.len() - 1 - k] as nat))
}

/// Renders a number in decimal.
fn fmt_usize(n: usize) -> (r: String)
    ensures
        r@ == dec_digits(n as nat),
{
    let mut digits: Vec<usize> = Vec::new();
    let mut m = n;
    while m >= 10
        invariant
            forall|k: int| 0 <= k < digits@.len() ==> #[trigger] digits@[k] < 10,
            dec_digits(n as nat) =~= dec_digits(m as nat) + digits_chars(digits@),
        decreases m,
    {
        let d = m % 10;
        digits.push(d);
        m = m / 10;
        proof {
            assert(digits_chars(digits@) =~= seq![digit_char(d as nat)] + digits_chars(
                digits@.drop_last(),
            ));
            assert(dec_digits(n as nat) =~= dec_digits(m as nat) + digits_chars(digits@));
        }
    }
    let mut s = String::new();
    s.append(digit_str(m));
    proof {
        assert(s@ =~= dec_digits(m as nat));
    }
    let total = digits.len();
    let mut idx: usize = 0;
    while idx < total
        invariant
            total == digits@.len(),
            idx <= total,
            forall|k: int| 0 <= k < digits@.len() ==> #[trigger] digits@[k] < 10,
            dec_digits(n as nat) =~= dec_digits(m as nat) + digits_chars(digits@),
            m < 10,
            s@ =~= dec_digits(m as nat) + digits_chars(digits@).subrange(0, idx as int),
        decreases total - idx,
    {
        let d = digits[total - 1 - idx];
        s.append(digit_str(d));
        idx = idx + 1;
        proof {
            assert(digits_chars(digits@).subrange(0, idx as int) =~= digits_chars(
                digits@,
            ).subrange(0, idx - 1) + seq![digit_char(d as nat)]);
            assert(s@ =~= dec_digits(m as nat) + digits_chars(digits@).subrange(0, idx as int));
        }
    }
    proof {
        assert(digits_chars(digits@).subrange(0, total as int) =~= digits_chars(digits@));
        assert(s@ =~= dec_digits(n as nat));
    }
    s
}

/// The message a compile error renders to.
pub open spec fn spec_compile_message(e: CompileError) -> Seq<char> {
    match e {
        CompileError::UnmatchedOpen { span } => "unmatched '[' at line "@ + dec_digits(
            span.line as nat,
        ) + ", column "@ + dec_digits(span.col as nat),
        CompileError::UnmatchedClose { span } => "unmatched ']' at line "@ + dec_digits(
            span.line as nat,
        ) + ", column "@ + dec_digits(span.col as nat),
    }
}

/// The message an execution error renders to.
pub open spec fn spec_execute_message(e: ExecutionError) -> Seq<char> {
    match e {
        ExecutionError::PointerUnderflow { span } => "pointer underflow at line "@ + dec_digits(
            span.line as nat,
        ) + ", column "@ + dec_digits(span.col as nat),
        ExecutionError::PointerOverflow { span, pointer, tape_len } => "pointer overflow: position "@
            + dec_digits(pointer as nat) + " exceeds tape length "@ + dec_digits(tape_len as nat)
            + " (at line "@ + dec_digits(span.line as nat) + ", column "@ + dec_digits(
            span.col as nat,
        ) + ")"@,
        ExecutionError::OperationLimit { span } => "operation limit exceeded at line "@
            + dec_digits(span.line as nat) + ", column "@ + dec_digits(span.col as nat),
        ExecutionError::IoError { span, message } => "I/O error at line "@ + dec_digits(
            span.line as nat,
        ) + ", column "@ + dec_digits(span.col as nat) + ": "@ + message@,
    }
}

impl CompileError {
    /// The human-readable message for this error.
    pub fn message(&self) -> (r: String)
        ensures
            r@ == spec_compile_message(*self),
    {
        match self {
            CompileError::UnmatchedOpen { span } => {
                let mut s = String::from_str("unmatched '[' at line ");
                s.append(fmt_usize(span.line).as_str());
                s.append(", column ");
                s.append(fmt_usize(span.col).as_str());
                s
            },
            CompileError::UnmatchedClose { span } => {
                let mut s = String::from_str("unmatched ']' at line ");
                s.append(fmt_usize(span.line).as_str());
                s.append(", column ");
                s.append(fmt_usize(span.col).as_str());
                s
            },
        }
    }
}

impl ExecutionError {
    /// The human-readable message for this error.
    pub fn message(&self) -> (r: String)
        ensures
            r@ == spec_execute_message(*self),
    {
        match self {
            ExecutionError::PointerUnderflow { span } => {
                let mut s = String::from_str("pointer underflow at line ");
                s.append(fmt_usize(span.line).as_str());
                s.append(", column ");
                s.append(fmt_usize(span.col).as_str());
                s
            },
            ExecutionError::PointerOverflow { span, pointer, tape_len } => {
                let mut s = String::from_str("pointer overflow: position ");
                s.append(fmt_usize(*pointer).as_str());
                s.append(" exceeds tape length ");
                s.append(fmt_usize(*tape_len).as_str());
                s.append(" (at line ");
                s.append(fmt_usize(span.line).as_str());
                s.append(", column ");
                s.append(fmt_usize(span.col).as_str());
                s.append(")");
                s
            },
            ExecutionError::OperationLimit { span } => {
                let mut s = String::from_str("operation limit exceeded at line ");
                s.append(fmt_usize(span.line).as_str());
                s.append(", column ");
                s.append(fmt_usize(span.col).as_str());
                s
            },
            ExecutionError::IoError { span, message } => {
                let mut s = String::from_str("I/O error at line ");
                s.append(fmt_usize(span.line).as_str());
                s.append(", column ");
                s.append(fmt_usize(span.col).as_str());
                s.append(": ");
                s.append(message.as_str());
                s
            },
        }
    }
}

} // verus!
