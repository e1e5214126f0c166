//! Compilation of source text into bytecode.
//!
//! The compiler streams over the source once. Every emitted `Add`, `Move` or
//! `Store` is merged with the tail of the instruction sequence where possible,
//! so the tail is always maximally compacted; loop recognition inspects that
//! compacted suffix when a `]` is reached and collapses clear loops,
//! multiplication loops and scan loops into single instructions. A loop whose
//! head cell is provably zero is skipped without emitting anything; if such a
//! loop never closes, compilation fails like any unmatched bracket.
//!
//! The mathematical model is [`spec_compile`]: a recursive function over the
//! source bytes and a compilation state. [`compile`] returns exactly what the
//! model says, and the model provably emits well-formed bytecode
//! ([`brackets_matched`], [`no_zero_ops`]).

use vstd::prelude::*;
use vstd::string::StringSliceAdditionalSpecFns;

use crate::{CompileError, Op, Span};

verus! {

/// The state of a compilation in progress: the instructions and spans emitted
/// so far, the stack of pending `[` (instruction index and span), the byte
/// position in the source, and the 1-based line and column of that byte.
#[verifier::ext_equal]
pub struct CompState {
    pub ops: Seq<Op>,
    pub spans: Seq<Span>,
    pub stack: Seq<(usize, Span)>,
    pub i: usize,
    pub line: usize,
    pub col: usize,
}

/// Truncation of an integer to a byte, the result of wrapping arithmetic.
pub open spec fn wrap8(x: int) -> u8 {
    (x % 256) as u8
}

/// One attempted append of `op` with `span`: the tail of `ops` is inspected
/// and at most one rewrite is applied. Runs of `Add` and of `Move` merge (and
/// vanish when they cancel), `Store` absorbs a following `Add` or `Store`,
/// and a `Store` overwrites a preceding `Add`. When a single op survives, its
/// span grows to cover the new byte.
pub open spec fn spec_compact_push(ops: Seq<Op>, spans: Seq<Span>, op: Op, span: Span) -> (Seq<
    Op,
>, Seq<Span>) {
    if ops.len() == 0 {
        (ops.push(op), spans.push(span))
    } else {
        let li = ops.len() - 1;
        let lsp = spans[li];
        let merged = Span { start: lsp.start, end: span.end, line: lsp.line, col: lsp.col };
        match (ops[li], op) {
            (Op::Add(a), Op::Add(b)) => {
                if wrap8(a + b) == 0 {
                    (ops.drop_last(), spans.drop_last())
                } else {
                    (ops.update(li, Op::Add(wrap8(a + b))), spans.update(li, merged))
                }
            },
            (Op::Move(a), Op::Move(b)) => {
                if a + b == 0 {
                    (ops.drop_last(), spans.drop_last())
                } else if -0x8000_0000 <= a + b <= 0x7fff_ffff {
                    (ops.update(li, Op::Move((a + b) as i32)), spans.update(li, merged))
                } else {
                    (ops.push(op), spans.push(span))
                }
            },
            (Op::Store(_), Op::Store(b)) => (ops.update(li, Op::Store(b)), spans.update(li, merged)),
            (Op::Store(a), Op::Add(b)) => (
                ops.update(li, Op::Store(wrap8(a + b))),
                spans.update(li, merged),
            ),
            (Op::Add(_), Op::Store(b)) => (ops.update(li, Op::Store(b)), spans.update(li, merged)),
            _ => (ops.push(op), spans.push(span)),
        }
    }
}

/// Walk of a multiplication-loop body. `off` is the running pointer offset,
/// `origin` the running delta on the origin cell (modulo 256), `muls` the
/// `(offset, factor)` pairs collected so far, one per `Add` away from the
/// origin, in body order. Anything but `Add` and `Move` disqualifies the
/// body, as does an offset outside the 32-bit range at an `Add`.
pub open spec fn spec_mul_accum(
    body: Seq<Op>,
    k: int,
    off: int,
    origin: int,
    muls: Seq<(i32, u8)>,
) -> Option<(int, int, Seq<(i32, u8)>)>
    decreases body.len() - k,
{
    if k < 0 || k >= body.len() {
        Some((off, origin, muls))
    } else {
        match body[k] {
            Op::Add(n) => if off == 0 {
                spec_mul_accum(body, k + 1, off, (origin + n) % 256, muls)
            } else if -0x8000_0000 <= off <= 0x7fff_ffff {
                spec_mul_accum(body, k + 1, off, origin, muls.push((off as i32, n)))
            } else {
                None
            },
            Op::Move(n) => spec_mul_accum(body, k + 1, off + n, origin, muls),
            _ => None,
        }
    }
}

/// The multiplication-loop recognizer: a body of `Add`s and `Move`s whose net
/// pointer offset is zero and whose net effect on the origin cell is one
/// decrement per iteration yields the collected `(offset, factor)` pairs.
pub open spec fn spec_try_mul(body: Seq<Op>) -> Option<Seq<(i32, u8)>> {
    match spec_mul_accum(body, 0, 0, 0, Seq::empty()) {
        Some((off, origin, muls)) => if off == 0 && origin == 255 {
            Some(muls)
        } else {
            None
        },
        None => None,
    }
}

/// Skipping a dead loop: from byte `i` with `depth` brackets open, advance to
/// just past the bracket that closes the loop (or to the end of the source),
/// counting newlines seen and the column offset since the last one. The last
/// component is the depth still open: nonzero means the source ended before
/// the loop closed.
pub open spec fn spec_skip(s: Seq<u8>, i: int, depth: int, lines: int, col: int) -> (
    int,
    int,
    int,
    int,
)
    decreases s.len() - i,
{
    if i < 0 || i >= s.len() || depth <= 0 {
        (i, lines, col, depth)
    } else {
        let d2 = if s[i] == 91 {
            depth + 1
        } else if s[i] == 93 {
            depth - 1
        } else {
            depth
        };
        if s[i] == 10 {
            spec_skip(s, i + 1, d2, lines + 1, 1)
        } else {
            spec_skip(s, i + 1, d2, lines, col + 1)
        }
    }
}

/// Whether the op leaves the current cell provably zero, so that a loop
/// opening right after it can never be entered.
pub open spec fn spec_zeroing(op: Op) -> bool {
    match op {
        Op::Store(n) => n == 0,
        Op::Close(_) => true,
        Op::Scan(_) => true,
        _ => false,
    }
}

/// The instruction and span sequences for a run of `Mul` ops sharing one span.
pub open spec fn spec_append_muls(
    ops: Seq<Op>,
    spans: Seq<Span>,
    muls: Seq<(i32, u8)>,
    loop_span: Span,
) -> (Seq<Op>, Seq<Span>) {
    (
        ops + Seq::new(muls.len(), |k: int| Op::Mul(muls[k].0, muls[k].1)),
        spans + Seq::new(muls.len(), |k: int| loop_span),
    )
}

/// The compiler never emits an `Add`, `Move` or `Scan` with a zero payload.
pub open spec fn no_zero_ops(ops: Seq<Op>) -> bool {
    forall|k: int|
        0 <= k < ops.len() ==> ops[k] != Op::Add(0) && ops[k] != Op::Move(0i32) && ops[k]
            != Op::Scan(0i32)
}

/// Whether some pending bracket on the stack points at instruction `k`.
pub open spec fn stack_has(stack: Seq<(usize, Span)>, k: int) -> bool {
    exists|t: int| 0 <= t < stack.len() && #[trigger] stack[t].0 == k
}

/// The bracket discipline at one instruction, while brackets may still be
/// pending: a `Close(j)` always points back at the `Open` that points at it,
/// and an `Open` either is a pending placeholder or points forward at the
/// `Close` that points back at it.
pub open spec fn bracket_ok_at(ops: Seq<Op>, stack: Seq<(usize, Span)>, k: int) -> bool {
    match ops[k] {
        Op::Open(j) => stack_has(stack, k) || (k < j < ops.len() && ops[j as int] == Op::Close(
            k as u32,
        )),
        Op::Close(j) => 0 <= j < k && ops[j as int] == Op::Open(k as u32) && !stack_has(
            stack,
            j as int,
        ),
        _ => true,
    }
}

/// The bracket discipline of a compilation in progress.
pub open spec fn brackets_partial(ops: Seq<Op>, stack: Seq<(usize, Span)>) -> bool {
    &&& (forall|t: int|
        0 <= t < stack.len() ==> #[trigger] stack[t].0 < ops.len() && ops[stack[t].0 as int]
            == Op::Open(0))
    &&& (forall|t1: int, t2: int|
        #![trigger stack[t1], stack[t2]]
        0 <= t1 < t2 < stack.len() ==> stack[t1].0 < stack[t2].0)
    &&& (forall|k: int| 0 <= k < ops.len() ==> #[trigger] bracket_ok_at(ops, stack, k))
}

/// The bracket discipline of finished bytecode: every `Open(j)` jumps forward
/// to the `Close` that jumps back to it, and the other way round.
pub open spec fn brackets_matched(ops: Seq<Op>) -> bool {
    forall|k: int|
        0 <= k < ops.len() ==> match #[trigger] ops[k] {
            Op::Open(j) => k < j < ops.len() && ops[j as int] == Op::Close(k as u32),
            Op::Close(j) => 0 <= j < k && ops[j as int] == Op::Open(k as u32),
            _ => true,
        }
}

/// One span lies within the source: it covers at least one byte, ends at or
/// before the end of the source, and carries a 1-based line and column.
pub open spec fn span_in_source(sp: Span, len: int) -> bool {
    sp.start < sp.end <= len && sp.line >= 1 && sp.col >= 1
}

/// Every span of the sequence lies within the source.
pub open spec fn spans_in_source(spans: Seq<Span>, len: int) -> bool {
    forall|k: int| 0 <= k < spans.len() ==> span_in_source(#[trigger] spans[k], len)
}

/// Every pending bracket's span lies within the source.
pub open spec fn stack_spans_in_source(stack: Seq<(usize, Span)>, len: int) -> bool {
    forall|t: int| 0 <= t < stack.len() ==> span_in_source((#[trigger] stack[t]).1, len)
}

/// Appends an op, merging it with the tail of the sequence where one of the
/// compaction rewrites of [`spec_compact_push`] applies.
fn push_and_compact(ops: &mut Vec<Op>, spans: &mut Vec<Span>, op: Op, span: Span)
    requires
        old(ops)@.len() == old(spans)@.len(),
    ensures
        (final(ops)@, final(spans)@) == spec_compact_push(old(ops)@, old(spans)@, op, span),
        final(ops)@.len() == final(spans)@.len(),
        final(ops)@.len() <= old(ops)@.len() + 1,
{
    let n = ops.len();
    if n == 0 {
        ops.push(op);
        spans.push(span);
    } else {
        let last = ops[n - 1];
        let lsp = spans[n - 1];
        let merged = Span { start: lsp.start, end: span.end, line: lsp.line, col: lsp.col };
        match (last, op) {
            (Op::Add(a), Op::Add(b)) => {
                let sum: u8 = (((a as u16) + (b as u16)) % 256) as u8;
                if sum == 0 {
                    let _ = ops.pop();
                    let _ = spans.pop();
                } else {
                    ops[n - 1] = Op::Add(sum);
                    spans[n - 1] = merged;
                }
            },
            (Op::Move(a), Op::Move(b)) => {
                match a.checked_add(b) {
                    Some(0) => {
                        let _ = ops.pop();
                        let _ = spans.pop();
                    },
                    Some(sum) => {
                        ops[n - 1] = Op::Move(sum);
                        spans[n - 1] = merged;
                    },
                    None => {
                        ops.push(op);
                        spans.push(span);
                    },
                }
            },
            (Op::Store(_), Op::Store(b)) => {
                ops[n - 1] = Op::Store(b);
                spans[n - 1] = merged;
            },
            (Op::Store(a), Op::Add(b)) => {
                let sum: u8 = (((a as u16) + (b as u16)) % 256) as u8;
                ops[n - 1] = Op::Store(sum);
                spans[n - 1] = merged;
            },
            (Op::Add(_), Op::Store(b)) => {
                ops[n - 1] = Op::Store(b);
                spans[n - 1] = merged;
            },
            _ => {
                ops.push(op);
                spans.push(span);
            },
        }
    }
}

/// Skips past a dead loop, starting just after its `[`. Returns the position
/// past the matching `]` (or the end of the source), the number of newlines
/// crossed, the column offset since the last newline, and the bracket depth
/// still open: nonzero means the source ended before the loop closed.
fn skip_loop(source: &[u8], start: usize) -> (r: (usize, usize, usize, usize))
    requires
        start <= source@.len(),
        source@.len() < 0x8000_0000,
    ensures
        (r.0 as int, r.1 as int, r.2 as int, r.3 as int) == spec_skip(
            source@,
            start as int,
            1,
            0,
            0,
        ),
        start <= r.0 <= source@.len(),
{
    let n = source.len();
    let mut depth: usize = 1;
    let mut i: usize = start;
    let mut lines: usize = 0;
    let mut col: usize = 0;
    while i < n && depth > 0
        invariant
            start <= i <= n,
            n == source@.len(),
            n < 0x8000_0000,
            depth <= 1 + (i - start),
            lines <= i - start,
            col <= i - start,
            spec_skip(source@, i as int, depth as int, lines as int, col as int) == spec_skip(
                source@,
                start as int,
                1,
                0,
                0,
            ),
        decreases n - i,
    {
        let c = source[i];
        if c == 91 {
            depth = depth + 1;
        } else if c == 93 {
            depth = depth - 1;
        } else if c == 10 {
            lines = lines + 1;
            col = 0;
        }
        col = col + 1;
        i = i + 1;
    }
    (i, lines, col, depth)
}

/// Recognizes a multiplication-loop body: all `Add` and `Move`, net pointer
/// offset zero, net origin delta one decrement per iteration. Returns the
/// `(offset, factor)` pairs in body order, one per `Add` away from the
/// origin.
fn try_mul_loop(body: &[Op]) -> (r: Option<Vec<(i32, u8)>>)
    requires
        body@.len() <= 0xffff_ffff,
    ensures
        match r {
            Some(v) => spec_try_mul(body@) == Some(v@),
            None => spec_try_mul(body@) is None,
        },
{
    let n = body.len();
    let mut off: i64 = 0;
    let mut origin: u8 = 0;
    let mut muls: Vec<(i32, u8)> = Vec::new();
    let mut k: usize = 0;
    while k < n
        invariant
            k <= n,
            n == body@.len(),
            n <= 0xffff_ffff,
            -(k as int) * 0x8000_0000 <= off as int <= (k as int) * 0x7fff_ffff,
            spec_mul_accum(body@, k as int, off as int, origin as int, muls@) == spec_mul_accum(
                body@,
                0,
                0,
                0,
                Seq::empty(),
            ),
        decreases n - k,
    {
        match body[k] {
            Op::Add(nv) => {
                if off == 0 {
                    origin = (((origin as u16) + (nv as u16)) % 256) as u8;
                } else if off >= -0x8000_0000i64 && off <= 0x7fff_ffffi64 {
                    muls.push((off as i32, nv));
                } else {
                    return None;
                }
            },
            Op::Move(nv) => {
                off = off + (nv as i64);
            },
            _ => {
                return None;
            },
        }
        k = k + 1;
    }
    if off == 0 && origin == 255 {
        Some(muls)
    } else {
        None
    }
}

/// The state reached after handling one ordinary source byte: the emitted
/// sequences are replaced and the position and column advance by one.
pub open spec fn spec_bump(
    st: CompState,
    ops: Seq<Op>,
    spans: Seq<Span>,
    stack: Seq<(usize, Span)>,
) -> CompState {
    CompState {
        ops,
        spans,
        stack,
        i: (st.i + 1) as usize,
        line: st.line,
        col: (st.col + 1) as usize,
    }
}

/// The rest of a compilation: from state `st`, process every remaining source
/// byte and perform the final unmatched-bracket check. This is the
/// mathematical model of [`compile`].
pub open spec fn spec_compile_from(s: Seq<u8>, st: CompState) -> Result<
    (Seq<Op>, Seq<Span>),
    CompileError,
>
    decreases s.len() - st.i,
    when 0 <= st.i <= s.len() <= usize::MAX
    via spec_compile_from_dec
{
    if st.i >= s.len() {
        if st.stack.len() > 0 {
            Err(CompileError::UnmatchedOpen { span: st.stack.last().1 })
        } else {
            Ok((st.ops, st.spans))
        }
    } else {
        let c = s[st.i as int];
        let sp = Span { start: st.i, end: (st.i + 1) as usize, line: st.line, col: st.col };
        if c == 43 {  // '+'
            let (o, p) = spec_compact_push(st.ops, st.spans, Op::Add(1), sp);
            spec_compile_from(s, spec_bump(st, o, p, st.stack))
        } else if c == 45 {  // '-'
            let (o, p) = spec_compact_push(st.ops, st.spans, Op::Add(255), sp);
            spec_compile_from(s, spec_bump(st, o, p, st.stack))
        } else if c == 60 {  // '<'
            let (o, p) = spec_compact_push(st.ops, st.spans, Op::Move(-1i32), sp);
            spec_compile_from(s, spec_bump(st, o, p, st.stack))
        } else if c == 62 {  // '>'
            let (o, p) = spec_compact_push(st.ops, st.spans, Op::Move(1), sp);
            spec_compile_from(s, spec_bump(st, o, p, st.stack))
        } else if c == 46 {  // '.'
            spec_compile_from(s, spec_bump(st, st.ops.push(Op::Out), st.spans.push(sp), st.stack))
        } else if c == 44 {  // ','
            spec_compile_from(s, spec_bump(st, st.ops.push(Op::In), st.spans.push(sp), st.stack))
        } else if c == 91 {  // '['
            if st.ops.len() > 0 && spec_zeroing(st.ops.last()) {
                let sk = spec_skip(s, st.i + 1, 1, 0, 0);
                if sk.3 > 0 {
                    Err(CompileError::UnmatchedOpen { span: sp })
                } else {
                    spec_compile_from(
                        s,
                        CompState {
                            ops: st.ops,
                            spans: st.spans,
                            stack: st.stack,
                            i: sk.0 as usize,
                            line: (st.line + sk.1) as usize,
                            col: if sk.1 > 0 {
                                sk.2 as usize
                            } else {
                                (st.col + sk.2) as usize
                            },
                        },
                    )
                }
            } else {
                spec_compile_from(
                    s,
                    spec_bump(
                        st,
                        st.ops.push(Op::Open(0)),
                        st.spans.push(sp),
                        st.stack.push(((st.ops.len() as usize), sp)),
                    ),
                )
            }
        } else if c == 93 {  // ']'
            if st.stack.len() == 0 {
                Err(CompileError::UnmatchedClose { span: sp })
            } else {
                let (start, open_span) = st.stack.last();
                let stack2 = st.stack.drop_last();
                let loop_span = Span {
                    start: open_span.start,
                    end: (st.i + 1) as usize,
                    line: open_span.line,
                    col: open_span.col,
                };
                let body = st.ops.subrange(start + 1, st.ops.len() as int);
                let head_ops = st.ops.subrange(0, start as int);
                let head_spans = st.spans.subrange(0, start as int);
                match spec_try_mul(body) {
                    Some(muls) => {
                        let (o1, p1) = spec_append_muls(head_ops, head_spans, muls, loop_span);
                        let (o2, p2) = spec_compact_push(o1, p1, Op::Store(0), loop_span);
                        spec_compile_from(s, spec_bump(st, o2, p2, stack2))
                    },
                    None => {
                        if st.ops.len() == start + 2 && (st.ops.last() matches Op::Move(_)) {
                            let o3 = head_ops.push(Op::Scan(st.ops.last()->Move_0));
                            let p3 = head_spans.push(loop_span);
                            spec_compile_from(s, spec_bump(st, o3, p3, stack2))
                        } else if st.ops.len() == start + 2 && (st.ops.last() matches Op::Add(n)
                            && n % 2 == 1) {
                            let (o4, p4) = spec_compact_push(
                                head_ops,
                                head_spans,
                                Op::Store(0),
                                loop_span,
                            );
                            spec_compile_from(s, spec_bump(st, o4, p4, stack2))
                        } else {
                            let o5 = st.ops.update(
                                start as int,
                                Op::Open(st.ops.len() as u32),
                            ).push(Op::Close(start as u32));
                            let p5 = st.spans.push(loop_span);
                            spec_compile_from(s, spec_bump(st, o5, p5, stack2))
                        }
                    },
                }
            }
        } else if c == 10 {  // newline
            spec_compile_from(
                s,
                CompState {
                    ops: st.ops,
                    spans: st.spans,
                    stack: st.stack,
                    i: (st.i + 1) as usize,
                    line: (st.line + 1) as usize,
                    col: 1,
                },
            )
        } else {
            spec_compile_from(s, spec_bump(st, st.ops, st.spans, st.stack))
        }
    }
}

#[via_fn]
proof fn spec_compile_from_dec(s: Seq<u8>, st: CompState) {
    if st.i < s.len() && s[st.i as int] == 91 && st.ops.len() > 0 && spec_zeroing(st.ops.last()) {
        lemma_skip_bounds(s, st.i + 1, 1, 0, 0);
    }
}

/// Bounds of the dead-loop skip: the position only moves forward, stays
/// within the source, and the line and column counters grow by at most the
/// number of bytes walked.
pub proof fn lemma_skip_bounds(s: Seq<u8>, i: int, depth: int, lines: int, col: int)
    requires
        0 <= i <= s.len(),
    ensures
        i <= spec_skip(s, i, depth, lines, col).0 <= s.len(),
        lines <= spec_skip(s, i, depth, lines, col).1 <= lines + (spec_skip(
            s,
            i,
            depth,
            lines,
            col,
        ).0 - i),
        spec_skip(s, i, depth, lines, col).2 <= vstd::math::max(col, 1) + (spec_skip(
            s,
            i,
            depth,
            lines,
            col,
        ).0 - i),
        spec_skip(s, i, depth, lines, col).1 > lines ==> spec_skip(s, i, depth, lines, col).2 >= 1,
        spec_skip(s, i, depth, lines, col).1 == lines ==> spec_skip(s, i, depth, lines, col).2
            >= col,
    decreases s.len() - i,
{
    if i < s.len() && depth > 0 {
        let d2 = if s[i] == 91 {
            depth + 1
        } else if s[i] == 93 {
            depth - 1
        } else {
            depth
        };
        if s[i] == 10 {
            lemma_skip_bounds(s, i + 1, d2, lines + 1, 1);
        } else {
            lemma_skip_bounds(s, i + 1, d2, lines, col + 1);
        }
    }
}

/// The span of the single byte at the state's position.
pub open spec fn spec_byte_span(st: CompState) -> Span {
    Span { start: st.i, end: (st.i + 1) as usize, line: st.line, col: st.col }
}

/// Unfolding of the model at an arithmetic or movement byte: the op goes
/// through compaction and the position and column advance.
proof fn lemma_step_compact(s: Seq<u8>, st: CompState, op: Op)
    requires
        0 <= st.i < s.len() <= usize::MAX,
        (s[st.i as int] == 43 && op == Op::Add(1)) || (s[st.i as int] == 45 && op == Op::Add(255))
            || (s[st.i as int] == 60 && op == Op::Move(-1i32)) || (s[st.i as int] == 62 && op
            == Op::Move(1i32)),
    ensures
        spec_compile_from(s, st) == spec_compile_from(
            s,
            spec_bump(
                st,
                spec_compact_push(st.ops, st.spans, op, spec_byte_span(st)).0,
                spec_compact_push(st.ops, st.spans, op, spec_byte_span(st)).1,
                st.stack,
            ),
        ),
{
}

/// Unfolding of the model at `.` or `,`: the op is appended unmerged.
proof fn lemma_step_io(s: Seq<u8>, st: CompState, op: Op)
    requires
        0 <= st.i < s.len() <= usize::MAX,
        (s[st.i as int] == 46 && op == Op::Out) || (s[st.i as int] == 44 && op == Op::In),
    ensures
        spec_compile_from(s, st) == spec_compile_from(
            s,
            spec_bump(
                st,
                st.ops.push(op),
                st.spans.push(spec_byte_span(st)),
                st.stack,
            ),
        ),
{
}

/// Dead-loop elision. A `[` that opens right after an op that leaves the
/// current cell at zero (`Store(0)`, `Close`, `Scan`), and whose loop does
/// close, is skipped whole: compilation resumes past its matching bracket
/// with the emitted ops, spans and pending brackets exactly as they were, so
/// the skipped loop produces no instructions at all. Only the line and column
/// counters advance.
pub proof fn lemma_dead_loop_skipped(s: Seq<u8>, st: CompState)
    requires
        0 <= st.i < s.len() <= usize::MAX,
        s[st.i as int] == 91,
        st.ops.len() > 0,
        spec_zeroing(st.ops.last()),
        spec_skip(s, st.i + 1, 1, 0, 0).3 <= 0,
    ensures
        spec_compile_from(s, st) == spec_compile_from(
            s,
            (CompState {
                ops: st.ops,
                spans: st.spans,
                stack: st.stack,
                i: spec_skip(s, st.i + 1, 1, 0, 0).0 as usize,
                line: (st.line + spec_skip(s, st.i + 1, 1, 0, 0).1) as usize,
                col: if spec_skip(s, st.i + 1, 1, 0, 0).1 > 0 {
                    spec_skip(s, st.i + 1, 1, 0, 0).2 as usize
                } else {
                    (st.col + spec_skip(s, st.i + 1, 1, 0, 0).2) as usize
                },
            }),
        ),
{
    lemma_skip_bounds(s, st.i + 1, 1, 0, 0);
    let sk = spec_skip(s, st.i + 1, 1, 0, 0);
    assert(spec_compile_from(s, st) == spec_compile_from(
        s,
        CompState {
            ops: st.ops,
            spans: st.spans,
            stack: st.stack,
            i: sk.0 as usize,
            line: (st.line + sk.1) as usize,
            col: if sk.1 > 0 {
                sk.2 as usize
            } else {
                (st.col + sk.2) as usize
            },
        },
    ));
}

/// A dead loop that never closes is still a malformed bracket: when the skip
/// runs off the end of the source with the loop open, compilation fails fast
/// with that `[`'s span.
pub proof fn lemma_dead_loop_unmatched(s: Seq<u8>, st: CompState)
    requires
        0 <= st.i < s.len() <= usize::MAX,
        s[st.i as int] == 91,
        st.ops.len() > 0,
        spec_zeroing(st.ops.last()),
        spec_skip(s, st.i + 1, 1, 0, 0).3 > 0,
    ensures
        spec_compile_from(s, st) == Err::<(Seq<Op>, Seq<Span>), CompileError>(
            CompileError::UnmatchedOpen { span: spec_byte_span(st) },
        ),
{
}

/// Unfolding of the model at a live `[`: a placeholder `Open(0)` is emitted
/// and the bracket joins the pending stack.
proof fn lemma_step_open(s: Seq<u8>, st: CompState)
    requires
        0 <= st.i < s.len() <= usize::MAX,
        s[st.i as int] == 91,
        !(st.ops.len() > 0 && spec_zeroing(st.ops.last())),
    ensures
        spec_compile_from(s, st) == spec_compile_from(
            s,
            spec_bump(
                st,
                st.ops.push(Op::Open(0)),
                st.spans.push(spec_byte_span(st)),
                st.stack.push(((st.ops.len() as usize), spec_byte_span(st))),
            ),
        ),
{
}

/// Unfolding of the model at a `]` with no pending `[`: compilation fails.
proof fn lemma_step_close_err(s: Seq<u8>, st: CompState)
    requires
        0 <= st.i < s.len() <= usize::MAX,
        s[st.i as int] == 93,
        st.stack.len() == 0,
    ensures
        spec_compile_from(s, st) == Err::<(Seq<Op>, Seq<Span>), CompileError>(
            CompileError::UnmatchedClose { span: spec_byte_span(st) },
        ),
{
}

/// The span of a whole loop: from its `[` through its `]` byte, at the line
/// and column of the `[`.
pub open spec fn spec_loop_span(st: CompState) -> Span {
    Span {
        start: st.stack.last().1.start,
        end: (st.i + 1) as usize,
        line: st.stack.last().1.line,
        col: st.stack.last().1.col,
    }
}

/// The loop body: everything emitted after the pending `Open(0)` placeholder.
pub open spec fn spec_loop_body(st: CompState) -> Seq<Op> {
    st.ops.subrange(st.stack.last().0 + 1, st.ops.len() as int)
}

/// Unfolding of the model at a `]` closing a multiplication loop: the
/// placeholder and body are replaced by the collected `Mul`s and a compacted
/// `Store(0)`.
proof fn lemma_step_close_mul(s: Seq<u8>, st: CompState)
    requires
        0 <= st.i < s.len() <= usize::MAX,
        s[st.i as int] == 93,
        st.stack.len() > 0,
        spec_try_mul(spec_loop_body(st)) is Some,
    ensures
        spec_compile_from(s, st) == spec_compile_from(
            s,
            spec_bump(
                st,
                spec_compact_push(
                    spec_append_muls(
                        st.ops.subrange(0, st.stack.last().0 as int),
                        st.spans.subrange(0, st.stack.last().0 as int),
                        spec_try_mul(spec_loop_body(st)).unwrap(),
                        spec_loop_span(st),
                    ).0,
                    spec_append_muls(
                        st.ops.subrange(0, st.stack.last().0 as int),
                        st.spans.subrange(0, st.stack.last().0 as int),
                        spec_try_mul(spec_loop_body(st)).unwrap(),
                        spec_loop_span(st),
                    ).1,
                    Op::Store(0),
                    spec_loop_span(st),
                ).0,
                spec_compact_push(
                    spec_append_muls(
                        st.ops.subrange(0, st.stack.last().0 as int),
                        st.spans.subrange(0, st.stack.last().0 as int),
                        spec_try_mul(spec_loop_body(st)).unwrap(),
                        spec_loop_span(st),
                    ).0,
                    spec_append_muls(
                        st.ops.subrange(0, st.stack.last().0 as int),
                        st.spans.subrange(0, st.stack.last().0 as int),
                        spec_try_mul(spec_loop_body(st)).unwrap(),
                        spec_loop_span(st),
                    ).1,
                    Op::Store(0),
                    spec_loop_span(st),
                ).1,
                st.stack.drop_last(),
            ),
        ),
{
}

/// Unfolding of the model at a `]` closing a scan loop: `Open` and the lone
/// `Move` become a single `Scan`.
proof fn lemma_step_close_scan(s: Seq<u8>, st: CompState)
    requires
        0 <= st.i < s.len() <= usize::MAX,
        s[st.i as int] == 93,
        st.stack.len() > 0,
        spec_try_mul(spec_loop_body(st)) is None,
        st.ops.len() == st.stack.last().0 + 2,
        st.ops.last() matches Op::Move(_),
    ensures
        spec_compile_from(s, st) == spec_compile_from(
            s,
            spec_bump(
                st,
                st.ops.subrange(0, st.stack.last().0 as int).push(
                    Op::Scan(st.ops.last()->Move_0),
                ),
                st.spans.subrange(0, st.stack.last().0 as int).push(spec_loop_span(st)),
                st.stack.drop_last(),
            ),
        ),
{
}

/// Unfolding of the model at a `]` closing an odd-add clear loop: the whole
/// loop becomes a compacted `Store(0)`.
proof fn lemma_step_close_clear(s: Seq<u8>, st: CompState)
    requires
        0 <= st.i < s.len() <= usize::MAX,
        s[st.i as int] == 93,
        st.stack.len() > 0,
        spec_try_mul(spec_loop_body(st)) is None,
        st.ops.len() == st.stack.last().0 + 2,
        !(st.ops.last() matches Op::Move(_)),
        st.ops.last() matches Op::Add(n) && n % 2 == 1,
    ensures
        spec_compile_from(s, st) == spec_compile_from(
            s,
            spec_bump(
                st,
                spec_compact_push(
                    st.ops.subrange(0, st.stack.last().0 as int),
                    st.spans.subrange(0, st.stack.last().0 as int),
                    Op::Store(0),
                    spec_loop_span(st),
                ).0,
                spec_compact_push(
                    st.ops.subrange(0, st.stack.last().0 as int),
                    st.spans.subrange(0, st.stack.last().0 as int),
                    Op::Store(0),
                    spec_loop_span(st),
                ).1,
                st.stack.drop_last(),
            ),
        ),
{
}

/// Unfolding of the model at a `]` closing a general loop: the placeholder is
/// patched to jump past the new `Close`, which jumps back to it.
proof fn lemma_step_close_general(s: Seq<u8>, st: CompState)
    requires
        0 <= st.i < s.len() <= usize::MAX,
        s[st.i as int] == 93,
        st.stack.len() > 0,
        spec_try_mul(spec_loop_body(st)) is None,
        !(st.ops.len() == st.stack.last().0 + 2 && (st.ops.last() matches Op::Move(_))),
        !(st.ops.len() == st.stack.last().0 + 2 && (st.ops.last() matches Op::Add(n) && n % 2
            == 1)),
    ensures
        spec_compile_from(s, st) == spec_compile_from(
            s,
            spec_bump(
                st,
                st.ops.update(st.stack.last().0 as int, Op::Open(st.ops.len() as u32)).push(
                    Op::Close(st.stack.last().0 as u32),
                ),
                st.spans.push(spec_loop_span(st)),
                st.stack.drop_last(),
            ),
        ),
{
}

/// Unfolding of the model at a newline: the line advances, the column resets.
proof fn lemma_step_newline(s: Seq<u8>, st: CompState)
    requires
        0 <= st.i < s.len() <= usize::MAX,
        s[st.i as int] == 10,
    ensures
        spec_compile_from(s, st) == spec_compile_from(
            s,
            (CompState {
                ops: st.ops,
                spans: st.spans,
                stack: st.stack,
                i: (st.i + 1) as usize,
                line: (st.line + 1) as usize,
                col: 1,
            }),
        ),
{
}

/// Unfolding of the model at a comment byte: only position and column move.
proof fn lemma_step_other(s: Seq<u8>, st: CompState)
    requires
        0 <= st.i < s.len() <= usize::MAX,
        s[st.i as int] != 43,
        s[st.i as int] != 45,
        s[st.i as int] != 60,
        s[st.i as int] != 62,
        s[st.i as int] != 46,
        s[st.i as int] != 44,
        s[st.i as int] != 91,
        s[st.i as int] != 93,
        s[st.i as int] != 10,
    ensures
        spec_compile_from(s, st) == spec_compile_from(
            s,
            spec_bump(st, st.ops, st.spans, st.stack),
        ),
{
}

/// A compaction step keeps the sequences aligned, grows them by at most one,
/// and never disturbs an `Open(0)` placeholder that a pending bracket points
/// at.
proof fn lemma_compact_stack(
    ops: Seq<Op>,
    spans: Seq<Span>,
    op: Op,
    span: Span,
    stack: Seq<(usize, Span)>,
)
    requires
        ops.len() == spans.len(),
        forall|t: int| 0 <= t < stack.len() ==> stack[t].0 < ops.len() && ops[stack[t].0 as int]
            == Op::Open(0),
    ensures
        spec_compact_push(ops, spans, op, span).0.len() == spec_compact_push(
            ops,
            spans,
            op,
            span,
        ).1.len(),
        spec_compact_push(ops, spans, op, span).0.len() <= ops.len() + 1,
        forall|t: int| 0 <= t < stack.len() ==> stack[t].0 < spec_compact_push(
            ops,
            spans,
            op,
            span,
        ).0.len() && spec_compact_push(ops, spans, op, span).0[stack[t].0 as int] == Op::Open(0),
{
    let r = spec_compact_push(ops, spans, op, span);
    assert forall|t: int| 0 <= t < stack.len() implies stack[t].0 < r.0.len() && r.0[stack[t].0 as int]
        == Op::Open(0) by {
        assert(ops[stack[t].0 as int] == Op::Open(0));
    }
}

/// The walk of a multiplication-loop body collects at most one pair per op.
proof fn lemma_mul_accum_len(
    body: Seq<Op>,
    k: int,
    off: int,
    origin: int,
    muls: Seq<(i32, u8)>,
)
    requires
        spec_mul_accum(body, k, off, origin, muls) is Some,
    ensures
        spec_mul_accum(body, k, off, origin, muls).unwrap().2.len() <= muls.len() + if body.len()
            - k >= 0 {
            body.len() - k
        } else {
            0
        },
    decreases body.len() - k,
{
    if k < 0 || k >= body.len() {
    } else {
        match body[k] {
            Op::Add(n) => {
                if off == 0 {
                    lemma_mul_accum_len(body, k + 1, off, (origin + n) % 256, muls);
                } else if -0x8000_0000 <= off <= 0x7fff_ffff {
                    lemma_mul_accum_len(body, k + 1, off, origin, muls.push((off as i32, n)));
                }
            },
            Op::Move(n) => {
                lemma_mul_accum_len(body, k + 1, off + n, origin, muls);
            },
            _ => {},
        }
    }
}

/// Appends one `Mul` per collected `(offset, factor)` pair, all under the
/// span of the whole loop.
fn append_muls(ops: &mut Vec<Op>, spans: &mut Vec<Span>, muls: &Vec<(i32, u8)>, loop_span: Span)
    ensures
        (final(ops)@, final(spans)@) == spec_append_muls(old(ops)@, old(spans)@, muls@, loop_span),
{
    let m = muls.len();
    let mut t: usize = 0;
    while t < m
        invariant
            t <= m,
            m == muls@.len(),
            ops@ == old(ops)@ + Seq::new(t as nat, |k: int| Op::Mul(muls@[k].0, muls@[k].1)),
            spans@ == old(spans)@ + Seq::new(t as nat, |k: int| loop_span),
        decreases m - t,
    {
        let pair = muls[t];
        ops.push(Op::Mul(pair.0, pair.1));
        spans.push(loop_span);
        t = t + 1;
        proof {
            assert(ops@ =~= old(ops)@ + Seq::new(t as nat, |k: int| Op::Mul(muls@[k].0, muls@[k].1)));
            assert(spans@ =~= old(spans)@ + Seq::new(t as nat, |k: int| loop_span));
        }
    }
    proof {
        assert(ops@ =~= old(ops)@ + Seq::new(muls@.len(), |k: int| Op::Mul(muls@[k].0, muls@[k].1)));
        assert(spans@ =~= old(spans)@ + Seq::new(muls@.len(), |k: int| loop_span));
    }
}

/// The whole compilation of a source text, from the empty initial state at
/// line 1, column 1.
pub open spec fn spec_compile(s: Seq<u8>) -> Result<(Seq<Op>, Seq<Span>), CompileError> {
    spec_compile_from(
        s,
        (CompState {
            ops: Seq::empty(),
            spans: Seq::empty(),
            stack: Seq::empty(),
            i: 0,
            line: 1,
            col: 1,
        }),
    )
}



/// Compaction preserves the bracket discipline, the no-zero-payload rule and
/// the span discipline: it only ever touches a trailing `Add`, `Move` or
/// `Store`, never a bracket, what it writes carries no zero payload unless
/// the new op does, and a merged span keeps its start, line and column while
/// its end grows to the new op's.
proof fn lemma_compact_wf(
    ops: Seq<Op>,
    spans: Seq<Span>,
    op: Op,
    span: Span,
    stack: Seq<(usize, Span)>,
    bound: int,
)
    requires
        ops.len() == spans.len(),
        no_zero_ops(ops),
        brackets_partial(ops, stack),
        op != Op::Add(0),
        op != Op::Move(0i32),
        op != Op::Scan(0i32),
        !(op matches Op::Open(_)),
        !(op matches Op::Close(_)),
        spans_in_source(spans, bound),
        bound <= span.end,
        span.start < span.end,
        span.line >= 1,
        span.col >= 1,
    ensures
        spec_compact_push(ops, spans, op, span).0.len() == spec_compact_push(ops, spans, op, span).1.len(),
        spec_compact_push(ops, spans, op, span).0.len() <= ops.len() + 1,
        no_zero_ops(spec_compact_push(ops, spans, op, span).0),
        brackets_partial(spec_compact_push(ops, spans, op, span).0, stack),
        spans_in_source(spec_compact_push(ops, spans, op, span).1, span.end as int),
{
    let r = spec_compact_push(ops, spans, op, span);
    let ro = r.0;
    if ops.len() == 0 {
        assert(no_zero_ops(ro));
        assert forall|k: int| 0 <= k < ro.len() implies #[trigger] bracket_ok_at(ro, stack, k) by {
        }
    } else {
        let li = ops.len() - 1;
        // The rewritten or dropped tail is never a bracket, so no pair and no
        // pending placeholder can point at it.
        assert forall|k: int| 0 <= k < ro.len() implies #[trigger] bracket_ok_at(ro, stack, k) by {
            if k < li {
                assert(bracket_ok_at(ops, stack, k));
                match ops[k] {
                    Op::Open(j) => {
                        if !stack_has(stack, k) {
                            assert(ops[j as int] == Op::Close(k as u32));
                            if j == li {
                                // A bracket tail blocks every rewrite: the
                                // new op is simply appended.
                                assert(ro == ops.push(op));
                            }
                            assert(ro[j as int] == Op::Close(k as u32));
                        }
                    },
                    Op::Close(j) => {
                        assert(j < k);
                    },
                    _ => {},
                }
            } else if k < ops.len() {
                assert(bracket_ok_at(ops, stack, k));
                match ops[k] {
                    Op::Open(_) => {
                        assert(ro == ops.push(op));
                    },
                    Op::Close(_) => {
                        assert(ro == ops.push(op));
                    },
                    _ => {},
                }
            }
        }
        assert(no_zero_ops(ro));
        assert forall|t: int| 0 <= t < stack.len() implies #[trigger] stack[t].0 < ro.len()
            && ro[stack[t].0 as int] == Op::Open(0) by {
            assert(ops[stack[t].0 as int] == Op::Open(0));
        }
    }
}

/// A body the multiplication walk accepts holds nothing but `Add` and `Move`.
proof fn lemma_mul_accum_ops(body: Seq<Op>, k: int, off: int, origin: int, muls: Seq<(i32, u8)>)
    requires
        0 <= k,
        spec_mul_accum(body, k, off, origin, muls) is Some,
    ensures
        forall|j: int|
            k <= j < body.len() ==> (#[trigger] body[j] matches Op::Add(_)) || (body[j] matches Op::Move(_)),
    decreases body.len() - k,
{
    if k < 0 || k >= body.len() {
    } else {
        match body[k] {
            Op::Add(n) => {
                if off == 0 {
                    lemma_mul_accum_ops(body, k + 1, off, (origin + n) % 256, muls);
                } else if -0x8000_0000 <= off <= 0x7fff_ffff {
                    lemma_mul_accum_ops(body, k + 1, off, origin, muls.push((off as i32, n)));
                }
            },
            Op::Move(n) => {
                lemma_mul_accum_ops(body, k + 1, off + n, origin, muls);
            },
            _ => {},
        }
    }
}

/// Closing a bracket preserves the discipline, whichever rewrite fires: the
/// popped placeholder and the loop body are only ever replaced by op runs
/// that contain no bracket, or patched into a mutually consistent
/// `Open`/`Close` pair.
proof fn lemma_close_keeps_brackets(st: CompState)
    requires
        st.stack.len() > 0,
        st.ops.len() == st.spans.len(),
        no_zero_ops(st.ops),
        brackets_partial(st.ops, st.stack),
    ensures
        ({
            let start = st.stack.last().0 as int;
            let stack2 = st.stack.drop_last();
            let head_ops = st.ops.subrange(0, start);
            let head_spans = st.spans.subrange(0, start);
            &&& head_ops.len() == head_spans.len()
            &&& no_zero_ops(head_ops)
            &&& ((forall|j: int|
                start + 1 <= j < st.ops.len() ==> (#[trigger] st.ops[j] matches Op::Add(_)) || (
                st.ops[j] matches Op::Move(_))) ==> brackets_partial(head_ops, stack2))
        }),
{
    let start = st.stack.last().0 as int;
    let stack2 = st.stack.drop_last();
    let head_ops = st.ops.subrange(0, start);
    let head_spans = st.spans.subrange(0, start);
    assert(st.stack[st.stack.len() - 1].0 == st.stack.last().0);
    assert(start < st.ops.len());
    assert(no_zero_ops(head_ops));
    if forall|j: int|
        start + 1 <= j < st.ops.len() ==> (#[trigger] st.ops[j] matches Op::Add(_)) || (st.ops[j] matches Op::Move(_)) {
        // Every pending bracket below the popped one sits strictly below it.
        assert forall|t: int| 0 <= t < stack2.len() implies #[trigger] stack2[t].0 < head_ops.len()
            && head_ops[stack2[t].0 as int] == Op::Open(0) by {
            assert(st.stack[t].0 < st.stack[st.stack.len() - 1].0);
            assert(st.ops[stack2[t].0 as int] == Op::Open(0));
        }
        // No pair reaches into the removed region: the placeholder is an
        // `Open(0)` and the body holds only `Add` and `Move`.
        assert forall|k: int| 0 <= k < head_ops.len() implies #[trigger] bracket_ok_at(
            head_ops,
            stack2,
            k,
        ) by {
            assert(bracket_ok_at(st.ops, st.stack, k));
            match st.ops[k] {
                Op::Open(j) => {
                    if stack_has(st.stack, k) {
                        let t = choose|t: int| 0 <= t < st.stack.len() && #[trigger] st.stack[t].0 == k;
                        assert(t < st.stack.len() - 1) by {
                            if t == st.stack.len() - 1 {
                                assert(st.stack[t].0 == st.stack.last().0);
                            }
                        }
                        assert(stack2[t] == st.stack[t]);
                        assert(stack_has(stack2, k));
                    } else {
                        assert(st.ops[j as int] == Op::Close(k as u32));
                        assert(j != start);
                        assert(j < start);
                        assert(bracket_ok_at(head_ops, stack2, k));
                    }
                },
                Op::Close(j) => {
                    assert(st.ops[j as int] == Op::Open(k as u32));
                    assert(!stack_has(st.stack, j as int));
                    assert(!stack_has(stack2, j as int)) by {
                        if stack_has(stack2, j as int) {
                            let t = choose|t: int| 0 <= t < stack2.len() && #[trigger] stack2[t].0 == j;
                            assert(stack2[t] == st.stack[t]);
                            assert(st.stack[t].0 == j);
                        }
                    }
                },
                _ => {},
            }
        }
    }
}

/// Patching a general loop closed preserves the discipline: the placeholder
/// becomes an `Open` pointing at the new final `Close`, which points back.
proof fn lemma_general_close_wf(st: CompState)
    requires
        st.stack.len() > 0,
        st.ops.len() == st.spans.len(),
        st.ops.len() <= u32::MAX,
        no_zero_ops(st.ops),
        brackets_partial(st.ops, st.stack),
    ensures
        ({
            let start = st.stack.last().0 as int;
            let stack2 = st.stack.drop_last();
            let ops2 = st.ops.update(start, Op::Open(st.ops.len() as u32)).push(
                Op::Close(st.stack.last().0 as u32),
            );
            &&& no_zero_ops(ops2)
            &&& brackets_partial(ops2, stack2)
        }),
{
    let start = st.stack.last().0 as int;
    let stack2 = st.stack.drop_last();
    let ll = st.ops.len() as int;
    let ops2 = st.ops.update(start, Op::Open(st.ops.len() as u32)).push(
        Op::Close(st.stack.last().0 as u32),
    );
    assert(st.stack[st.stack.len() - 1].0 == st.stack.last().0);
    assert(0 <= start < st.ops.len());
    assert(no_zero_ops(ops2));
    assert forall|t: int| 0 <= t < stack2.len() implies #[trigger] stack2[t].0 < ops2.len()
        && ops2[stack2[t].0 as int] == Op::Open(0) by {
        assert(st.stack[t].0 < st.stack[st.stack.len() - 1].0);
        assert(st.ops[stack2[t].0 as int] == Op::Open(0));
    }
    assert forall|k: int| 0 <= k < ops2.len() implies #[trigger] bracket_ok_at(ops2, stack2, k) by {
        if k == start {
            assert(ops2[k] == Op::Open(st.ops.len() as u32));
            assert(ops2[ll] == Op::Close(st.stack.last().0 as u32));
            assert(bracket_ok_at(ops2, stack2, k));
        } else if k == ll {
            assert(ops2[k] == Op::Close(st.stack.last().0 as u32));
            assert(ops2[start] == Op::Open(st.ops.len() as u32));
            assert(!stack_has(stack2, start)) by {
                if stack_has(stack2, start) {
                    let t = choose|t: int| 0 <= t < stack2.len() && #[trigger] stack2[t].0 == start;
                    assert(st.stack[t].0 < st.stack[st.stack.len() - 1].0);
                }
            }
            assert(bracket_ok_at(ops2, stack2, k));
        } else {
            assert(0 <= k < st.ops.len());
            assert(bracket_ok_at(st.ops, st.stack, k));
            match st.ops[k] {
                Op::Open(j) => {
                    if stack_has(st.stack, k) {
                        if k == st.stack.last().0 as int {
                            assert(false);
                        } else {
                            let t = choose|t: int| 0 <= t < st.stack.len() && #[trigger] st.stack[t].0 == k;
                            assert(t < st.stack.len() - 1) by {
                                if t == st.stack.len() - 1 {
                                    assert(st.stack[t].0 == st.stack.last().0);
                                }
                            }
                            assert(stack2[t] == st.stack[t]);
                            assert(stack_has(stack2, k));
                        }
                    } else {
                        assert(st.ops[j as int] == Op::Close(k as u32));
                        assert(j != start);
                        assert(ops2[j as int] == Op::Close(k as u32));
                        assert(bracket_ok_at(ops2, stack2, k));
                    }
                },
                Op::Close(j) => {
                    assert(st.ops[j as int] == Op::Open(k as u32));
                    assert(j != start) by {
                        if j == start {
                            assert(st.ops[start] == Op::Open(0));
                            assert(k as u32 == 0);
                        }
                    }
                    assert(ops2[j as int] == Op::Open(k as u32));
                    assert(!stack_has(stack2, j as int)) by {
                        if stack_has(stack2, j as int) {
                            let t = choose|t: int| 0 <= t < stack2.len() && #[trigger] stack2[t].0 == j;
                            assert(stack2[t] == st.stack[t]);
                            assert(st.stack[t].0 == j);
                        }
                    }
                    assert(bracket_ok_at(ops2, stack2, k));
                },
                _ => {},
            }
        }
    }
}

/// A span bound only grows: what lies within a shorter prefix lies within a
/// longer one.
proof fn lemma_spans_mono(spans: Seq<Span>, b1: int, b2: int)
    requires
        spans_in_source(spans, b1),
        b1 <= b2,
    ensures
        spans_in_source(spans, b2),
{
    assert forall|k: int| 0 <= k < spans.len() implies span_in_source(#[trigger] spans[k], b2) by {
        assert(span_in_source(spans[k], b1));
    }
}

/// The same, for the spans of pending brackets.
proof fn lemma_stack_spans_mono(stack: Seq<(usize, Span)>, b1: int, b2: int)
    requires
        stack_spans_in_source(stack, b1),
        b1 <= b2,
    ensures
        stack_spans_in_source(stack, b2),
{
    assert forall|t: int| 0 <= t < stack.len() implies span_in_source((#[trigger] stack[t]).1, b2) by {
        assert(span_in_source(stack[t].1, b1));
    }
}

/// Well-formedness of everything the model emits: instructions and spans
/// stay aligned, every `Open`/`Close` pair is mutually consistent, no
/// `Add(0)`, `Move(0)` or `Scan(0)` ever appears, and every span — of an
/// instruction or of an error — covers at least one source byte and carries
/// a 1-based line and column.
#[verifier::rlimit(100)]
pub proof fn lemma_compile_from_wf(s: Seq<u8>, st: CompState)
    requires
        s.len() < 0x8000_0000,
        st.i <= s.len(),
        st.ops.len() == st.spans.len(),
        st.ops.len() <= st.i,
        1 <= st.line <= 1 + st.i,
        1 <= st.col <= 1 + st.i,
        no_zero_ops(st.ops),
        brackets_partial(st.ops, st.stack),
        spans_in_source(st.spans, st.i as int),
        stack_spans_in_source(st.stack, st.i as int),
    ensures
        spec_compile_from(s, st) matches Ok(p) ==> p.0.len() == p.1.len() && no_zero_ops(p.0)
            && brackets_matched(p.0) && spans_in_source(p.1, s.len() as int),
        spec_compile_from(s, st) matches Err(e) ==> span_in_source(
            match e {
                CompileError::UnmatchedOpen { span } => span,
                CompileError::UnmatchedClose { span } => span,
            },
            s.len() as int,
        ),
    decreases s.len() - st.i,
{
    if st.i >= s.len() {
        lemma_spans_mono(st.spans, st.i as int, s.len() as int);
        if st.stack.len() > 0 {
            assert(st.stack[st.stack.len() - 1] == st.stack.last());
            assert(span_in_source(st.stack.last().1, st.i as int));
        }
        if st.stack.len() == 0 {
            assert forall|k: int|
                0 <= k < st.ops.len() implies match #[trigger] st.ops[k] {
                    Op::Open(j) => k < j < st.ops.len() && st.ops[j as int] == Op::Close(k as u32),
                    Op::Close(j) => 0 <= j < k && st.ops[j as int] == Op::Open(k as u32),
                    _ => true,
                } by {
                assert(bracket_ok_at(st.ops, st.stack, k));
            }
        }
    } else {
        let c = s[st.i as int];
        let sp = spec_byte_span(st);
        if c == 43 {
            lemma_compact_wf(st.ops, st.spans, Op::Add(1), sp, st.stack, st.i as int);
            lemma_step_compact(s, st, Op::Add(1));
            let cp = spec_compact_push(st.ops, st.spans, Op::Add(1), sp);
            lemma_stack_spans_mono(st.stack, st.i as int, st.i + 1);
            lemma_compile_from_wf(s, spec_bump(st, cp.0, cp.1, st.stack));
        } else if c == 45 {
            lemma_compact_wf(st.ops, st.spans, Op::Add(255), sp, st.stack, st.i as int);
            lemma_step_compact(s, st, Op::Add(255));
            let cp = spec_compact_push(st.ops, st.spans, Op::Add(255), sp);
            lemma_stack_spans_mono(st.stack, st.i as int, st.i + 1);
            lemma_compile_from_wf(s, spec_bump(st, cp.0, cp.1, st.stack));
        } else if c == 60 {
            lemma_compact_wf(st.ops, st.spans, Op::Move(-1i32), sp, st.stack, st.i as int);
            lemma_step_compact(s, st, Op::Move(-1i32));
            let cp = spec_compact_push(st.ops, st.spans, Op::Move(-1i32), sp);
            lemma_stack_spans_mono(st.stack, st.i as int, st.i + 1);
            lemma_compile_from_wf(s, spec_bump(st, cp.0, cp.1, st.stack));
        } else if c == 62 {
            lemma_compact_wf(st.ops, st.spans, Op::Move(1i32), sp, st.stack, st.i as int);
            lemma_step_compact(s, st, Op::Move(1i32));
            let cp = spec_compact_push(st.ops, st.spans, Op::Move(1i32), sp);
            lemma_stack_spans_mono(st.stack, st.i as int, st.i + 1);
            lemma_compile_from_wf(s, spec_bump(st, cp.0, cp.1, st.stack));
        } else if c == 46 || c == 44 {
            let op = if c == 46 { Op::Out } else { Op::In };
            lemma_step_io(s, st, op);
            let o2 = st.ops.push(op);
            assert(no_zero_ops(o2));
            assert forall|k: int| 0 <= k < o2.len() implies #[trigger] bracket_ok_at(o2, st.stack, k) by {
                if k < st.ops.len() {
                    assert(bracket_ok_at(st.ops, st.stack, k));
                }
            }
            lemma_compile_from_wf(s, spec_bump(st, o2, st.spans.push(sp), st.stack));
        } else if c == 91 {
            if st.ops.len() > 0 && spec_zeroing(st.ops.last()) {
                lemma_skip_bounds(s, st.i + 1, 1, 0, 0);
                let sk = spec_skip(s, st.i + 1, 1, 0, 0);
                if sk.3 > 0 {
                    lemma_dead_loop_unmatched(s, st);
                } else {
                    lemma_dead_loop_skipped(s, st);
                    lemma_spans_mono(st.spans, st.i as int, sk.0);
                    lemma_stack_spans_mono(st.stack, st.i as int, sk.0);
                    lemma_compile_from_wf(
                        s,
                        CompState {
                            ops: st.ops,
                            spans: st.spans,
                            stack: st.stack,
                            i: sk.0 as usize,
                            line: (st.line + sk.1) as usize,
                            col: if sk.1 > 0 {
                                sk.2 as usize
                            } else {
                                (st.col + sk.2) as usize
                            },
                        },
                    );
                }
            } else {
                lemma_step_open(s, st);
                let o2 = st.ops.push(Op::Open(0));
                let k2 = st.stack.push(((st.ops.len() as usize), sp));
                assert(no_zero_ops(o2));
                lemma_spans_mono(st.spans, st.i as int, st.i + 1);
                assert(spans_in_source(st.spans.push(sp), st.i + 1)) by {
                    assert forall|k: int|
                        0 <= k < st.spans.push(sp).len() implies span_in_source(
                        #[trigger] st.spans.push(sp)[k],
                        st.i + 1,
                    ) by {
                        if k < st.spans.len() {
                            assert(span_in_source(st.spans[k], st.i + 1));
                        }
                    }
                }
                assert(stack_spans_in_source(k2, st.i + 1)) by {
                    assert forall|t: int|
                        0 <= t < k2.len() implies span_in_source((#[trigger] k2[t]).1, st.i + 1) by {
                        if t < st.stack.len() {
                            assert(k2[t] == st.stack[t]);
                            assert(span_in_source(st.stack[t].1, st.i as int));
                        }
                    }
                }
                assert forall|t: int| 0 <= t < k2.len() implies #[trigger] k2[t].0 < o2.len()
                    && o2[k2[t].0 as int] == Op::Open(0) by {
                    if t < st.stack.len() {
                        assert(st.stack[t].0 < st.ops.len());
                    }
                }
                assert forall|t1: int, t2: int|
                    #![trigger k2[t1], k2[t2]]
                    0 <= t1 < t2 < k2.len() implies k2[t1].0 < k2[t2].0 by {
                    if t2 < st.stack.len() {
                        assert(st.stack[t1].0 < st.stack[t2].0);
                    } else {
                        assert(st.stack[t1].0 < st.ops.len());
                    }
                }
                assert forall|k: int| 0 <= k < o2.len() implies #[trigger] bracket_ok_at(o2, k2, k) by {
                    if k < st.ops.len() {
                        assert(bracket_ok_at(st.ops, st.stack, k));
                        match st.ops[k] {
                            Op::Open(j) => {
                                if stack_has(st.stack, k) {
                                    let t = choose|t: int|
                                        0 <= t < st.stack.len() && #[trigger] st.stack[t].0 == k;
                                    assert(k2[t] == st.stack[t]);
                                    assert(stack_has(k2, k));
                                }
                            },
                            Op::Close(j) => {
                                assert(!stack_has(k2, j as int)) by {
                                    if stack_has(k2, j as int) {
                                        let t = choose|t: int|
                                            0 <= t < k2.len() && #[trigger] k2[t].0 == j;
                                        if t < st.stack.len() {
                                            assert(st.stack[t] == k2[t]);
                                            assert(stack_has(st.stack, j as int));
                                        } else {
                                            assert(k2[t].0 == st.ops.len());
                                        }
                                    }
                                }
                            },
                            _ => {},
                        }
                    } else {
                        assert(o2[k] == Op::Open(0));
                        assert(k2[st.stack.len() as int].0 == k);
                        assert(stack_has(k2, k));
                    }
                }
                lemma_compile_from_wf(s, spec_bump(st, o2, st.spans.push(sp), k2));
            }
        } else if c == 93 {
            if st.stack.len() == 0 {
                lemma_step_close_err(s, st);
            } else {
                let start = st.stack.last().0 as int;
                let stack2 = st.stack.drop_last();
                let head_ops = st.ops.subrange(0, start);
                let head_spans = st.spans.subrange(0, start);
                let body = spec_loop_body(st);
                let lsp = spec_loop_span(st);
                assert(st.stack[st.stack.len() - 1].0 == st.stack.last().0);
                assert(st.stack[st.stack.len() - 1] == st.stack.last());
                assert(start < st.ops.len());
                assert(body.len() == st.ops.len() - start - 1);
                assert(span_in_source(st.stack.last().1, st.i as int));
                assert(span_in_source(lsp, st.i + 1));
                assert(spans_in_source(head_spans, st.i as int)) by {
                    assert forall|k: int|
                        0 <= k < head_spans.len() implies span_in_source(
                        #[trigger] head_spans[k],
                        st.i as int,
                    ) by {
                        assert(head_spans[k] == st.spans[k]);
                        assert(span_in_source(st.spans[k], st.i as int));
                    }
                }
                assert(stack_spans_in_source(stack2, st.i + 1)) by {
                    assert forall|t: int|
                        0 <= t < stack2.len() implies span_in_source(
                        (#[trigger] stack2[t]).1,
                        st.i + 1,
                    ) by {
                        assert(stack2[t] == st.stack[t]);
                        assert(span_in_source(st.stack[t].1, st.i as int));
                    }
                }
                match spec_try_mul(body) {
                    Some(muls) => {
                        lemma_mul_accum_ops(body, 0, 0, 0, Seq::empty());
                        lemma_mul_accum_len(body, 0, 0, 0, Seq::empty());
                        assert forall|j: int|
                            start + 1 <= j < st.ops.len() implies (#[trigger] st.ops[j] matches Op::Add(
                            _,
                        )) || (st.ops[j] matches Op::Move(_)) by {
                            assert(body[j - start - 1] == st.ops[j]);
                        }
                        lemma_close_keeps_brackets(st);
                        let am = spec_append_muls(head_ops, head_spans, muls, lsp);
                        assert(muls.len() <= body.len());
                        assert(no_zero_ops(am.0)) by {
                            assert forall|k: int|
                                0 <= k < am.0.len() implies am.0[k] != Op::Add(0) && am.0[k]
                                    != Op::Move(0i32) && am.0[k] != Op::Scan(0i32) by {
                                if k < head_ops.len() {
                                    assert(am.0[k] == head_ops[k]);
                                    assert(head_ops[k] == st.ops[k]);
                                }
                            }
                        }
                        assert forall|t: int| 0 <= t < stack2.len() implies #[trigger] stack2[t].0
                            < am.0.len() && am.0[stack2[t].0 as int] == Op::Open(0) by {
                            assert(stack2[t] == st.stack[t]);
                            assert(st.stack[t].0 < st.stack[st.stack.len() - 1].0);
                            assert(am.0[stack2[t].0 as int] == head_ops[stack2[t].0 as int]);
                        }
                        assert forall|k: int| 0 <= k < am.0.len() implies #[trigger] bracket_ok_at(
                            am.0,
                            stack2,
                            k,
                        ) by {
                            if k < head_ops.len() {
                                assert(bracket_ok_at(head_ops, stack2, k));
                                match head_ops[k] {
                                    Op::Open(j) => {
                                        if !stack_has(stack2, k) {
                                            assert(am.0[j as int] == head_ops[j as int]);
                                            assert(am.0[k] == head_ops[k]);
                                        } else {
                                            assert(am.0[k] == head_ops[k]);
                                        }
                                    },
                                    Op::Close(j) => {
                                        assert(am.0[j as int] == head_ops[j as int]);
                                        assert(am.0[k] == head_ops[k]);
                                    },
                                    _ => {
                                        assert(am.0[k] == head_ops[k]);
                                    },
                                }
                            } else {
                                assert(am.0[k] == Op::Mul(
                                    muls[k - head_ops.len()].0,
                                    muls[k - head_ops.len()].1,
                                ));
                            }
                        }
                        assert(spans_in_source(am.1, st.i + 1)) by {
                            assert forall|k: int|
                                0 <= k < am.1.len() implies span_in_source(
                                #[trigger] am.1[k],
                                st.i + 1,
                            ) by {
                                if k < head_spans.len() {
                                    assert(am.1[k] == head_spans[k]);
                                    assert(span_in_source(head_spans[k], st.i as int));
                                } else {
                                    assert(am.1[k] == lsp);
                                }
                            }
                        }
                        lemma_compact_wf(am.0, am.1, Op::Store(0), lsp, stack2, st.i + 1);
                        lemma_step_close_mul(s, st);
                        let cp = spec_compact_push(am.0, am.1, Op::Store(0), lsp);
                        lemma_compile_from_wf(s, spec_bump(st, cp.0, cp.1, stack2));
                    },
                    None => {
                        if st.ops.len() == start + 2 && (st.ops.last() matches Op::Move(_)) {
                            assert forall|j: int|
                                start + 1 <= j < st.ops.len() implies (#[trigger] st.ops[j] matches Op::Add(
                                _,
                            )) || (st.ops[j] matches Op::Move(_)) by {
                                assert(st.ops[j] == st.ops.last());
                            }
                            lemma_close_keeps_brackets(st);
                            lemma_step_close_scan(s, st);
                            let m = st.ops.last()->Move_0;
                            assert(m != 0) by {
                                assert(st.ops[st.ops.len() - 1] != Op::Move(0i32));
                            }
                            let o3 = head_ops.push(Op::Scan(m));
                            assert(no_zero_ops(o3)) by {
                                assert forall|k: int|
                                    0 <= k < o3.len() implies o3[k] != Op::Add(0) && o3[k]
                                        != Op::Move(0i32) && o3[k] != Op::Scan(0i32) by {
                                    if k < head_ops.len() {
                                        assert(o3[k] == st.ops[k]);
                                    }
                                }
                            }
                            assert forall|k: int| 0 <= k < o3.len() implies #[trigger] bracket_ok_at(
                                o3,
                                stack2,
                                k,
                            ) by {
                                if k < head_ops.len() {
                                    assert(bracket_ok_at(head_ops, stack2, k));
                                    match head_ops[k] {
                                        Op::Open(j) => {
                                            if !stack_has(stack2, k) {
                                                assert(o3[j as int] == head_ops[j as int]);
                                            }
                                            assert(o3[k] == head_ops[k]);
                                        },
                                        Op::Close(j) => {
                                            assert(o3[j as int] == head_ops[j as int]);
                                            assert(o3[k] == head_ops[k]);
                                        },
                                        _ => {
                                            assert(o3[k] == head_ops[k]);
                                        },
                                    }
                                }
                            }
                            assert(spans_in_source(head_spans.push(lsp), st.i + 1)) by {
                                assert forall|k: int|
                                    0 <= k < head_spans.push(lsp).len() implies span_in_source(
                                    #[trigger] head_spans.push(lsp)[k],
                                    st.i + 1,
                                ) by {
                                    if k < head_spans.len() {
                                        assert(span_in_source(head_spans[k], st.i as int));
                                    }
                                }
                            }
                            lemma_compile_from_wf(
                                s,
                                spec_bump(st, o3, head_spans.push(lsp), stack2),
                            );
                        } else if st.ops.len() == start + 2 && (st.ops.last() matches Op::Add(n)
                            && n % 2 == 1) {
                            assert forall|j: int|
                                start + 1 <= j < st.ops.len() implies (#[trigger] st.ops[j] matches Op::Add(
                                _,
                            )) || (st.ops[j] matches Op::Move(_)) by {
                                assert(st.ops[j] == st.ops.last());
                            }
                            lemma_close_keeps_brackets(st);
                            lemma_compact_wf(head_ops, head_spans, Op::Store(0), lsp, stack2, st.i as int);
                            lemma_step_close_clear(s, st);
                            let cp = spec_compact_push(head_ops, head_spans, Op::Store(0), lsp);
                            lemma_compile_from_wf(s, spec_bump(st, cp.0, cp.1, stack2));
                        } else {
                            lemma_general_close_wf(st);
                            lemma_step_close_general(s, st);
                            assert(spans_in_source(st.spans.push(lsp), st.i + 1)) by {
                                assert forall|k: int|
                                    0 <= k < st.spans.push(lsp).len() implies span_in_source(
                                    #[trigger] st.spans.push(lsp)[k],
                                    st.i + 1,
                                ) by {
                                    if k < st.spans.len() {
                                        assert(span_in_source(st.spans[k], st.i as int));
                                    }
                                }
                            }
                            let o5 = st.ops.update(start, Op::Open(st.ops.len() as u32)).push(
                                Op::Close(st.stack.last().0 as u32),
                            );
                            lemma_compile_from_wf(
                                s,
                                spec_bump(st, o5, st.spans.push(lsp), stack2),
                            );
                        }
                    },
                }
            }
        } else if c == 10 {
            lemma_step_newline(s, st);
            lemma_spans_mono(st.spans, st.i as int, st.i + 1);
            lemma_stack_spans_mono(st.stack, st.i as int, st.i + 1);
            lemma_compile_from_wf(
                s,
                CompState {
                    ops: st.ops,
                    spans: st.spans,
                    stack: st.stack,
                    i: (st.i + 1) as usize,
                    line: (st.line + 1) as usize,
                    col: 1,
                },
            );
        } else {
            lemma_step_other(s, st);
            lemma_spans_mono(st.spans, st.i as int, st.i + 1);
            lemma_stack_spans_mono(st.stack, st.i as int, st.i + 1);
            lemma_compile_from_wf(s, spec_bump(st, st.ops, st.spans, st.stack));
        }
    }
}

/// A source of nothing but `+`.
pub open spec fn plus_bytes(n: nat) -> Seq<u8> {
    Seq::new(n, |k: int| 43u8)
}

/// Walking a tail of `+` bytes with a lone compacted `Add` (or nothing) in
/// hand ends empty whenever the pluses seen and the pluses left cancel
/// modulo 256.
proof fn lemma_plus_tail(s: Seq<u8>, st: CompState, m: int)
    requires
        s.len() <= usize::MAX,
        st.i <= s.len(),
        forall|j: int| st.i <= j < s.len() ==> s[j] == 43,
        st.stack.len() == 0,
        st.ops.len() == st.spans.len(),
        (m == 0 && st.ops.len() == 0) || (0 < m < 256 && st.ops.len() == 1 && st.ops[0]
            == Op::Add(m as u8)),
        ((s.len() - st.i) + m) % 256 == 0,
    ensures
        spec_compile_from(s, st) == Ok::<(Seq<Op>, Seq<Span>), CompileError>(
            (Seq::empty(), Seq::empty()),
        ),
    decreases s.len() - st.i,
{
    if st.i >= s.len() {
        assert(m == 0);
        assert(st.ops =~= Seq::<Op>::empty());
        assert(st.spans =~= Seq::<Span>::empty());
    } else {
        let sp = spec_byte_span(st);
        lemma_step_compact(s, st, Op::Add(1));
        let cp = spec_compact_push(st.ops, st.spans, Op::Add(1), sp);
        let m2: int = if m == 255 {
            0
        } else {
            m + 1
        };
        if st.ops.len() == 0 {
            assert(cp.0 =~= seq![Op::Add(1)]);
        } else if m == 255 {
            assert(wrap8(256int) == 0);
            assert(cp.0 =~= Seq::<Op>::empty());
        } else {
            assert(wrap8(m + 1) == (m + 1) as u8);
            assert(cp.0 =~= seq![Op::Add((m + 1) as u8)]);
        }
        lemma_plus_tail(s, spec_bump(st, cp.0, cp.1, st.stack), m2);
    }
}

/// Arithmetic is byte-wrapping end to end: a run of 256·k increments cancels
/// completely, compiling to a program with no instructions at all. Running
/// it therefore changes nothing, and a fresh cell stays zero.
pub proof fn lemma_wraparound_cancels(k: nat)
    requires
        256 * k <= usize::MAX,
    ensures
        spec_compile(plus_bytes(256 * k)) == Ok::<(Seq<Op>, Seq<Span>), CompileError>(
            (Seq::empty(), Seq::empty()),
        ),
{
    assert((256 * k) % 256 == 0) by (nonlinear_arith);
    lemma_plus_tail(
        plus_bytes(256 * k),
        CompState {
            ops: Seq::empty(),
            spans: Seq::empty(),
            stack: Seq::empty(),
            i: 0,
            line: 1,
            col: 1,
        },
        0,
    );
}

/// Whether the byte is one of the eight that mean something to the compiler.
pub open spec fn is_bf_byte(c: u8) -> bool {
    c == 43 || c == 45 || c == 60 || c == 62 || c == 46 || c == 44 || c == 91 || c == 93
}

/// Text with no Brainfuck characters at all: comments, whitespace, newlines.
pub open spec fn bf_free(s: Seq<u8>) -> bool {
    forall|j: int| 0 <= j < s.len() ==> !is_bf_byte(#[trigger] s[j])
}

/// Once only comment bytes remain, the outcome is already decided: the
/// emitted ops and spans as they stand, or the topmost unmatched bracket.
proof fn lemma_comment_tail(s: Seq<u8>, st: CompState)
    requires
        st.i <= s.len() <= usize::MAX,
        forall|j: int| st.i <= j < s.len() ==> !is_bf_byte(#[trigger] s[j]),
    ensures
        spec_compile_from(s, st) == (if st.stack.len() > 0 {
            Err::<(Seq<Op>, Seq<Span>), CompileError>(
                CompileError::UnmatchedOpen { span: st.stack.last().1 },
            )
        } else {
            Ok::<(Seq<Op>, Seq<Span>), CompileError>((st.ops, st.spans))
        }),
    decreases s.len() - st.i,
{
    if st.i < s.len() {
        if s[st.i as int] == 10 {
            lemma_step_newline(s, st);
            lemma_comment_tail(
                s,
                CompState {
                    ops: st.ops,
                    spans: st.spans,
                    stack: st.stack,
                    i: (st.i + 1) as usize,
                    line: (st.line + 1) as usize,
                    col: 1,
                },
            );
        } else {
            lemma_step_other(s, st);
            lemma_comment_tail(s, spec_bump(st, st.ops, st.spans, st.stack));
        }
    }
}

/// A skip that runs into bracket-free text never closes: it ends at the very
/// end of the source.
proof fn lemma_skip_no_brackets(s: Seq<u8>, i: int, depth: int, lines: int, col: int)
    requires
        0 <= i <= s.len(),
        depth >= 1,
        forall|j: int| i <= j < s.len() ==> !is_bf_byte(#[trigger] s[j]),
    ensures
        spec_skip(s, i, depth, lines, col).0 == s.len(),
        spec_skip(s, i, depth, lines, col).3 == depth,
    decreases s.len() - i,
{
    if i < s.len() {
        if s[i] == 10 {
            lemma_skip_no_brackets(s, i + 1, depth, lines + 1, 1);
        } else {
            lemma_skip_no_brackets(s, i + 1, depth, lines, col + 1);
        }
    }
}

/// Two sources that agree up to `n` and end in bracket-free tails skip dead
/// loops the same way: either both skips finish inside the shared prefix with
/// the same result, or both run off their respective ends with the loop still
/// open.
proof fn lemma_skip_agree(sa: Seq<u8>, sb: Seq<u8>, n: int, i: int, depth: int, lines: int, col: int)
    requires
        0 <= n <= sa.len() <= usize::MAX,
        n <= sb.len() <= usize::MAX,
        sa.subrange(0, n) == sb.subrange(0, n),
        forall|j: int| n <= j < sa.len() ==> !is_bf_byte(#[trigger] sa[j]),
        forall|j: int| n <= j < sb.len() ==> !is_bf_byte(#[trigger] sb[j]),
        0 <= i <= n,
        depth >= 1,
    ensures
        (spec_skip(sa, i, depth, lines, col) == spec_skip(sb, i, depth, lines, col) && spec_skip(
            sa,
            i,
            depth,
            lines,
            col,
        ).0 <= n) || (spec_skip(sa, i, depth, lines, col).3 >= 1 && spec_skip(
            sb,
            i,
            depth,
            lines,
            col,
        ).3 >= 1),
    decreases n - i,
{
    if i == n {
        lemma_skip_no_brackets(sa, i, depth, lines, col);
        lemma_skip_no_brackets(sb, i, depth, lines, col);
    } else {
        assert(sa[i] == sa.subrange(0, n)[i]);
        assert(sb[i] == sb.subrange(0, n)[i]);
        let c = sa[i];
        let d2 = if c == 91 {
            depth + 1
        } else if c == 93 {
            depth - 1
        } else {
            depth
        };
        if d2 <= 0 {
            if c == 10 {
                assert(spec_skip(sa, i + 1, d2, lines + 1, 1) == (
                    i + 1int,
                    lines + 1int,
                    1int,
                    d2,
                ));
                assert(spec_skip(sb, i + 1, d2, lines + 1, 1) == (
                    i + 1int,
                    lines + 1int,
                    1int,
                    d2,
                ));
            } else {
                assert(spec_skip(sa, i + 1, d2, lines, col + 1) == (
                    i + 1int,
                    lines,
                    col + 1int,
                    d2,
                ));
                assert(spec_skip(sb, i + 1, d2, lines, col + 1) == (
                    i + 1int,
                    lines,
                    col + 1int,
                    d2,
                ));
            }
        } else if c == 10 {
            lemma_skip_agree(sa, sb, n, i + 1, d2, lines + 1, 1);
        } else {
            lemma_skip_agree(sa, sb, n, i + 1, d2, lines, col + 1);
        }
    }
}

/// Two sources that agree up to `n` and end in bracket-free tails compile
/// alike from any state still inside the shared prefix.
#[verifier::rlimit(100)]
proof fn lemma_compile_agree(sa: Seq<u8>, sb: Seq<u8>, n: int, st: CompState)
    requires
        0 <= n <= sa.len() <= usize::MAX,
        n <= sb.len() <= usize::MAX,
        sa.subrange(0, n) == sb.subrange(0, n),
        forall|j: int| n <= j < sa.len() ==> !is_bf_byte(#[trigger] sa[j]),
        forall|j: int| n <= j < sb.len() ==> !is_bf_byte(#[trigger] sb[j]),
        st.i <= n,
    ensures
        spec_compile_from(sa, st) == spec_compile_from(sb, st),
    decreases n - st.i,
{
    if st.i >= n {
        lemma_comment_tail(sa, st);
        lemma_comment_tail(sb, st);
    } else {
        assert(sa[st.i as int] == sa.subrange(0, n)[st.i as int]);
        assert(sb[st.i as int] == sb.subrange(0, n)[st.i as int]);
        let c = sa[st.i as int];
        let sp = spec_byte_span(st);
        if c == 43 {
            lemma_step_compact(sa, st, Op::Add(1));
            lemma_step_compact(sb, st, Op::Add(1));
            let cp = spec_compact_push(st.ops, st.spans, Op::Add(1), sp);
            lemma_compile_agree(sa, sb, n, spec_bump(st, cp.0, cp.1, st.stack));
        } else if c == 45 {
            lemma_step_compact(sa, st, Op::Add(255));
            lemma_step_compact(sb, st, Op::Add(255));
            let cp = spec_compact_push(st.ops, st.spans, Op::Add(255), sp);
            lemma_compile_agree(sa, sb, n, spec_bump(st, cp.0, cp.1, st.stack));
        } else if c == 60 {
            lemma_step_compact(sa, st, Op::Move(-1i32));
            lemma_step_compact(sb, st, Op::Move(-1i32));
            let cp = spec_compact_push(st.ops, st.spans, Op::Move(-1i32), sp);
            lemma_compile_agree(sa, sb, n, spec_bump(st, cp.0, cp.1, st.stack));
        } else if c == 62 {
            lemma_step_compact(sa, st, Op::Move(1i32));
            lemma_step_compact(sb, st, Op::Move(1i32));
            let cp = spec_compact_push(st.ops, st.spans, Op::Move(1i32), sp);
            lemma_compile_agree(sa, sb, n, spec_bump(st, cp.0, cp.1, st.stack));
        } else if c == 46 || c == 44 {
            let op = if c == 46 {
                Op::Out
            } else {
                Op::In
            };
            lemma_step_io(sa, st, op);
            lemma_step_io(sb, st, op);
            lemma_compile_agree(
                sa,
                sb,
                n,
                spec_bump(st, st.ops.push(op), st.spans.push(sp), st.stack),
            );
        } else if c == 91 {
            if st.ops.len() > 0 && spec_zeroing(st.ops.last()) {
                lemma_skip_bounds(sa, st.i + 1, 1, 0, 0);
                lemma_skip_bounds(sb, st.i + 1, 1, 0, 0);
                lemma_skip_agree(sa, sb, n, st.i + 1, 1, 0, 0);
                let ka = spec_skip(sa, st.i + 1, 1, 0, 0);
                let kb = spec_skip(sb, st.i + 1, 1, 0, 0);
                if ka == kb && ka.0 <= n {
                    if ka.3 > 0 {
                        lemma_dead_loop_unmatched(sa, st);
                        lemma_dead_loop_unmatched(sb, st);
                    } else {
                        lemma_dead_loop_skipped(sa, st);
                        lemma_dead_loop_skipped(sb, st);
                        lemma_compile_agree(
                            sa,
                            sb,
                            n,
                            CompState {
                                ops: st.ops,
                                spans: st.spans,
                                stack: st.stack,
                                i: ka.0 as usize,
                                line: (st.line + ka.1) as usize,
                                col: if ka.1 > 0 {
                                    ka.2 as usize
                                } else {
                                    (st.col + ka.2) as usize
                                },
                            },
                        );
                    }
                } else {
                    lemma_dead_loop_unmatched(sa, st);
                    lemma_dead_loop_unmatched(sb, st);
                }
            } else {
                lemma_step_open(sa, st);
                lemma_step_open(sb, st);
                lemma_compile_agree(
                    sa,
                    sb,
                    n,
                    spec_bump(
                        st,
                        st.ops.push(Op::Open(0)),
                        st.spans.push(sp),
                        st.stack.push(((st.ops.len() as usize), sp)),
                    ),
                );
            }
        } else if c == 93 {
            if st.stack.len() == 0 {
                lemma_step_close_err(sa, st);
                lemma_step_close_err(sb, st);
            } else {
                let start = st.stack.last().0 as int;
                let stack2 = st.stack.drop_last();
                let head_ops = st.ops.subrange(0, start);
                let head_spans = st.spans.subrange(0, start);
                let body = spec_loop_body(st);
                let lsp = spec_loop_span(st);
                match spec_try_mul(body) {
                    Some(muls) => {
                        lemma_step_close_mul(sa, st);
                        lemma_step_close_mul(sb, st);
                        let am = spec_append_muls(head_ops, head_spans, muls, lsp);
                        let cp = spec_compact_push(am.0, am.1, Op::Store(0), lsp);
                        lemma_compile_agree(sa, sb, n, spec_bump(st, cp.0, cp.1, stack2));
                    },
                    None => {
                        if st.ops.len() == start + 2 && (st.ops.last() matches Op::Move(_)) {
                            lemma_step_close_scan(sa, st);
                            lemma_step_close_scan(sb, st);
                            lemma_compile_agree(
                                sa,
                                sb,
                                n,
                                spec_bump(
                                    st,
                                    head_ops.push(Op::Scan(st.ops.last()->Move_0)),
                                    head_spans.push(lsp),
                                    stack2,
                                ),
                            );
                        } else if st.ops.len() == start + 2 && (st.ops.last() matches Op::Add(av)
                            && av % 2 == 1) {
                            lemma_step_close_clear(sa, st);
                            lemma_step_close_clear(sb, st);
                            let cp = spec_compact_push(head_ops, head_spans, Op::Store(0), lsp);
                            lemma_compile_agree(sa, sb, n, spec_bump(st, cp.0, cp.1, stack2));
                        } else {
                            lemma_step_close_general(sa, st);
                            lemma_step_close_general(sb, st);
                            lemma_compile_agree(
                                sa,
                                sb,
                                n,
                                spec_bump(
                                    st,
                                    st.ops.update(start, Op::Open(st.ops.len() as u32)).push(
                                        Op::Close(st.stack.last().0 as u32),
                                    ),
                                    st.spans.push(lsp),
                                    stack2,
                                ),
                            );
                        }
                    },
                }
            }
        } else if c == 10 {
            lemma_step_newline(sa, st);
            lemma_step_newline(sb, st);
            lemma_compile_agree(
                sa,
                sb,
                n,
                CompState {
                    ops: st.ops,
                    spans: st.spans,
                    stack: st.stack,
                    i: (st.i + 1) as usize,
                    line: (st.line + 1) as usize,
                    col: 1,
                },
            );
        } else {
            lemma_step_other(sa, st);
            lemma_step_other(sb, st);
            lemma_compile_agree(sa, sb, n, spec_bump(st, st.ops, st.spans, st.stack));
        }
    }
}

/// Text without Brainfuck characters after a source changes nothing: two
/// sources with the same prefix whose tails are both Brainfuck-free compile
/// to the very same instructions, spans and errors.
pub proof fn lemma_trailing_comments_irrelevant(s1: Seq<u8>, s2: Seq<u8>, s3: Seq<u8>)
    requires
        bf_free(s2),
        bf_free(s3),
        (s1 + s2).len() <= usize::MAX,
        (s1 + s3).len() <= usize::MAX,
    ensures
        spec_compile(s1 + s2) == spec_compile(s1 + s3),
{
    let sa = s1 + s2;
    let sb = s1 + s3;
    let n = s1.len() as int;
    assert(sa.subrange(0, n) =~= sb.subrange(0, n));
    assert forall|j: int| n <= j < sa.len() implies !is_bf_byte(#[trigger] sa[j]) by {
        assert(sa[j] == s2[j - n]);
        assert(!is_bf_byte(s2[j - n]));
    }
    assert forall|j: int| n <= j < sb.len() implies !is_bf_byte(#[trigger] sb[j]) by {
        assert(sb[j] == s3[j - n]);
        assert(!is_bf_byte(s3[j - n]));
    }
    lemma_compile_agree(
        sa,
        sb,
        n,
        CompState {
            ops: Seq::empty(),
            spans: Seq::empty(),
            stack: Seq::empty(),
            i: 0,
            line: 1,
            col: 1,
        },
    );
}

/// Compiles source text into instructions and their source spans.
///
/// Every byte of the result is pinned down by the model: the call returns
/// exactly what [`spec_compile`] says, errors included.
#[verifier::rlimit(100)]
pub fn compile(source: &str) -> (r: Result<(Vec<Op>, Vec<Span>), CompileError>)
    requires
        source.spec_bytes().len() < 0x8000_0000,
    ensures
        match r {
            Ok(p) => spec_compile(source.spec_bytes()) == Ok::<_, CompileError>((p.0@, p.1@)),
            Err(e) => spec_compile(source.spec_bytes()) == Err::<(Seq<Op>, Seq<Span>), _>(e),
        },
        r matches Ok(p) ==> p.0@.len() == p.1@.len() && no_zero_ops(p.0@) && brackets_matched(
            p.0@,
        ) && p.0@.len() <= source.spec_bytes().len() && spans_in_source(
            p.1@,
            source.spec_bytes().len() as int,
        ),
        r matches Err(e) ==> span_in_source(
            match e {
                CompileError::UnmatchedOpen { span } => span,
                CompileError::UnmatchedClose { span } => span,
            },
            source.spec_bytes().len() as int,
        ),
{
    let sb: &[u8] = source.as_bytes();
    let n: usize = sb.len();
    let mut ops: Vec<Op> = Vec::new();
    let mut spans: Vec<Span> = Vec::new();
    let mut stack: Vec<(usize, Span)> = Vec::new();
    let mut i: usize = 0;
    let mut line: usize = 1;
    let mut col: usize = 1;

    proof {
        lemma_compile_from_wf(
            sb@,
            CompState {
                ops: Seq::empty(),
                spans: Seq::empty(),
                stack: Seq::empty(),
                i: 0,
                line: 1,
                col: 1,
            },
        );
    }
    while i < n
        invariant
            sb@ == source.spec_bytes(),
            (spec_compile(sb@) matches Err(e) ==> span_in_source(
                match e {
                    CompileError::UnmatchedOpen { span } => span,
                    CompileError::UnmatchedClose { span } => span,
                },
                n as int,
            )),
            n == sb@.len(),
            n < 0x8000_0000,
            i <= n,
            ops@.len() == spans@.len(),
            ops@.len() <= i,
            1 <= line <= 1 + i,
            col <= 1 + i,
            forall|t: int|
                0 <= t < stack@.len() ==> stack@[t].0 < ops@.len() && ops@[stack@[t].0 as int]
                    == Op::Open(0),
            forall|t1: int, t2: int|
                0 <= t1 < t2 < stack@.len() ==> stack@[t1].0 < stack@[t2].0,
            spec_compile_from(
                sb@,
                (CompState { ops: ops@, spans: spans@, stack: stack@, i, line, col }),
            ) == spec_compile(sb@),
        decreases n - i,
    {
        let ghost st0 = CompState { ops: ops@, spans: spans@, stack: stack@, i, line, col };
        let c = sb[i];
        let span = Span { start: i, end: i + 1, line, col };
        proof {
            assert(span == spec_byte_span(st0));
        }
        if c == 43 {
            push_and_compact(&mut ops, &mut spans, Op::Add(1), span);
            i = i + 1;
            col = col + 1;
            proof {
                lemma_compact_stack(st0.ops, st0.spans, Op::Add(1), span, st0.stack);
                lemma_step_compact(sb@, st0, Op::Add(1));
                let cp = spec_compact_push(st0.ops, st0.spans, Op::Add(1), span);
                let st1 = CompState { ops: ops@, spans: spans@, stack: stack@, i, line, col };
                assert(st1 =~= spec_bump(st0, cp.0, cp.1, st0.stack));
            }
        } else if c == 45 {
            push_and_compact(&mut ops, &mut spans, Op::Add(255), span);
            i = i + 1;
            col = col + 1;
            proof {
                lemma_compact_stack(st0.ops, st0.spans, Op::Add(255), span, st0.stack);
                lemma_step_compact(sb@, st0, Op::Add(255));
                let cp = spec_compact_push(st0.ops, st0.spans, Op::Add(255), span);
                let st1 = CompState { ops: ops@, spans: spans@, stack: stack@, i, line, col };
                assert(st1 =~= spec_bump(st0, cp.0, cp.1, st0.stack));
            }
        } else if c == 60 {
            push_and_compact(&mut ops, &mut spans, Op::Move(-1), span);
            i = i + 1;
            col = col + 1;
            proof {
                lemma_compact_stack(st0.ops, st0.spans, Op::Move(-1i32), span, st0.stack);
                lemma_step_compact(sb@, st0, Op::Move(-1i32));
                let cp = spec_compact_push(st0.ops, st0.spans, Op::Move(-1i32), span);
                let st1 = CompState { ops: ops@, spans: spans@, stack: stack@, i, line, col };
                assert(st1 =~= spec_bump(st0, cp.0, cp.1, st0.stack));
            }
        } else if c == 62 {
            push_and_compact(&mut ops, &mut spans, Op::Move(1), span);
            i = i + 1;
            col = col + 1;
            proof {
                lemma_compact_stack(st0.ops, st0.spans, Op::Move(1i32), span, st0.stack);
                lemma_step_compact(sb@, st0, Op::Move(1i32));
                let cp = spec_compact_push(st0.ops, st0.spans, Op::Move(1i32), span);
                let st1 = CompState { ops: ops@, spans: spans@, stack: stack@, i, line, col };
                assert(st1 =~= spec_bump(st0, cp.0, cp.1, st0.stack));
            }
        } else if c == 46 {
            ops.push(Op::Out);
            spans.push(span);
            i = i + 1;
            col = col + 1;
            proof {
                lemma_step_io(sb@, st0, Op::Out);
                let st1 = CompState { ops: ops@, spans: spans@, stack: stack@, i, line, col };
                assert(st1 =~= spec_bump(st0, st0.ops.push(Op::Out), st0.spans.push(span), st0.stack));
            }
        } else if c == 44 {
            ops.push(Op::In);
            spans.push(span);
            i = i + 1;
            col = col + 1;
            proof {
                lemma_step_io(sb@, st0, Op::In);
                let st1 = CompState { ops: ops@, spans: spans@, stack: stack@, i, line, col };
                assert(st1 =~= spec_bump(st0, st0.ops.push(Op::In), st0.spans.push(span), st0.stack));
            }
        } else if c == 91 {
            let mut dead = false;
            if ops.len() > 0 {
                let lastop = ops[ops.len() - 1];
                dead = matches!(lastop, Op::Store(0) | Op::Close(_) | Op::Scan(_));
            }
            if dead {
                let sk = skip_loop(sb, i + 1);
                proof {
                    lemma_skip_bounds(sb@, i + 1, 1, 0, 0);
                }
                if sk.3 > 0 {
                    proof {
                        lemma_dead_loop_unmatched(sb@, st0);
                    }
                    return Err(CompileError::UnmatchedOpen { span });
                }
                let i2 = sk.0;
                let lines2 = sk.1;
                let col2 = sk.2;
                i = i2;
                line = line + lines2;
                col = if lines2 > 0 {
                    col2
                } else {
                    col + col2
                };
                proof {
                    lemma_dead_loop_skipped(sb@, st0);
                    let skv = spec_skip(sb@, st0.i + 1, 1, 0, 0);
                    let st1 = CompState { ops: ops@, spans: spans@, stack: stack@, i, line, col };
                    assert(st1 =~= (CompState {
                        ops: st0.ops,
                        spans: st0.spans,
                        stack: st0.stack,
                        i: skv.0 as usize,
                        line: (st0.line + skv.1) as usize,
                        col: if skv.1 > 0 {
                            skv.2 as usize
                        } else {
                            (st0.col + skv.2) as usize
                        },
                    }));
                }
            } else {
                stack.push((ops.len(), span));
                ops.push(Op::Open(0));
                spans.push(span);
                i = i + 1;
                col = col + 1;
                proof {
                    lemma_step_open(sb@, st0);
                    let st1 = CompState { ops: ops@, spans: spans@, stack: stack@, i, line, col };
                    assert(st1 =~= spec_bump(
                        st0,
                        st0.ops.push(Op::Open(0)),
                        st0.spans.push(span),
                        st0.stack.push(((st0.ops.len() as usize), span)),
                    ));
                }
            }
        } else if c == 93 {
            if stack.len() == 0 {
                proof {
                    lemma_step_close_err(sb@, st0);
                }
                return Err(CompileError::UnmatchedClose { span });
            }
            let top = stack.pop().unwrap();
            let start = top.0;
            let open_span = top.1;
            let loop_span = Span {
                start: open_span.start,
                end: i + 1,
                line: open_span.line,
                col: open_span.col,
            };
            proof {
                assert(loop_span == spec_loop_span(st0));
            }
            let ghost head_ops = st0.ops.subrange(0, start as int);
            let ghost head_spans = st0.spans.subrange(0, start as int);
            let body_slice = vstd::slice::slice_subrange(ops.as_slice(), start + 1, ops.len());
            proof {
                assert(body_slice@ =~= spec_loop_body(st0));
            }
            let mul_result = try_mul_loop(body_slice);
            match mul_result {
                Some(muls) => {
                    ops.truncate(start);
                    spans.truncate(start);
                    proof {
                        assert(ops@ =~= head_ops);
                        assert(spans@ =~= head_spans);
                    }
                    append_muls(&mut ops, &mut spans, &muls, loop_span);
                    push_and_compact(&mut ops, &mut spans, Op::Store(0), loop_span);
                    i = i + 1;
                    col = col + 1;
                    proof {
                        lemma_mul_accum_len(spec_loop_body(st0), 0, 0, 0, Seq::empty());
                        let am = spec_append_muls(head_ops, head_spans, muls@, loop_span);
                        assert(forall|t: int|
                            0 <= t < st0.stack.drop_last().len() ==> st0.stack.drop_last()[t].0
                                < am.0.len() && am.0[st0.stack.drop_last()[t].0 as int] == Op::Open(
                                0,
                            ));
                        lemma_compact_stack(am.0, am.1, Op::Store(0), loop_span, st0.stack.drop_last());
                        lemma_step_close_mul(sb@, st0);
                        let cp = spec_compact_push(am.0, am.1, Op::Store(0), loop_span);
                        let st1 = CompState { ops: ops@, spans: spans@, stack: stack@, i, line, col };
                        assert(st1 =~= spec_bump(st0, cp.0, cp.1, st0.stack.drop_last()));
                    }
                },
                None => {
                    let mut special = false;
                    if ops.len() == start + 2 {
                        let lastop = ops[ops.len() - 1];
                        match lastop {
                            Op::Move(stepv) => {
                                ops.truncate(start);
                                spans.truncate(start);
                                ops.push(Op::Scan(stepv));
                                spans.push(loop_span);
                                special = true;
                            },
                            Op::Add(av) => {
                                if av % 2 == 1 {
                                    ops.truncate(start);
                                    spans.truncate(start);
                                    proof {
                                        assert(ops@ =~= head_ops);
                                        assert(spans@ =~= head_spans);
                                    }
                                    push_and_compact(&mut ops, &mut spans, Op::Store(0), loop_span);
                                    special = true;
                                }
                            },
                            _ => {},
                        }
                    }
                    if !special {
                        let end = ops.len();
                        ops[start] = Op::Open(end as u32);
                        ops.push(Op::Close(start as u32));
                        spans.push(loop_span);
                    }
                    i = i + 1;
                    col = col + 1;
                    proof {
                        let st1 = CompState { ops: ops@, spans: spans@, stack: stack@, i, line, col };
                        if st0.ops.len() == start + 2 && (st0.ops.last() matches Op::Move(_)) {
                            lemma_step_close_scan(sb@, st0);
                            assert(st1 =~= spec_bump(
                                st0,
                                head_ops.push(Op::Scan(st0.ops.last()->Move_0)),
                                head_spans.push(loop_span),
                                st0.stack.drop_last(),
                            ));
                        } else if st0.ops.len() == start + 2 && (st0.ops.last() matches Op::Add(av)
                            && av % 2 == 1) {
                            lemma_compact_stack(
                                head_ops,
                                head_spans,
                                Op::Store(0),
                                loop_span,
                                st0.stack.drop_last(),
                            );
                            lemma_step_close_clear(sb@, st0);
                            let cp = spec_compact_push(head_ops, head_spans, Op::Store(0), loop_span);
                            assert(st1 =~= spec_bump(st0, cp.0, cp.1, st0.stack.drop_last()));
                        } else {
                            lemma_step_close_general(sb@, st0);
                            assert(st1 =~= spec_bump(
                                st0,
                                st0.ops.update(start as int, Op::Open(st0.ops.len() as u32)).push(
                                    Op::Close(start as u32),
                                ),
                                st0.spans.push(loop_span),
                                st0.stack.drop_last(),
                            ));
                        }
                    }
                },
            }
        } else if c == 10 {
            line = line + 1;
            col = 1;
            i = i + 1;
            proof {
                lemma_step_newline(sb@, st0);
                let st1 = CompState { ops: ops@, spans: spans@, stack: stack@, i, line, col };
                assert(st1 =~= (CompState {
                    ops: st0.ops,
                    spans: st0.spans,
                    stack: st0.stack,
                    i: (st0.i + 1) as usize,
                    line: (st0.line + 1) as usize,
                    col: 1,
                }));
            }
        } else {
            i = i + 1;
            col = col + 1;
            proof {
                lemma_step_other(sb@, st0);
                let st1 = CompState { ops: ops@, spans: spans@, stack: stack@, i, line, col };
                assert(st1 =~= spec_bump(st0, st0.ops, st0.spans, st0.stack));
            }
        }
    }

    if stack.len() > 0 {
        let top = stack[stack.len() - 1];
        return Err(CompileError::UnmatchedOpen { span: top.1 });
    }
    Ok((ops, spans))
}

} // verus!
