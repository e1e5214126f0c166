//! Execution of compiled bytecode.
//!
//! The interpreter walks the instruction sequence with wrapping 8-bit
//! arithmetic, strict tape-bounds checks, stream-of-bytes input with
//! configurable end-of-input handling, and an optional operation budget.
//! Scans with stride one are served by a byte-search primitive.
//!
//! The mathematical model is a small-step machine: [`spec_step`] executes one
//! instruction, [`spec_advance`] iterates it. [`execute`] returns an outcome
//! that the iterated model reaches, and [`lemma_execution_deterministic`]
//! shows that the model reaches at most one outcome, so the two together pin
//! the result down completely.

use vstd::prelude::*;

use crate::{Config, EofBehavior, ExecutionError, ExecutionResult, Op, Span};
use crate::compile::wrap8;

verus! {

/// The machine mid-run: tape contents, data pointer, instruction pointer,
/// how much of the input is consumed, the bytes written so far, and the
/// number of instructions executed.
#[verifier::ext_equal]
pub struct MachState {
    pub tape: Seq<u8>,
    pub pointer: int,
    pub ip: int,
    pub in_pos: int,
    pub out: Seq<u8>,
    pub count: nat,
}

/// What one step yields: a running machine, or the final outcome — the tape,
/// pointer and output on success, or a structured error.
pub enum StepOutcome {
    Next(MachState),
    Stop(Result<(Seq<u8>, int, Seq<u8>), ExecutionError>),
}

/// The effective operation budget: an absent limit means the largest one
/// this machine can count to.
pub open spec fn spec_limit(cfg: Config) -> nat {
    match cfg.op_limit {
        Some(l) => l as nat,
        None => usize::MAX as nat,
    }
}

/// A forward scan: from `p`, step by `step` until a zero cell. `Err` carries
/// the first position at or past the end of the tape.
pub open spec fn spec_scan_fwd(tape: Seq<u8>, p: int, step: int) -> Result<int, int>
    decreases tape.len() + step - p,
    when step >= 1 && p >= 0
{
    if p >= tape.len() {
        Err(p)
    } else if tape[p] == 0 {
        Ok(p)
    } else {
        spec_scan_fwd(tape, p + step, step)
    }
}

/// A backward scan: from `p`, step back by `step` until a zero cell. The
/// bounds check comes second, so a zero at the start position needs none.
pub open spec fn spec_scan_bwd(tape: Seq<u8>, p: int, step: int) -> Option<int>
    decreases p,
    when step >= 1 && p >= 0
{
    if tape[p] != 0 {
        if p < step {
            None
        } else {
            spec_scan_bwd(tape, p - step, step)
        }
    } else {
        Some(p)
    }
}

/// The input as the model sees it.
pub open spec fn input_view(input: Option<&Vec<u8>>) -> Option<Seq<u8>> {
    match input {
        Some(v) => Some(v@),
        None => None,
    }
}

/// The effect of the instruction under the instruction pointer, budget aside:
/// the next machine state, or the error the instruction fails with.
pub open spec fn spec_exec_op(
    ops: Seq<Op>,
    spans: Seq<Span>,
    cfg: Config,
    input: Option<Seq<u8>>,
    st: MachState,
) -> Result<MachState, ExecutionError> {
    let span = spans[st.ip];
    match ops[st.ip] {
        Op::Add(n) => Ok(
            MachState {
                tape: st.tape.update(st.pointer, wrap8(st.tape[st.pointer] + n)),
                ip: st.ip + 1,
                ..st
            },
        ),
        Op::Move(d) => {
            let newp = st.pointer + d;
            if newp < 0 {
                Err(ExecutionError::PointerUnderflow { span })
            } else if newp >= st.tape.len() {
                Err(
                    ExecutionError::PointerOverflow {
                        span,
                        pointer: newp as usize,
                        tape_len: st.tape.len() as usize,
                    },
                )
            } else {
                Ok(MachState { pointer: newp, ip: st.ip + 1, ..st })
            }
        },
        Op::Out => Ok(MachState { out: st.out.push(st.tape[st.pointer]), ip: st.ip + 1, ..st }),
        Op::In => {
            match input {
                None => Ok(MachState { ip: st.ip + 1, ..st }),
                Some(inp) => {
                    if st.in_pos < inp.len() {
                        Ok(
                            MachState {
                                tape: st.tape.update(st.pointer, inp[st.in_pos]),
                                in_pos: st.in_pos + 1,
                                ip: st.ip + 1,
                                ..st
                            },
                        )
                    } else {
                        match cfg.eof_behavior {
                            EofBehavior::Zero => Ok(
                                MachState { tape: st.tape.update(st.pointer, 0), ip: st.ip + 1, ..st },
                            ),
                            EofBehavior::Unchanged => Ok(MachState { ip: st.ip + 1, ..st }),
                            EofBehavior::MaxValue => Ok(
                                MachState {
                                    tape: st.tape.update(st.pointer, 255),
                                    ip: st.ip + 1,
                                    ..st
                                },
                            ),
                        }
                    }
                },
            }
        },
        Op::Open(j) => {
            if st.tape[st.pointer] == 0 {
                Ok(MachState { ip: j + 1, ..st })
            } else {
                Ok(MachState { ip: st.ip + 1, ..st })
            }
        },
        Op::Close(j) => {
            if st.tape[st.pointer] != 0 {
                Ok(MachState { ip: j + 1, ..st })
            } else {
                Ok(MachState { ip: st.ip + 1, ..st })
            }
        },
        Op::Store(n) => Ok(MachState { tape: st.tape.update(st.pointer, n), ip: st.ip + 1, ..st }),
        Op::Mul(off, f) => {
            let tgt = st.pointer + off;
            if tgt < 0 {
                Err(ExecutionError::PointerUnderflow { span })
            } else if tgt >= st.tape.len() {
                Err(
                    ExecutionError::PointerOverflow {
                        span,
                        pointer: tgt as usize,
                        tape_len: st.tape.len() as usize,
                    },
                )
            } else {
                Ok(
                    MachState {
                        tape: st.tape.update(tgt, wrap8(st.tape[tgt] + st.tape[st.pointer] * f)),
                        ip: st.ip + 1,
                        ..st
                    },
                )
            }
        },
        Op::Scan(sv) => {
            if sv > 0 {
                match spec_scan_fwd(st.tape, st.pointer, sv as int) {
                    Ok(p) => Ok(MachState { pointer: p, ip: st.ip + 1, ..st }),
                    Err(pp) => Err(
                        ExecutionError::PointerOverflow {
                            span,
                            pointer: pp as usize,
                            tape_len: st.tape.len() as usize,
                        },
                    ),
                }
            } else {
                match spec_scan_bwd(st.tape, st.pointer, -(sv as int)) {
                    Some(p) => Ok(MachState { pointer: p, ip: st.ip + 1, ..st }),
                    None => Err(ExecutionError::PointerUnderflow { span }),
                }
            }
        },
    }
}

/// One small step of the machine: termination check, one instruction, then
/// the budget check with the span of the instruction just executed.
pub open spec fn spec_step(
    ops: Seq<Op>,
    spans: Seq<Span>,
    cfg: Config,
    input: Option<Seq<u8>>,
    st: MachState,
) -> StepOutcome {
    if st.ip < 0 || st.ip >= ops.len() {
        StepOutcome::Stop(Ok((st.tape, st.pointer, st.out)))
    } else {
        match spec_exec_op(ops, spans, cfg, input, st) {
            Err(e) => StepOutcome::Stop(Err(e)),
            Ok(st2) => {
                if st.count >= spec_limit(cfg) {
                    StepOutcome::Stop(Err(ExecutionError::OperationLimit { span: spans[st.ip] }))
                } else {
                    StepOutcome::Next(MachState { count: st.count + 1, ..st2 })
                }
            },
        }
    }
}

/// The machine after `n` small steps, or the outcome it stopped with within
/// them.
pub open spec fn spec_advance(
    ops: Seq<Op>,
    spans: Seq<Span>,
    cfg: Config,
    input: Option<Seq<u8>>,
    st: MachState,
    n: nat,
) -> StepOutcome
    decreases n,
{
    if n == 0 {
        StepOutcome::Next(st)
    } else {
        match spec_advance(ops, spans, cfg, input, st, (n - 1) as nat) {
            StepOutcome::Next(s2) => spec_step(ops, spans, cfg, input, s2),
            StepOutcome::Stop(r) => StepOutcome::Stop(r),
        }
    }
}

/// The machine at the start of a run: everything at zero but the given tape
/// and pointer.
pub open spec fn spec_init(tape: Seq<u8>, pointer: int) -> MachState {
    MachState { tape, pointer, ip: 0, in_pos: 0, out: Seq::empty(), count: 0 }
}

/// Ops the machine can execute without leaving the original's domain: no
/// zero-stride scan (which could never terminate) and no jump target at the
/// very top of the address space.
pub open spec fn ops_executable(ops: Seq<Op>) -> bool {
    forall|k: int|
        0 <= k < ops.len() ==> match #[trigger] ops[k] {
            Op::Scan(sv) => sv != 0i32,
            Op::Open(j) => j + 1 <= usize::MAX,
            Op::Close(j) => j + 1 <= usize::MAX,
            _ => true,
        }
}

/// A stopped machine stays stopped: whatever outcome some number of steps
/// reaches, every larger number reaches too.
pub proof fn lemma_advance_stable(
    ops: Seq<Op>,
    spans: Seq<Span>,
    cfg: Config,
    input: Option<Seq<u8>>,
    st: MachState,
    n: nat,
    m: nat,
)
    requires
        n <= m,
        spec_advance(ops, spans, cfg, input, st, n) matches StepOutcome::Stop(_),
    ensures
        spec_advance(ops, spans, cfg, input, st, m) == spec_advance(ops, spans, cfg, input, st, n),
    decreases m,
{
    if m > n {
        lemma_advance_stable(ops, spans, cfg, input, st, n, (m - 1) as nat);
    }
}

/// Execution is deterministic. The machine is a function of its state alone,
/// so for a given program, configuration, input, tape and pointer there is at
/// most one outcome: any two step counts at which the machine has stopped
/// show the same tape, pointer, output and error.
pub proof fn lemma_execution_deterministic(
    ops: Seq<Op>,
    spans: Seq<Span>,
    cfg: Config,
    input: Option<Seq<u8>>,
    st: MachState,
    n1: nat,
    n2: nat,
)
    requires
        spec_advance(ops, spans, cfg, input, st, n1) matches StepOutcome::Stop(_),
        spec_advance(ops, spans, cfg, input, st, n2) matches StepOutcome::Stop(_),
    ensures
        spec_advance(ops, spans, cfg, input, st, n1) == spec_advance(ops, spans, cfg, input, st, n2),
{
    if n1 <= n2 {
        lemma_advance_stable(ops, spans, cfg, input, st, n1, n2);
    } else {
        lemma_advance_stable(ops, spans, cfg, input, st, n2, n1);
    }
}

/// A program with no instructions stops at once, with the tape, pointer and
/// (empty) output untouched. Together with
/// [`crate::compile::lemma_wraparound_cancels`] this closes the loop on
/// byte-wrapping: a run of 256·k increments leaves a fresh cell at zero.
pub proof fn lemma_empty_program_identity(
    spans: Seq<Span>,
    cfg: Config,
    input: Option<Seq<u8>>,
    tape: Seq<u8>,
    ptr: int,
)
    ensures
        spec_advance(Seq::empty(), spans, cfg, input, spec_init(tape, ptr), 1)
            == StepOutcome::Stop(Ok::<_, ExecutionError>((tape, ptr, Seq::<u8>::empty()))),
{
    assert(spec_advance(Seq::empty(), spans, cfg, input, spec_init(tape, ptr), 0)
        == StepOutcome::Next(spec_init(tape, ptr)));
}

/// With stride one, the forward scan lands on the first zero at or after `p`.
proof fn lemma_scan_fwd_first(tape: Seq<u8>, p: int, q: int)
    requires
        0 <= p <= q < tape.len(),
        tape[q] == 0,
        forall|j: int| p <= j < q ==> tape[j] != 0,
    ensures
        spec_scan_fwd(tape, p, 1) == Ok::<int, int>(q),
    decreases q - p,
{
    if p < q {
        lemma_scan_fwd_first(tape, p + 1, q);
    }
}

/// With stride one and no zero in sight, the forward scan runs off the end.
proof fn lemma_scan_fwd_off_end(tape: Seq<u8>, p: int)
    requires
        0 <= p <= tape.len(),
        forall|j: int| p <= j < tape.len() ==> tape[j] != 0,
    ensures
        spec_scan_fwd(tape, p, 1) == Err::<int, int>(tape.len() as int),
    decreases tape.len() - p,
{
    if p < tape.len() {
        lemma_scan_fwd_off_end(tape, p + 1);
    }
}

/// With stride one, the backward scan lands on the last zero at or before `p`.
proof fn lemma_scan_bwd_last(tape: Seq<u8>, p: int, q: int)
    requires
        0 <= q <= p < tape.len(),
        tape[q] == 0,
        forall|j: int| q < j <= p ==> tape[j] != 0,
    ensures
        spec_scan_bwd(tape, p, 1) == Some(q),
    decreases p - q,
{
    if q < p {
        lemma_scan_bwd_last(tape, p - 1, q);
    }
}

/// With stride one and no zero at or before `p`, the backward scan fails.
proof fn lemma_scan_bwd_off_start(tape: Seq<u8>, p: int)
    requires
        0 <= p < tape.len(),
        forall|j: int| 0 <= j <= p ==> tape[j] != 0,
    ensures
        spec_scan_bwd(tape, p, 1) is None,
    decreases p,
{
    if p > 0 {
        lemma_scan_bwd_off_start(tape, p - 1);
    }
}

/// Relies on memchr::memchr: the index of the first zero byte in the slice,
/// or `None` when the slice holds no zero.
#[verifier::external_body]
fn memchr_zero(haystack: &[u8]) -> (r: Option<usize>)
    ensures
        match r {
            Some(k) => k < haystack@.len() && haystack@[k as int] == 0 && (forall|j: int|
                0 <= j < k ==> haystack@[j] != 0),
            None => forall|j: int| 0 <= j < haystack@.len() ==> haystack@[j] != 0,
        },
{
    memchr::memchr(0, haystack)
}

/// Relies on memchr::memrchr: the index of the last zero byte in the slice,
/// or `None` when the slice holds no zero.
#[verifier::external_body]
fn memrchr_zero(haystack: &[u8]) -> (r: Option<usize>)
    ensures
        match r {
            Some(k) => k < haystack@.len() && haystack@[k as int] == 0 && (forall|j: int|
                k < j < haystack@.len() ==> haystack@[j] != 0),
            None => forall|j: int| 0 <= j < haystack@.len() ==> haystack@[j] != 0,
        },
{
    memchr::memrchr(0, haystack)
}


/// After `n` steps the machine is running; one more step does whatever
/// [`spec_step`] says from there.
proof fn lemma_advance_step(
    ops: Seq<Op>,
    spans: Seq<Span>,
    cfg: Config,
    input: Option<Seq<u8>>,
    init: MachState,
    n: nat,
    cur: MachState,
)
    requires
        spec_advance(ops, spans, cfg, input, init, n) == StepOutcome::Next(cur),
    ensures
        spec_advance(ops, spans, cfg, input, init, n + 1) == spec_step(ops, spans, cfg, input, cur),
{
}

/// Executes instructions against a tape, an optional input byte stream and a
/// collected output, under the given configuration.
///
/// The outcome is exactly what the small-step model reaches: some number of
/// steps of [`spec_advance`] stops with this result, and by
/// [`lemma_execution_deterministic`] no number of steps stops with another.
#[verifier::rlimit(100)]
pub fn execute(
    ops: &Vec<Op>,
    spans: &Vec<Span>,
    tape: Vec<u8>,
    pointer: usize,
    config: &Config,
    input: Option<&Vec<u8>>,
) -> (r: Result<ExecutionResult, ExecutionError>)
    requires
        ops@.len() == spans@.len(),
        ops@.len() > 0 ==> pointer < tape@.len(),
        tape@.len() <= 0x4000_0000_0000_0000,
        tape@.len() + 0x8000_0000 <= usize::MAX,
        ops_executable(ops@),
    ensures
        match r {
            Ok(res) => exists|n: nat|
                spec_advance(
                    ops@,
                    spans@,
                    *config,
                    input_view(input),
                    spec_init(tape@, pointer as int),
                    n,
                ) == StepOutcome::Stop(
                    Ok::<_, ExecutionError>((res.tape@, res.pointer as int, res.output@)),
                ),
            Err(e) => exists|n: nat|
                spec_advance(
                    ops@,
                    spans@,
                    *config,
                    input_view(input),
                    spec_init(tape@, pointer as int),
                    n,
                ) == StepOutcome::Stop(Err::<(Seq<u8>, int, Seq<u8>), _>(e)),
        },
{
    let ghost init = spec_init(tape@, pointer as int);
    let ghost cfg = *config;
    let ghost iv = input_view(input);
    let tape_len = tape.len();
    let mut tp = tape;
    let mut ptr = pointer;
    let mut ip: usize = 0;
    let mut opcount: usize = 0;
    let mut in_pos: usize = 0;
    let mut output: Vec<u8> = Vec::new();
    let limit: usize = match config.op_limit {
        Some(l) => l,
        None => usize::MAX,
    };
    let ghost mut steps: nat = 0;

    while ip < ops.len()
        invariant
            ops@.len() == spans@.len(),
            ops_executable(ops@),
            tp@.len() == tape_len,
            tape_len == init.tape.len(),
            tape_len <= 0x4000_0000_0000_0000,
            tape_len + 0x8000_0000 <= usize::MAX,
            ops@.len() > 0 ==> ptr < tp@.len(),
            limit as nat == spec_limit(cfg),
            cfg == *config,
            iv == input_view(input),
            init == spec_init(tape@, pointer as int),
            opcount <= limit,
            spec_advance(ops@, spans@, cfg, iv, init, steps) == StepOutcome::Next(
                (MachState {
                    tape: tp@,
                    pointer: ptr as int,
                    ip: ip as int,
                    in_pos: in_pos as int,
                    out: output@,
                    count: opcount as nat,
                }),
            ),
        decreases limit - opcount,
    {
        let ghost pre = MachState {
            tape: tp@,
            pointer: ptr as int,
            ip: ip as int,
            in_pos: in_pos as int,
            out: output@,
            count: opcount as nat,
        };
        proof {
            lemma_advance_step(ops@, spans@, cfg, iv, init, steps, pre);
        }
        let span = spans[ip];
        let op = ops[ip];
        match op {
            Op::Add(n) => {
                let cur = tp[ptr];
                tp[ptr] = (((cur as u16) + (n as u16)) % 256) as u8;
                ip = ip + 1;
            },
            Op::Move(d) => {
                let newp = ptr as i64 + d as i64;
                if newp < 0 {
                    let e = ExecutionError::PointerUnderflow { span };
                    proof {
                        assert(spec_step(ops@, spans@, cfg, iv, pre) == StepOutcome::Stop(
                            Err::<(Seq<u8>, int, Seq<u8>), ExecutionError>(e),
                        ));
                        steps = steps + 1;
                    }
                    return Err(e);
                }
                if newp >= tape_len as i64 {
                    let e = ExecutionError::PointerOverflow {
                        span,
                        pointer: newp as usize,
                        tape_len,
                    };
                    proof {
                        assert(spec_step(ops@, spans@, cfg, iv, pre) == StepOutcome::Stop(
                            Err::<(Seq<u8>, int, Seq<u8>), ExecutionError>(e),
                        ));
                        steps = steps + 1;
                    }
                    return Err(e);
                }
                ptr = newp as usize;
                ip = ip + 1;
            },
            Op::Out => {
                output.push(tp[ptr]);
                ip = ip + 1;
            },
            Op::In => {
                match input {
                    Some(inp) => {
                        if in_pos < inp.len() {
                            tp[ptr] = inp[in_pos];
                            in_pos = in_pos + 1;
                        } else {
                            match config.eof_behavior {
                                EofBehavior::Zero => {
                                    tp[ptr] = 0;
                                },
                                EofBehavior::Unchanged => {},
                                EofBehavior::MaxValue => {
                                    tp[ptr] = 255;
                                },
                            }
                        }
                    },
                    None => {},
                }
                ip = ip + 1;
            },
            Op::Open(j) => {
                if tp[ptr] == 0 {
                    ip = (j as usize) + 1;
                } else {
                    ip = ip + 1;
                }
            },
            Op::Close(j) => {
                if tp[ptr] != 0 {
                    ip = (j as usize) + 1;
                } else {
                    ip = ip + 1;
                }
            },
            Op::Store(n) => {
                tp[ptr] = n;
                ip = ip + 1;
            },
            Op::Mul(off, f) => {
                let tgt = ptr as i64 + off as i64;
                if tgt < 0 {
                    let e = ExecutionError::PointerUnderflow { span };
                    proof {
                        assert(spec_step(ops@, spans@, cfg, iv, pre) == StepOutcome::Stop(
                            Err::<(Seq<u8>, int, Seq<u8>), ExecutionError>(e),
                        ));
                        steps = steps + 1;
                    }
                    return Err(e);
                }
                if tgt >= tape_len as i64 {
                    let e = ExecutionError::PointerOverflow { span, pointer: tgt as usize, tape_len };
                    proof {
                        assert(spec_step(ops@, spans@, cfg, iv, pre) == StepOutcome::Stop(
                            Err::<(Seq<u8>, int, Seq<u8>), ExecutionError>(e),
                        ));
                        steps = steps + 1;
                    }
                    return Err(e);
                }
                let t = tgt as usize;
                let cur_t = tp[t];
                let cur_p = tp[ptr];
                proof {
                    assert(cur_p as int * f as int <= 255 * 255) by (nonlinear_arith)
                        requires
                            0 <= cur_p as int <= 255,
                            0 <= f as int <= 255,
                    ;
                }
                let prod: u16 = (cur_p as u16) * (f as u16);
                let v: u8 = (((cur_t as u16) + (prod % 256)) % 256) as u8;
                proof {
                    assert((cur_t as int + (prod as int) % 256) % 256 == (cur_t as int
                        + prod as int) % 256) by (nonlinear_arith)
                        requires
                            0 <= cur_t as int,
                            0 <= prod as int,
                    ;
                }
                tp[t] = v;
                ip = ip + 1;
            },
            Op::Scan(sv) => {
                if sv == 1 {
                    let sub = vstd::slice::slice_subrange(tp.as_slice(), ptr, tape_len);
                    match memchr_zero(sub) {
                        Some(k) => {
                            proof {
                                assert(tp@[ptr + k] == sub@[k as int]);
                                assert forall|j: int| ptr <= j < ptr + k implies tp@[j] != 0 by {
                                    assert(sub@[j - ptr] != 0);
                                }
                                lemma_scan_fwd_first(tp@, ptr as int, ptr + k);
                            }
                            ptr = ptr + k;
                            proof {
                                assert(spec_exec_op(ops@, spans@, cfg, iv, pre) == Ok::<
                                    MachState,
                                    ExecutionError,
                                >(MachState { pointer: ptr as int, ip: pre.ip + 1, ..pre }));
                            }
                        },
                        None => {
                            let e = ExecutionError::PointerOverflow {
                                span,
                                pointer: tape_len,
                                tape_len,
                            };
                            proof {
                                assert forall|j: int| ptr <= j < tape_len implies tp@[j] != 0 by {
                                    assert(sub@[j - ptr] != 0);
                                }
                                lemma_scan_fwd_off_end(tp@, ptr as int);
                                assert(spec_step(ops@, spans@, cfg, iv, pre) == StepOutcome::Stop(
                                    Err::<(Seq<u8>, int, Seq<u8>), ExecutionError>(e),
                                ));
                                steps = steps + 1;
                            }
                            return Err(e);
                        },
                    }
                    ip = ip + 1;
                } else if sv == -1 {
                    let sub = vstd::slice::slice_subrange(tp.as_slice(), 0, ptr + 1);
                    match memrchr_zero(sub) {
                        Some(k) => {
                            proof {
                                assert(tp@[k as int] == sub@[k as int]);
                                assert forall|j: int| k < j <= ptr implies tp@[j] != 0 by {
                                    assert(sub@[j] != 0);
                                }
                                lemma_scan_bwd_last(tp@, ptr as int, k as int);
                            }
                            ptr = k;
                            proof {
                                assert(spec_exec_op(ops@, spans@, cfg, iv, pre) == Ok::<
                                    MachState,
                                    ExecutionError,
                                >(MachState { pointer: ptr as int, ip: pre.ip + 1, ..pre }));
                            }
                        },
                        None => {
                            let e = ExecutionError::PointerUnderflow { span };
                            proof {
                                assert forall|j: int| 0 <= j <= ptr implies tp@[j] != 0 by {
                                    assert(sub@[j] != 0);
                                }
                                lemma_scan_bwd_off_start(tp@, ptr as int);
                                assert(spec_step(ops@, spans@, cfg, iv, pre) == StepOutcome::Stop(
                                    Err::<(Seq<u8>, int, Seq<u8>), ExecutionError>(e),
                                ));
                                steps = steps + 1;
                            }
                            return Err(e);
                        },
                    }
                    ip = ip + 1;
                } else if sv > 0 {
                    let su = sv as usize;
                    let mut p = ptr;
                    while p < tape_len && tp[p] != 0
                        invariant
                            1 <= su <= 0x7fff_ffff,
                            0 <= pre.pointer,
                            tp@.len() == tape_len,
                            tape_len + 0x8000_0000 <= usize::MAX,
                            p <= tape_len + su,
                            spec_scan_fwd(tp@, p as int, su as int) == spec_scan_fwd(
                                tp@,
                                pre.pointer,
                                su as int,
                            ),
                        decreases tape_len + su - p,
                    {
                        p = p + su;
                    }
                    if p >= tape_len {
                        let e = ExecutionError::PointerOverflow { span, pointer: p, tape_len };
                        proof {
                            assert(spec_scan_fwd(tp@, pre.pointer, sv as int) == Err::<int, int>(
                                p as int,
                            ));
                            assert(spec_step(ops@, spans@, cfg, iv, pre) == StepOutcome::Stop(
                                Err::<(Seq<u8>, int, Seq<u8>), ExecutionError>(e),
                            ));
                            steps = steps + 1;
                        }
                        return Err(e);
                    }
                    ptr = p;
                    ip = ip + 1;
                    proof {
                        assert(spec_scan_fwd(tp@, pre.pointer, sv as int) == Ok::<int, int>(
                            ptr as int,
                        ));
                        assert(spec_exec_op(ops@, spans@, cfg, iv, pre) == Ok::<
                            MachState,
                            ExecutionError,
                        >(MachState { pointer: ptr as int, ip: pre.ip + 1, ..pre }));
                    }
                } else {
                    let su = (-(sv as i64)) as usize;
                    let mut p = ptr;
                    let mut under = false;
                    while !under && tp[p] != 0
                        invariant
                            su >= 1,
                            0 <= pre.pointer,
                            p < tape_len,
                            tp@.len() == tape_len,
                            under ==> spec_scan_bwd(tp@, pre.pointer, su as int) is None,
                            !under ==> spec_scan_bwd(tp@, p as int, su as int) == spec_scan_bwd(
                                tp@,
                                pre.pointer,
                                su as int,
                            ),
                        decreases (if under { 0int } else { p as int + 1 }),
                    {
                        if p < su {
                            under = true;
                        } else {
                            p = p - su;
                        }
                    }
                    if under {
                        let e = ExecutionError::PointerUnderflow { span };
                        proof {
                            assert(su as int == -(sv as int));
                            assert(spec_step(ops@, spans@, cfg, iv, pre) == StepOutcome::Stop(
                                Err::<(Seq<u8>, int, Seq<u8>), ExecutionError>(e),
                            ));
                            steps = steps + 1;
                        }
                        return Err(e);
                    }
                    ptr = p;
                    ip = ip + 1;
                    proof {
                        assert(su as int == -(sv as int));
                        assert(spec_scan_bwd(tp@, pre.pointer, su as int) == Some(ptr as int));
                        assert(spec_exec_op(ops@, spans@, cfg, iv, pre) == Ok::<
                            MachState,
                            ExecutionError,
                        >(MachState { pointer: ptr as int, ip: pre.ip + 1, ..pre }));
                    }
                }
            },
        }
        proof {
            let r0 = spec_exec_op(ops@, spans@, cfg, iv, pre);
            let now = MachState {
                tape: tp@,
                pointer: ptr as int,
                ip: ip as int,
                in_pos: in_pos as int,
                out: output@,
                count: pre.count,
            };
            match r0 {
                Ok(m) => {
                    assert(m =~= now);
                },
                Err(_) => {
                    assert(false);
                },
            }
        }
        if opcount >= limit {
            let e = ExecutionError::OperationLimit { span };
            proof {
                assert(spec_step(ops@, spans@, cfg, iv, pre) == StepOutcome::Stop(
                    Err::<(Seq<u8>, int, Seq<u8>), ExecutionError>(e),
                ));
                steps = steps + 1;
            }
            return Err(e);
        }
        opcount = opcount + 1;
        proof {
            let r0 = spec_exec_op(ops@, spans@, cfg, iv, pre);
            match r0 {
                Ok(m) => {
                    assert(spec_step(ops@, spans@, cfg, iv, pre) == StepOutcome::Next(
                        MachState { count: pre.count + 1, ..m },
                    ));
                    assert(MachState { count: pre.count + 1, ..m } =~= (MachState {
                        tape: tp@,
                        pointer: ptr as int,
                        ip: ip as int,
                        in_pos: in_pos as int,
                        out: output@,
                        count: opcount as nat,
                    }));
                },
                Err(_) => {
                    assert(false);
                },
            }
            steps = steps + 1;
        }
    }
    proof {
        let cur = MachState {
            tape: tp@,
            pointer: ptr as int,
            ip: ip as int,
            in_pos: in_pos as int,
            out: output@,
            count: opcount as nat,
        };
        lemma_advance_step(ops@, spans@, cfg, iv, init, steps, cur);
        assert(spec_step(ops@, spans@, cfg, iv, cur) == StepOutcome::Stop(
            Ok::<(Seq<u8>, int, Seq<u8>), ExecutionError>((tp@, ptr as int, output@)),
        ));
        steps = steps + 1;
    }
    Ok(ExecutionResult { tape: tp, pointer: ptr, output })
}

} // verus!
