//! An optimizing compiler and interpreter for the Brainfuck language.
//!
//! Source text is compiled once into a compact bytecode in which several
//! structural idioms (clear loops, multiplication loops, scan loops, dead
//! loops, runs of arithmetic) are collapsed into single instructions, and the
//! bytecode is then executed against a byte tape with wrapping 8-bit
//! arithmetic, strict bounds checking, configurable end-of-input handling and
//! an optional operation budget.

use vstd::prelude::*;
use vstd::string::StringSliceAdditionalSpecFns;

pub mod compile;
pub mod execute;
pub mod front;
pub mod report;

verus! {

/// Tape length used when the caller does not choose one.
pub const DEFAULT_TAPE_SIZE: usize = 30000;

/// What `In` writes to the current cell once the input is exhausted.
#[derive(Clone, Copy, Debug, PartialEq, Eq, Structural)]
pub enum EofBehavior {
    /// Set the cell to 0.
    Zero,
    /// Leave the cell unchanged.
    Unchanged,
    /// Set the cell to 255.
    MaxValue,
}

impl Default for EofBehavior {
    fn default() -> (r: Self)
        ensures
            r == EofBehavior::Zero,
    {
        EofBehavior::Zero
    }
}

/// Runtime policy for one execution.
#[derive(Clone, Debug, PartialEq, Eq)]
pub struct Config {
    /// Size of the memory tape. Default: 30000.
    pub tape_size: usize,
    /// Maximum number of operations before aborting. None = unlimited.
    pub op_limit: Option<usize>,
    /// Behavior when input reaches EOF. Default: Zero.
    pub eof_behavior: EofBehavior,
    /// Whether output should be flushed after each write. Default: true.
    pub flush_output: bool,
}

impl Default for Config {
    fn default() -> (r: Self)
        ensures
            r.tape_size == DEFAULT_TAPE_SIZE,
            r.op_limit is None,
            r.eof_behavior == EofBehavior::Zero,
            r.flush_output == true,
    {
        Config {
            tape_size: DEFAULT_TAPE_SIZE,
            op_limit: None,
            eof_behavior: EofBehavior::Zero,
            flush_output: true,
        }
    }
}

/// A location in source text: a half-open byte range plus the 1-based line
/// and column of its first byte.
#[derive(Clone, Copy, Debug, PartialEq, Eq, Structural)]
pub struct Span {
    pub start: usize,
    pub end: usize,
    pub line: usize,
    pub col: usize,
}

/// A bytecode instruction.
#[derive(Clone, Copy, Debug, PartialEq, Eq, Structural)]
pub enum Op {
    /// Add the payload to the current cell, wrapping modulo 256.
    Add(u8),
    /// Add the payload to the data pointer, with bounds checking.
    Move(i32),
    /// Write the current cell to the output.
    Out,
    /// Read one input byte into the current cell.
    In,
    /// Jump to the payload index when the current cell is zero.
    Open(u32),
    /// Jump to the payload index when the current cell is nonzero.
    Close(u32),
    /// Overwrite the current cell with the payload.
    Store(u8),
    /// Add `cell * factor` to the cell at the given offset, wrapping.
    Mul(i32, u8),
    /// Advance the pointer by the (nonzero) stride until a zero cell.
    Scan(i32),
}

/// Why compilation failed. Both variants carry the offending bracket's span.
#[derive(Clone, Copy, Debug, PartialEq, Eq, Structural)]
pub enum CompileError {
    /// The input ended while a `[` was still unmatched.
    UnmatchedOpen { span: Span },
    /// A `]` appeared with no pending `[`.
    UnmatchedClose { span: Span },
}

/// Why execution failed. Each variant carries the span of the faulting op.
#[derive(Clone, Debug, PartialEq, Eq)]
pub enum ExecutionError {
    /// The data pointer would have moved below zero.
    PointerUnderflow { span: Span },
    /// The data pointer would have moved to `pointer`, at or past `tape_len`.
    PointerOverflow { span: Span, pointer: usize, tape_len: usize },
    /// The operation budget was exhausted.
    OperationLimit { span: Span },
    /// An input or output stream failed; the message describes the cause.
    IoError { span: Span, message: String },
}

/// The machine state once a program has run to completion.
#[derive(Debug, PartialEq, Eq)]
pub struct ExecutionResult {
    /// The final tape contents.
    pub tape: Vec<u8>,
    /// The final data pointer.
    pub pointer: usize,
    /// Every byte the program wrote, in order.
    pub output: Vec<u8>,
}

/// A compiled program: an instruction sequence and, in step, the source
/// span of each instruction.
pub struct Program {
    /// The instructions, in execution order.
    pub ops: Vec<Op>,
    /// The source location of each instruction.
    pub spans: Vec<Span>,
}

/// A zero-filled tape.
fn zero_tape(n: usize) -> (r: Vec<u8>)
    ensures
        r@ == Seq::new(n as nat, |k: int| 0u8),
{
    let mut v: Vec<u8> = Vec::new();
    while v.len() < n
        invariant
            v@.len() <= n,
            v@ == Seq::new(v@.len(), |k: int| 0u8),
        decreases n - v@.len(),
    {
        v.push(0);
        proof {
            assert(v@ =~= Seq::new(v@.len(), |k: int| 0u8));
        }
    }
    proof {
        assert(v@ =~= Seq::new(n as nat, |k: int| 0u8));
    }
    v
}

/// The tape a run starts on: the given one, or a zero-filled tape of the
/// configured size.
pub open spec fn spec_run_tape(config: Config, tape: Option<Vec<u8>>) -> Seq<u8> {
    match tape {
        Some(t) => t@,
        None => Seq::new(config.tape_size as nat, |k: int| 0u8),
    }
}

/// The pointer a run starts at: the given one, or zero.
pub open spec fn spec_run_pointer(pointer: Option<usize>) -> int {
    match pointer {
        Some(p) => p as int,
        None => 0,
    }
}

impl Program {
    /// Compiles source code into a program.
    ///
    /// The instructions and spans are exactly what
    /// [`compile::spec_compile`] says for the source bytes; on top of that
    /// they are aligned, bracket-consistent, free of `Add(0)`, `Move(0)` and
    /// `Scan(0)`, and executable.
    pub fn from_source(source: &str) -> (r: Result<Self, CompileError>)
        requires
            source.spec_bytes().len() < 0x8000_0000,
        ensures
            match r {
                Ok(p) => {
                    &&& compile::spec_compile(source.spec_bytes()) == Ok::<_, CompileError>(
                        (p.ops@, p.spans@),
                    )
                    &&& p.ops@.len() == p.spans@.len()
                    &&& p.ops@.len() < 0x8000_0000
                    &&& compile::no_zero_ops(p.ops@)
                    &&& compile::brackets_matched(p.ops@)
                    &&& compile::spans_in_source(p.spans@, source.spec_bytes().len() as int)
                    &&& execute::ops_executable(p.ops@)
                },
                Err(e) => compile::spec_compile(source.spec_bytes()) == Err::<
                    (Seq<Op>, Seq<Span>),
                    _,
                >(e) && compile::span_in_source(
                    match e {
                        CompileError::UnmatchedOpen { span } => span,
                        CompileError::UnmatchedClose { span } => span,
                    },
                    source.spec_bytes().len() as int,
                ),
            },
    {
        match compile::compile(source) {
            Ok(p) => {
                let prog = Program { ops: p.0, spans: p.1 };
                proof {
                    assert(execute::ops_executable(prog.ops@)) by {
                        assert forall|k: int| 0 <= k < prog.ops@.len() implies match #[trigger] prog.ops@[k] {
                            Op::Scan(sv) => sv != 0i32,
                            Op::Open(j) => j + 1 <= usize::MAX,
                            Op::Close(j) => j + 1 <= usize::MAX,
                            _ => true,
                        } by {
                            assert(prog.ops@[k] != Op::Scan(0i32));
                        }
                    }
                }
                Ok(prog)
            },
            Err(e) => Err(e),
        }
    }

    /// Runs the program under the given configuration, on an optional
    /// initial tape and pointer, with an optional input. Defaults: a
    /// zero-filled tape of the configured size, pointer zero, no input.
    ///
    /// The outcome is what the small-step machine of [`execute`] reaches
    /// from that start, and by
    /// [`execute::lemma_execution_deterministic`] it reaches no other.
    pub fn run(
        &self,
        config: &Config,
        tape: Option<Vec<u8>>,
        pointer: Option<usize>,
        input: Option<&Vec<u8>>,
    ) -> (r: Result<ExecutionResult, ExecutionError>)
        requires
            self.ops@.len() == self.spans@.len(),
            execute::ops_executable(self.ops@),
            self.ops@.len() > 0 ==> spec_run_pointer(pointer) < spec_run_tape(*config, tape).len(),
            spec_run_tape(*config, tape).len() <= 0x4000_0000_0000_0000,
            spec_run_tape(*config, tape).len() + 0x8000_0000 <= usize::MAX,
        ensures
            match r {
                Ok(res) => exists|n: nat|
                    execute::spec_advance(
                        self.ops@,
                        self.spans@,
                        *config,
                        execute::input_view(input),
                        execute::spec_init(
                            spec_run_tape(*config, tape),
                            spec_run_pointer(pointer),
                        ),
                        n,
                    ) == execute::StepOutcome::Stop(
                        Ok::<_, ExecutionError>((res.tape@, res.pointer as int, res.output@)),
                    ),
                Err(e) => exists|n: nat|
                    execute::spec_advance(
                        self.ops@,
                        self.spans@,
                        *config,
                        execute::input_view(input),
                        execute::spec_init(
                            spec_run_tape(*config, tape),
                            spec_run_pointer(pointer),
                        ),
                        n,
                    ) == execute::StepOutcome::Stop(Err::<(Seq<u8>, int, Seq<u8>), _>(e)),
            },
    {
        let ghost tape0 = spec_run_tape(*config, tape);
        let t = match tape {
            Some(t) => t,
            None => zero_tape(config.tape_size),
        };
        let p = match pointer {
            Some(p) => p,
            None => 0,
        };
        proof {
            assert(t@ =~= tape0);
            assert(p as int == spec_run_pointer(pointer));
            assert(execute::spec_init(t@, p as int) == execute::spec_init(
                tape0,
                spec_run_pointer(pointer),
            ));
        }
        execute::execute(&self.ops, &self.spans, t, p, config, input)
    }
}

} // verus!
