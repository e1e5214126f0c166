use rustfuck::compile::compile;
use rustfuck::{CompileError, Op, Span};

// The basic bf instructions
#[test]
fn test_basic() {
    let (ops, _) = compile(",[+>-.<]").unwrap();
    assert_eq!(
        ops,
        vec![
            Op::In,
            Op::Open(7),
            Op::Add(1),
            Op::Move(1),
            Op::Add(255),
            Op::Out,
            Op::Move(-1),
            Op::Close(1),
        ]
    );
}

// Arithmetic and pointer movement
#[test]
fn test_add_and_move() {
    let (ops, _) = compile("++-->><<").unwrap();
    assert_eq!(ops.len(), 0);

    let (ops, _) = compile("++++++++--++>>>>><<>>").unwrap();
    assert_eq!(ops, vec![Op::Add(8), Op::Move(5),]);

    let (ops, _) = compile(">>>++--++------->><<<<").unwrap();
    assert_eq!(ops, vec![Op::Move(3), Op::Add(251), Op::Move(-2),]);

    let (ops, _) = compile("++-->>>>>------<<+++++++<<<<<").unwrap();
    assert_eq!(
        ops,
        vec![Op::Move(5), Op::Add(250), Op::Move(-2), Op::Add(7), Op::Move(-5),]
    );
}

// Arithmetic around u8 overflow
#[test]
fn test_add_u8_boundaries() {
    let src = "+".repeat(254)
        + &">"
        + &"+".repeat(255)
        + &">"
        + &"+".repeat(256)
        + &">"
        + &"+".repeat(257)
        + &">"
        + &"+".repeat(258);
    let (ops, _) = compile(&src).unwrap();
    assert_eq!(
        ops,
        vec![
            Op::Add(254),
            Op::Move(1),
            Op::Add(255),
            Op::Move(2),
            Op::Add(1),
            Op::Move(1),
            Op::Add(2),
        ]
    );

    let src = "-".repeat(1)
        + &">"
        + &"-".repeat(2)
        + &">"
        + &"-".repeat(3)
        + &">"
        + &"-".repeat(254)
        + &">"
        + &"-".repeat(255)
        + &">"
        + &"-".repeat(256)
        + &">"
        + &"-".repeat(257)
        + &">"
        + &"-".repeat(258);
    let (ops, _) = compile(&src).unwrap();
    assert_eq!(
        ops,
        vec![
            Op::Add(255),
            Op::Move(1),
            Op::Add(254),
            Op::Move(1),
            Op::Add(253),
            Op::Move(1),
            Op::Add(2),
            Op::Move(1),
            Op::Add(1),
            Op::Move(2),
            Op::Add(255),
            Op::Move(1),
            Op::Add(254),
        ]
    );
}

// Nested loops
#[test]
fn test_nested_loops() {
    let (ops, _) = compile("+[->++[->++++<]<]>.----[------>+<]>.").unwrap();
    assert_eq!(
        ops,
        vec![
            Op::Add(1),
            Op::Open(8),
            Op::Add(255),
            Op::Move(1),
            Op::Add(2),
            Op::Mul(1, 4),
            Op::Store(0),
            Op::Move(-1),
            Op::Close(1),
            Op::Move(1),
            Op::Out,
            Op::Add(252),
            Op::Open(17),
            Op::Add(250),
            Op::Move(1),
            Op::Add(1),
            Op::Move(-1),
            Op::Close(12),
            Op::Move(1),
            Op::Out,
        ]
    );
}

// Clear loops -> Store(0)
#[test]
fn test_clear_loop() {
    let (ops, _) = compile(",[-],[+],[---],[+++++]").unwrap();
    assert_eq!(
        ops,
        vec![
            Op::In,
            Op::Store(0),
            Op::In,
            Op::Store(0),
            Op::In,
            Op::Store(0),
            Op::In,
            Op::Store(0),
        ]
    );

    let (ops, _) = compile(",[++],[+++]").unwrap();
    assert_eq!(
        ops,
        vec![Op::In, Op::Open(3), Op::Add(2), Op::Close(1), Op::In, Op::Store(0),]
    );
}

// Clear loops -> Store(0), and Store is merged with Add, and Store.
#[test]
fn test_clear_loop_with_add() {
    let (ops, _) = compile(",[-]><++++++++++").unwrap();
    assert_eq!(ops, vec![Op::In, Op::Store(10),]);

    let (ops, _) = compile("++++[-]---+").unwrap();
    assert_eq!(ops, vec![Op::Store(254),]);

    let (ops, _) = compile("++++[-]---+[+++]+").unwrap();
    assert_eq!(ops, vec![Op::Store(1),]);
}

// Multiplication loops -> Mul op
#[test]
fn test_mul_loop() {
    let (ops, _) = compile(",[->>++>+++>+<<<<]").unwrap();
    assert_eq!(
        ops,
        vec![Op::In, Op::Mul(2, 2), Op::Mul(3, 3), Op::Mul(4, 1), Op::Store(0),]
    );

    let (ops, _) = compile(",[->+<]").unwrap();
    assert_eq!(ops, vec![Op::In, Op::Mul(1, 1), Op::Store(0)]);

    let (ops, _) = compile(",[>+<-]").unwrap();
    assert_eq!(ops, vec![Op::In, Op::Mul(1, 1), Op::Store(0)]);
}

#[test]
fn test_dead_code_elimination() {
    let (ops, _) = compile(",[-][>>>+>]").unwrap();
    assert_eq!(ops, vec![Op::In, Op::Store(0)]);

    let (ops, _) = compile(",[->>][>+<-]").unwrap();
    assert_eq!(
        ops,
        vec![Op::In, Op::Open(4), Op::Add(255), Op::Move(2), Op::Close(1),]
    );

    let (ops, _) = compile(",[>][+++]").unwrap();
    assert_eq!(ops, vec![Op::In, Op::Scan(1)]);

    let (ops, _) = compile(",[<][>>>>>+<<<<<-]").unwrap();
    assert_eq!(ops, vec![Op::In, Op::Scan(-1)]);

    let (ops, _) = compile(",[>>][[nested]more]").unwrap();
    assert_eq!(ops, vec![Op::In, Op::Scan(2)]);
}

// Scan loop -> Scan
#[test]
fn test_scan() {
    let (ops, _) = compile(",[>],[<],[>>],[<<<]").unwrap();
    assert_eq!(
        ops,
        vec![
            Op::In,
            Op::Scan(1),
            Op::In,
            Op::Scan(-1),
            Op::In,
            Op::Scan(2),
            Op::In,
            Op::Scan(-3),
        ]
    );
}

// Compilation error on unmatched open
#[test]
fn test_unmatched_open() {
    let err = compile(",\n\n[+").unwrap_err();
    assert_eq!(
        err,
        CompileError::UnmatchedOpen {
            span: Span { start: 3, end: 4, line: 3, col: 1 }
        }
    );

    let err = compile(",[[+").unwrap_err();
    assert_eq!(
        err,
        CompileError::UnmatchedOpen {
            span: Span { start: 2, end: 3, line: 1, col: 3 }
        }
    );
}

// Compilation error on unmatched close
#[test]
fn test_unmatched_close() {
    let err = compile(",]").unwrap_err();
    assert_eq!(
        err,
        CompileError::UnmatchedClose {
            span: Span { start: 1, end: 2, line: 1, col: 2 }
        }
    );

    let err = compile("+\n\n+]").unwrap_err();
    assert_eq!(
        err,
        CompileError::UnmatchedClose {
            span: Span { start: 4, end: 5, line: 3, col: 2 }
        }
    );
}

// Few tests for line and column tracking
#[test]
fn test_error_line_column() {
    let err = compile("++\n>>\n[").unwrap_err();
    assert_eq!(
        err,
        CompileError::UnmatchedOpen {
            span: Span { start: 6, end: 7, line: 3, col: 1 }
        }
    );

    let err = compile("++\n>>]").unwrap_err();
    assert_eq!(
        err,
        CompileError::UnmatchedClose {
            span: Span { start: 5, end: 6, line: 2, col: 3 }
        }
    );

    let err = compile("+++\n[\n>+\n]>]").unwrap_err();
    assert_eq!(
        err,
        CompileError::UnmatchedClose {
            span: Span { start: 11, end: 12, line: 4, col: 3 }
        }
    );
}

// Instructions and spans come out aligned, every jump pair is mutually
// consistent, and every span covers at least one byte of the source at a
// 1-based line and column.
#[test]
fn test_ops_spans_aligned_and_brackets_consistent() {
    let src = "+[->++[->++++<]<]>.\n[.,[+]]";
    let (ops, spans) = compile(src).unwrap();
    assert_eq!(ops.len(), spans.len());
    for sp in &spans {
        assert!(sp.start < sp.end && sp.end <= src.len());
        assert!(sp.line >= 1 && sp.col >= 1);
    }
    for (i, op) in ops.iter().enumerate() {
        match op {
            Op::Open(j) => {
                let j = *j as usize;
                assert!(i < j && j < ops.len());
                assert_eq!(ops[j], Op::Close(i as u32));
            }
            Op::Close(j) => {
                let j = *j as usize;
                assert!(j < i);
                assert_eq!(ops[j], Op::Open(i as u32));
            }
            _ => {}
        }
    }
}

// No zero-payload arithmetic, movement or scan survives compilation.
#[test]
fn test_no_zero_payload_ops() {
    let (ops, _) = compile("+-+->><<,[>],[<]++--[-]").unwrap();
    for op in &ops {
        assert_ne!(*op, Op::Add(0));
        assert_ne!(*op, Op::Move(0));
        assert_ne!(*op, Op::Scan(0));
    }
}

// Trailing text without Brainfuck characters never changes the output.
#[test]
fn test_trailing_comment_irrelevant() {
    let (ops_a, spans_a) = compile("+>+[-] some trailing words").unwrap();
    let (ops_b, spans_b) = compile("+>+[-]#\n#").unwrap();
    assert_eq!(ops_a, ops_b);
    assert_eq!(spans_a, spans_b);
}

// A run of 256·k pluses cancels to nothing.
#[test]
fn test_plus_run_wraps_to_nothing() {
    let (ops, spans) = compile(&"+".repeat(512)).unwrap();
    assert_eq!(ops, vec![]);
    assert_eq!(spans, vec![]);
}

// Spans follow the source: a compacted run covers all its bytes, and a
// collapsed loop carries the span of the whole loop.
#[test]
fn test_span_positions() {
    let (ops, spans) = compile("+++>").unwrap();
    assert_eq!(ops, vec![Op::Add(3), Op::Move(1)]);
    assert_eq!(
        spans,
        vec![
            Span { start: 0, end: 3, line: 1, col: 1 },
            Span { start: 3, end: 4, line: 1, col: 4 },
        ]
    );

    let (ops, spans) = compile(",[-]").unwrap();
    assert_eq!(ops, vec![Op::In, Op::Store(0)]);
    assert_eq!(
        spans,
        vec![
            Span { start: 0, end: 1, line: 1, col: 1 },
            Span { start: 1, end: 4, line: 1, col: 2 },
        ]
    );
}

// A dead loop still needs its closing bracket: if the skip runs off the end
// of the source, compilation fails with that `[`'s span.
#[test]
fn test_unmatched_open_in_dead_loop() {
    let err = compile(",[-][").unwrap_err();
    assert_eq!(
        err,
        CompileError::UnmatchedOpen {
            span: Span { start: 4, end: 5, line: 1, col: 5 }
        }
    );

    let err = compile(",[>>][[nested").unwrap_err();
    assert_eq!(
        err,
        CompileError::UnmatchedOpen {
            span: Span { start: 5, end: 6, line: 1, col: 6 }
        }
    );
}
