use rustfuck::execute::execute;
use rustfuck::{Config, EofBehavior, ExecutionError, Op, Span};

const S: Span = Span {
    start: 0,
    end: 0,
    line: 0,
    col: 0,
};

fn spans(n: usize) -> Vec<Span> {
    vec![S; n]
}

fn cfg() -> Config {
    Config::default()
}

// Scans with stride 1
#[test]
fn test_scan_stride_1() {
    let sp = spans(1);
    let ops = vec![Op::Scan(1)];

    // stride 1
    let result = execute(&ops, &sp, vec![1, 2, 3, 0, 5], 0, &cfg(), None).unwrap();
    assert_eq!(result.pointer, 3);
    let result = execute(&ops, &sp, vec![1, 2, 3, 4, 5], 1, &cfg(), None);
    assert!(matches!(result, Err(ExecutionError::PointerOverflow { .. })));

    // stride -1
    let ops = vec![Op::Scan(-1)];
    let result = execute(&ops, &sp, vec![0, 0, 3, 255, 5], 4, &cfg(), None).unwrap();
    assert_eq!(result.pointer, 1);
    let result = execute(&ops, &sp, vec![1, 2, 3, 4, 5], 1, &cfg(), None);
    assert!(matches!(result, Err(ExecutionError::PointerUnderflow { .. })));
}

// Scans with stride > 1
#[test]
fn test_scan_stride_n() {
    // stride 2
    let sp = spans(1);
    let ops = vec![Op::Scan(2)];
    let result = execute(&ops, &sp, vec![1, 2, 3, 4, 0, 6], 0, &cfg(), None).unwrap();
    assert_eq!(result.pointer, 4);
    let result = execute(&ops, &sp, vec![1, 0, 3, 4, 5, 6], 0, &cfg(), None);
    assert!(matches!(result, Err(ExecutionError::PointerOverflow { .. })));

    // stride -2
    let ops = vec![Op::Scan(-2)];
    let result = execute(&ops, &sp, vec![0, 1, 2, 3, 4], 4, &cfg(), None).unwrap();
    assert_eq!(result.pointer, 0);
    let result = execute(&ops, &sp, vec![1, 1, 2, 3, 4], 3, &cfg(), None);
    assert!(matches!(result, Err(ExecutionError::PointerUnderflow { .. })));

    // stride -3
    let ops = vec![Op::Scan(-3)];
    let result = execute(&ops, &sp, vec![1, 2, 0, 4, 5, 6], 5, &cfg(), None).unwrap();
    assert_eq!(result.pointer, 2);
    let result = execute(&ops, &sp, vec![1, 2, 3, 4, 5, 6], 5, &cfg(), None);
    assert!(matches!(result, Err(ExecutionError::PointerUnderflow { .. })));
}

#[test]
fn test_mul() {
    let ops = vec![Op::Mul(1, 3)];
    let sp = spans(1);
    let result = execute(&ops, &sp, vec![5, 0, 0], 0, &cfg(), None).unwrap();
    assert_eq!(result.tape, vec![5, 15, 0]);

    let result = execute(&ops, &sp, vec![5, 10, 0], 0, &cfg(), None).unwrap();
    assert_eq!(result.tape, vec![5, 25, 0]);

    let ops = vec![Op::Mul(-1, 2)];
    let result = execute(&ops, &sp, vec![7, 4, 0], 1, &cfg(), None).unwrap();
    assert_eq!(result.tape, vec![15, 4, 0]);

    // wrapping
    let ops = vec![Op::Mul(1, 2)];
    let result = execute(&ops, &sp, vec![200, 0, 0], 0, &cfg(), None).unwrap();
    assert_eq!(result.tape, vec![200, 144, 0]);

    // [->>++>+++<<<]
    let ops = vec![Op::Mul(2, 2), Op::Mul(3, 3), Op::Store(0)];
    let sp = spans(3);
    let result = execute(&ops, &sp, vec![10, 0, 0, 0], 0, &cfg(), None).unwrap();
    assert_eq!(result.tape[0], 0);
    assert_eq!(result.tape[2], 20);
    assert_eq!(result.tape[3], 30);
}

#[test]
fn test_set() {
    let sp = spans(1);
    let result = execute(&vec![Op::Store(42)], &sp, vec![100, 0, 0], 0, &cfg(), None).unwrap();
    assert_eq!(result.tape, vec![42, 0, 0]);

    let result = execute(&vec![Op::Store(0)], &sp, vec![0, 255, 0], 1, &cfg(), None).unwrap();
    assert_eq!(result.tape, vec![0, 0, 0]);

    let sp = spans(3);
    let result = execute(
        &vec![Op::Store(10), Op::Store(20), Op::Store(30)],
        &sp,
        vec![0],
        0,
        &cfg(),
        None,
    )
    .unwrap();
    assert_eq!(result.tape, vec![30]);
}

#[test]
fn test_error_pointer_overflow() {
    let ops = vec![Op::Move(10)];
    let sp = vec![Span {
        start: 5,
        end: 15,
        line: 2,
        col: 3,
    }];
    let result = execute(&ops, &sp, vec![0; 5], 0, &cfg(), None);

    assert_eq!(
        result,
        Err(ExecutionError::PointerOverflow {
            span: Span {
                start: 5,
                end: 15,
                line: 2,
                col: 3
            },
            pointer: 10,
            tape_len: 5,
        })
    );
}

#[test]
fn test_error_pointer_underflow() {
    let ops = vec![Op::Move(-5)];
    let sp = vec![Span {
        start: 0,
        end: 5,
        line: 1,
        col: 10,
    }];
    let result = execute(&ops, &sp, vec![0; 5], 2, &cfg(), None);

    assert_eq!(
        result,
        Err(ExecutionError::PointerUnderflow {
            span: Span {
                start: 0,
                end: 5,
                line: 1,
                col: 10
            },
        })
    );
}

#[test]
fn test_error_mul_out_of_bounds() {
    // Mul target beyond tape
    let ops = vec![Op::Mul(10, 1)];
    let sp = vec![Span {
        start: 0,
        end: 5,
        line: 1,
        col: 1,
    }];
    let result = execute(&ops, &sp, vec![1, 0, 0], 0, &cfg(), None);
    assert!(matches!(result, Err(ExecutionError::PointerOverflow { .. })));

    // Mul target before tape
    let ops = vec![Op::Mul(-5, 1)];
    let sp = vec![Span {
        start: 0,
        end: 5,
        line: 1,
        col: 1,
    }];
    let result = execute(&ops, &sp, vec![1, 0, 0], 1, &cfg(), None);
    assert!(matches!(result, Err(ExecutionError::PointerUnderflow { .. })));
}

#[test]
fn test_error_scan_overflow() {
    // Forward scan with no zero
    let ops = vec![Op::Scan(1)];
    let sp = vec![Span {
        start: 2,
        end: 5,
        line: 3,
        col: 7,
    }];
    let result = execute(&ops, &sp, vec![1, 2, 3], 0, &cfg(), None);
    match result {
        Err(ExecutionError::PointerOverflow {
            span,
            pointer,
            tape_len,
        }) => {
            assert_eq!(span.line, 3);
            assert_eq!(span.col, 7);
            assert_eq!(pointer, 3);
            assert_eq!(tape_len, 3);
        }
        _ => panic!("expected PointerOverflow"),
    }
}

#[test]
fn test_custom_tape_size_overflow() {
    // Move beyond a small tape
    let ops = vec![Op::Move(5)];
    let sp = spans(1);
    let result = execute(&ops, &sp, vec![0; 3], 0, &cfg(), None);
    assert!(matches!(
        result,
        Err(ExecutionError::PointerOverflow {
            tape_len: 3,
            pointer: 5,
            ..
        })
    ));

    // Same move succeeds with larger tape
    let result = execute(&ops, &sp, vec![0; 10], 0, &cfg(), None);
    assert!(result.is_ok());
    assert_eq!(result.unwrap().pointer, 5);
}

#[test]
fn test_custom_tape_size_underflow() {
    // Move before tape start
    let ops = vec![Op::Move(-3)];
    let sp = spans(1);
    let result = execute(&ops, &sp, vec![0; 5], 2, &cfg(), None);
    assert!(matches!(result, Err(ExecutionError::PointerUnderflow { .. })));

    // Same move succeeds with different starting pointer
    let result = execute(&ops, &sp, vec![0; 5], 4, &cfg(), None);
    assert!(result.is_ok());
    assert_eq!(result.unwrap().pointer, 1);
}

#[test]
fn test_op_limit_respected() {
    // A simple loop that runs many iterations
    // [->+<] copies cell 0 to cell 1, running 3 ops per iteration
    let ops = vec![
        Op::Open(5),
        Op::Add(255), // decrement
        Op::Move(1),
        Op::Add(1),
        Op::Move(-1),
        Op::Close(0),
    ];
    let sp = spans(6);

    // With cell 0 = 10, loop runs 10 times = 50 ops (5 ops * 10 iterations)
    // Plus final Open check = 51 ops total
    let config_limited = Config {
        op_limit: Some(30),
        ..Default::default()
    };
    let result = execute(&ops, &sp, vec![10, 0], 0, &config_limited, None);
    assert!(matches!(result, Err(ExecutionError::OperationLimit { .. })));

    // With higher limit, it succeeds
    let config_ok = Config {
        op_limit: Some(100),
        ..Default::default()
    };
    let result = execute(&ops, &sp, vec![10, 0], 0, &config_ok, None);
    assert!(result.is_ok());

    // With no limit (None), it succeeds
    let config_unlimited = Config {
        op_limit: None,
        ..Default::default()
    };
    let result = execute(&ops, &sp, vec![10, 0], 0, &config_unlimited, None);
    assert!(result.is_ok());
}

// A copy loop that fits in the budget moves the whole cell.
#[test]
fn test_op_limit_success_tape() {
    let ops = vec![
        Op::Open(5),
        Op::Add(255),
        Op::Move(1),
        Op::Add(1),
        Op::Move(-1),
        Op::Close(0),
    ];
    let sp = spans(6);
    let config = Config {
        op_limit: Some(100),
        ..Default::default()
    };
    let result = execute(&ops, &sp, vec![10, 0], 0, &config, None).unwrap();
    assert_eq!(result.tape, vec![0, 10]);
    assert_eq!(result.pointer, 0);
}

#[test]
fn test_eof_behavior_zero() {
    let ops = vec![Op::In];
    let sp = spans(1);
    let config = Config {
        eof_behavior: EofBehavior::Zero,
        ..Default::default()
    };

    let input: Vec<u8> = vec![];
    let result = execute(&ops, &sp, vec![42], 0, &config, Some(&input)).unwrap();
    assert_eq!(result.tape[0], 0);
}

#[test]
fn test_eof_behavior_unchanged() {
    let ops = vec![Op::In];
    let sp = spans(1);
    let config = Config {
        eof_behavior: EofBehavior::Unchanged,
        ..Default::default()
    };

    let input: Vec<u8> = vec![];
    let result = execute(&ops, &sp, vec![42], 0, &config, Some(&input)).unwrap();
    assert_eq!(result.tape[0], 42);
}

#[test]
fn test_eof_behavior_max_value() {
    let ops = vec![Op::In];
    let sp = spans(1);
    let config = Config {
        eof_behavior: EofBehavior::MaxValue,
        ..Default::default()
    };

    let input: Vec<u8> = vec![];
    let result = execute(&ops, &sp, vec![42], 0, &config, Some(&input)).unwrap();
    assert_eq!(result.tape[0], 255);
}

#[test]
fn test_eof_after_valid_input() {
    let ops = vec![Op::In, Op::Move(1), Op::In];
    let sp = spans(3);

    let config = Config {
        eof_behavior: EofBehavior::Zero,
        ..Default::default()
    };
    let input: Vec<u8> = vec![65]; // only one byte available
    let result = execute(&ops, &sp, vec![0, 99], 0, &config, Some(&input)).unwrap();
    assert_eq!(result.tape[0], 65); // 'A'
    assert_eq!(result.tape[1], 0); // EOF -> Zero
}

// Without an input stream, `In` leaves the cell alone whatever the
// end-of-input policy says.
#[test]
fn test_no_input_stream_is_noop() {
    let ops = vec![Op::In];
    let sp = spans(1);
    let config = Config {
        eof_behavior: EofBehavior::MaxValue,
        ..Default::default()
    };
    let result = execute(&ops, &sp, vec![42], 0, &config, None).unwrap();
    assert_eq!(result.tape[0], 42);
}

// Output bytes come back in write order.
#[test]
fn test_output_collected_in_order() {
    let ops = vec![Op::Out, Op::Add(1), Op::Out, Op::Add(1), Op::Out];
    let sp = spans(5);
    let result = execute(&ops, &sp, vec![7], 0, &cfg(), None).unwrap();
    assert_eq!(result.output, vec![7, 8, 9]);
}

// A taken `Open` jumps past the matching `Close`; a taken `Close` re-enters
// the body.
#[test]
fn test_jump_semantics() {
    // [+] with a nonzero cell: runs until the cell wraps to zero.
    let ops = vec![Op::Open(2), Op::Add(1), Op::Close(0)];
    let sp = spans(3);
    let result = execute(&ops, &sp, vec![250], 0, &cfg(), None).unwrap();
    assert_eq!(result.tape, vec![0]);

    // Open on a zero cell skips the body entirely.
    let ops = vec![Op::Open(2), Op::Store(9), Op::Close(0)];
    let sp = spans(3);
    let result = execute(&ops, &sp, vec![0, 3], 0, &cfg(), None).unwrap();
    assert_eq!(result.tape, vec![0, 3]);
}

// The negative-stride scan checks bounds only before a step it actually
// takes: starting on a zero cell close to the tape start succeeds.
#[test]
fn test_scan_negative_stride_zero_at_start() {
    let ops = vec![Op::Scan(-3)];
    let sp = spans(1);
    let result = execute(&ops, &sp, vec![0, 7, 7], 0, &cfg(), None).unwrap();
    assert_eq!(result.pointer, 0);
}

// A jump target at or past the end of the program simply ends the run.
#[test]
fn test_jump_past_end_terminates() {
    let ops = vec![Op::Open(100)];
    let sp = spans(1);
    let result = execute(&ops, &sp, vec![0], 0, &cfg(), None).unwrap();
    assert_eq!(result.pointer, 0);
    assert_eq!(result.tape, vec![0]);
}
