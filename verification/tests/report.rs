use rustfuck::{CompileError, ExecutionError, Span};

fn span(line: usize, col: usize) -> Span {
    Span {
        start: 0,
        end: 1,
        line,
        col,
    }
}

#[test]
fn test_compile_error_messages() {
    let e = CompileError::UnmatchedOpen { span: span(3, 1) };
    assert_eq!(e.message(), "unmatched '[' at line 3, column 1");
    let e = CompileError::UnmatchedClose { span: span(1, 42) };
    assert_eq!(e.message(), "unmatched ']' at line 1, column 42");
}

#[test]
fn test_execute_error_messages() {
    let e = ExecutionError::PointerUnderflow { span: span(1, 10) };
    assert_eq!(e.message(), "pointer underflow at line 1, column 10");

    let e = ExecutionError::PointerOverflow {
        span: span(2, 3),
        pointer: 10,
        tape_len: 5,
    };
    assert_eq!(
        e.message(),
        "pointer overflow: position 10 exceeds tape length 5 (at line 2, column 3)"
    );

    let e = ExecutionError::OperationLimit { span: span(12, 7) };
    assert_eq!(e.message(), "operation limit exceeded at line 12, column 7");

    let e = ExecutionError::IoError {
        span: span(4, 5),
        message: String::from("pipe closed"),
    };
    assert_eq!(e.message(), "I/O error at line 4, column 5: pipe closed");
}

// Numbers of every width render correctly, zero and the default tape size
// among them.
#[test]
fn test_number_rendering() {
    let e = ExecutionError::PointerOverflow {
        span: span(0, 100),
        pointer: 30000,
        tape_len: 0,
    };
    assert_eq!(
        e.message(),
        "pointer overflow: position 30000 exceeds tape length 0 (at line 0, column 100)"
    );
}
