use rustfuck::front::{merge_config, parse_eof_string, trim_tape};
use rustfuck::{Config, EofBehavior, ExecutionError, Op, Program};

#[test]
fn test_hello_world() {
    let program = Program::from_source("++++++++[->++[->++++<]<]>>.----[------>+<]>.").unwrap();
    let result = program.run(&Config::default(), None, None, None).unwrap();
    assert_eq!(String::from_utf8(result.output).unwrap(), "@\n");
}

// An echo-like loop: compiled shape and the byte it writes.
#[test]
fn test_read_modify_write_loop() {
    let program = Program::from_source(",[+>-.<]").unwrap();
    assert_eq!(
        program.ops,
        vec![
            Op::In,
            Op::Open(7),
            Op::Add(1),
            Op::Move(1),
            Op::Add(255),
            Op::Out,
            Op::Move(-1),
            Op::Close(1),
        ]
    );
    let input: Vec<u8> = vec![65];
    let result = program
        .run(&Config::default(), None, None, Some(&input))
        .unwrap();
    // One write per iteration: the origin cell climbs from 65 to 256 (zero)
    // while the written cell falls from 255 down to 65.
    assert_eq!(result.output.len(), 191);
    assert_eq!(result.output[0], 255);
    assert_eq!(result.output[190], 65);
}

// A single read at end of input under the max-value policy writes 255.
#[test]
fn test_eof_max_read_then_write() {
    let program = Program::from_source(",.").unwrap();
    let config = Config {
        eof_behavior: EofBehavior::MaxValue,
        ..Default::default()
    };
    let input: Vec<u8> = vec![];
    let result = program.run(&config, None, None, Some(&input)).unwrap();
    assert_eq!(result.output, vec![255]);
}

// Byte-wrapping end to end: 256·k increments leave a fresh cell at zero.
#[test]
fn test_wraparound_leaves_fresh_cell_zero() {
    let program = Program::from_source(&"+".repeat(256 * 3)).unwrap();
    assert_eq!(program.ops, vec![]);
    let result = program.run(&Config::default(), None, None, None).unwrap();
    assert_eq!(result.tape[0], 0);
    assert_eq!(result.pointer, 0);
}

// An explicit initial tape and pointer are taken as given.
#[test]
fn test_initial_state_respected() {
    let program = Program::from_source("+.").unwrap();
    let result = program
        .run(&Config::default(), Some(vec![1, 2, 3]), Some(2), None)
        .unwrap();
    assert_eq!(result.output, vec![4]);
    assert_eq!(result.tape, vec![1, 2, 4]);
    assert_eq!(result.pointer, 2);
}

// The default tape honours the configured size.
#[test]
fn test_configured_tape_size() {
    let program = Program::from_source(">>>>+").unwrap();
    let config = Config {
        tape_size: 5,
        ..Default::default()
    };
    let result = program.run(&config, None, None, None).unwrap();
    assert_eq!(result.tape, vec![0, 0, 0, 0, 1]);

    let config = Config {
        tape_size: 4,
        ..Default::default()
    };
    let result = program.run(&config, None, None, None);
    assert!(matches!(
        result,
        Err(ExecutionError::PointerOverflow {
            pointer: 4,
            tape_len: 4,
            ..
        })
    ));
}

#[test]
fn test_trim_tape_drops_trailing_zeros() {
    assert_eq!(trim_tape(vec![1, 0, 2, 0, 0]), vec![1, 0, 2]);
    assert_eq!(trim_tape(vec![0, 0, 0]), Vec::<u8>::new());
    assert_eq!(trim_tape(vec![]), Vec::<u8>::new());
    assert_eq!(trim_tape(vec![5]), vec![5]);
}

#[test]
fn test_parse_eof_string_values() {
    assert_eq!(parse_eof_string("unchanged"), EofBehavior::Unchanged);
    assert_eq!(parse_eof_string("max"), EofBehavior::MaxValue);
    assert_eq!(parse_eof_string("zero"), EofBehavior::Zero);
    assert_eq!(parse_eof_string("anything else"), EofBehavior::Zero);
    assert_eq!(parse_eof_string(""), EofBehavior::Zero);
}

// The comparison is case-insensitive, so the lowercasing must really happen.
#[test]
fn test_parse_eof_string_case_insensitive() {
    assert_eq!(parse_eof_string("UNCHANGED"), EofBehavior::Unchanged);
    assert_eq!(parse_eof_string("Max"), EofBehavior::MaxValue);
    assert_eq!(parse_eof_string("ZERO"), EofBehavior::Zero);
}

#[test]
fn test_merge_config_overrides_and_inherits() {
    let base = Config {
        tape_size: 100,
        op_limit: Some(7),
        eof_behavior: EofBehavior::Unchanged,
        flush_output: true,
    };
    let merged = merge_config(&base, Some(200), None, None);
    assert_eq!(merged.tape_size, 200);
    assert_eq!(merged.op_limit, Some(7));
    assert_eq!(merged.eof_behavior, EofBehavior::Unchanged);
    assert!(!merged.flush_output);

    let merged = merge_config(&base, None, Some(9), Some(EofBehavior::MaxValue));
    assert_eq!(merged.tape_size, 100);
    assert_eq!(merged.op_limit, Some(9));
    assert_eq!(merged.eof_behavior, EofBehavior::MaxValue);
    assert!(!merged.flush_output);
}

#[test]
fn test_defaults() {
    let config = Config::default();
    assert_eq!(config.tape_size, 30000);
    assert_eq!(config.op_limit, None);
    assert_eq!(config.eof_behavior, EofBehavior::Zero);
    assert!(config.flush_output);
    assert_eq!(EofBehavior::default(), EofBehavior::Zero);
}

// Compile errors surface through Program::from_source.
#[test]
fn test_from_source_errors() {
    assert!(Program::from_source("[").is_err());
    assert!(Program::from_source("]").is_err());
    assert!(Program::from_source("[]").is_ok());
}

// Same program, same configuration, same starting state: same outcome.
#[test]
fn test_execution_deterministic() {
    let program = Program::from_source(",[->>++>+<<<]>>.").unwrap();
    let input: Vec<u8> = vec![9];
    let a = program
        .run(&Config::default(), Some(vec![0; 16]), Some(0), Some(&input))
        .unwrap();
    let b = program
        .run(&Config::default(), Some(vec![0; 16]), Some(0), Some(&input))
        .unwrap();
    assert_eq!(a, b);
    assert_eq!(a.output, vec![18]);
}
