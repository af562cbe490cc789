use lbf::interpreter::{execute, BrainFuckError};

#[test]
fn simple() {
    let code = b"++>++[-<+>]<.";

    let output = execute(code, &[], u64::MAX).unwrap().unwrap();

    assert_eq!(&output, &[4]);
}

#[test]
fn hello_world_long() {
    let code = b"++++++++++[>+++++++>++++++++++>+++>+<<<<-]>++.>+.+++++++..+++.>++.<<+++++++++++++++.>.+++.------.--------.>+.>.";

    let output = execute(code, &[], u64::MAX).unwrap().unwrap();

    assert_eq!(&output, b"Hello World!\n");
}

#[test]
fn hello_world_compact() {
    let code = b"++++++++[>++++[>++>+++>+++>+<<<<-]>+>+>->>+[<]<-]>>.>---.+++++++..+++.>>.<-.<.+++.------.--------.>>+.>++.";

    let output = execute(code, &[], u64::MAX).unwrap().unwrap();

    assert_eq!(&output, b"Hello World!\n");
}

#[test]
fn simple_interpreter_test() {
    let code = b">++++++++[-<+++++++++>]<.>>+>-[+]++>++>+++[>[->+++<<+++>]<<]>-----.>->+++..+++.>-.<<+[>[+>+]>>]<--------------.>>.+++.------.--------.>+.>+.";

    let output = execute(code, &[], u64::MAX).unwrap().unwrap();

    assert_eq!(&output, b"Hello World!\n");
}

#[test]
fn read_then_echo() {
    let output = execute(b",.", &[65], u64::MAX).unwrap().unwrap();

    assert_eq!(&output, &[65]);
}

#[test]
fn reads_bytes_in_program_order() {
    let output = execute(b",>,>,<<.>.>.", &[7, 8, 9], u64::MAX).unwrap().unwrap();

    assert_eq!(&output, &[7, 8, 9]);
}

#[test]
fn input_exhaustion_fails() {
    let result = execute(b",", &[], u64::MAX).unwrap();

    assert_eq!(result, Err(BrainFuckError::InputExhausted));
}

#[test]
fn unmatched_loop_start_reports_position() {
    let result = execute(b"[", &[], u64::MAX).unwrap();

    assert_eq!(result, Err(BrainFuckError::NoMatchingEndToLoop(1, 1)));
}

#[test]
fn unmatched_loop_end_reports_position() {
    let result = execute(b"]", &[], u64::MAX).unwrap();

    assert_eq!(result, Err(BrainFuckError::NoMatchingStartToLoop(1, 1)));
}

#[test]
fn newline_advances_reported_line() {
    let result = execute(b"\n\n  ]", &[], u64::MAX).unwrap();

    assert_eq!(result, Err(BrainFuckError::NoMatchingStartToLoop(3, 3)));
}

#[test]
fn unmatched_start_inside_text_reports_its_own_spot() {
    let result = execute(b"><[", &[], u64::MAX).unwrap();

    assert_eq!(result, Err(BrainFuckError::NoMatchingEndToLoop(1, 3)));
}

#[test]
fn zero_cell_skips_loop_body_entirely() {
    let output = execute(b"[,,,]+.", &[], u64::MAX).unwrap().unwrap();

    assert_eq!(&output, &[1]);
}

#[test]
fn nested_loops_match_correctly_when_skipped() {
    let output = execute(b"[[-]>[+]<]++.", &[], u64::MAX).unwrap().unwrap();

    assert_eq!(&output, &[2]);
}

#[test]
fn decrement_wraps_below_zero() {
    let output = execute(b"-.", &[], u64::MAX).unwrap().unwrap();

    assert_eq!(&output, &[255]);
}

#[test]
fn increment_wraps_past_255() {
    let mut code: Vec<u8> = vec![b'+'; 256];
    code.push(b'.');

    let output = execute(&code, &[], u64::MAX).unwrap().unwrap();

    assert_eq!(&output, &[0]);
}

#[test]
fn comment_bytes_are_ignored() {
    let output = execute(b"one + and one + make two .", &[], u64::MAX).unwrap().unwrap();

    assert_eq!(&output, &[2]);
}

#[test]
fn empty_program_produces_no_output() {
    let output = execute(b"", &[], u64::MAX).unwrap().unwrap();

    assert_eq!(output.len(), 0);
}

#[test]
fn crossing_block_boundaries_and_back_preserves_cells() {
    let mut code: Vec<u8> = Vec::new();
    code.push(b'+');
    for _ in 0..200 {
        code.push(b'>');
    }
    code.push(b'+');
    code.push(b'+');
    for _ in 0..200 {
        code.push(b'<');
    }
    code.push(b'.');
    for _ in 0..200 {
        code.push(b'>');
    }
    code.push(b'.');

    let output = execute(&code, &[], u64::MAX).unwrap().unwrap();

    assert_eq!(&output, &[1, 2]);
}

#[test]
fn tape_grows_to_the_left_as_well() {
    let mut code: Vec<u8> = Vec::new();
    for _ in 0..150 {
        code.push(b'<');
    }
    code.push(b'+');
    code.push(b'.');
    for _ in 0..150 {
        code.push(b'>');
    }
    code.push(b'.');

    let output = execute(&code, &[], u64::MAX).unwrap().unwrap();

    assert_eq!(&output, &[1, 0]);
}

#[test]
fn step_budget_exhaustion_returns_none() {
    assert!(execute(b"+[]", &[], 1000).is_none());
}

#[test]
fn zero_budget_reports_still_running() {
    assert!(execute(b"+", &[], 0).is_none());
}

#[test]
fn terminating_program_ignores_a_generous_budget() {
    let output = execute(b"++.", &[], 1000).unwrap().unwrap();

    assert_eq!(&output, &[2]);
}
