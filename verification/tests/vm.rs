use emojivm::EvalError;
use emojivm::instractions::Instractions;
use emojivm::interpreter::Interpreter;

fn run(source: &str, input: &str) -> (Result<(), EvalError>, Vec<char>) {
    let mut interpreter = Interpreter::new(source, input.to_string());
    let result = interpreter.eval();
    (result, interpreter.output_buffer)
}

#[test]
fn each_opcode_symbol_decodes_to_its_own_tag() {
    assert_eq!(Instractions::from('😅'), Instractions::PtrIncr);
    assert_eq!(Instractions::from('😭'), Instractions::PtrDecr);
    assert_eq!(Instractions::from('😘'), Instractions::ValIncr);
    assert_eq!(Instractions::from('😚'), Instractions::ValDecr);
    assert_eq!(Instractions::from('💦'), Instractions::PutChar);
    assert_eq!(Instractions::from('⁉'), Instractions::GetChar);
    assert_eq!(Instractions::from('✋'), Instractions::BeginLoop);
    assert_eq!(Instractions::from('🤟'), Instractions::EndLoop);
}

#[test]
fn unrecognized_symbols_decode_to_nop() {
    assert_eq!(Instractions::from('a'), Instractions::Nop);
    assert_eq!(Instractions::from(' '), Instractions::Nop);
    assert_eq!(Instractions::from('+'), Instractions::Nop);
    assert_eq!(Instractions::from('🙂'), Instractions::Nop);
}

#[test]
fn unrecognized_symbols_contribute_no_instructions() {
    // The same program with junk scattered through it behaves identically.
    let (clean_result, clean_output) = run("😘😘😘💦", "");
    let (noisy_result, noisy_output) = run("x😘 😘🙂😘\n💦!", "");
    assert_eq!(clean_result, Ok(()));
    assert_eq!(noisy_result, Ok(()));
    assert_eq!(clean_output, vec!['\u{3}']);
    assert_eq!(noisy_output, clean_output);
}

#[test]
fn empty_source_succeeds_with_no_output() {
    let (result, output) = run("", "ignored");
    assert_eq!(result, Ok(()));
    assert!(output.is_empty());
}

#[test]
fn pointer_increment_past_last_cell_is_memory_overflow() {
    // 255 increments land on the last of the 256 cells; one more fails.
    let source = "😅".repeat(256);
    let (result, output) = run(&source, "");
    assert_eq!(result, Err(EvalError::MemoryOverflow));
    assert!(output.is_empty());

    let ok_source = "😅".repeat(255);
    assert_eq!(run(&ok_source, "").0, Ok(()));
}

#[test]
fn pointer_decrement_at_cell_zero_is_memory_underflow() {
    assert_eq!(run("😭", "").0, Err(EvalError::MemoryUnderflow));
    assert_eq!(run("😅😭", "").0, Ok(()));
}

#[test]
fn value_increment_past_255_is_memory_out_of_range() {
    // 255 increments saturate the cell; the 256th fails, the cell stays
    // 255 — the output made after the 255 increments still shows 255.
    let source = "😘".repeat(256);
    let (result, output) = run(&source, "");
    assert_eq!(result, Err(EvalError::MemoryOutOfRange));
    assert!(output.is_empty());

    let saturated = format!("{}💦", "😘".repeat(255));
    let (result, output) = run(&saturated, "");
    assert_eq!(result, Ok(()));
    assert_eq!(output, vec!['\u{ff}']);
}

#[test]
fn value_decrement_below_zero_is_memory_out_of_range() {
    assert_eq!(run("😚", "").0, Err(EvalError::MemoryOutOfRange));
    assert_eq!(run("😘😚", "").0, Ok(()));
}

#[test]
fn input_on_empty_queue_is_input_exhausted() {
    let (result, output) = run("⁉", "");
    assert_eq!(result, Err(EvalError::InputExhausted));
    assert!(output.is_empty());
}

#[test]
fn input_bytes_are_consumed_front_to_back() {
    let (result, output) = run("⁉💦😅⁉💦", "AB");
    assert_eq!(result, Ok(()));
    assert_eq!(output, vec!['A', 'B']);
}

#[test]
fn input_characters_are_narrowed_to_their_low_byte() {
    // 'Ā' is code point 0x100: its low eight bits are zero.
    let (result, output) = run("⁉💦", "Ā");
    assert_eq!(result, Ok(()));
    assert_eq!(output, vec!['\u{0}']);
}

#[test]
fn loop_begin_without_matching_end_is_unbalanced_bracket() {
    let (result, output) = run("✋", "");
    assert_eq!(result, Err(EvalError::UnbalancedBracket));
    assert!(output.is_empty());
}

#[test]
fn lone_loop_end_is_unbalanced_bracket() {
    let (result, output) = run("🤟", "");
    assert_eq!(result, Err(EvalError::UnbalancedBracket));
    assert!(output.is_empty());
}

#[test]
fn increments_then_output_round_trip() {
    // A program that increments the cell N times and outputs it produces
    // the single character with code N.
    let n = 7;
    let source = format!("{}💦", "😘".repeat(n));
    let (result, output) = run(&source, "");
    assert_eq!(result, Ok(()));
    assert_eq!(output, vec![char::from(n as u8)]);
}

#[test]
fn loop_runs_exactly_three_iterations() {
    // Set the cell to 3, then loop {output, decrement}: the body runs three
    // times, the zero test at the loop end stops it, and the run succeeds —
    // the loop stack is empty at the end.
    let (result, output) = run("😘😘😘✋💦😚🤟", "");
    assert_eq!(result, Ok(()));
    assert_eq!(output, vec!['\u{3}', '\u{2}', '\u{1}']);
}

#[test]
fn loop_working_across_two_cells_doubles_a_count() {
    // Set cell 0 to 2, then loop {decrement cell 0, step right, add two to
    // cell 1, step left}; afterwards move right and output: 2 doubles to 4.
    let (result, output) = run("😘😘✋😚😅😘😘😭🤟😅💦", "");
    assert_eq!(result, Ok(()));
    assert_eq!(output, vec!['\u{4}']);
}

#[test]
fn zero_guard_skips_nested_loop_body_entirely() {
    // The outer loop's guard cell is zero, so the whole outer body — the
    // nested inner loop included — is skipped without opening any loop,
    // and execution resumes directly at the instruction after the outer
    // end: the two increments and the output run, the increment inside
    // the loops does not, and the run succeeds.
    let (result, output) = run("✋✋😘🤟🤟😘😘💦", "");
    assert_eq!(output, vec!['\u{2}']);
    assert_eq!(result, Ok(()));
}

#[test]
fn skipped_loop_leaves_no_open_loop() {
    // A balanced empty loop over a zero guard closes cleanly.
    let (result, output) = run("✋🤟", "");
    assert_eq!(result, Ok(()));
    assert!(output.is_empty());
}

#[test]
fn stray_end_after_skipped_loop_is_unbalanced() {
    // The skip leaves nothing on the loop stack, so an extra loop end
    // right after it has no open loop to close.
    let (result, output) = run("✋🤟🤟", "");
    assert_eq!(result, Err(EvalError::UnbalancedBracket));
    assert!(output.is_empty());
}

#[test]
fn outputs_letter_a_and_succeeds() {
    // Increment the cell to 65 ('A') and output it.
    let source = format!("{}💦", "😘".repeat(65));
    let (result, output) = run(&source, "");
    assert_eq!(result, Ok(()));
    assert_eq!(output, vec!['A']);
}

#[test]
fn eval_fuel_finishes_a_halting_program() {
    let source = format!("{}💦", "😘".repeat(65));
    let mut interpreter = Interpreter::new(&source, String::new());
    assert_eq!(interpreter.eval_fuel(1_000), Some(Ok(())));
    assert_eq!(interpreter.output(), &vec!['A']);
    assert_eq!(interpreter.output_buffer, vec!['A']);
}

#[test]
fn eval_fuel_gives_up_on_a_runaway_program() {
    // A loop over a cell that never reaches zero runs forever; the bounded
    // driver reports it still running once the budget is spent.
    let mut interpreter = Interpreter::new("😘✋🤟", String::new());
    assert_eq!(interpreter.eval_fuel(10_000), None);
}

#[test]
fn eval_fuel_reports_errors_like_eval() {
    let mut interpreter = Interpreter::new("😭", String::new());
    assert_eq!(interpreter.eval_fuel(10), Some(Err(EvalError::MemoryUnderflow)));
}

#[test]
fn partial_output_remains_visible_after_a_failure() {
    // Two outputs happen before the pointer underflows; both stay readable.
    let (result, output) = run("😘💦💦😭", "");
    assert_eq!(result, Err(EvalError::MemoryUnderflow));
    assert_eq!(output, vec!['\u{1}', '\u{1}']);
}
