use brainfuck::Code;
use brainfuck::ExecError;
use brainfuck::ExecStatus;
use brainfuck::Interpreter;

fn run(source: &str, input: Vec<u8>, fuel: u64) -> (ExecStatus, Interpreter) {
    let code = Code::parse_string(source).unwrap();
    let mut interpreter = Interpreter::with_input(input);
    let status = interpreter.execute(&code, fuel);
    (status, interpreter)
}

#[test]
fn empty_program_completes_with_no_output() {
    let (status, interpreter) = run("", Vec::new(), 10);
    assert_eq!(status, ExecStatus::Completed);
    assert!(interpreter.output().is_empty());
}

#[test]
fn three_increments_output_three() {
    let (status, interpreter) = run("+++.", Vec::new(), 10);
    assert_eq!(status, ExecStatus::Completed);
    assert_eq!(interpreter.output(), &vec![3u8]);
}

#[test]
fn clearing_loop_terminates_with_no_output() {
    let (status, interpreter) = run("+[-]", Vec::new(), 100);
    assert_eq!(status, ExecStatus::Completed);
    assert!(interpreter.output().is_empty());
    assert_eq!(interpreter.cell(), 0);
}

#[test]
fn clearing_loop_needs_only_one_unit_of_fuel() {
    // the loop body runs once: cell 1 -> 0, the guard is re-checked, done
    let (status, _) = run("+[-]", Vec::new(), 1);
    assert_eq!(status, ExecStatus::Completed);
}

#[test]
fn move_left_at_the_left_edge_fails() {
    let (status, interpreter) = run("<", Vec::new(), 10);
    assert_eq!(status, ExecStatus::Failed(ExecError::NegativeIndex));
    assert_eq!(interpreter.cursor(), 0);
}

#[test]
fn failure_keeps_output_written_before_it() {
    let (status, interpreter) = run("+.<", Vec::new(), 10);
    assert_eq!(status, ExecStatus::Failed(ExecError::NegativeIndex));
    assert_eq!(interpreter.output(), &vec![1u8]);
}

#[test]
fn reading_exhausted_input_sets_cell_to_255() {
    let (status, interpreter) = run(",", Vec::new(), 10);
    assert_eq!(status, ExecStatus::Completed);
    assert_eq!(interpreter.cell(), 255);
}

#[test]
fn reading_consumes_input_bytes_in_order() {
    let (status, interpreter) = run(",.,.,.", vec![65, 66], 10);
    assert_eq!(status, ExecStatus::Completed);
    assert_eq!(interpreter.output(), &vec![65u8, 66, 255]);
}

#[test]
fn increment_wraps_255_to_zero() {
    let mut source = String::new();
    for _ in 0..256 {
        source.push('+');
    }
    source.push('.');
    let (status, interpreter) = run(&source, Vec::new(), 10);
    assert_eq!(status, ExecStatus::Completed);
    assert_eq!(interpreter.output(), &vec![0u8]);
}

#[test]
fn decrement_wraps_zero_to_255() {
    let (status, interpreter) = run("-.", Vec::new(), 10);
    assert_eq!(status, ExecStatus::Completed);
    assert_eq!(interpreter.output(), &vec![255u8]);
}

#[test]
fn tape_grows_one_cell_at_a_time_to_the_right() {
    let (status, interpreter) = run(">>>", Vec::new(), 10);
    assert_eq!(status, ExecStatus::Completed);
    assert_eq!(interpreter.tape_len(), 4);
    assert_eq!(interpreter.cursor(), 3);
}

#[test]
fn moving_back_over_grown_tape_succeeds() {
    let (status, interpreter) = run("+><.", Vec::new(), 10);
    assert_eq!(status, ExecStatus::Completed);
    assert_eq!(interpreter.output(), &vec![1u8]);
    assert_eq!(interpreter.tape_len(), 2);
}

#[test]
fn new_cells_start_at_zero() {
    let (status, interpreter) = run("+>.", Vec::new(), 10);
    assert_eq!(status, ExecStatus::Completed);
    assert_eq!(interpreter.output(), &vec![0u8]);
}

#[test]
fn loop_on_zero_cell_is_skipped_without_fuel() {
    // the guard is examined before the first iteration, so no fuel is needed
    let (status, interpreter) = run("[+.]", Vec::new(), 0);
    assert_eq!(status, ExecStatus::Completed);
    assert!(interpreter.output().is_empty());
}

#[test]
fn empty_loop_body_on_nonzero_cell_runs_out_of_fuel() {
    let (status, _) = run("+[]", Vec::new(), 5);
    assert_eq!(status, ExecStatus::OutOfFuel);
}

#[test]
fn more_fuel_does_not_change_a_completed_run() {
    let (status_small, small) = run(",[-.]", vec![3], 100);
    let (status_large, large) = run(",[-.]", vec![3], 1_000_000);
    assert_eq!(status_small, ExecStatus::Completed);
    assert_eq!(status_large, ExecStatus::Completed);
    assert_eq!(small.output(), large.output());
    assert_eq!(small.output(), &vec![2u8, 1, 0]);
}

#[test]
fn copy_loop_moves_value_one_cell_right() {
    // three increments, then move them to the next cell and print it
    let (status, interpreter) = run("+++[->+<]>.", Vec::new(), 100);
    assert_eq!(status, ExecStatus::Completed);
    assert_eq!(interpreter.output(), &vec![3u8]);
}

#[test]
fn fresh_interpreter_has_one_zero_cell_and_no_input() {
    let mut interpreter = Interpreter::new();
    assert_eq!(interpreter.tape_len(), 1);
    assert_eq!(interpreter.cursor(), 0);
    assert_eq!(interpreter.cell(), 0);
    assert!(interpreter.output().is_empty());
    let code = Code::parse_string(",.").unwrap();
    let status = interpreter.execute(&code, 10);
    assert_eq!(status, ExecStatus::Completed);
    assert_eq!(interpreter.output(), &vec![255u8]);
}
