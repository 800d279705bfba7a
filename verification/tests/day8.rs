use aoc_2020_rust::day8::execute;
use aoc_2020_rust::day8::repair;
use aoc_2020_rust::day8::ExecError;
use aoc_2020_rust::day8::Instruction;
use aoc_2020_rust::day8::Instructions;
use aoc_2020_rust::day8::NextState;
use aoc_2020_rust::day8::RepairError;
use aoc_2020_rust::day8::RunOutcome;

const TEST1_INPUT: &str = "nop +0
acc +1
jmp +4
acc +3
jmp -3
acc -99
acc +1
jmp -4
acc +6";

const TEST2_INPUT: &str = "nop +0
acc +1
jmp +4
acc +3
jmp -3
acc -99
acc +1
nop -4
acc +6";

#[test]
fn mod_test_parse() {
    let parsed = Instructions::parse(TEST1_INPUT);
    assert_eq!(parsed.instructions.len(), 9);
}

#[test]
fn test_task_1() {
    let mut parsed = Instructions::parse(TEST1_INPUT);
    parsed.iterate_until_terminated();
    assert_eq!(parsed.acc, 5);
}

#[test]
fn test_task_2_loop() {
    let mut parsed = Instructions::parse(TEST1_INPUT);
    let res = parsed.iterate_until_terminated();
    assert_eq!(parsed.acc, 5);
    assert!(!res)
}

#[test]
fn test_task_2_terminate() {
    let mut parsed = Instructions::parse(TEST2_INPUT);
    let res = parsed.iterate_until_terminated();
    assert_eq!(parsed.acc, 8);
    assert!(res)
}

#[test]
fn test_corruption_scan() {
    let mut parsed = Instructions::parse(TEST1_INPUT);
    parsed.iterate_until_terminated_with_corruption();
    assert_eq!(parsed.acc, 8);
}

#[test]
fn test_single_jump_loops() {
    // a lone jump-to-self revisits line 0 with nothing accumulated
    let program = vec![Instruction::Jump(0)];
    assert_eq!(execute(&program), Ok(RunOutcome::Looped(0)));
}

#[test]
fn test_empty_program_terminates() {
    let program: Vec<Instruction> = Vec::new();
    assert_eq!(execute(&program), Ok(RunOutcome::Terminated(0)));
}

#[test]
fn test_jump_to_end_terminates() {
    // a jump landing exactly on the program length ends the run
    let program = vec![Instruction::Jump(2), Instruction::Acc(7)];
    assert_eq!(execute(&program), Ok(RunOutcome::Terminated(0)));
}

#[test]
fn test_jump_past_end_is_malformed() {
    let program = vec![Instruction::Jump(5)];
    assert_eq!(execute(&program), Err(ExecError::MalformedProgram));
    let backwards = vec![Instruction::Jump(-1)];
    assert_eq!(execute(&backwards), Err(ExecError::MalformedProgram));
}

#[test]
fn test_straightline_sums_accumulates() {
    let program = vec![
        Instruction::NoOp(9),
        Instruction::Acc(2),
        Instruction::Acc(3),
        Instruction::Acc(-1),
    ];
    assert_eq!(execute(&program), Ok(RunOutcome::Terminated(4)));
}

#[test]
fn test_execute_is_repeatable() {
    let parsed = Instructions::parse(TEST1_INPUT);
    let program: Vec<Instruction> = parsed.instructions.iter().map(|e| e.0).collect();
    let first = execute(&program);
    let second = execute(&program);
    assert_eq!(first, Ok(RunOutcome::Looped(5)));
    assert_eq!(first, second);
}

#[test]
fn test_repair_finds_flip() {
    let parsed = Instructions::parse(TEST1_INPUT);
    let program: Vec<Instruction> = parsed.instructions.iter().map(|e| e.0).collect();
    assert_eq!(repair(&program), Ok(8));
    // the repaired copy, flipped at line 7, terminates with the same
    // accumulator that the repair search reported
    let mut flipped = program.clone();
    flipped[7] = Instruction::NoOp(-4);
    assert_eq!(execute(&flipped), Ok(RunOutcome::Terminated(8)));
}

#[test]
fn test_repair_none_found() {
    // neither flip terminates: one loops, the other jumps outside
    let program = vec![Instruction::Jump(3), Instruction::Jump(-1)];
    assert_eq!(repair(&program), Err(RepairError::NoRepairFound));
}

#[test]
fn test_negate_and_reset() {
    let mut table = Instructions {
        acc: 3,
        line: 1,
        instructions: vec![(Instruction::NoOp(4), true), (Instruction::Acc(1), false)],
    };
    assert!(table.negate_instruction_at_line(0));
    assert_eq!(table.instructions[0].0, Instruction::Jump(4));
    assert!(table.instructions[0].1);
    assert!(!table.negate_instruction_at_line(1));
    table.reset_state();
    assert_eq!(table.acc, 0);
    assert_eq!(table.line, 0);
    assert!(!table.instructions[0].1);
}

#[test]
fn test_get_state_and_next() {
    let mut table = Instructions {
        acc: 0,
        line: 0,
        instructions: vec![(Instruction::Jump(5), false)],
    };
    assert!(matches!(table.get_state(), NextState::Valid));
    assert_eq!(table.next(), Err(ExecError::MalformedProgram));
    // the line was marked visited, so a second look reports a loop
    assert!(matches!(table.get_state(), NextState::Loop));
}
