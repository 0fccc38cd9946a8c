use myers_diff::interpreter::{ExecError, State, Step};
use myers_diff::memory::{MemoryError, MEM_SIZE};
use myers_diff::program::{Command, ExecState};

const FUEL: usize = 1_000_000;

#[test]
fn test_basic_numerical() {
    let mut state = State::new("+++++>++++>+++>++>+>").unwrap();
    state.run_program(FUEL).unwrap();
    let mut predicted_memory = vec![0; MEM_SIZE];
    for i in 0..5 {
        predicted_memory[i] = 5 - i;
    }
    assert_eq!(state.memory.buf, predicted_memory)
}

#[test]
fn test_basic_loop() {
    let mut state = State::new("+++++[-]").unwrap();
    state.run_program(FUEL).unwrap();
    let predicted_memory = vec![0; MEM_SIZE];
    assert_eq!(state.memory.buf, predicted_memory);
}

#[test]
fn parsing_skips_other_bytes() {
    let state = State::new("a+ >\n[-]x,.").unwrap();
    assert_eq!(
        state.program.cmds,
        vec![
            Command::Inc,
            Command::Right,
            Command::JumpPast,
            Command::Dec,
            Command::JumpBack,
            Command::Input,
            Command::Output,
        ]
    );
}

#[test]
fn byte_commands() {
    assert_eq!(Command::from_byte(b'>'), Some(Command::Right));
    assert_eq!(Command::from_byte(b']'), Some(Command::JumpBack));
    assert_eq!(Command::from_byte(b'x'), None);
}

#[test]
fn output_stops_the_run_with_the_byte() {
    let mut state = State::new("++++++++[>++++++++<-]>+.").unwrap();
    let step = state.run_program(FUEL).unwrap();
    assert_eq!(step, Step::Emit(65));
    assert_eq!(state.exec_state(), ExecState::Completed);
}

#[test]
fn input_waits_then_stores_the_character() {
    let mut state = State::new(",+").unwrap();
    assert_eq!(state.run_program(FUEL).unwrap(), Step::AwaitInput);
    assert_eq!(state.program.cursor, 0);
    assert_eq!(state.run_input(Some('a')).unwrap(), Step::Ran(ExecState::Running));
    assert_eq!(state.run_program(FUEL).unwrap(), Step::Ran(ExecState::Completed));
    assert_eq!(state.memory.buf[0], 98);
}

#[test]
fn input_refuses_missing_and_non_ascii() {
    let mut state = State::new(",").unwrap();
    assert!(matches!(state.run_input(None), Err(ExecError::InvalidCharacter(None))));
    assert!(matches!(state.run_input(Some('é')), Err(ExecError::InvalidCharacter(Some('é')))));
    assert_eq!(state.program.cursor, 0);
}

#[test]
fn empty_program_fails_to_run() {
    let mut state = State::new("").unwrap();
    assert!(matches!(state.run_program(FUEL), Err(ExecError::ProgramError(_))));
}

#[test]
fn moving_left_of_the_tape_fails() {
    let mut state = State::new("<").unwrap();
    assert!(matches!(
        state.run_program(FUEL),
        Err(ExecError::MemoryError(MemoryError::OutOfBoundsCursorMove(_)))
    ));
}

#[test]
fn cells_wrap() {
    let mut state = State::new("-").unwrap();
    state.run_program(FUEL).unwrap();
    assert_eq!(state.memory.buf[0], usize::MAX);
    let mut state = State::new("-+").unwrap();
    state.run_program(FUEL).unwrap();
    assert_eq!(state.memory.buf[0], 0);
}

#[test]
fn fuel_bounds_an_endless_loop() {
    let mut state = State::new("+[]").unwrap();
    assert_eq!(state.run_program(100).unwrap(), Step::Ran(ExecState::Running));
    let mut idle = State::new("+").unwrap();
    assert_eq!(idle.run_program(0).unwrap(), Step::Ran(ExecState::Running));
    assert_eq!(idle.program.cursor, 0);
}
