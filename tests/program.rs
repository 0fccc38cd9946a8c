use myers_diff::program::{Command, ExecState, Program, ProgramError};

#[test]
fn test_current_cmd() {
    let program = Program::new(vec![Command::Inc]);
    assert_eq!(program.current_cmd(), Ok(Command::Inc));
}

#[test]
fn test_increment_cursor() {
    let mut program = Program::new(vec![Command::Inc, Command::JumpPast]);
    program.increment();
    assert_eq!(program.cursor, 1);
    assert_eq!(program.current_cmd(), Ok(Command::JumpPast));
}

#[test]
fn test_decrement_cursor() {
    let mut program = Program::new(vec![Command::Inc, Command::JumpPast]);
    program.increment();
    assert!(program.decrement().is_ok());
    assert_eq!(program.cursor, 0);
}

#[test]
fn test_decrement_cursor_out_of_bounds() {
    let mut program = Program::new(vec![Command::Inc]);
    assert!(program.decrement().is_err());
}

#[test]
fn test_jump_past() {
    let mut program = Program::new(vec![Command::JumpPast, Command::Inc, Command::JumpBack, Command::Inc]);
    assert!(program.jump_past().is_ok());
    assert_eq!(program.cursor, 3);
    assert_eq!(program.current_cmd(), Ok(Command::Inc));
}

#[test]
fn test_jump_past_invalid_command() {
    let mut program = Program::new(vec![Command::Inc, Command::JumpPast, Command::JumpBack]);
    assert!(program.jump_past().is_err());
}

#[test]
fn test_jump_back() {
    let mut program = Program::new(vec![Command::Inc, Command::JumpPast, Command::Inc, Command::JumpBack]);
    program.cursor = 3;
    assert!(program.jump_back().is_ok());
    assert_eq!(program.cursor, 1);
}

#[test]
fn test_jump_back_invalid_command() {
    let mut program = Program::new(vec![Command::Inc, Command::JumpBack, Command::JumpPast]);
    assert!(program.jump_back().is_err());
}

#[test]
fn jump_past_skips_nested_brackets() {
    let mut program = Program::new(vec![
        Command::JumpPast,
        Command::JumpPast,
        Command::Dec,
        Command::JumpBack,
        Command::JumpBack,
        Command::Right,
    ]);
    assert!(program.jump_past().is_ok());
    assert_eq!(program.cursor, 5);
}

#[test]
fn jump_back_skips_nested_brackets() {
    let mut program = Program::new(vec![
        Command::JumpPast,
        Command::JumpPast,
        Command::Dec,
        Command::JumpBack,
        Command::JumpBack,
    ]);
    program.cursor = 4;
    assert!(program.jump_back().is_ok());
    assert_eq!(program.cursor, 0);
}

#[test]
fn unclosed_bracket_is_out_of_bounds() {
    let mut program = Program::new(vec![Command::JumpPast, Command::Inc]);
    match program.jump_past() {
        Err(ProgramError::OutOfBoundsCursor(p)) => assert_eq!(p.cursor, 2),
        other => panic!("unexpected ok: {}", other.is_ok()),
    }
    assert_eq!(program.cursor, 2);
}

#[test]
fn unopened_bracket_is_out_of_bounds() {
    let mut program = Program::new(vec![Command::Inc, Command::JumpBack]);
    program.cursor = 1;
    assert!(matches!(program.jump_back(), Err(ProgramError::OutOfBoundsCursor(_))));
    assert_eq!(program.cursor, 0);
}

#[test]
fn bad_command_leaves_cursor() {
    let mut program = Program::new(vec![Command::Inc, Command::JumpPast]);
    assert!(matches!(program.jump_past(), Err(ProgramError::BadCommand(_))));
    assert_eq!(program.cursor, 0);
}

#[test]
fn exec_state_follows_cursor() {
    let mut program = Program::new(vec![Command::Inc]);
    assert_eq!(program.exec_state(), ExecState::Running);
    program.increment();
    assert_eq!(program.exec_state(), ExecState::Completed);
    assert!(matches!(program.current_cmd(), Err(ProgramError::OutOfBoundsCursor(_))));
}
