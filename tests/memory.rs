use myers_diff::memory::{Memory, MemoryError, MEM_SIZE};

#[test]
fn test_memory_write_and_read() {
    let mut memory = Memory::new();
    assert_eq!(memory.write(42), Ok(0)); // Previous value should be 0
    assert_eq!(memory.read(), Ok(42));
}

#[test]
fn test_cursor_movement() {
    let mut memory = Memory::new();
    assert!(memory.cursor_right().is_ok());
    assert_eq!(memory.cursor, 1);
    assert!(memory.cursor_left().is_ok());
    assert_eq!(memory.cursor, 0);
}

#[test]
fn test_cursor_out_of_bounds_right() {
    let mut memory = Memory::new();
    memory.cursor = MEM_SIZE - 1;
    assert!(matches!(memory.cursor_right(), Err(MemoryError::OutOfBoundsCursorMove(_))));
}

#[test]
fn test_cursor_out_of_bounds_left() {
    let mut memory = Memory::new();
    assert!(matches!(memory.cursor_left(), Err(MemoryError::OutOfBoundsCursorMove(_))));
}

#[test]
fn test_write_out_of_bounds() {
    let mut memory = Memory::new();
    memory.cursor = MEM_SIZE; // Set cursor out of bounds
    assert!(matches!(memory.write(42), Err(MemoryError::OutOfBoundsWrite(_))));
}

#[test]
fn test_read_out_of_bounds() {
    let mut memory = Memory::new();
    memory.cursor = MEM_SIZE; // Set cursor out of bounds
    assert!(matches!(memory.read(), Err(MemoryError::OutOfBoundsRead(_))));
}

#[test]
fn new_memory_is_zeroed_and_sized() {
    let memory = Memory::new();
    assert_eq!(memory.buf.len(), MEM_SIZE);
    assert!(memory.buf.iter().all(|&v| v == 0));
}

#[test]
fn cursor_error_carries_the_tape() {
    let mut memory = Memory::new();
    memory.write(7).unwrap();
    match memory.cursor_left() {
        Err(MemoryError::OutOfBoundsCursorMove(m)) => {
            assert_eq!(m.cursor, 0);
            assert_eq!(m.buf[0], 7);
        }
        other => panic!("unexpected {:?}", other.is_ok()),
    }
    assert_eq!(memory.cursor, 0);
}
