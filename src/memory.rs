use vstd::prelude::*;

verus! {

/// Number of cells on the interpreter's tape.
pub const MEM_SIZE: usize = 30000;

/// The interpreter's tape: a fixed number of cells and a cursor.
#[derive(Debug, Clone, PartialEq, Eq)]
pub struct Memory {
    pub buf: Vec<usize>,
    pub cursor: usize,
}

/// A failed tape access; each variant carries the tape as it was at the failure.
#[derive(Debug, PartialEq, Eq)]
pub enum MemoryError {
    OutOfBoundsWrite(Memory),
    OutOfBoundsRead(Memory),
    OutOfBoundsCursorMove(Memory),
}

impl Memory {
    /// The tape always has exactly `MEM_SIZE` cells; the cursor may stray past them.
    pub open spec fn wf(&self) -> bool {
        self.buf@.len() == MEM_SIZE
    }

    /// Whether the cursor designates a cell.
    pub open spec fn cursor_in_bounds(&self) -> bool {
        self.cursor < self.buf@.len()
    }

    /// Whether `m` holds the same cells and cursor as `self`.
    pub open spec fn same_as(&self, m: Memory) -> bool {
        m.buf@ == self.buf@ && m.cursor == self.cursor
    }

    /// A tape of zeroed cells with the cursor on the first one.
    pub fn new() -> (r: Self)
        ensures
            r.wf(),
            r.cursor == 0,
            forall|i: int| 0 <= i < MEM_SIZE ==> #[trigger] r.buf@[i] == 0,
    {
        Self { buf: vec![0; MEM_SIZE], cursor: 0 }
    }

    fn snapshot(&self) -> (r: Memory)
        ensures
            self.same_as(r),
    {
        let buf = self.buf.clone();
        assert(buf@ =~= self.buf@);
        Memory { buf, cursor: self.cursor }
    }

    /// Stores `byte` under the cursor and returns the value it replaced.
    pub fn write(&mut self, byte: usize) -> (r: Result<usize, MemoryError>)
        ensures
            final(self).cursor == old(self).cursor,
            old(self).cursor_in_bounds() ==> {
                &&& r == Ok::<usize, MemoryError>(old(self).buf@[old(self).cursor as int])
                &&& final(self).buf@ == old(self).buf@.update(old(self).cursor as int, byte)
            },
            !old(self).cursor_in_bounds() ==> {
                &&& final(self).buf@ == old(self).buf@
                &&& (r matches Err(MemoryError::OutOfBoundsWrite(m)) && old(self).same_as(m))
            },
    {
        if !self.in_bounds() {
            return Err(MemoryError::OutOfBoundsWrite(self.snapshot()));
        }
        let old_byte = self.buf[self.cursor];
        self.buf.set(self.cursor, byte);
        Ok(old_byte)
    }

    /// The value under the cursor.
    pub fn read(&self) -> (r: Result<usize, MemoryError>)
        ensures
            self.cursor_in_bounds() ==> r == Ok::<usize, MemoryError>(
                self.buf@[self.cursor as int],
            ),
            !self.cursor_in_bounds() ==> (r matches Err(MemoryError::OutOfBoundsRead(m))
                && self.same_as(m)),
    {
        if !self.in_bounds() {
            return Err(MemoryError::OutOfBoundsRead(self.snapshot()));
        }
        Ok(self.buf[self.cursor])
    }

    /// Moves the cursor one cell to the right, refusing to leave the last cell.
    pub fn cursor_right(&mut self) -> (r: Result<(), MemoryError>)
        requires
            old(self).wf(),
        ensures
            final(self).wf(),
            final(self).buf@ == old(self).buf@,
            old(self).cursor + 1 < MEM_SIZE ==> (r is Ok && final(self).cursor == old(self).cursor
                + 1),
            old(self).cursor + 1 >= MEM_SIZE ==> final(self).cursor == old(self).cursor && (r matches Err(
                MemoryError::OutOfBoundsCursorMove(m),
            ) && old(self).same_as(m)),
    {
        if self.cursor >= self.buf.len() - 1 {
            return Err(MemoryError::OutOfBoundsCursorMove(self.snapshot()));
        }
        self.cursor = self.cursor + 1;
        Ok(())
    }

    /// Moves the cursor one cell to the left, refusing to leave the first cell.
    pub fn cursor_left(&mut self) -> (r: Result<(), MemoryError>)
        ensures
            final(self).buf@ == old(self).buf@,
            old(self).cursor > 0 ==> (r is Ok && final(self).cursor == old(self).cursor - 1),
            old(self).cursor == 0 ==> final(self).cursor == 0 && (r matches Err(
                MemoryError::OutOfBoundsCursorMove(m),
            ) && old(self).same_as(m)),
    {
        if self.cursor == 0 {
            return Err(MemoryError::OutOfBoundsCursorMove(self.snapshot()));
        }
        self.cursor = self.cursor - 1;
        Ok(())
    }

    fn in_bounds(&self) -> (r: bool)
        ensures
            r == self.cursor_in_bounds(),
    {
        self.cursor < self.buf.len()
    }
}

} // verus!
