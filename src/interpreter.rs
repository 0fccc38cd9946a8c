use crate::memory::{Memory, MemoryError, MEM_SIZE};
use crate::program::{closes_forward, opens_backward, Command, ExecState, Program, ProgramError};
use vstd::prelude::*;
use vstd::string::StringSliceAdditionalSpecFns;

verus! {

/// Why running a command failed.
#[derive(Debug)]
pub enum ExecError {
    InvalidCharacter(Option<char>),
    MemoryError(MemoryError),
    ProgramError(ProgramError),
}

/// What a command asks of the world outside the interpreter.
#[derive(Debug, PartialEq, Eq, Structural)]
pub enum Step {
    /// The command ran; the program is in the given state.
    Ran(ExecState),
    /// The command ran and printed the given byte.
    Emit(u8),
    /// The command reads a line of input: nothing ran yet, hand the line's first
    /// character to `State::run_input`.
    AwaitInput,
}

/// The command that a source byte stands for, if any.
pub open spec fn command_of(b: u8) -> Option<Command> {
    if b == 62 {
        Some(Command::Right)
    } else if b == 60 {
        Some(Command::Left)
    } else if b == 43 {
        Some(Command::Inc)
    } else if b == 45 {
        Some(Command::Dec)
    } else if b == 46 {
        Some(Command::Output)
    } else if b == 44 {
        Some(Command::Input)
    } else if b == 91 {
        Some(Command::JumpPast)
    } else if b == 93 {
        Some(Command::JumpBack)
    } else {
        None
    }
}

/// The commands of a source text, every other byte skipped.
pub open spec fn parse(bytes: Seq<u8>) -> Seq<Command>
    decreases bytes.len(),
{
    if bytes.len() == 0 {
        Seq::empty()
    } else {
        let rest = parse(bytes.drop_last());
        match command_of(bytes.last()) {
            Some(c) => rest.push(c),
            None => rest,
        }
    }
}

/// A cell value plus one, wrapping to zero.
pub open spec fn cell_inc(v: usize) -> usize {
    if v == usize::MAX {
        0
    } else {
        (v + 1) as usize
    }
}

/// A cell value minus one, wrapping to the largest value.
pub open spec fn cell_dec(v: usize) -> usize {
    if v == 0 {
        usize::MAX
    } else {
        (v - 1) as usize
    }
}

impl Command {
    /// The command that the byte `value` stands for, if any.
    pub fn from_byte(value: u8) -> (r: Option<Command>)
        ensures
            r == command_of(value),
    {
        match value {
            62 => Some(Command::Right),
            60 => Some(Command::Left),
            43 => Some(Command::Inc),
            45 => Some(Command::Dec),
            46 => Some(Command::Output),
            44 => Some(Command::Input),
            91 => Some(Command::JumpPast),
            93 => Some(Command::JumpBack),
            _ => None,
        }
    }
}

/// An interpreter: a program and the tape it works on.
#[derive(Debug)]
pub struct State {
    pub program: Program,
    pub memory: Memory,
}

impl State {
    /// The tape has its fixed size.
    pub open spec fn wf(&self) -> bool {
        self.memory.wf()
    }

    /// The cell under the tape cursor.
    pub open spec fn cell(&self) -> usize {
        self.memory.buf@[self.memory.cursor as int]
    }

    /// The command under the program cursor.
    pub open spec fn cmd(&self) -> Command {
        self.program.cmds@[self.program.cursor as int]
    }

    /// The state after the command under the cursor ran without a jump.
    pub open spec fn advanced(&self, next: State) -> bool {
        &&& next.program.cmds@ == self.program.cmds@
        &&& next.program.cursor == self.program.cursor + 1
    }

    /// The state of the program, as `Program::exec_state` gives it.
    pub open spec fn exec_state_spec(&self) -> ExecState {
        if self.program.cursor >= self.program.cmds@.len() {
            ExecState::Completed
        } else {
            ExecState::Running
        }
    }

    /// `o` holds the same program, tape and cursors as `self`.
    pub open spec fn same_state(&self, o: State) -> bool {
        &&& o.program.cmds@ == self.program.cmds@
        &&& o.program.cursor == self.program.cursor
        &&& o.memory.buf@ == self.memory.buf@
        &&& o.memory.cursor == self.memory.cursor
    }

    /// The tape could not be read: nothing changed and the error carries the tape.
    pub open spec fn read_failed(&self, r: Result<Step, ExecError>, next: State) -> bool {
        &&& self.same_state(next)
        &&& (r matches Err(ExecError::MemoryError(MemoryError::OutOfBoundsRead(m)))
            && self.memory.same_as(m))
    }

    /// The command ran, moved the program on by one, and left the tape as `buf`
    /// with its cursor at `mc`.
    pub open spec fn ran_plain(
        &self,
        r: Result<Step, ExecError>,
        next: State,
        buf: Seq<usize>,
        mc: usize,
    ) -> bool {
        &&& self.advanced(next)
        &&& next.memory.buf@ == buf
        &&& next.memory.cursor == mc
        &&& r == Ok::<Step, ExecError>(Step::Ran(next.exec_state_spec()))
    }

    /// Running the command under the program cursor of `self` gave `r` and left
    /// the interpreter as `next`.
    pub open spec fn ran(&self, r: Result<Step, ExecError>, next: State) -> bool {
        let s = self.program.cmds@;
        let pc = self.program.cursor;
        let mc = self.memory.cursor;
        let buf = self.memory.buf@;
        if pc >= s.len() {
            &&& self.same_state(next)
            &&& (r matches Err(ExecError::ProgramError(ProgramError::OutOfBoundsCursor(p)))
                && self.program.same_as(p))
        } else {
            match self.cmd() {
                Command::Right => if mc + 1 < MEM_SIZE {
                    self.ran_plain(r, next, buf, (mc + 1) as usize)
                } else {
                    &&& self.same_state(next)
                    &&& (r matches Err(
                        ExecError::MemoryError(MemoryError::OutOfBoundsCursorMove(m)),
                    ) && self.memory.same_as(m))
                },
                Command::Left => if mc > 0 {
                    self.ran_plain(r, next, buf, (mc - 1) as usize)
                } else {
                    &&& self.same_state(next)
                    &&& (r matches Err(
                        ExecError::MemoryError(MemoryError::OutOfBoundsCursorMove(m)),
                    ) && self.memory.same_as(m))
                },
                Command::Inc => if self.memory.cursor_in_bounds() {
                    self.ran_plain(r, next, buf.update(mc as int, cell_inc(self.cell())), mc)
                } else {
                    self.read_failed(r, next)
                },
                Command::Dec => if self.memory.cursor_in_bounds() {
                    self.ran_plain(r, next, buf.update(mc as int, cell_dec(self.cell())), mc)
                } else {
                    self.read_failed(r, next)
                },
                Command::Output => if self.memory.cursor_in_bounds() {
                    &&& self.advanced(next)
                    &&& next.memory.buf@ == buf
                    &&& next.memory.cursor == mc
                    &&& r == Ok::<Step, ExecError>(Step::Emit((self.cell() % 256) as u8))
                } else {
                    self.read_failed(r, next)
                },
                Command::Input => self.same_state(next) && r == Ok::<Step, ExecError>(
                    Step::AwaitInput,
                ),
                Command::JumpPast => if !self.memory.cursor_in_bounds() {
                    self.read_failed(r, next)
                } else if self.cell() != 0 {
                    self.ran_plain(r, next, buf, mc)
                } else {
                    &&& next.program.cmds@ == s
                    &&& next.memory.buf@ == buf
                    &&& next.memory.cursor == mc
                    &&& (exists|j: int| closes_forward(s, pc as int, j)) ==> {
                        &&& closes_forward(s, pc as int, next.program.cursor - 1)
                        &&& r == Ok::<Step, ExecError>(Step::Ran(next.exec_state_spec()))
                    }
                    &&& !(exists|j: int| closes_forward(s, pc as int, j)) ==> {
                        &&& next.program.cursor == s.len()
                        &&& (r matches Err(
                            ExecError::ProgramError(ProgramError::OutOfBoundsCursor(p)),
                        ) && p.cmds@ == s && p.cursor == s.len())
                    }
                },
                Command::JumpBack => if !self.memory.cursor_in_bounds() {
                    self.read_failed(r, next)
                } else if self.cell() == 0 {
                    self.ran_plain(r, next, buf, mc)
                } else {
                    &&& next.program.cmds@ == s
                    &&& next.memory.buf@ == buf
                    &&& next.memory.cursor == mc
                    &&& (exists|j: int| opens_backward(s, pc as int, j)) ==> {
                        &&& opens_backward(s, pc as int, next.program.cursor as int)
                        &&& r == Ok::<Step, ExecError>(Step::Ran(next.exec_state_spec()))
                    }
                    &&& !(exists|j: int| opens_backward(s, pc as int, j)) ==> {
                        &&& next.program.cursor == 0
                        &&& (r matches Err(
                            ExecError::ProgramError(ProgramError::OutOfBoundsCursor(p)),
                        ) && p.cmds@ == s && p.cursor == 0)
                    }
                },
            }
        }
    }

    /// A fresh tape and the commands of `input`.
    pub fn new(input: &str) -> (r: Result<Self, String>)
        ensures
            r matches Ok(st) && st.wf() && st.program.cmds@ == parse(input.spec_bytes())
                && st.program.cursor == 0 && st.memory.cursor == 0 && (forall|i: int|
                0 <= i < MEM_SIZE ==> #[trigger] st.memory.buf@[i] == 0),
    {
        let bytes = input.as_bytes();
        let mut commands: Vec<Command> = Vec::new();
        let mut i: usize = 0;
        while i < bytes.len()
            invariant
                bytes@ == input.spec_bytes(),
                i <= bytes@.len(),
                commands@ == parse(bytes@.subrange(0, i as int)),
            decreases bytes.len() - i,
        {
            proof {
                assert(bytes@.subrange(0, i + 1).drop_last() =~= bytes@.subrange(0, i as int));
            }
            match Command::from_byte(bytes[i]) {
                Some(c) => commands.push(c),
                None => {},
            }
            i = i + 1;
        }
        proof {
            assert(bytes@.subrange(0, i as int) =~= bytes@);
        }
        Ok(Self { memory: Memory::new(), program: Program::new(commands) })
    }

    /// Stores `value` under the tape cursor and returns the value it replaced.
    pub fn write(&mut self, value: usize) -> (r: Result<usize, ExecError>)
        ensures
            final(self).program == old(self).program,
            final(self).memory.cursor == old(self).memory.cursor,
            old(self).memory.cursor_in_bounds() ==> {
                &&& r == Ok::<usize, ExecError>(old(self).cell())
                &&& final(self).memory.buf@ == old(self).memory.buf@.update(
                    old(self).memory.cursor as int,
                    value,
                )
            },
            !old(self).memory.cursor_in_bounds() ==> {
                &&& final(self).memory.buf@ == old(self).memory.buf@
                &&& (r matches Err(ExecError::MemoryError(MemoryError::OutOfBoundsWrite(m)))
                    && old(self).memory.same_as(m))
            },
    {
        match self.memory.write(value) {
            Ok(v) => Ok(v),
            Err(e) => Err(ExecError::MemoryError(e)),
        }
    }

    /// The value under the tape cursor.
    pub fn read(&self) -> (r: Result<usize, ExecError>)
        ensures
            self.memory.cursor_in_bounds() ==> r == Ok::<usize, ExecError>(self.cell()),
            !self.memory.cursor_in_bounds() ==> (r matches Err(
                ExecError::MemoryError(MemoryError::OutOfBoundsRead(m)),
            ) && self.memory.same_as(m)),
    {
        match self.memory.read() {
            Ok(v) => Ok(v),
            Err(e) => Err(ExecError::MemoryError(e)),
        }
    }

    /// Whether the program has run to its end.
    pub fn exec_state(&self) -> (r: ExecState)
        ensures
            r == self.exec_state_spec(),
    {
        self.program.exec_state()
    }

    /// The command under the program cursor.
    pub fn get_cmd(&self) -> (r: Result<Command, ExecError>)
        ensures
            self.program.cmds@.len() <= usize::MAX,
            self.program.cursor < self.program.cmds@.len() ==> r == Ok::<Command, ExecError>(
                self.cmd(),
            ),
            self.program.cursor >= self.program.cmds@.len() ==> (r matches Err(
                ExecError::ProgramError(ProgramError::OutOfBoundsCursor(p)),
            ) && self.program.same_as(p)),
    {
        match self.program.current_cmd() {
            Ok(c) => Ok(c),
            Err(e) => Err(ExecError::ProgramError(e)),
        }
    }
}

impl State {
    fn run_right(&mut self) -> (r: Result<Step, ExecError>)
        requires
            old(self).wf(),
            old(self).program.cursor < old(self).program.cmds@.len() <= usize::MAX,
            old(self).cmd() == Command::Right,
        ensures
            final(self).wf(),
            old(self).ran(r, *final(self)),
    {
        match self.memory.cursor_right() {
            Ok(()) => {},
            Err(e) => return Err(ExecError::MemoryError(e)),
        }
        self.program.increment();
        Ok(Step::Ran(self.exec_state()))
    }

    fn run_left(&mut self) -> (r: Result<Step, ExecError>)
        requires
            old(self).wf(),
            old(self).program.cursor < old(self).program.cmds@.len() <= usize::MAX,
            old(self).cmd() == Command::Left,
        ensures
            final(self).wf(),
            old(self).ran(r, *final(self)),
    {
        match self.memory.cursor_left() {
            Ok(()) => {},
            Err(e) => return Err(ExecError::MemoryError(e)),
        }
        self.program.increment();
        Ok(Step::Ran(self.exec_state()))
    }

    fn run_inc(&mut self) -> (r: Result<Step, ExecError>)
        requires
            old(self).wf(),
            old(self).program.cursor < old(self).program.cmds@.len() <= usize::MAX,
            old(self).cmd() == Command::Inc,
        ensures
            final(self).wf(),
            old(self).ran(r, *final(self)),
    {
        let v = match self.read() {
            Ok(v) => v,
            Err(e) => return Err(e),
        };
        let next = if v == usize::MAX { 0 } else { v + 1 };
        let _ = self.write(next);
        self.program.increment();
        Ok(Step::Ran(self.exec_state()))
    }

    fn run_dec(&mut self) -> (r: Result<Step, ExecError>)
        requires
            old(self).wf(),
            old(self).program.cursor < old(self).program.cmds@.len() <= usize::MAX,
            old(self).cmd() == Command::Dec,
        ensures
            final(self).wf(),
            old(self).ran(r, *final(self)),
    {
        let v = match self.read() {
            Ok(v) => v,
            Err(e) => return Err(e),
        };
        let next = if v == 0 { usize::MAX } else { v - 1 };
        let _ = self.write(next);
        self.program.increment();
        Ok(Step::Ran(self.exec_state()))
    }

    fn run_output(&mut self) -> (r: Result<Step, ExecError>)
        requires
            old(self).wf(),
            old(self).program.cursor < old(self).program.cmds@.len() <= usize::MAX,
            old(self).cmd() == Command::Output,
        ensures
            final(self).wf(),
            old(self).ran(r, *final(self)),
    {
        let v = match self.read() {
            Ok(v) => v,
            Err(e) => return Err(e),
        };
        let byte = (v % 256) as u8;
        self.program.increment();
        Ok(Step::Emit(byte))
    }

    /// Finishes an input command with the first character of the line that was
    /// read (`None` for an empty line): an ASCII character is stored under the
    /// tape cursor and the program moves on; anything else is refused.
    pub fn run_input(&mut self, c: Option<char>) -> (r: Result<Step, ExecError>)
        requires
            old(self).wf(),
            old(self).program.cursor < usize::MAX,
        ensures
            final(self).wf(),
            c is None ==> old(self).same_state(*final(self)) && r matches Err(
                ExecError::InvalidCharacter(None),
            ),
            (c is Some && c->0 as u32 >= 128) ==> old(self).same_state(*final(self))
                && r == Err::<Step, ExecError>(ExecError::InvalidCharacter(c)),
            (c is Some && (c->0 as u32) < 128) ==> {
                &&& old(self).advanced(*final(self))
                &&& final(self).memory.cursor == old(self).memory.cursor
                &&& final(self).memory.buf@ == if old(self).memory.cursor_in_bounds() {
                    old(self).memory.buf@.update(
                        old(self).memory.cursor as int,
                        (c->0 as u32) as usize,
                    )
                } else {
                    old(self).memory.buf@
                }
                &&& r == Ok::<Step, ExecError>(Step::Ran(final(self).exec_state_spec()))
            },
    {
        let ch = match c {
            Some(ch) => ch,
            None => return Err(ExecError::InvalidCharacter(None)),
        };
        if ch as u32 >= 128 {
            return Err(ExecError::InvalidCharacter(Some(ch)));
        }
        let _ = self.write((ch as u32) as usize);
        self.program.increment();
        Ok(Step::Ran(self.exec_state()))
    }

    fn run_jump_past(&mut self) -> (r: Result<Step, ExecError>)
        requires
            old(self).wf(),
            old(self).program.cursor < old(self).program.cmds@.len() <= usize::MAX,
            old(self).cmd() == Command::JumpPast,
        ensures
            final(self).wf(),
            old(self).ran(r, *final(self)),
    {
        let cell = match self.read() {
            Ok(v) => v,
            Err(e) => return Err(e),
        };
        if cell == 0 {
            match self.program.jump_past() {
                Ok(()) => {},
                Err(e) => return Err(ExecError::ProgramError(e)),
            }
        } else {
            self.program.increment();
        }
        Ok(Step::Ran(self.exec_state()))
    }

    fn run_jump_back(&mut self) -> (r: Result<Step, ExecError>)
        requires
            old(self).wf(),
            old(self).program.cursor < old(self).program.cmds@.len() <= usize::MAX,
            old(self).cmd() == Command::JumpBack,
        ensures
            final(self).wf(),
            old(self).ran(r, *final(self)),
    {
        let cell = match self.read() {
            Ok(v) => v,
            Err(e) => return Err(e),
        };
        if cell != 0 {
            match self.program.jump_back() {
                Ok(()) => {},
                Err(e) => return Err(ExecError::ProgramError(e)),
            }
        } else {
            self.program.increment();
        }
        Ok(Step::Ran(self.exec_state()))
    }

    /// Runs the command under the program cursor. An input command is not run:
    /// it is reported as `Step::AwaitInput`, for `run_input` to finish.
    pub fn run_cmd(&mut self) -> (r: Result<Step, ExecError>)
        requires
            old(self).wf(),
        ensures
            final(self).wf(),
            old(self).ran(r, *final(self)),
    {
        let cmd = match self.get_cmd() {
            Ok(c) => c,
            Err(e) => return Err(e),
        };
        match cmd {
            Command::Right => self.run_right(),
            Command::Left => self.run_left(),
            Command::Inc => self.run_inc(),
            Command::Dec => self.run_dec(),
            Command::Output => self.run_output(),
            Command::Input => Ok(Step::AwaitInput),
            Command::JumpPast => self.run_jump_past(),
            Command::JumpBack => self.run_jump_back(),
        }
    }
}

/// Consecutive states of `states` are each reached by running one command
/// that left the program running.
pub open spec fn running_chain(states: Seq<State>) -> bool {
    forall|t: int|
        0 <= t < states.len() - 1 ==> #[trigger] states[t].ran(
            Ok(Step::Ran(ExecState::Running)),
            states[t + 1],
        )
}

/// A run of at most `fuel` commands that went through `states`, returned `r`
/// and left the interpreter as `next`: either `fuel` commands all left the
/// program running, or one more command stopped the run.
pub open spec fn run_outcome(
    states: Seq<State>,
    fuel: int,
    r: Result<Step, ExecError>,
    next: State,
) -> bool {
    &&& 1 <= states.len() <= fuel + 1
    &&& running_chain(states)
    &&& if states.len() == fuel + 1 {
        &&& next == states.last()
        &&& r == Ok::<Step, ExecError>(Step::Ran(next.exec_state_spec()))
    } else {
        &&& states.last().ran(r, next)
        &&& r != Ok::<Step, ExecError>(Step::Ran(ExecState::Running))
    }
}

impl State {
    /// Runs commands one after another, each as `run_cmd` does, and stops at the
    /// first one that fails, completes the program, prints, or waits for input,
    /// returning what that command returned; after `fuel` commands that leave
    /// the program running it stops with `Step::Ran(ExecState::Running)`.
    pub fn run_program(&mut self, fuel: usize) -> (r: Result<Step, ExecError>)
        requires
            old(self).wf(),
        ensures
            final(self).wf(),
            exists|states: Seq<State>|
                states[0] == *old(self) && #[trigger] run_outcome(
                    states,
                    fuel as int,
                    r,
                    *final(self),
                ),
    {
        let mut left = fuel;
        let ghost mut states: Seq<State> = seq![*self];
        while left > 0
            invariant
                self.wf(),
                left <= fuel,
                states.len() == fuel - left + 1,
                states[0] == *old(self),
                states.last() == *self,
                running_chain(states),
            decreases left,
        {
            let ghost before = *self;
            let step = self.run_cmd();
            match step {
                Ok(Step::Ran(ExecState::Running)) => {},
                other => {
                    assert(run_outcome(states, fuel as int, other, *self));
                    return other;
                },
            }
            proof {
                let prev = states;
                states = states.push(*self);
                assert forall|t: int| 0 <= t < states.len() - 1 implies #[trigger] states[t].ran(
                    Ok(Step::Ran(ExecState::Running)),
                    states[t + 1],
                ) by {
                    if t < prev.len() - 1 {
                        assert(states[t] == prev[t]);
                        assert(states[t + 1] == prev[t + 1]);
                        assert(prev[t].ran(Ok(Step::Ran(ExecState::Running)), prev[t + 1]));
                    } else {
                        assert(states[t] == before);
                    }
                }
            }
            left = left - 1;
        }
        let r = Ok(Step::Ran(self.exec_state()));
        assert(run_outcome(states, fuel as int, r, *self));
        r
    }
}

} // verus!
