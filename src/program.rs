use vstd::prelude::*;

verus! {

/// One instruction of the tape language.
#[derive(Clone, Copy, PartialEq, Eq, Debug, Structural)]
pub enum Command {
    Right,
    Left,
    Inc,
    Dec,
    Output,
    Input,
    JumpPast,
    JumpBack,
}

/// A list of commands and the position of the next one to run.
#[derive(Debug, Clone, PartialEq, Eq)]
pub struct Program {
    pub cmds: Vec<Command>,
    pub cursor: usize,
}

/// A failed move of the program cursor; each variant carries the program as it
/// was at the failure.
#[derive(Debug, PartialEq, Eq)]
pub enum ProgramError {
    OutOfBoundsCursor(Program),
    BadCommand(Program),
}

/// Whether a program still has a command to run.
#[derive(PartialEq, Eq, Debug, Structural)]
pub enum ExecState {
    Running,
    Completed,
}

/// How a command changes the bracket depth: `[` opens, `]` closes.
pub open spec fn depth_change(c: Command) -> int {
    match c {
        Command::JumpPast => 1,
        Command::JumpBack => -1,
        _ => 0,
    }
}

/// Open brackets minus closing brackets among `s[lo..hi]`.
pub open spec fn balance(s: Seq<Command>, lo: int, hi: int) -> int
    decreases hi - lo,
{
    if hi <= lo {
        0
    } else {
        balance(s, lo, hi - 1) + depth_change(s[hi - 1])
    }
}

/// `s[j]` is the `]` that closes the `[` at `s[c]`.
pub open spec fn closes_forward(s: Seq<Command>, c: int, j: int) -> bool {
    &&& c < j < s.len()
    &&& balance(s, c, j + 1) == 0
    &&& forall|h: int| c + 1 < h <= j ==> #[trigger] balance(s, c, h) != 0
}

/// `s[j]` is the `[` that the `]` at `s[c]` closes.
pub open spec fn opens_backward(s: Seq<Command>, c: int, j: int) -> bool {
    &&& 0 <= j < c
    &&& balance(s, j, c + 1) == 0
    &&& forall|q: int| j < q < c ==> #[trigger] balance(s, q, c + 1) != 0
}

proof fn lemma_balance_bounds(s: Seq<Command>, lo: int, hi: int)
    requires
        lo <= hi,
    ensures
        lo - hi <= balance(s, lo, hi) <= hi - lo,
    decreases hi - lo,
{
    if lo < hi {
        lemma_balance_bounds(s, lo, hi - 1);
    }
}

proof fn lemma_balance_front(s: Seq<Command>, lo: int, hi: int)
    requires
        0 <= lo < hi <= s.len(),
    ensures
        balance(s, lo, hi) == depth_change(s[lo]) + balance(s, lo + 1, hi),
    decreases hi - lo,
{
    assert(balance(s, lo, lo) == 0);
    assert(balance(s, lo + 1, lo + 1) == 0);
    if lo + 1 < hi {
        lemma_balance_front(s, lo, hi - 1);
        assert(balance(s, lo + 1, hi) == balance(s, lo + 1, hi - 1) + depth_change(s[hi - 1]));
    }
}

impl Program {
    /// Whether `p` holds the same commands and cursor as `self`.
    pub open spec fn same_as(&self, p: Program) -> bool {
        p.cmds@ == self.cmds@ && p.cursor == self.cursor
    }

    /// A program at its first command.
    pub fn new(commands: Vec<Command>) -> (r: Self)
        ensures
            r.cmds@ == commands@,
            r.cursor == 0,
    {
        Self { cmds: commands, cursor: 0 }
    }

    fn snapshot(&self) -> (r: Program)
        ensures
            self.same_as(r),
    {
        let cmds = self.cmds.clone();
        assert(cmds@ =~= self.cmds@);
        Program { cmds, cursor: self.cursor }
    }

    /// The command under the cursor.
    pub fn current_cmd(&self) -> (r: Result<Command, ProgramError>)
        ensures
            self.cmds@.len() <= usize::MAX,
            self.cursor < self.cmds@.len() ==> r == Ok::<Command, ProgramError>(
                self.cmds@[self.cursor as int],
            ),
            self.cursor >= self.cmds@.len() ==> (r matches Err(ProgramError::OutOfBoundsCursor(p))
                && self.same_as(p)),
    {
        if !self.in_bounds() {
            return Err(ProgramError::OutOfBoundsCursor(self.snapshot()));
        }
        Ok(self.cmds[self.cursor])
    }

    /// Moves the cursor to the next command.
    pub fn increment(&mut self)
        requires
            old(self).cursor < usize::MAX,
        ensures
            final(self).cmds@ == old(self).cmds@,
            final(self).cursor == old(self).cursor + 1,
    {
        self.cursor = self.cursor + 1;
    }

    /// Moves the cursor to the previous command, refusing to leave the first one.
    pub fn decrement(&mut self) -> (r: Result<(), ProgramError>)
        ensures
            final(self).cmds@ == old(self).cmds@,
            old(self).cursor > 0 ==> (r is Ok && final(self).cursor == old(self).cursor - 1),
            old(self).cursor == 0 ==> (final(self).cursor == 0 && (r matches Err(
                ProgramError::OutOfBoundsCursor(p),
            ) && old(self).same_as(p))),
    {
        if self.cursor == 0 {
            return Err(ProgramError::OutOfBoundsCursor(self.snapshot()));
        }
        self.cursor = self.cursor - 1;
        Ok(())
    }

    /// From a `[`, moves the cursor just past its matching `]`.
    ///
    /// Fails with `BadCommand` when the cursor is not on a `[`, and with
    /// `OutOfBoundsCursor` when it is off the program or the `[` is never closed;
    /// in the latter case the cursor is left at the end of the program.
    pub fn jump_past(&mut self) -> (r: Result<(), ProgramError>)
        ensures
            final(self).cmds@ == old(self).cmds@,
            ({
                let s = old(self).cmds@;
                let c = old(self).cursor as int;
                &&& c >= s.len() ==> (final(self).cursor == c && (r matches Err(
                    ProgramError::OutOfBoundsCursor(p),
                ) && old(self).same_as(p)))
                &&& c < s.len() && s[c] != Command::JumpPast ==> (final(self).cursor == c && (r matches Err(
                    ProgramError::BadCommand(p),
                ) && old(self).same_as(p)))
                &&& c < s.len() && s[c] == Command::JumpPast && (exists|j: int| closes_forward(s, c, j))
                    ==> (r is Ok && closes_forward(s, c, final(self).cursor - 1))
                &&& c < s.len() && s[c] == Command::JumpPast && !(exists|j: int| closes_forward(s, c, j))
                    ==> (final(self).cursor == s.len() && (r matches Err(
                    ProgramError::OutOfBoundsCursor(p),
                ) && p.cmds@ == s && p.cursor == s.len()))
            }),
    {
        let cmd = match self.current_cmd() {
            Ok(cmd) => cmd,
            Err(e) => return Err(e),
        };
        if cmd != Command::JumpPast {
            return Err(ProgramError::BadCommand(self.snapshot()));
        }
        let ghost s = self.cmds@;
        let ghost c = self.cursor as int;
        let len = self.cmds.len();
        proof {
            assert(balance(s, c, c) == 0);
            assert(balance(s, c, c + 1) == balance(s, c, c) + depth_change(s[c]));
        }
        let mut count: usize = 1;
        while count != 0
            invariant
                self.cmds@ == s,
                old(self).cmds@ == s,
                old(self).cursor == c,
                len == s.len(),
                c < s.len(),
                s[c] == Command::JumpPast,
                c <= self.cursor < s.len(),
                count as int == balance(s, c, self.cursor + 1),
                forall|h: int| c + 1 < h <= self.cursor ==> #[trigger] balance(s, c, h) != 0,
                self.cursor == c ==> count == 1,
            decreases s.len() - self.cursor,
        {
            proof {
                lemma_balance_bounds(s, c, self.cursor + 1);
            }
            self.increment();
            match self.current_cmd() {
                Ok(next) => {
                    if next == Command::JumpPast {
                        count = count + 1;
                    } else if next == Command::JumpBack {
                        count = count - 1;
                    }
                },
                Err(e) => {
                    proof {
                        assert forall|j: int| !closes_forward(s, c, j) by {
                            if closes_forward(s, c, j) {
                                assert(balance(s, c, j + 1) != 0);
                            }
                        }
                    }
                    return Err(e);
                },
            }
        }
        assert(closes_forward(s, c, self.cursor as int));
        self.increment();
        Ok(())
    }

    /// From a `]`, moves the cursor back onto its matching `[`.
    ///
    /// Fails with `BadCommand` when the cursor is not on a `]`, and with
    /// `OutOfBoundsCursor` when it is off the program or no `[` opens it; in the
    /// latter case the cursor is left at the first command.
    pub fn jump_back(&mut self) -> (r: Result<(), ProgramError>)
        ensures
            final(self).cmds@ == old(self).cmds@,
            ({
                let s = old(self).cmds@;
                let c = old(self).cursor as int;
                &&& c >= s.len() ==> (final(self).cursor == c && (r matches Err(
                    ProgramError::OutOfBoundsCursor(p),
                ) && old(self).same_as(p)))
                &&& c < s.len() && s[c] != Command::JumpBack ==> (final(self).cursor == c && (r matches Err(
                    ProgramError::BadCommand(p),
                ) && old(self).same_as(p)))
                &&& c < s.len() && s[c] == Command::JumpBack && (exists|j: int| opens_backward(s, c, j))
                    ==> (r is Ok && opens_backward(s, c, final(self).cursor as int))
                &&& c < s.len() && s[c] == Command::JumpBack && !(exists|j: int| opens_backward(s, c, j))
                    ==> (final(self).cursor == 0 && (r matches Err(
                    ProgramError::OutOfBoundsCursor(p),
                ) && p.cmds@ == s && p.cursor == 0))
            }),
    {
        let cmd = match self.current_cmd() {
            Ok(cmd) => cmd,
            Err(e) => return Err(e),
        };
        if cmd != Command::JumpBack {
            return Err(ProgramError::BadCommand(self.snapshot()));
        }
        let ghost s = self.cmds@;
        let ghost c = self.cursor as int;
        let len = self.cmds.len();
        proof {
            assert(balance(s, c, c) == 0);
            assert(balance(s, c, c + 1) == balance(s, c, c) + depth_change(s[c]));
        }
        let mut count: usize = 1;
        while count != 0
            invariant
                self.cmds@ == s,
                old(self).cmds@ == s,
                old(self).cursor == c,
                len == s.len(),
                c < s.len(),
                s[c] == Command::JumpBack,
                0 <= self.cursor <= c,
                count as int == -balance(s, self.cursor as int, c + 1),
                forall|q: int| self.cursor < q < c ==> #[trigger] balance(s, q, c + 1) != 0,
                self.cursor == c ==> count == 1,
            decreases self.cursor,
        {
            match self.decrement() {
                Ok(()) => {},
                Err(e) => {
                    proof {
                        assert forall|j: int| !opens_backward(s, c, j) by {
                            if opens_backward(s, c, j) {
                                assert(balance(s, j, c + 1) != 0);
                            }
                        }
                    }
                    return Err(e);
                },
            }
            proof {
                lemma_balance_front(s, self.cursor as int, c + 1);
                lemma_balance_bounds(s, self.cursor as int + 1, c + 1);
            }
            let prev = self.cmds[self.cursor];
            if prev == Command::JumpPast {
                count = count - 1;
            } else if prev == Command::JumpBack {
                count = count + 1;
            }
        }
        Ok(())
    }

    /// `Completed` once the cursor has left the program, `Running` before.
    pub fn exec_state(&self) -> (r: ExecState)
        ensures
            r == (if self.cursor >= self.cmds@.len() {
                ExecState::Completed
            } else {
                ExecState::Running
            }),
    {
        if self.cursor >= self.cmds.len() {
            ExecState::Completed
        } else {
            ExecState::Running
        }
    }

    fn in_bounds(&self) -> (r: bool)
        ensures
            r == (self.cursor < self.cmds@.len()),
            self.cmds@.len() <= usize::MAX,
    {
        self.cursor < self.cmds.len()
    }
}

} // verus!
