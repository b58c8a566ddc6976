use vstd::prelude::*;

use crate::parser::Instruction;

verus! {

/// The number of cells on the tape.
pub const TAPE_LEN: usize = 1024;

/// Where the data pointer starts: the middle of the tape.
pub const START_PTR: usize = 512;

/// What the caller has to do after one step of a machine.
#[derive(Clone, Copy, Debug, PartialEq, Eq, Structural)]
pub enum Action {
    /// Nothing: step again.
    Continue,
    /// Write this byte to the output and flush it.
    Output(u8),
    /// Read one byte of input and hand it to `store_input`.
    Input,
    /// The program has finished.
    Halt,
}

/// A failure while a program runs.
#[derive(Clone, Copy, Debug, PartialEq, Eq, Structural)]
pub enum RunError {
    /// A pointer move from this position would leave the tape.
    OutOfBounds(usize),
}

/// The state of a run: the program tree, the tape, the data pointer and,
/// for each loop that is being executed, where execution stands in it.
pub struct MachineState {
    pub program: Seq<Instruction>,
    pub tape: Seq<u8>,
    pub ptr: int,
    pub frames: Seq<usize>,
}

/// A program being run against a tape of `TAPE_LEN` cells.
///
/// Each call of `step` carries out one instruction and says what the caller
/// has to do: write a byte, read one, or go on. Pointer moves are checked as
/// they are made: a move off either end of the tape fails at once.
pub struct Machine {
    program: Vec<Instruction>,
    tape: Vec<u8>,
    ptr: usize,
    frames: Vec<usize>,
}

impl View for Machine {
    type V = MachineState;

    closed spec fn view(&self) -> MachineState {
        MachineState {
            program: self.program@,
            tape: self.tape@,
            ptr: self.ptr as int,
            frames: self.frames@,
        }
    }
}

/// The instruction sequence reached from `program` by entering, one after
/// the other, the loops at the positions of `path`.
pub open spec fn seq_at(program: Seq<Instruction>, path: Seq<usize>) -> Seq<Instruction>
    decreases path.len(),
{
    if path.len() == 0 {
        program
    } else {
        let outer = seq_at(program, path.drop_last());
        let k = path.last() as int;
        if 0 <= k < outer.len() {
            match outer[k] {
                Instruction::Loop(b) => b@,
                _ => Seq::empty(),
            }
        } else {
            Seq::empty()
        }
    }
}

/// The cell value after an increment: wraps from 255 to 0.
pub open spec fn wrapping_incr(b: u8) -> u8 {
    ((b + 1) % 256) as u8
}

/// The cell value after a decrement: wraps from 0 to 255.
pub open spec fn wrapping_decr(b: u8) -> u8 {
    ((b + 255) % 256) as u8
}

/// A state that a run can be in: a full tape, the pointer on it, and
/// positions that lead through loops of the program.
pub open spec fn well_formed(m: MachineState) -> bool {
    &&& m.tape.len() == TAPE_LEN
    &&& 0 <= m.ptr < TAPE_LEN
    &&& m.frames.len() >= 1
    &&& forall|j: int|
        0 <= j < m.frames.len() - 1 ==> {
            let s = #[trigger] seq_at(m.program, m.frames.take(j));
            &&& m.frames[j] < s.len()
            &&& s[m.frames[j] as int] is Loop
        }
    &&& m.frames.last() <= seq_at(m.program, m.frames.drop_last()).len()
}

/// The instruction sequence that execution is in.
pub open spec fn current_seq(m: MachineState) -> Seq<Instruction> {
    seq_at(m.program, m.frames.drop_last())
}

/// The position of the next instruction in `current_seq(m)`.
pub open spec fn pc(m: MachineState) -> int {
    m.frames.last() as int
}

/// `m` with execution moved past the current instruction.
pub open spec fn advanced(m: MachineState) -> MachineState {
    MachineState { frames: m.frames.update(m.frames.len() - 1, (pc(m) + 1) as usize), ..m }
}

/// One step of a run: the next state and what the caller has to do.
/// A pointer move off the tape fails and leaves the state as it was. A loop
/// whose cell is nonzero is entered at the start of its body; one whose cell
/// is zero is passed over. At the end of a loop body execution returns to the
/// loop, whose cell is tested again; at the end of the program the run halts.
pub open spec fn next(m: MachineState) -> (MachineState, Result<Action, RunError>) {
    let s = current_seq(m);
    if pc(m) < s.len() {
        match s[pc(m)] {
            Instruction::IncrPtr => if m.ptr + 1 < TAPE_LEN {
                (MachineState { ptr: m.ptr + 1, ..advanced(m) }, Ok(Action::Continue))
            } else {
                (m, Err(RunError::OutOfBounds(m.ptr as usize)))
            },
            Instruction::DecrPtr => if m.ptr > 0 {
                (MachineState { ptr: m.ptr - 1, ..advanced(m) }, Ok(Action::Continue))
            } else {
                (m, Err(RunError::OutOfBounds(m.ptr as usize)))
            },
            Instruction::Incr => (
                MachineState { tape: m.tape.update(m.ptr, wrapping_incr(m.tape[m.ptr])), ..advanced(m) },
                Ok(Action::Continue),
            ),
            Instruction::Decr => (
                MachineState { tape: m.tape.update(m.ptr, wrapping_decr(m.tape[m.ptr])), ..advanced(m) },
                Ok(Action::Continue),
            ),
            Instruction::Write => (advanced(m), Ok(Action::Output(m.tape[m.ptr]))),
            Instruction::Read => (advanced(m), Ok(Action::Input)),
            Instruction::Loop(_) => if m.tape[m.ptr] != 0 {
                (MachineState { frames: m.frames.push(0), ..m }, Ok(Action::Continue))
            } else {
                (advanced(m), Ok(Action::Continue))
            },
        }
    } else if m.frames.len() == 1 {
        (m, Ok(Action::Halt))
    } else {
        (MachineState { frames: m.frames.drop_last(), ..m }, Ok(Action::Continue))
    }
}

/// The kind of an instruction, without the body of a loop.
#[derive(Clone, Copy, Debug, PartialEq, Eq, Structural)]
enum Op {
    IncrPtr,
    DecrPtr,
    Incr,
    Decr,
    Write,
    Read,
    Loop,
}

spec fn op_of(i: Instruction) -> Op {
    match i {
        Instruction::IncrPtr => Op::IncrPtr,
        Instruction::DecrPtr => Op::DecrPtr,
        Instruction::Incr => Op::Incr,
        Instruction::Decr => Op::Decr,
        Instruction::Write => Op::Write,
        Instruction::Read => Op::Read,
        Instruction::Loop(_) => Op::Loop,
    }
}

fn classify(i: &Instruction) -> (r: Op)
    ensures
        r == op_of(*i),
{
    match i {
        Instruction::IncrPtr => Op::IncrPtr,
        Instruction::DecrPtr => Op::DecrPtr,
        Instruction::Incr => Op::Incr,
        Instruction::Decr => Op::Decr,
        Instruction::Write => Op::Write,
        Instruction::Read => Op::Read,
        Instruction::Loop(_) => Op::Loop,
    }
}

impl Machine {
    /// A machine at the start of `program`: every cell zero, the pointer at
    /// `START_PTR`.
    pub fn new(program: Vec<Instruction>) -> (r: Machine)
        ensures
            r@.program == program@,
            r@.tape == Seq::new(TAPE_LEN as nat, |k: int| 0u8),
            r@.ptr == START_PTR,
            r@.frames == seq![0usize],
            well_formed(r@),
    {
        let mut tape: Vec<u8> = Vec::new();
        let mut k: usize = 0;
        while k < TAPE_LEN
            invariant
                k <= TAPE_LEN,
                tape@ == Seq::new(k as nat, |i: int| 0u8),
            decreases TAPE_LEN - k,
        {
            tape.push(0);
            k = k + 1;
            assert(tape@ =~= Seq::new(k as nat, |i: int| 0u8));
        }
        let mut frames: Vec<usize> = Vec::new();
        frames.push(0);
        let r = Machine { program, tape, ptr: START_PTR, frames };
        proof {
            assert(r@.frames.drop_last() =~= Seq::<usize>::empty());
        }
        r
    }

    /// Whether `self` is a state that a run can be in.
    pub open spec fn wf(&self) -> bool {
        well_formed(self@)
    }

    /// The instruction sequence that execution is in.
    fn current(&self) -> (r: &Vec<Instruction>)
        requires
            self.wf(),
        ensures
            r@ == current_seq(self@),
    {
        let n = self.frames.len();
        let mut cur: &Vec<Instruction> = &self.program;
        let mut j: usize = 0;
        proof {
            assert(self.frames@.take(0) =~= Seq::<usize>::empty());
        }
        while j < n - 1
            invariant
                self.wf(),
                n == self.frames.len(),
                j <= n - 1,
                cur@ == seq_at(self@.program, self@.frames.take(j as int)),
            decreases n - 1 - j,
        {
            let ghost s = seq_at(self@.program, self@.frames.take(j as int));
            proof {
                assert(self@.frames.take(j + 1).drop_last() =~= self@.frames.take(j as int));
                assert(self@.frames[j as int] < s.len());
            }
            let k = self.frames[j];
            match &cur[k] {
                Instruction::Loop(b) => {
                    cur = b;
                },
                _ => {
                    proof {
                        assert(s[k as int] is Loop);
                    }
                },
            }
            j = j + 1;
        }
        proof {
            assert(self@.frames.take(n - 1) =~= self@.frames.drop_last());
        }
        cur
    }

    /// Moves execution past the current instruction.
    fn advance(&mut self, len: usize)
        requires
            old(self).wf(),
            len == current_seq(old(self)@).len(),
            pc(old(self)@) < len,
        ensures
            final(self)@ == advanced(old(self)@),
            final(self).wf(),
    {
        let n = self.frames.len();
        let pc = self.frames[n - 1];
        self.frames.set(n - 1, pc + 1);
        proof {
            let m = old(self)@;
            let f = self@.frames;
            assert(f.drop_last() =~= m.frames.drop_last());
            assert forall|j: int| 0 <= j < f.len() - 1 implies #[trigger] seq_at(m.program, f.take(j))
                == seq_at(m.program, m.frames.take(j)) by {
                assert(f.take(j) =~= m.frames.take(j));
            }
            assert(self@ == advanced(m));
        }
    }

    /// Carries out the next instruction of the program, as `next` says.
    pub fn step(&mut self) -> (r: Result<Action, RunError>)
        requires
            old(self).wf(),
        ensures
            final(self).wf(),
            (final(self)@, r) == next(old(self)@),
    {
        let ghost m = self@;
        let n = self.frames.len();
        let pc = self.frames[n - 1];
        let (len, op) = {
            let cur = self.current();
            let len = cur.len();
            if pc < len {
                (len, Some(classify(&cur[pc])))
            } else {
                (len, None)
            }
        };
        proof {
            if pc < len {
                assert(op == Some(op_of(current_seq(m)[pc as int])));
            }
        }
        match op {
            None => {
                if n == 1 {
                    Ok(Action::Halt)
                } else {
                    self.frames.pop();
                    proof {
                        let f = self@.frames;
                        assert(f =~= m.frames.drop_last());
                        assert forall|j: int| 0 <= j < f.len() - 1 implies #[trigger] seq_at(
                            m.program,
                            f.take(j),
                        ) == seq_at(m.program, m.frames.take(j)) by {
                            assert(f.take(j) =~= m.frames.take(j));
                        }
                        assert(f.drop_last() =~= m.frames.take(n - 2));
                        assert(seq_at(m.program, f.drop_last()) == seq_at(
                            m.program,
                            m.frames.take(n - 2),
                        ));
                    }
                    Ok(Action::Continue)
                }
            },
            Some(Op::IncrPtr) => {
                if self.ptr + 1 < TAPE_LEN {
                    self.ptr = self.ptr + 1;
                    self.advance(len);
                    Ok(Action::Continue)
                } else {
                    Err(RunError::OutOfBounds(self.ptr))
                }
            },
            Some(Op::DecrPtr) => {
                if self.ptr > 0 {
                    self.ptr = self.ptr - 1;
                    self.advance(len);
                    Ok(Action::Continue)
                } else {
                    Err(RunError::OutOfBounds(self.ptr))
                }
            },
            Some(Op::Incr) => {
                let v = self.tape[self.ptr];
                let w: u8 = if v == 255 {
                    0
                } else {
                    v + 1
                };
                self.tape.set(self.ptr, w);
                self.advance(len);
                Ok(Action::Continue)
            },
            Some(Op::Decr) => {
                let v = self.tape[self.ptr];
                let w: u8 = if v == 0 {
                    255
                } else {
                    v - 1
                };
                self.tape.set(self.ptr, w);
                self.advance(len);
                Ok(Action::Continue)
            },
            Some(Op::Write) => {
                let v = self.tape[self.ptr];
                self.advance(len);
                Ok(Action::Output(v))
            },
            Some(Op::Read) => {
                self.advance(len);
                Ok(Action::Input)
            },
            Some(Op::Loop) => {
                if self.tape[self.ptr] != 0 {
                    self.frames.push(0);
                    proof {
                        let f = self@.frames;
                        assert(f.drop_last() =~= m.frames);
                        assert forall|j: int| 0 <= j < f.len() - 1 implies {
                            let s = #[trigger] seq_at(m.program, f.take(j));
                            &&& f[j] < s.len()
                            &&& s[f[j] as int] is Loop
                        } by {
                            if j < n - 1 {
                                assert(f.take(j) =~= m.frames.take(j));
                            } else {
                                assert(f.take(j) =~= m.frames.drop_last());
                            }
                        }
                    }
                    Ok(Action::Continue)
                } else {
                    self.advance(len);
                    Ok(Action::Continue)
                }
            },
        }
    }

    /// Stores a byte of input in the cell under the pointer.
    pub fn store_input(&mut self, b: u8)
        requires
            old(self).wf(),
        ensures
            final(self).wf(),
            final(self)@ == (MachineState { tape: old(self)@.tape.update(old(self)@.ptr, b), ..old(self)@ }),
    {
        self.tape.set(self.ptr, b);
    }

    /// The value of the cell under the pointer.
    pub fn cell(&self) -> (r: u8)
        requires
            self.wf(),
        ensures
            r == self@.tape[self@.ptr],
    {
        self.tape[self.ptr]
    }

    /// The position of the data pointer.
    pub fn pointer(&self) -> (r: usize)
        ensures
            r == self@.ptr,
    {
        self.ptr
    }
}

/// The cell value after `n` increments from `b`.
pub open spec fn incr_times(b: u8, n: nat) -> u8
    decreases n,
{
    if n == 0 {
        b
    } else {
        wrapping_incr(incr_times(b, (n - 1) as nat))
    }
}

proof fn lemma_incr_times(b: u8, n: nat)
    ensures
        incr_times(b, n) == (b + n) % 256,
    decreases n,
{
    if n > 0 {
        lemma_incr_times(b, (n - 1) as nat);
        assert(((b + n - 1) % 256 + 1) % 256 == (b + n) % 256) by (nonlinear_arith);
    }
}

/// Cell arithmetic wraps: 256 increments bring any cell value, 0 among them,
/// back to itself, and a decrement takes 0 to 255.
pub proof fn lemma_wraparound(b: u8)
    ensures
        incr_times(b, 256) == b,
        incr_times(0, 256) == 0,
        wrapping_decr(0) == 255,
{
    lemma_incr_times(b, 256);
    lemma_incr_times(0, 256);
}

/// The state after `k` steps from `m` (a failed step leaves the state as it was).
pub open spec fn run_steps(m: MachineState, k: nat) -> MachineState
    decreases k,
{
    if k == 0 {
        m
    } else {
        next(run_steps(m, (k - 1) as nat)).0
    }
}

proof fn lemma_run_increments(m: MachineState, k: nat)
    requires
        well_formed(m),
        m.frames == seq![0usize],
        k <= m.program.len() < usize::MAX,
        forall|i: int| 0 <= i < m.program.len() ==> m.program[i] is Incr,
    ensures
        run_steps(m, k) == (MachineState {
            tape: m.tape.update(m.ptr, incr_times(m.tape[m.ptr], k)),
            frames: seq![k as usize],
            ..m
        }),
    decreases k,
{
    if k == 0 {
        assert(m.tape.update(m.ptr, m.tape[m.ptr]) =~= m.tape);
    } else {
        lemma_run_increments(m, (k - 1) as nat);
        let p = run_steps(m, (k - 1) as nat);
        assert(p.frames.drop_last() =~= Seq::<usize>::empty());
        assert(current_seq(p) == m.program);
        assert(p.frames.update(0, k as usize) =~= seq![k as usize]);
        assert(p.tape.update(m.ptr, wrapping_incr(p.tape[m.ptr])) =~= m.tape.update(
            m.ptr,
            incr_times(m.tape[m.ptr], k),
        ));
    }
}

/// Running a program of 256 increments from the start of a run leaves the
/// cell under the pointer as it was, and every other cell too.
pub proof fn lemma_increments_wrap(m: MachineState)
    requires
        well_formed(m),
        m.frames == seq![0usize],
        m.program.len() == 256,
        forall|i: int| 0 <= i < m.program.len() ==> m.program[i] is Incr,
    ensures
        run_steps(m, 256).tape == m.tape,
        run_steps(m, 256).ptr == m.ptr,
        next(run_steps(m, 256)).1 == Ok::<Action, RunError>(Action::Halt),
{
    lemma_run_increments(m, 256);
    lemma_wraparound(m.tape[m.ptr]);
    assert(m.tape.update(m.ptr, m.tape[m.ptr]) =~= m.tape);
    let p = run_steps(m, 256);
    assert(p.frames.drop_last() =~= Seq::<usize>::empty());
}

} // verus!
