//! The tape machine: a fixed tape of byte cells, a data pointer, and the
//! dispatch of one instruction at a time.
use vstd::prelude::*;

use crate::op::{Jump, Op};

verus! {

/// The number of cells on the tape.
pub const RAM_SIZE: usize = 30000;

/// How many cells on each side of the data pointer an inspection shows by default.
pub const DEFAULT_DEBUG_RANGE: usize = 5;

/// The machine state: the data pointer and the tape.
pub struct Machine {
    pub pc: int,
    pub tape: Seq<u8>,
}

pub open spec fn machine_ok(m: Machine) -> bool {
    &&& m.tape.len() == RAM_SIZE
    &&& 0 <= m.pc < RAM_SIZE
}

/// A machine just created or reset: all cells zero, pointer at the first cell.
pub open spec fn fresh_machine() -> Machine {
    Machine { pc: 0, tape: Seq::new(RAM_SIZE as nat, |i: int| 0u8) }
}

pub open spec fn with_cell(m: Machine, v: u8) -> Machine {
    Machine { pc: m.pc, tape: m.tape.update(m.pc, v) }
}

/// What the driver of the machine has to do after a step.
#[derive(Debug, Clone, Copy, PartialEq, Eq, Structural)]
pub enum Effect {
    /// Nothing.
    Continue,
    /// Emit this byte.
    Output(u8),
    /// Read one byte and store it with `Cpu::store_input`.
    Input,
    /// Show the tape around the data pointer (`Cpu::debug`).
    Inspect,
}

/// The outcome of one instruction: where to go on, and what to do.
#[derive(Debug, Clone, Copy, PartialEq, Eq, Structural)]
pub struct Step {
    pub next: usize,
    pub effect: Effect,
}

#[derive(Debug, Clone, Copy, PartialEq, Eq, Structural)]
pub enum ExecError {
    /// The data pointer would move past the last cell.
    PastLastCell,
    /// The data pointer would move before the first cell.
    BeforeFirstCell,
    /// A byte was to be read and no input was left.
    InputExhausted,
    /// The step budget ran out before the program ended.
    StepLimit,
}

/// The effect of executing `op`, found at index `ip`, on `m`: the new machine,
/// the next index and what is left to the driver; or the error.
pub open spec fn step_spec(m: Machine, op: Op, ip: int) -> Result<(Machine, int, Effect), ExecError> {
    let cell = m.tape[m.pc];
    match op {
        Op::Increment(n) => Ok((with_cell(m, ((cell + n) % 256) as u8), ip + 1, Effect::Continue)),
        Op::Decrement(n) => Ok((with_cell(m, ((cell - n) % 256) as u8), ip + 1, Effect::Continue)),
        Op::MoveR(n) => if m.pc + n >= RAM_SIZE {
            Err(ExecError::PastLastCell)
        } else {
            Ok((Machine { pc: m.pc + n, tape: m.tape }, ip + 1, Effect::Continue))
        },
        Op::MoveL(n) => if n > m.pc {
            Err(ExecError::BeforeFirstCell)
        } else {
            Ok((Machine { pc: m.pc - n, tape: m.tape }, ip + 1, Effect::Continue))
        },
        Op::Jump(Jump::JumpR(t)) => Ok((m, if cell == 0 { t as int } else { ip + 1 }, Effect::Continue)),
        Op::Jump(Jump::JumpL(t)) => Ok((m, if cell != 0 { t as int } else { ip + 1 }, Effect::Continue)),
        Op::Read => Ok((m, ip + 1, Effect::Input)),
        Op::Get => Ok((m, ip + 1, Effect::Output(cell))),
        Op::Debug => Ok((m, ip + 1, Effect::Inspect)),
        Op::Clear => Ok((with_cell(m, 0), ip + 1, Effect::Continue)),
        Op::Empty => Ok((m, ip + 1, Effect::Continue)),
    }
}

/// Runs `ops` from index `ip` for at most `fuel` steps, reading `input` and
/// appending written bytes to `out`: the final machine, the output, and the
/// error that stopped the run, if any.
pub open spec fn run_spec(
    ops: Seq<Op>,
    m: Machine,
    ip: int,
    input: Seq<u8>,
    out: Seq<u8>,
    fuel: nat,
) -> (Machine, Seq<u8>, Option<ExecError>)
    decreases fuel,
{
    if ip < 0 || ip >= ops.len() {
        (m, out, None)
    } else if fuel == 0 {
        (m, out, Some(ExecError::StepLimit))
    } else {
        match step_spec(m, ops[ip], ip) {
            Err(e) => (m, out, Some(e)),
            Ok((m2, next, eff)) => match eff {
                Effect::Input => if input.len() == 0 {
                    (m2, out, Some(ExecError::InputExhausted))
                } else {
                    run_spec(ops, with_cell(m2, input[0]), next, input.drop_first(), out, (fuel - 1) as nat)
                },
                Effect::Output(b) => run_spec(ops, m2, next, input, out.push(b), (fuel - 1) as nat),
                _ => run_spec(ops, m2, next, input, out, (fuel - 1) as nat),
            },
        }
    }
}

/// A window of the tape around the data pointer.
#[derive(Debug, PartialEq, Eq)]
pub struct MemWindow {
    /// The cells before the current one, first to last.
    pub before: Vec<u8>,
    pub current: u8,
    /// The cells after the current one, first to last.
    pub after: Vec<u8>,
    /// Cells before the window were left out.
    pub clipped_start: bool,
    /// Cells after the window were left out.
    pub clipped_end: bool,
}

pub open spec fn window_start(pc: int, range: int) -> int {
    if pc > range {
        pc - range
    } else {
        0
    }
}

pub open spec fn window_end(pc: int, range: int) -> int {
    if pc + range + 1 < RAM_SIZE {
        pc + range + 1
    } else {
        RAM_SIZE as int
    }
}

/// The tape machine.
#[derive(Debug)]
pub struct Cpu {
    pc: usize,
    ram: Vec<u8>,
}

impl View for Cpu {
    type V = Machine;

    closed spec fn view(&self) -> Machine {
        Machine { pc: self.pc as int, tape: self.ram@ }
    }
}

impl Default for Cpu {
    fn default() -> (r: Self)
        ensures
            r@ == fresh_machine(),
    {
        let r = Cpu { pc: 0, ram: vec![0u8; RAM_SIZE] };
        assert(r.ram@ == fresh_machine().tape);
        r
    }
}

impl Cpu {
    pub open spec fn wf(&self) -> bool {
        machine_ok(self@)
    }

    /// Clears the tape and moves the pointer back to the first cell.
    pub fn reset(&mut self)
        ensures
            final(self)@ == fresh_machine(),
    {
        *self = Self::default();
    }

    /// The data pointer.
    pub fn pointer(&self) -> (r: usize)
        ensures
            r == self@.pc,
    {
        self.pc
    }

    /// The value of the current cell.
    pub fn cell(&self) -> (r: u8)
        requires
            self.wf(),
        ensures
            r == self@.tape[self@.pc],
    {
        self.ram[self.pc]
    }

    /// Stores a byte of input in the current cell.
    pub fn store_input(&mut self, b: u8)
        requires
            old(self).wf(),
        ensures
            final(self)@ == with_cell(old(self)@, b),
    {
        self.ram.set(self.pc, b);
    }

    /// Executes the instruction at `ip`.
    pub fn step(&mut self, ops: &Vec<Op>, ip: usize) -> (r: Result<Step, ExecError>)
        requires
            old(self).wf(),
            ip < ops@.len(),
            ops@[ip as int] != Op::Empty,
        ensures
            final(self).wf(),
            r matches Ok(s) ==> step_spec(old(self)@, ops@[ip as int], ip as int) == Ok::<
                (Machine, int, Effect),
                ExecError,
            >((final(self)@, s.next as int, s.effect)),
            r matches Err(e) ==> step_spec(old(self)@, ops@[ip as int], ip as int) == Err::<
                (Machine, int, Effect),
                ExecError,
            >(e) && final(self)@ == old(self)@,
    {
        let cell = self.ram[self.pc];
        let len = ops.len();
        assert(ip + 1 <= len);
        let mut next = ip + 1;
        let mut effect = Effect::Continue;
        match ops[ip] {
            Op::Increment(n) => {
                let v = cell.wrapping_add((n % 256) as u8);
                assert(v == ((cell + n) % 256) as u8) by (nonlinear_arith)
                    requires
                        v == (if cell + (n % 256) > 255 { cell + (n % 256) - 256 } else { cell + (n % 256) }),
                ;
                self.ram.set(self.pc, v);
            },
            Op::Decrement(n) => {
                let v = cell.wrapping_sub((n % 256) as u8);
                assert(v == ((cell - n) % 256) as u8) by (nonlinear_arith)
                    requires
                        v == (if cell - (n % 256) < 0 { cell - (n % 256) + 256 } else { cell - (n % 256) }),
                ;
                self.ram.set(self.pc, v);
            },
            Op::MoveR(n) => {
                if n >= RAM_SIZE - self.pc {
                    return Err(ExecError::PastLastCell);
                }
                self.pc = self.pc + n;
            },
            Op::MoveL(n) => {
                if n > self.pc {
                    return Err(ExecError::BeforeFirstCell);
                }
                self.pc = self.pc - n;
            },
            Op::Jump(Jump::JumpR(t)) => {
                if cell == 0 {
                    next = t;
                }
            },
            Op::Jump(Jump::JumpL(t)) => {
                if cell != 0 {
                    next = t;
                }
            },
            Op::Read => {
                effect = Effect::Input;
            },
            Op::Get => {
                effect = Effect::Output(cell);
            },
            Op::Debug => {
                effect = Effect::Inspect;
            },
            Op::Clear => {
                self.ram.set(self.pc, 0);
            },
            Op::Empty => {},
        }
        Ok(Step { next, effect })
    }

    /// Runs `ops` from the first instruction until the index passes the end,
    /// for at most `fuel` steps, taking bytes for `Op::Read` from `input`.
    /// Returns the bytes that `Op::Get` wrote. `Op::Debug` has no effect here:
    /// a driver that shows the tape runs the machine with `step`.
    pub fn exec(&mut self, ops: &Vec<Op>, input: &Vec<u8>, fuel: usize) -> (r: Result<
        Vec<u8>,
        ExecError,
    >)
        requires
            old(self).wf(),
            !ops@.contains(Op::Empty),
        ensures
            final(self).wf(),
            ({
                let (m, out, err) = run_spec(ops@, old(self)@, 0, input@, seq![], fuel as nat);
                &&& final(self)@ == m
                &&& r matches Ok(v) ==> err is None && v@ == out
                &&& r matches Err(e) ==> err == Some(e)
            }),
    {
        let ghost target = run_spec(ops@, self@, 0, input@, seq![], fuel as nat);
        let mut out: Vec<u8> = Vec::new();
        let mut ip: usize = 0;
        let mut pos: usize = 0;
        let mut left = fuel;
        assert(input@.subrange(0, input@.len() as int) == input@);
        assert(out@ == Seq::<u8>::empty());
        while ip < ops.len()
            invariant
                self.wf(),
                target == run_spec(ops@, old(self)@, 0, input@, seq![], fuel as nat),
                !ops@.contains(Op::Empty),
                pos <= input@.len(),
                run_spec(ops@, self@, ip as int, input@.subrange(pos as int, input@.len() as int), out@, left as nat) == target,
            ensures
                self.wf(),
                target == run_spec(ops@, old(self)@, 0, input@, seq![], fuel as nat),
                ip >= ops@.len(),
                run_spec(ops@, self@, ip as int, input@.subrange(pos as int, input@.len() as int), out@, left as nat) == target,
            decreases left,
        {
            if left == 0 {
                return Err(ExecError::StepLimit);
            }
            let ghost rest = input@.subrange(pos as int, input@.len() as int);
            assert(ops@[ip as int] != Op::Empty) by {
                if ops@[ip as int] == Op::Empty {
                    assert(ops@.contains(Op::Empty));
                }
            }
            match self.step(ops, ip) {
                Err(e) => {
                    return Err(e);
                },
                Ok(s) => {
                    match s.effect {
                        Effect::Input => {
                            if pos >= input.len() {
                                return Err(ExecError::InputExhausted);
                            }
                            assert(rest.drop_first() == input@.subrange(pos + 1, input@.len() as int));
                            self.store_input(input[pos]);
                            pos += 1;
                        },
                        Effect::Output(b) => {
                            out.push(b);
                        },
                        _ => {},
                    }
                    ip = s.next;
                    left -= 1;
                },
            }
        }
        Ok(out)
    }

    /// The cells within `range` of the data pointer, clipped to the tape.
    pub fn debug(&self, range: usize) -> (w: MemWindow)
        requires
            self.wf(),
        ensures
            ({
                let start = window_start(self@.pc, range as int);
                let end = window_end(self@.pc, range as int);
                &&& w.before@ == self@.tape.subrange(start, self@.pc)
                &&& w.current == self@.tape[self@.pc]
                &&& w.after@ == self@.tape.subrange(self@.pc + 1, end)
                &&& w.clipped_start == (start > 0)
                &&& w.clipped_end == (end < RAM_SIZE)
            }),
    {
        let start = if self.pc > range {
            self.pc - range
        } else {
            0
        };
        let end = if range < RAM_SIZE - self.pc - 1 {
            self.pc + range + 1
        } else {
            RAM_SIZE
        };
        let mut before: Vec<u8> = Vec::new();
        let mut i: usize = start;
        while i < self.pc
            invariant
                self.wf(),
                start <= i <= self@.pc,
                before@ == self@.tape.subrange(start as int, i as int),
            decreases self@.pc - i,
        {
            before.push(self.ram[i]);
            i += 1;
            assert(before@ == self@.tape.subrange(start as int, i as int));
        }
        let mut after: Vec<u8> = Vec::new();
        let mut j: usize = self.pc + 1;
        while j < end
            invariant
                self.wf(),
                self@.pc + 1 <= j <= end <= RAM_SIZE,
                after@ == self@.tape.subrange(self@.pc + 1, j as int),
            decreases end - j,
        {
            after.push(self.ram[j]);
            j += 1;
            assert(after@ == self@.tape.subrange(self@.pc + 1, j as int));
        }
        MemWindow {
            before,
            current: self.ram[self.pc],
            after,
            clipped_start: start > 0,
            clipped_end: end < RAM_SIZE,
        }
    }
}

} // verus!
