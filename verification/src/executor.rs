//! The executor: holds mutable machine state (tape, cell pointer,
//! instruction pointer, input queue) and steps a compiled program,
//! yielding control back to the caller on output-ready, input-needed,
//! halted, or error conditions.

use vstd::prelude::*;
use std::collections::VecDeque;
use crate::compiler::{Instruction, Program, cell_shift};
use crate::tape::{cell_at, grown, grow_to};

verus! {

/// A runtime failure kind; the machine state is left exactly as it was
/// before the offending instruction attempted to execute.
#[derive(Debug, Clone, Copy, PartialEq, Eq, Structural)]
pub enum RunError {
    OutOfBounds,
}

/// The result of advancing the machine by one logical instruction.
/// `NeedsInput` and `Halted` are expected suspension and termination
/// signals, not errors.
#[derive(Debug, Clone, Copy, PartialEq, Eq, Structural)]
pub enum Event {
    Emit(u8),
    NeedsInput,
    Halted,
    Error(RunError, usize),
}

/// The abstract machine state an executor steps.
#[verifier::ext_equal]
pub ghost struct MachineState {
    pub tape: Seq<u8>,
    pub pointer: int,
    pub ip: int,
    pub input: Seq<u8>,
}

/// What one `step` does: the next state and the event it reports, if any.
/// A step that pauses or fails leaves the state exactly as it was; the
/// instruction pointer past the end of the program means `Halted`,
/// forever. Moving right stops one growth block short of the
/// address-space end.
pub open spec fn estep(prog: Seq<Instruction>, s: MachineState) -> (MachineState, Option<Event>) {
    if !(0 <= s.ip < prog.len()) {
        (s, Some(Event::Halted))
    } else {
        match prog[s.ip] {
            Instruction::Add(c) => (
                MachineState {
                    ip: s.ip + 1,
                    tape: grown(s.tape, s.pointer).update(
                        s.pointer,
                        cell_shift(cell_at(s.tape, s.pointer), c as int),
                    ),
                    ..s
                },
                None,
            ),
            Instruction::Sub(c) => (
                MachineState {
                    ip: s.ip + 1,
                    tape: grown(s.tape, s.pointer).update(
                        s.pointer,
                        cell_shift(cell_at(s.tape, s.pointer), -(c as int)),
                    ),
                    ..s
                },
                None,
            ),
            Instruction::MoveRight(c) => {
                if s.pointer + c > usize::MAX - 100 {
                    (s, Some(Event::Error(RunError::OutOfBounds, s.ip as usize)))
                } else {
                    (
                        MachineState {
                            ip: s.ip + 1,
                            pointer: s.pointer + c,
                            tape: grown(s.tape, s.pointer + c),
                            ..s
                        },
                        None,
                    )
                }
            },
            Instruction::MoveLeft(c) => {
                if c <= s.pointer {
                    (MachineState { ip: s.ip + 1, pointer: s.pointer - c, ..s }, None)
                } else {
                    (s, Some(Event::Error(RunError::OutOfBounds, s.ip as usize)))
                }
            },
            Instruction::Output => (
                MachineState { ip: s.ip + 1, ..s },
                Some(Event::Emit(cell_at(s.tape, s.pointer))),
            ),
            Instruction::Input => {
                if s.input.len() == 0 {
                    (s, Some(Event::NeedsInput))
                } else {
                    (
                        MachineState {
                            ip: s.ip + 1,
                            tape: grown(s.tape, s.pointer).update(s.pointer, s.input[0]),
                            input: s.input.drop_first(),
                            ..s
                        },
                        None,
                    )
                }
            },
            Instruction::JumpIfZero(t) => {
                if cell_at(s.tape, s.pointer) == 0 {
                    (MachineState { ip: t as int, ..s }, None)
                } else {
                    (MachineState { ip: s.ip + 1, ..s }, None)
                }
            },
            Instruction::JumpIfNonZero(t) => {
                if cell_at(s.tape, s.pointer) != 0 {
                    (MachineState { ip: t as int, ..s }, None)
                } else {
                    (MachineState { ip: s.ip + 1, ..s }, None)
                }
            },
        }
    }
}

/// Stepping bounded by `fuel`: steps silently until an event is reported
/// or the fuel is spent (`None` then means "budget exhausted, no event
/// yet").
pub open spec fn erun(prog: Seq<Instruction>, s: MachineState, fuel: nat) -> (
    MachineState,
    Option<Event>,
)
    decreases fuel,
{
    if !(0 <= s.ip < prog.len()) {
        if fuel == 0 {
            (s, None)
        } else {
            (s, Some(Event::Halted))
        }
    } else if fuel == 0 {
        (s, None)
    } else {
        let (s2, e) = estep(prog, s);
        match e {
            None => erun(prog, s2, (fuel - 1) as nat),
            Some(ev) => (s2, Some(ev)),
        }
    }
}

/// Spending one more unit of fuel after an exhausted run performs exactly
/// one further step (or reports `Halted` past the end of the program).
pub proof fn lemma_erun_step(prog: Seq<Instruction>, s: MachineState, n: nat)
    requires
        erun(prog, s, n).1 is None,
    ensures
        ({
            let m = erun(prog, s, n).0;
            erun(prog, s, n + 1) == (if !(0 <= m.ip < prog.len()) {
                (m, Some(Event::Halted))
            } else {
                estep(prog, m)
            })
        }),
    decreases n,
{
    reveal_with_fuel(erun, 3);
    if n == 0 {
    } else {
        if !(0 <= s.ip < prog.len()) {
        } else {
            let (s2, e) = estep(prog, s);
            lemma_erun_step(prog, s2, (n - 1) as nat);
        }
    }
}

/// A run that comes back silent with `n` units of fuel was silent for
/// every smaller budget as well.
pub proof fn lemma_erun_quiet_prefix(prog: Seq<Instruction>, s: MachineState, k: nat, n: nat)
    requires
        k <= n,
        erun(prog, s, n).1 is None,
    ensures
        erun(prog, s, k).1 is None,
    decreases n,
{
    if !(0 <= s.ip < prog.len()) {
    } else if n == 0 {
    } else {
        let (s2, e) = estep(prog, s);
        if k > 0 {
            lemma_erun_quiet_prefix(prog, s2, (k - 1) as nat, (n - 1) as nat);
        }
    }
}

/// Some number of steps from `s` reaches an event; what an unbounded run
/// demands, since it would otherwise never return.
pub open spec fn reaches_event(prog: Seq<Instruction>, s: MachineState) -> bool {
    exists|n: nat| erun(prog, s, n).1 is Some
}

/// Idempotence of the terminal state: once the instruction pointer is
/// past the end of the program, every further step or run reports
/// `Halted` again without mutating tape or pointers.
pub proof fn lemma_halted_idempotent(prog: Seq<Instruction>, s: MachineState, fuel: nat)
    requires
        s.ip >= prog.len(),
        fuel >= 1,
    ensures
        estep(prog, s) == (s, Some(Event::Halted)),
        erun(prog, s, fuel) == (s, Some(Event::Halted)),
{
}

/// Resumability: a step that reports `NeedsInput` leaves the state
/// untouched, and after exactly one byte is appended to the (empty)
/// queue, the very same instruction consumes it and the machine advances
/// exactly one instruction — never skipping it, never running it twice.
pub proof fn lemma_input_resumes(prog: Seq<Instruction>, s: MachineState, b: u8)
    requires
        estep(prog, s).1 == Some(Event::NeedsInput),
    ensures
        estep(prog, s).0 == s,
        ({
            let (s2, e2) = estep(prog, MachineState { input: s.input.push(b), ..s });
            &&& e2 is None
            &&& s2.ip == s.ip + 1
            &&& s2.tape == grown(s.tape, s.pointer).update(s.pointer, b)
            &&& s2.pointer == s.pointer
            &&& s2.input == s.input
        }),
{
    assert(0 <= s.ip < prog.len() && prog[s.ip] == Instruction::Input && s.input.len() == 0);
    let s1 = MachineState { input: s.input.push(b), ..s };
    assert(s1.input[0] == b);
    assert(s1.input.drop_first() =~= s.input);
}

/// Left-bound safety: a `MoveLeft` that would cross position zero
/// reports `Error(OutOfBounds, ip)` and leaves everything — the pointer
/// included — unchanged; the pointer never underflows.
pub proof fn lemma_left_bound_safe(prog: Seq<Instruction>, s: MachineState, c: usize)
    requires
        0 <= s.ip < prog.len(),
        prog[s.ip] == Instruction::MoveLeft(c),
        s.pointer < c,
    ensures
        estep(prog, s) == (s, Some(Event::Error(RunError::OutOfBounds, s.ip as usize))),
{
}

/// The current cell of a grown-on-demand tape: zero beyond the prefix.
fn read_cell_of(tape: &Vec<u8>, pointer: usize) -> (v: u8)
    ensures
        v == cell_at(tape@, pointer as int),
{
    if pointer < tape.len() {
        tape[pointer]
    } else {
        0
    }
}

/// Add `c` to a cell value, wrapping modulo 256, exactly `cell_shift`.
fn cell_add(v: u8, c: usize) -> (r: u8)
    ensures
        r == cell_shift(v, c as int),
{
    let m = (c % 256) as u8;
    let r = v.wrapping_add(m);
    proof {
        vstd::arithmetic::div_mod::lemma_add_mod_noop_right(v as int, c as int, 256);
        if v + m <= 255 {
            vstd::arithmetic::div_mod::lemma_small_mod((v + m) as nat, 256);
        } else {
            vstd::arithmetic::div_mod::lemma_mod_add_multiples_vanish((v + m - 256) as int, 256);
            vstd::arithmetic::div_mod::lemma_small_mod((v + m - 256) as nat, 256);
        }
    }
    r
}

/// Subtract `c` from a cell value, wrapping modulo 256.
fn cell_sub(v: u8, c: usize) -> (r: u8)
    ensures
        r == cell_shift(v, -(c as int)),
{
    let m = (c % 256) as u8;
    let r = v.wrapping_sub(m);
    proof {
        vstd::arithmetic::div_mod::lemma_sub_mod_noop_right(v as int, c as int, 256);
        if v >= m {
            vstd::arithmetic::div_mod::lemma_small_mod((v - m) as nat, 256);
        } else {
            vstd::arithmetic::div_mod::lemma_mod_add_multiples_vanish((v - m) as int, 256);
            vstd::arithmetic::div_mod::lemma_small_mod((v - m + 256) as nat, 256);
        }
    }
    r
}

/// Machine state plus the program it runs: a fresh all-zero tape of
/// 30,000 cells, both pointers at zero, and a FIFO input queue. One
/// executor owns its state exclusively; the program is never mutated.
#[derive(Debug, Clone, PartialEq)]
pub struct Executor {
    pub program: Program,
    pub tape: Vec<u8>,
    pub pointer: usize,
    pub ip: usize,
    pub input: VecDeque<u8>,
}

impl Executor {
    /// The abstract machine state this executor is in.
    pub open spec fn abs(&self) -> MachineState {
        MachineState {
            tape: self.tape@,
            pointer: self.pointer as int,
            ip: self.ip as int,
            input: self.input@,
        }
    }

    /// Well-formed: the cell pointer leaves room for a growth block.
    pub open spec fn wf(&self) -> bool {
        self.pointer <= usize::MAX - 100
    }

    /// A fresh machine for `program`.
    pub fn new(program: Program) -> (r: Self)
        ensures
            r.wf(),
            r.program == program,
            r.abs() == (MachineState {
                tape: Seq::new(30000, |_i: int| 0u8),
                pointer: 0,
                ip: 0,
                input: Seq::<u8>::empty(),
            }),
    {
        let r = Executor {
            program,
            tape: vec![0u8; 30000],
            pointer: 0,
            ip: 0,
            input: VecDeque::new(),
        };
        proof {
            assert(r.tape@ =~= Seq::new(30000, |_i: int| 0u8));
            assert(r.abs() =~= (MachineState {
                tape: Seq::new(30000, |_i: int| 0u8),
                pointer: 0,
                ip: 0,
                input: Seq::<u8>::empty(),
            }));
        }
        r
    }

    /// Append one byte to the back of the pending-input queue.
    pub fn push_input(&mut self, byte: u8)
        ensures
            final(self).input@ == old(self).input@.push(byte),
            final(self).program == old(self).program,
            final(self).tape == old(self).tape,
            final(self).pointer == old(self).pointer,
            final(self).ip == old(self).ip,
    {
        self.input.push_back(byte);
    }

    /// Append a whole byte sequence to the pending-input queue.
    pub fn feed(&mut self, bytes: &[u8])
        ensures
            final(self).input@ == old(self).input@ + bytes@,
            final(self).program == old(self).program,
            final(self).tape == old(self).tape,
            final(self).pointer == old(self).pointer,
            final(self).ip == old(self).ip,
    {
        let mut i: usize = 0;
        while i < bytes.len()
            invariant
                i <= bytes@.len(),
                self.input@ == old(self).input@ + bytes@.subrange(0, i as int),
                self.program == old(self).program,
                self.tape == old(self).tape,
                self.pointer == old(self).pointer,
                self.ip == old(self).ip,
            decreases bytes@.len() - i,
        {
            proof {
                assert(old(self).input@ + bytes@.subrange(0, i as int + 1) =~= (old(self).input@
                    + bytes@.subrange(0, i as int)).push(bytes@[i as int]));
            }
            self.input.push_back(bytes[i]);
            i += 1;
        }
        proof {
            assert(bytes@.subrange(0, bytes@.len() as int) =~= bytes@);
        }
    }

    /// Write `v` into the current cell, growing the tape on demand.
    fn write_cell(&mut self, v: u8)
        requires
            old(self).wf(),
        ensures
            final(self).tape@ == grown(old(self).tape@, old(self).pointer as int).update(
                old(self).pointer as int,
                v,
            ),
            final(self).program == old(self).program,
            final(self).pointer == old(self).pointer,
            final(self).ip == old(self).ip,
            final(self).input == old(self).input,
    {
        let p = self.pointer;
        grow_to(&mut self.tape, p);
        self.tape[p] = v;
    }

    /// Execute exactly one instruction. `None` means the machine advanced
    /// silently; `Some` carries the event that pauses or ends the run.
    pub fn step(&mut self) -> (r: Option<Event>)
        requires
            old(self).wf(),
        ensures
            final(self).wf(),
            final(self).program == old(self).program,
            (final(self).abs(), r) == estep(old(self).program@, old(self).abs()),
    {
        let ghost s0 = self.abs();
        let ghost prog = self.program@;
        if self.ip >= self.program.len() {
            return Some(Event::Halted);
        }
        let ins = self.program.get(self.ip);
        match ins {
            Instruction::Add(c) => {
                let v = read_cell_of(&self.tape, self.pointer);
                let w = cell_add(v, c);
                self.write_cell(w);
                self.ip += 1;
                proof {
                    assert(self.abs() =~= estep(prog, s0).0);
                }
                None
            },
            Instruction::Sub(c) => {
                let v = read_cell_of(&self.tape, self.pointer);
                let w = cell_sub(v, c);
                self.write_cell(w);
                self.ip += 1;
                proof {
                    assert(self.abs() =~= estep(prog, s0).0);
                }
                None
            },
            Instruction::MoveRight(c) => {
                if c > usize::MAX - 100 - self.pointer {
                    return Some(Event::Error(RunError::OutOfBounds, self.ip));
                }
                self.pointer += c;
                let p = self.pointer;
                grow_to(&mut self.tape, p);
                self.ip += 1;
                proof {
                    assert(self.abs() =~= estep(prog, s0).0);
                }
                None
            },
            Instruction::MoveLeft(c) => {
                if c > self.pointer {
                    return Some(Event::Error(RunError::OutOfBounds, self.ip));
                }
                self.pointer -= c;
                self.ip += 1;
                proof {
                    assert(self.abs() =~= estep(prog, s0).0);
                }
                None
            },
            Instruction::Output => {
                let v = read_cell_of(&self.tape, self.pointer);
                self.ip += 1;
                proof {
                    assert(self.abs() =~= estep(prog, s0).0);
                }
                Some(Event::Emit(v))
            },
            Instruction::Input => {
                match self.input.pop_front() {
                    None => Some(Event::NeedsInput),
                    Some(b) => {
                        self.write_cell(b);
                        self.ip += 1;
                        proof {
                            assert(self.input@ =~= s0.input.drop_first());
                            assert(self.abs() =~= estep(prog, s0).0);
                        }
                        None
                    },
                }
            },
            Instruction::JumpIfZero(t) => {
                let v = read_cell_of(&self.tape, self.pointer);
                if v == 0 {
                    self.ip = t;
                } else {
                    self.ip += 1;
                }
                proof {
                    assert(self.abs() =~= estep(prog, s0).0);
                }
                None
            },
            Instruction::JumpIfNonZero(t) => {
                let v = read_cell_of(&self.tape, self.pointer);
                if v != 0 {
                    self.ip = t;
                } else {
                    self.ip += 1;
                }
                proof {
                    assert(self.abs() =~= estep(prog, s0).0);
                }
                None
            },
        }
    }

    /// Step repeatedly until an event is reported: a byte to emit, a
    /// pause for input, the program's end, or an error.
    #[verifier::loop_isolation(false)]
    pub fn run(&mut self) -> (r: Event)
        requires
            old(self).wf(),
            reaches_event(old(self).program@, old(self).abs()),
        ensures
            final(self).wf(),
            final(self).program == old(self).program,
            exists|n: nat|
                erun(old(self).program@, old(self).abs(), n) == (final(self).abs(), Some(r)),
    {
        let ghost s0 = self.abs();
        let ghost prog = self.program@;
        let ghost fuel = choose|m: nat| erun(prog, s0, m).1 is Some;
        let ghost mut n: nat = 0;
        loop
            invariant
                self.wf(),
                self.program == old(self).program,
                n <= fuel,
                erun(prog, s0, fuel).1 is Some,
                erun(prog, s0, n) == (self.abs(), None::<Event>),
            decreases fuel - n,
        {
            let r = self.step();
            proof {
                lemma_erun_step(prog, s0, n);
            }
            match r {
                None => {
                    proof {
                        n = n + 1;
                        if n > fuel {
                            lemma_erun_quiet_prefix(prog, s0, fuel, n);
                        }
                    }
                },
                Some(ev) => {
                    return ev;
                },
            }
        }
    }

    /// Like `run`, but also stop silently (`None`) once `max_steps`
    /// instructions have executed without producing an event, so a caller
    /// can interleave execution with other cooperative work.
    #[verifier::loop_isolation(false)]
    pub fn run_bounded(&mut self, max_steps: usize) -> (r: Option<Event>)
        requires
            old(self).wf(),
        ensures
            final(self).wf(),
            final(self).program == old(self).program,
            (final(self).abs(), r) == erun(old(self).program@, old(self).abs(), max_steps as nat),
    {
        let ghost s0 = self.abs();
        let ghost prog = self.program@;
        let mut left: usize = max_steps;
        while left > 0
            invariant
                self.wf(),
                self.program == old(self).program,
                erun(prog, s0, max_steps as nat) == erun(prog, self.abs(), left as nat),
            decreases left,
        {
            match self.step() {
                None => {
                    left -= 1;
                },
                Some(ev) => {
                    return Some(ev);
                },
            }
        }
        None
    }
}

} // verus!
