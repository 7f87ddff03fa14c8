use vstd::prelude::*;
use crate::comm::{Comm, Fault, TAPE_LEN};

verus! {

/// The state of a run: the tape, the data pointer and the program counter.
pub struct State {
    /// The cells of the tape.
    pub cells: Seq<u8>,
    /// The data pointer. It may leave the tape as long as no cell is
    /// addressed through it.
    pub index: int,
    /// The index of the instruction to execute next.
    pub pc: nat,
}

/// What an instruction did besides changing the state.
#[derive(Clone, Copy, Debug, PartialEq, Eq, Structural)]
pub enum Effect {
    /// Nothing.
    Silent,
    /// It emitted this byte.
    Wrote(u8),
    /// It consumed the byte of input that it was offered.
    Read,
}

/// A state with what the instruction that led to it did.
pub struct Step {
    pub state: State,
    pub effect: Effect,
}

/// The state in which every run begins: a tape of zeros, the data pointer
/// on its first cell, the program counter on the first instruction.
pub open spec fn start() -> State {
    State { cells: Seq::new(TAPE_LEN as nat, |i: int| 0u8), index: 0, pc: 0 }
}

/// Whether `a` is the address of a cell.
pub open spec fn in_tape(a: int) -> bool {
    0 <= a < TAPE_LEN
}

/// The sum of a cell and an amount, in the cell's eight bits.
pub open spec fn raised(cell: u8, amount: u8) -> u8 {
    ((cell + amount) % 256) as u8
}

/// The difference of a cell and an amount, in the cell's eight bits.
pub open spec fn lowered(cell: u8, amount: u8) -> u8 {
    ((cell - amount) % 256) as u8
}

/// Where a jump to `target` leaves the program counter in a program of
/// `len` instructions: behind the target, since the instruction there is
/// the jump's partner and is not executed again. A target outside the
/// program ends the run.
pub open spec fn landing(len: nat, target: usize) -> nat {
    if target < len {
        (target + 1) as nat
    } else {
        len
    }
}

/// `st` after an instruction that leaves the data pointer alone, writes
/// `cells` and goes on to the next instruction.
pub open spec fn advanced(st: State, cells: Seq<u8>, effect: Effect) -> Step {
    Step { state: State { cells, index: st.index, pc: st.pc + 1 }, effect }
}

/// The execution of the instruction at the program counter of `st`, with
/// `input` the next byte of the input stream, if it has one.
///
/// An instruction that addresses a cell outside the tape is a `Bounds`
/// fault, and so is a jump while the data pointer is outside the tape. A
/// `Comma` with nothing to read is an `InputExhausted` fault; its address is
/// checked first.
pub open spec fn step_of(code: Seq<Comm>, st: State, input: Option<u8>) -> Result<Step, Fault>
    recommends
        st.pc < code.len(),
        st.cells.len() == TAPE_LEN,
{
    match code[st.pc as int] {
        Comm::Pointer(i) => Ok(
            Step {
                state: State { cells: st.cells, index: st.index + i, pc: st.pc + 1 },
                effect: Effect::Silent,
            },
        ),
        Comm::Plus(off, i) => {
            let a = st.index + off;
            if in_tape(a) {
                Ok(advanced(st, st.cells.update(a, raised(st.cells[a], i)), Effect::Silent))
            } else {
                Err(Fault::Bounds)
            }
        },
        Comm::Minus(off, i) => {
            let a = st.index + off;
            if in_tape(a) {
                Ok(advanced(st, st.cells.update(a, lowered(st.cells[a], i)), Effect::Silent))
            } else {
                Err(Fault::Bounds)
            }
        },
        Comm::Dot(off) => {
            let a = st.index + off;
            if in_tape(a) {
                Ok(advanced(st, st.cells, Effect::Wrote(st.cells[a])))
            } else {
                Err(Fault::Bounds)
            }
        },
        Comm::Comma(off) => {
            let a = st.index + off;
            if !in_tape(a) {
                Err(Fault::Bounds)
            } else {
                match input {
                    Some(byte) => Ok(advanced(st, st.cells.update(a, byte), Effect::Read)),
                    None => Err(Fault::InputExhausted),
                }
            }
        },
        Comm::LP(t) => {
            if !in_tape(st.index) {
                Err(Fault::Bounds)
            } else {
                let pc = if st.cells[st.index] == 0 {
                    landing(code.len(), t)
                } else {
                    st.pc + 1
                };
                Ok(
                    Step {
                        state: State { cells: st.cells, index: st.index, pc },
                        effect: Effect::Silent,
                    },
                )
            }
        },
        Comm::RP(t) => {
            if !in_tape(st.index) {
                Err(Fault::Bounds)
            } else {
                let pc = if st.cells[st.index] != 0 {
                    landing(code.len(), t)
                } else {
                    st.pc + 1
                };
                Ok(
                    Step {
                        state: State { cells: st.cells, index: st.index, pc },
                        effect: Effect::Silent,
                    },
                )
            }
        },
        Comm::Clear(off) => {
            let a = st.index + off;
            if in_tape(a) {
                Ok(advanced(st, st.cells.update(a, 0u8), Effect::Silent))
            } else {
                Err(Fault::Bounds)
            }
        },
    }
}

/// How far from the tape the data pointer can be when the program counter
/// is `pc`: every jump finds it on the tape, and each instruction since then
/// has moved it by less than 2^31.
pub open spec fn reach(pc: nat) -> int {
    TAPE_LEN + pc * 0x8000_0000
}

/// A tape with its data pointer and program counter.
pub struct Machine {
    cells: Vec<u8>,
    index: i128,
    ind_code: usize,
}

impl View for Machine {
    type V = State;

    closed spec fn view(&self) -> State {
        State { cells: self.cells@, index: self.index as int, pc: self.ind_code as nat }
    }
}

impl Machine {
    /// The tape has its full length, the program counter fits a machine
    /// word, and the data pointer is within reach of the tape.
    pub open spec fn wf(&self) -> bool {
        &&& self@.cells.len() == TAPE_LEN
        &&& self@.pc <= usize::MAX
        &&& -reach(self@.pc) <= self@.index <= reach(self@.pc)
    }

    /// A machine in the state in which every run begins.
    pub fn new() -> (m: Machine)
        ensures
            m.wf(),
            m@ == start(),
    {
        let mut cells: Vec<u8> = Vec::new();
        while cells.len() < TAPE_LEN
            invariant
                cells.len() <= TAPE_LEN,
                forall|i: int| 0 <= i < cells.len() ==> cells[i] == 0,
            decreases TAPE_LEN - cells.len(),
        {
            cells.push(0);
        }
        assert(cells@ =~= start().cells);
        Machine { cells, index: 0, ind_code: 0 }
    }

    /// The address of the cell at `off` from the data pointer, if there is
    /// such a cell.
    fn address(&self, off: i32) -> (a: Option<usize>)
        requires
            self.wf(),
        ensures
            match a {
                Some(a) => a == self@.index + off && in_tape(a as int),
                None => !in_tape(self@.index + off),
            },
    {
        let a: i128 = self.index + off as i128;
        if 0 <= a && a < TAPE_LEN as i128 {
            Some(a as usize)
        } else {
            None
        }
    }

    /// Whether the run is over: the program counter has left `code`.
    pub fn halted(&self, code: &Vec<Comm>) -> (b: bool)
        ensures
            b == (self@.pc >= code@.len()),
    {
        self.ind_code >= code.len()
    }

    /// Whether the next instruction will consume a byte of input: a `Comma`
    /// whose address is on the tape.
    pub fn awaits_input(&self, code: &Vec<Comm>) -> (b: bool)
        requires
            self.wf(),
        ensures
            b == (self@.pc < code@.len() && (code@[self@.pc as int] matches Comm::Comma(off)
                && in_tape(self@.index + off))),
    {
        if self.ind_code >= code.len() {
            return false;
        }
        match code[self.ind_code] {
            Comm::Comma(off) => self.address(off).is_some(),
            _ => false,
        }
    }

    /// Executes the instruction at the program counter. `input` is the next
    /// byte of the input stream, or `None` where the stream is exhausted; it
    /// is looked at only where [`Machine::awaits_input`] holds.
    ///
    /// On a fault the machine is left as it was, its program counter on the
    /// instruction that could not be executed.
    pub fn step(&mut self, code: &Vec<Comm>, input: Option<u8>) -> (r: Result<Effect, Fault>)
        requires
            old(self).wf(),
            old(self)@.pc < code@.len(),
        ensures
            final(self).wf(),
            match step_of(code@, old(self)@, input) {
                Ok(next) => r == Ok::<Effect, Fault>(next.effect) && final(self)@ == next.state,
                Err(fault) => r == Err::<Effect, Fault>(fault) && final(self)@ == old(self)@,
            },
    {
        let mut effect = Effect::Silent;
        assert(self.ind_code < code.len());
        let next: usize = self.ind_code + 1;
        match code[self.ind_code] {
            Comm::Pointer(i) => {
                self.ind_code = next;
                self.index = self.index + i as i128;
            },
            Comm::Plus(off, i) => {
                match self.address(off) {
                    Some(a) => {
                        let cell = self.cells[a].wrapping_add(i);
                        self.cells.set(a, cell);
                    },
                    None => {
                        return Err(Fault::Bounds);
                    },
                }
                self.ind_code = next;
            },
            Comm::Minus(off, i) => {
                match self.address(off) {
                    Some(a) => {
                        let cell = self.cells[a].wrapping_sub(i);
                        self.cells.set(a, cell);
                    },
                    None => {
                        return Err(Fault::Bounds);
                    },
                }
                self.ind_code = next;
            },
            Comm::Dot(off) => {
                match self.address(off) {
                    Some(a) => {
                        effect = Effect::Wrote(self.cells[a]);
                    },
                    None => {
                        return Err(Fault::Bounds);
                    },
                }
                self.ind_code = next;
            },
            Comm::Comma(off) => {
                match self.address(off) {
                    Some(a) => {
                        match input {
                            Some(byte) => {
                                self.cells.set(a, byte);
                                effect = Effect::Read;
                            },
                            None => {
                                return Err(Fault::InputExhausted);
                            },
                        }
                    },
                    None => {
                        return Err(Fault::Bounds);
                    },
                }
                self.ind_code = next;
            },
            Comm::LP(t) => {
                match self.address(0) {
                    Some(a) => {
                        if self.cells[a] == 0 {
                            self.ind_code = if t < code.len() {
                                t + 1
                            } else {
                                code.len()
                            };
                        } else {
                            self.ind_code = next;
                        }
                    },
                    None => {
                        return Err(Fault::Bounds);
                    },
                }
            },
            Comm::RP(t) => {
                match self.address(0) {
                    Some(a) => {
                        if self.cells[a] != 0 {
                            self.ind_code = if t < code.len() {
                                t + 1
                            } else {
                                code.len()
                            };
                        } else {
                            self.ind_code = next;
                        }
                    },
                    None => {
                        return Err(Fault::Bounds);
                    },
                }
            },
            Comm::Clear(off) => {
                match self.address(off) {
                    Some(a) => {
                        self.cells.set(a, 0);
                    },
                    None => {
                        return Err(Fault::Bounds);
                    },
                }
                self.ind_code = next;
            },
        }
        Ok(effect)
    }

    /// The cell at `at`, or `None` where the tape has no such cell.
    pub fn cell(&self, at: usize) -> (c: Option<u8>)
        ensures
            c == if at < self@.cells.len() {
                Some(self@.cells[at as int])
            } else {
                None
            },
    {
        if at < self.cells.len() {
            Some(self.cells[at])
        } else {
            None
        }
    }

    /// The data pointer.
    pub fn pointer(&self) -> (p: i128)
        ensures
            p == self@.index,
    {
        self.index
    }

    /// The program counter.
    pub fn counter(&self) -> (pc: usize)
        ensures
            pc == self@.pc,
    {
        self.ind_code
    }
}

/// How a run ended.
#[derive(Clone, Copy, Debug, PartialEq, Eq, Structural)]
pub enum Status {
    /// The program counter left the program.
    Halted,
    /// The instruction at the program counter could not be executed.
    Faulted(Fault),
    /// The step limit was used up before the run ended.
    Unfinished,
}

/// A run, as mathematics: where it ended and what it did on the way.
pub struct Trace {
    /// The state in which it ended. After a fault, the program counter is
    /// on the instruction that faulted.
    pub state: State,
    /// The bytes emitted, in order.
    pub output: Seq<u8>,
    /// How many bytes of input were consumed.
    pub taken: nat,
    /// How it ended.
    pub status: Status,
}

/// The byte of `input` that a run is offered after it has consumed `taken`.
pub open spec fn offered(input: Seq<u8>, taken: nat) -> Option<u8> {
    if taken < input.len() {
        Some(input[taken as int])
    } else {
        None
    }
}

/// The run of `code` from `st`, for at most `fuel` instructions, after
/// `taken` bytes of `input` were consumed and `output` was emitted.
///
/// The run halts when the program counter leaves the program, and is
/// aborted by the first fault; nothing is executed after either.
pub open spec fn run_of(
    code: Seq<Comm>,
    st: State,
    input: Seq<u8>,
    taken: nat,
    output: Seq<u8>,
    fuel: nat,
) -> Trace
    decreases fuel,
{
    if st.pc >= code.len() {
        Trace { state: st, output, taken, status: Status::Halted }
    } else if fuel == 0 {
        Trace { state: st, output, taken, status: Status::Unfinished }
    } else {
        match step_of(code, st, offered(input, taken)) {
            Err(fault) => Trace { state: st, output, taken, status: Status::Faulted(fault) },
            Ok(next) => run_of(
                code,
                next.state,
                input,
                match next.effect {
                    Effect::Read => taken + 1,
                    _ => taken,
                },
                match next.effect {
                    Effect::Wrote(byte) => output.push(byte),
                    _ => output,
                },
                (fuel - 1) as nat,
            ),
        }
    }
}

/// A run that was carried out.
pub struct Run {
    /// The machine as the run left it.
    pub machine: Machine,
    /// The bytes emitted, in order.
    pub output: Vec<u8>,
    /// How many bytes of input were consumed.
    pub taken: usize,
    /// How it ended.
    pub status: Status,
}

impl View for Run {
    type V = Trace;

    open spec fn view(&self) -> Trace {
        Trace {
            state: self.machine@,
            output: self.output@,
            taken: self.taken as nat,
            status: self.status,
        }
    }
}

/// Runs `code` on a fresh machine with `input` as its input stream, for at
/// most `limit` instructions.
pub fn interpreter(code: &Vec<Comm>, input: &Vec<u8>, limit: u64) -> (r: Run)
    ensures
        r.machine.wf(),
        r@ == run_of(code@, start(), input@, 0, Seq::empty(), limit as nat),
{
    let mut machine = Machine::new();
    let mut output: Vec<u8> = Vec::new();
    let mut taken: usize = 0;
    let mut fuel: u64 = limit;
    while !machine.halted(code) && fuel > 0
        invariant
            machine.wf(),
            taken <= input.len(),
            run_of(code@, start(), input@, 0, Seq::empty(), limit as nat) == run_of(
                code@,
                machine@,
                input@,
                taken as nat,
                output@,
                fuel as nat,
            ),
        decreases fuel,
    {
        let offer = if taken < input.len() {
            Some(input[taken])
        } else {
            None
        };
        match machine.step(code, offer) {
            Err(fault) => {
                return Run { machine, output, taken, status: Status::Faulted(fault) };
            },
            Ok(effect) => {
                match effect {
                    Effect::Wrote(byte) => {
                        output.push(byte);
                    },
                    Effect::Read => {
                        taken += 1;
                    },
                    Effect::Silent => {},
                }
            },
        }
        fuel -= 1;
    }
    let status = if machine.halted(code) {
        Status::Halted
    } else {
        Status::Unfinished
    };
    Run { machine, output, taken, status }
}

} // verus!
