//! The machine as contracts see it: its state as plain numbers, what each
//! instruction does to it, and what a cycle and a run are.

use crate::cipher::{decode_spec, encrypt_spec, lemma_encrypt_range, lemma_rewrite_changes_opcode};
use crate::trits::{crz_spec, lemma_crz_range, lemma_pow3_bounds, rot_spec};
use vstd::prelude::*;

verus! {

/// The value of every memory cell and of the three registers.
#[verifier::ext_equal]
pub struct State {
    /// The value of the cell at each address.
    pub mem: Seq<int>,
    /// The accumulator.
    pub a: int,
    /// The program counter.
    pub c: int,
    /// The data pointer.
    pub d: int,
}

/// What one cycle of the machine did.
#[derive(Debug, Clone, Copy, PartialEq, Eq)]
pub enum Step {
    /// An instruction ran that neither reads nor writes.
    Continue,
    /// The output instruction ran and emitted this character.
    Output(char),
    /// The input instruction ran and took the byte that was offered.
    InputTaken,
    /// The input instruction is next, and no byte was offered. Nothing has
    /// changed.
    InputNeeded,
    /// The end instruction is next. Nothing has changed, and nothing will.
    Halted,
}

impl Step {
    /// The characters that the cycle emitted: one or none.
    pub open spec fn emitted(self) -> Seq<char> {
        match self {
            Step::Output(ch) => seq![ch],
            _ => Seq::empty(),
        }
    }
}

/// How a run of the machine ended.
#[derive(Debug, Clone, Copy, PartialEq, Eq, Structural)]
pub enum Outcome {
    /// The machine reached the end instruction.
    Halted,
    /// The machine reached an input instruction with no input left.
    InputExhausted,
    /// The machine ran the cycles it was allowed and could go on.
    CycleLimit,
}

/// A run of the machine as contracts see it.
#[verifier::ext_equal]
pub struct Run {
    /// The state the machine is left in.
    pub state: State,
    /// How the run ended.
    pub outcome: Outcome,
    /// The number of cycles completed.
    pub cycles: nat,
    /// The number of input bytes taken.
    pub consumed: nat,
    /// The characters emitted, in order.
    pub output: Seq<char>,
}

/// Continuing a continuation adds up the cycles and the bytes and chains
/// the output.
proof fn lemma_after_after(
    r: Run,
    c1: nat,
    k1: nat,
    o1: Seq<char>,
    c2: nat,
    k2: nat,
    o2: Seq<char>,
)
    ensures
        r.after(c1, k1, o1).after(c2, k2, o2) == r.after(c2 + c1, k2 + k1, o2 + o1),
{
    assert(o2 + (o1 + r.output) =~= (o2 + o1) + r.output);
}

impl Run {
    /// The run that ends in `state` before a single cycle is completed.
    pub open spec fn stopped(state: State, outcome: Outcome) -> Run {
        Run { state, outcome, cycles: 0, consumed: 0, output: Seq::empty() }
    }

    /// This run as the continuation of one that completed `cycles` cycles,
    /// took `consumed` bytes and emitted `output`.
    pub open spec fn after(self, cycles: nat, consumed: nat, output: Seq<char>) -> Run {
        Run {
            state: self.state,
            outcome: self.outcome,
            cycles: cycles + self.cycles,
            consumed: consumed + self.consumed,
            output: output + self.output,
        }
    }
}

impl State {
    /// Every address has a cell, and every cell and register holds a word.
    pub open spec fn wf(self) -> bool {
        &&& self.mem.len() == 59049
        &&& forall|i: int| 0 <= i < 59049 ==> 0 <= #[trigger] self.mem[i] < 59049
        &&& 0 <= self.a < 59049
        &&& 0 <= self.c < 59049
        &&& 0 <= self.d < 59049
    }

    /// The state of a machine that has just been made: all zero.
    pub open spec fn zeroed() -> State {
        State { mem: Seq::new(59049, |i: int| 0int), a: 0, c: 0, d: 0 }
    }

    /// The opcode that the cell under the program counter selects.
    pub open spec fn opcode(self) -> int {
        decode_spec(self.mem[self.c], self.c)
    }

    /// The state with the cell at `addr` replaced by `v`.
    pub open spec fn store(self, addr: int, v: int) -> State {
        State { mem: self.mem.update(addr, v), ..self }
    }

    /// Jump: the program counter takes the value of the cell under the data
    /// pointer.
    pub open spec fn jmp(self) -> State {
        State { c: self.mem[self.d], ..self }
    }

    /// The character that an output instruction emits: the accumulator
    /// modulo 128, read as a 7-bit character code.
    pub open spec fn out_char(self) -> char {
        ((self.a % 128) as u8) as char
    }

    /// Input: the accumulator takes the value of the byte read.
    pub open spec fn input(self, byte: u8) -> State {
        State { a: byte as int, ..self }
    }

    /// Rotate: the cell under the data pointer is rotated, and the
    /// accumulator takes the rotated value.
    pub open spec fn rot(self) -> State {
        let w = rot_spec(self.mem[self.d]);
        State { mem: self.mem.update(self.d, w), a: w, ..self }
    }

    /// The data pointer takes the value of the cell it points to.
    pub open spec fn set_d(self) -> State {
        State { d: self.mem[self.d], ..self }
    }

    /// Combine: the cell under the data pointer is combined with the
    /// accumulator, the cell giving the first trit of each pair; cell and
    /// accumulator both take the result.
    pub open spec fn crz(self) -> State {
        let w = crz_spec(self.mem[self.d], self.a, 10);
        State { mem: self.mem.update(self.d, w), a: w, ..self }
    }

    /// The cell under the program counter is replaced by the substitute for
    /// its residue modulo 94; then program counter and data pointer both move
    /// on by one, wrapping past the last address.
    pub open spec fn encrypt_and_advance(self) -> State {
        State {
            mem: self.mem.update(self.c, encrypt_spec(self.mem[self.c] % 94)),
            a: self.a,
            c: (self.c + 1) % 59049,
            d: (self.d + 1) % 59049,
        }
    }

    /// What the instruction with opcode `op` does to the state, before the
    /// cell under the program counter is rewritten. Input takes `byte`; an
    /// opcode outside the instruction set does nothing.
    pub open spec fn perform(self, op: int, byte: u8) -> State {
        if op == 4 {
            self.jmp()
        } else if op == 23 {
            self.input(byte)
        } else if op == 39 {
            self.rot()
        } else if op == 40 {
            self.set_d()
        } else if op == 62 {
            self.crz()
        } else {
            self
        }
    }

    /// One cycle of the machine, with `byte` as the next byte of input if
    /// there is one: the state after the cycle and what the cycle did. The
    /// end instruction and an input instruction without input leave the state
    /// as it is.
    pub open spec fn step(self, byte: Option<u8>) -> (State, Step) {
        let op = self.opcode();
        if op == 81 {
            (self, Step::Halted)
        } else if op == 23 && byte is None {
            (self, Step::InputNeeded)
        } else {
            let b: u8 = if byte is Some {
                byte->0
            } else {
                0
            };
            let next = self.perform(op, b).encrypt_and_advance();
            if op == 5 {
                (next, Step::Output(self.out_char()))
            } else if op == 23 {
                (next, Step::InputTaken)
            } else {
                (next, Step::Continue)
            }
        }
    }

    /// The run of the machine from this state on the bytes of `input`, for
    /// at most `fuel` cycles. The run stops at the end instruction and at an
    /// input instruction without input, however much fuel is left.
    pub open spec fn run(self, input: Seq<u8>, fuel: nat) -> Run
        decreases fuel,
    {
        let byte = if input.len() > 0 {
            Some(input[0])
        } else {
            None
        };
        let (next, step) = self.step(byte);
        if step == Step::Halted {
            Run::stopped(self, Outcome::Halted)
        } else if step == Step::InputNeeded {
            Run::stopped(self, Outcome::InputExhausted)
        } else if fuel == 0 {
            Run::stopped(self, Outcome::CycleLimit)
        } else {
            let taken: nat = if step == Step::InputTaken {
                1
            } else {
                0
            };
            next.run(input.skip(taken as int), (fuel - 1) as nat).after(1, taken, step.emitted())
        }
    }
}

/// A cycle keeps every cell and register a word.
pub proof fn lemma_step_wf(s: State, byte: Option<u8>)
    requires
        s.wf(),
    ensures
        s.step(byte).0.wf(),
{
    let op = s.opcode();
    let b: u8 = if byte is Some {
        byte->0
    } else {
        0
    };
    let mid = s.perform(op, b);
    assert(mid.wf()) by {
        lemma_pow3_bounds(10, 10);
        lemma_crz_range(s.mem[s.d], s.a, 10);
    }
    lemma_encrypt_range(mid.mem[mid.c] % 94);
}

/// A run keeps every cell and register a word.
pub proof fn lemma_run_wf(s: State, input: Seq<u8>, fuel: nat)
    requires
        s.wf(),
    ensures
        s.run(input, fuel).state.wf(),
    decreases fuel,
{
    let byte = if input.len() > 0 {
        Some(input[0])
    } else {
        None
    };
    let (next, step) = s.step(byte);
    if step != Step::Halted && step != Step::InputNeeded && fuel > 0 {
        let taken: nat = if step == Step::InputTaken {
            1
        } else {
            0
        };
        lemma_step_wf(s, byte);
        lemma_run_wf(next, input.skip(taken as int), (fuel - 1) as nat);
    }
}

/// A run completes no more cycles than it has fuel, and all of them if it
/// ends for want of fuel; it takes no more bytes than there are, and emits
/// at most one character per cycle.
pub proof fn lemma_run_bounds(s: State, input: Seq<u8>, fuel: nat)
    ensures
        s.run(input, fuel).cycles <= fuel,
        s.run(input, fuel).outcome == Outcome::CycleLimit ==> s.run(input, fuel).cycles == fuel,
        s.run(input, fuel).consumed <= input.len(),
        s.run(input, fuel).output.len() <= s.run(input, fuel).cycles,
    decreases fuel,
{
    let byte = if input.len() > 0 {
        Some(input[0])
    } else {
        None
    };
    let (next, step) = s.step(byte);
    if step != Step::Halted && step != Step::InputNeeded && fuel > 0 {
        let taken: nat = if step == Step::InputTaken {
            1
        } else {
            0
        };
        lemma_run_bounds(next, input.skip(taken as int), (fuel - 1) as nat);
    }
}

/// A run that ends for want of fuel can be taken up where it stopped: the
/// run on `fuel + more` cycles is the run on `fuel` cycles followed by the
/// run on `more` cycles from the state and the input that the first one
/// left. A run that ends for another reason is the same with more fuel.
pub proof fn lemma_run_resumes(s: State, input: Seq<u8>, fuel: nat, more: nat)
    ensures
        ({
            let first = s.run(input, fuel);
            s.run(input, fuel + more) == if first.outcome == Outcome::CycleLimit {
                first.state.run(input.skip(first.consumed as int), more).after(
                    first.cycles,
                    first.consumed,
                    first.output,
                )
            } else {
                first
            }
        }),
    decreases fuel,
{
    let byte = if input.len() > 0 {
        Some(input[0])
    } else {
        None
    };
    let step = s.step(byte).1;
    let next = s.step(byte).0;
    let first = s.run(input, fuel);
    if step == Step::Halted || step == Step::InputNeeded {
    } else if fuel == 0 {
        assert(input.skip(0) =~= input);
        assert(s.run(input, more).after(0, 0, Seq::empty()) =~= s.run(input, more));
    } else {
        let taken: nat = if step == Step::InputTaken {
            1
        } else {
            0
        };
        let rest = input.skip(taken as int);
        let inner = next.run(rest, (fuel - 1) as nat);
        lemma_run_resumes(next, rest, (fuel - 1) as nat, more);
        assert(first == inner.after(1, taken, step.emitted()));
        assert(s.run(input, fuel + more) == next.run(rest, (fuel - 1 + more) as nat).after(
            1,
            taken,
            step.emitted(),
        ));
        if inner.outcome == Outcome::CycleLimit {
            let tail = inner.state.run(rest.skip(inner.consumed as int), more);
            lemma_run_bounds(next, rest, (fuel - 1) as nat);
            assert(rest.skip(inner.consumed as int) =~= input.skip((taken + inner.consumed) as int));
            lemma_after_after(
                tail,
                inner.cycles,
                inner.consumed,
                inner.output,
                1,
                taken,
                step.emitted(),
            );
        }
    }
}

/// A machine that stands at the end instruction has halted: its run
/// completes no cycle, takes no input and emits nothing, whatever input and
/// fuel it is given.
pub proof fn lemma_end_halts_at_once(s: State, input: Seq<u8>, fuel: nat)
    requires
        s.opcode() == 81,
    ensures
        s.run(input, fuel) == Run::stopped(s, Outcome::Halted),
{
}

/// After a cycle has rewritten the cell under the program counter, that
/// cell selects another opcode at its address than it did before, as long
/// as the word sum of cell and address wraps either both times or neither
/// time.
pub proof fn lemma_rewritten_cell_changes_opcode(s: State)
    requires
        s.wf(),
        (s.mem[s.c] + s.c < 59049) == (encrypt_spec(s.mem[s.c] % 94) + s.c < 59049),
    ensures
        decode_spec(s.encrypt_and_advance().mem[s.c], s.c) != s.opcode(),
{
    lemma_rewrite_changes_opcode(s.mem[s.c], s.c);
}

} // verus!
