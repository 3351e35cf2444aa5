//! The interpreter: executes a parsed program against a growable byte
//! tape and an in-memory pair of input and output byte streams.

use vstd::arithmetic::div_mod::{
    lemma_add_mod_noop, lemma_add_mod_noop_right, lemma_mod_add_multiples_vanish, lemma_small_mod,
};
use vstd::prelude::*;
use vstd::string::StringExecFns;

use crate::errors::InterpretError;
use crate::parser::{deep_seq, lemma_deep_seq_index, lemma_deep_seq_skip, Node, Token};
use crate::text::{append_u64, dec_str};

verus! {

/// The mathematical state of an interpreter: the tape, the data pointer,
/// the bytes of input not yet read, the bytes of output written so far,
/// and the instruction counter.
pub struct State {
    pub data: Seq<u8>,
    pub pointer: nat,
    pub input: Seq<u8>,
    pub output: Seq<u8>,
    pub count: u64,
}

/// How the evaluation of a program part ended.
pub enum Outcome {
    /// Every node was executed.
    Done,
    /// The data pointer would have left addressable memory.
    PointerOutsideMemory,
    /// A loop with an empty body was entered with a nonzero guard cell.
    EmptyLoop,
    /// The iteration budget ran out.
    Spent,
}

/// A state is well formed when the pointer selects a cell of the tape.
pub open spec fn state_wf(s: State) -> bool {
    s.pointer < s.data.len()
}

/// The cell the data pointer selects.
pub open spec fn cell(s: State) -> u8
    recommends
        state_wf(s),
{
    s.data[s.pointer as int]
}

/// Addition on a cell, modulo 256.
pub open spec fn byte_add(a: u8, b: u8) -> u8 {
    ((a + b) % 256) as u8
}

/// Subtraction on a cell, modulo 256.
pub open spec fn byte_sub(a: u8, b: u8) -> u8 {
    ((a + 256 - b) % 256) as u8
}

/// The instruction counter after `d` more instruction-equivalents,
/// wrapping at the 64-bit boundary.
pub open spec fn bump(c: u64, d: u64) -> u64 {
    ((c + d) % 0x1_0000_0000_0000_0000) as u64
}

/// The tape after the pointer has moved to `p`: grown with zero-filled
/// cells until it covers `p`, and never shrunk.
pub open spec fn grow(data: Seq<u8>, p: nat) -> Seq<u8> {
    if p < data.len() {
        data
    } else {
        data + Seq::new((p + 1 - data.len()) as nat, |i: int| 0u8)
    }
}

/// Executes one node from state `s`.
///
/// `fuel` bounds how often each loop may run its body: entering a loop
/// body costs one unit, and the body itself runs under the fuel that is
/// left. A run that would exceed the bound ends with [`Outcome::Spent`].
/// Every other aspect of execution is exact: the pair returned is the
/// state at the end (or at the fault) and how the run ended.
pub open spec fn eval_node(s: State, t: Node, fuel: nat) -> (State, Outcome)
    decreases fuel, t,
{
    match t {
        Node::IncrementDataPointer(i) => {
            if s.pointer + i > usize::MAX {
                (s, Outcome::PointerOutsideMemory)
            } else {
                let p = (s.pointer + i) as nat;
                (
                    State {
                        data: grow(s.data, p),
                        pointer: p,
                        count: bump(s.count, i as u64),
                        ..s
                    },
                    Outcome::Done,
                )
            }
        },
        Node::DecrementDataPointer(i) => {
            if i > s.pointer {
                (s, Outcome::PointerOutsideMemory)
            } else {
                (
                    State { pointer: (s.pointer - i) as nat, count: bump(s.count, i as u64), ..s },
                    Outcome::Done,
                )
            }
        },
        Node::IncrementByte(i) => {
            (
                State {
                    data: s.data.update(s.pointer as int, byte_add(cell(s), i)),
                    count: bump(s.count, i as u64),
                    ..s
                },
                Outcome::Done,
            )
        },
        Node::DecrementByte(i) => {
            (
                State {
                    data: s.data.update(s.pointer as int, byte_sub(cell(s), i)),
                    count: bump(s.count, i as u64),
                    ..s
                },
                Outcome::Done,
            )
        },
        Node::WriteByte => {
            (State { output: s.output.push(cell(s)), count: bump(s.count, 1), ..s }, Outcome::Done)
        },
        Node::ReadByte => {
            if s.input.len() > 0 {
                (
                    State {
                        data: s.data.update(s.pointer as int, s.input[0]),
                        input: s.input.drop_first(),
                        count: bump(s.count, 1),
                        ..s
                    },
                    Outcome::Done,
                )
            } else {
                (State { count: bump(s.count, 1), ..s }, Outcome::Done)
            }
        },
        Node::Loop(body) => {
            if cell(s) == 0 {
                (s, Outcome::Done)
            } else if body.len() == 0 {
                (s, Outcome::EmptyLoop)
            } else if fuel == 0 {
                (s, Outcome::Spent)
            } else {
                let (s1, o) = eval_seq(s, body, fuel);
                if o is Done {
                    eval_node(s1, Node::Loop(body), (fuel - 1) as nat)
                } else {
                    (s1, o)
                }
            }
        },
    }
}

/// Executes a sequence of nodes in order from state `s`, stopping at the
/// first node whose outcome is not [`Outcome::Done`].
pub open spec fn eval_seq(s: State, code: Seq<Node>, fuel: nat) -> (State, Outcome)
    decreases fuel, code,
{
    if code.len() == 0 {
        (s, Outcome::Done)
    } else {
        let (s1, o) = eval_node(s, code[0], fuel);
        if o is Done {
            eval_seq(s1, code.drop_first(), fuel)
        } else {
            (s1, o)
        }
    }
}

/// Whether an interpret result reports exactly the given outcome. An
/// in-memory output stream cannot fail, so no run ends in a write error.
pub open spec fn reflects_outcome(r: Result<(), InterpretError>, o: Outcome) -> bool {
    match r {
        Ok(()) => o is Done,
        Err(e) => match e {
            InterpretError::DataPointerOutsideMemory => o is PointerOutsideMemory,
            InterpretError::EmptyLoop => o is EmptyLoop,
            InterpretError::StepLimitExceeded => o is Spent,
            InterpretError::WriteError(_) => false,
        },
    }
}

/// A snapshot of the interpreter's execution statistics.
#[derive(Clone, Copy, Debug, PartialEq, Eq, Structural)]
pub struct InterpretStats {
    /// How many instruction-equivalents have been executed: pointer and
    /// cell operations count by the magnitude of their delta, input and
    /// output operations count one each.
    pub instruction_count: u64,
    /// The current length of the tape.
    pub used_memory: usize,
}

impl InterpretStats {
    /// A human-readable description of the statistics.
    pub fn message(&self) -> (r: String)
        ensures
            r@ == "instruction count: "@ + dec_str(self.instruction_count as nat)
                + ", used memory: "@ + dec_str(self.used_memory as nat),
    {
        let mut s = "instruction count: ".to_owned();
        append_u64(&mut s, self.instruction_count);
        s.append(", used memory: ");
        append_u64(&mut s, self.used_memory as u64);
        s
    }
}

/// Holds interpreter state: the tape, the data pointer, the byte streams
/// and the instruction counter.
pub struct Interpreter {
    data: Vec<u8>,
    data_pointer: usize,
    input: Vec<u8>,
    input_pos: usize,
    output: Vec<u8>,
    instruction_count: u64,
}

impl View for Interpreter {
    type V = State;

    closed spec fn view(&self) -> State {
        State {
            data: self.data@,
            pointer: self.data_pointer as nat,
            input: self.input@.skip(self.input_pos as int),
            output: self.output@,
            count: self.instruction_count,
        }
    }
}

impl Interpreter {
    /// The interpreter's internal invariant: the pointer selects a cell
    /// of the tape, and the read position lies within the input buffer.
    pub closed spec fn wf(&self) -> bool {
        &&& self.data_pointer < self.data@.len()
        &&& self.input_pos <= self.input@.len()
    }

    /// A well-formed interpreter views to a well-formed state.
    pub proof fn lemma_wf_view(&self)
        requires
            self.wf(),
        ensures
            state_wf(self@),
    {
    }

    /// Creates a new interpreter that reads from `input` and appends what
    /// the program writes to `output`. The tape starts as a single zero
    /// cell and the instruction counter at zero.
    #[must_use]
    pub fn new(input: Vec<u8>, output: Vec<u8>) -> (r: Interpreter)
        ensures
            r.wf(),
            r@ == (State {
                data: seq![0u8],
                pointer: 0,
                input: input@,
                output: output@,
                count: 0,
            }),
    {
        let mut data = Vec::with_capacity(64);
        data.push(0);

        let r = Interpreter {
            data,
            data_pointer: 0,
            input,
            input_pos: 0,
            output,
            instruction_count: 0,
        };
        proof {
            assert(r@.data =~= seq![0u8]);
            assert(r@.input =~= r.input@);
        }
        r
    }

    /// Returns current interpreter stats.
    #[must_use]
    pub fn stats(&self) -> (r: InterpretStats)
        ensures
            r == stats_spec(self@),
    {
        InterpretStats { instruction_count: self.instruction_count, used_memory: self.data.len() }
    }

    /// Resets the tape to a single zero cell, the pointer to zero and the
    /// instruction counter to zero. The attached streams are not touched:
    /// input already read stays read, output already written stays
    /// written.
    pub fn reset(&mut self)
        requires
            old(self).wf(),
        ensures
            final(self).wf(),
            final(self)@ == reset_spec(old(self)@),
    {
        self.data_pointer = 0;
        self.data.clear();
        self.data.push(0);
        self.instruction_count = 0;
        proof {
            assert(self@.data =~= seq![0u8]);
        }
    }

    /// The bytes the program has written so far.
    #[must_use]
    pub fn output(&self) -> (r: &Vec<u8>)
        ensures
            r@ == self@.output,
    {
        &self.output
    }

    /// Evaluates a token tree.
    ///
    /// Runs under an iteration budget of `u64::MAX` loop entries per
    /// loop, which no realizable execution exhausts; a run that would is
    /// reported as [`InterpretError::StepLimitExceeded`].
    ///
    /// # Errors
    ///
    /// This function will return an error if the data pointer moves
    /// outside of available memory, the interpreter gets stuck in an
    /// empty loop, or the iteration budget runs out.
    pub fn interpret(&mut self, code: &[Token]) -> (r: Result<(), InterpretError>)
        requires
            old(self).wf(),
        ensures
            final(self).wf(),
            ({
                let (s2, oc) = eval_seq(old(self)@, deep_seq(code@), u64::MAX as nat);
                final(self)@ == s2 && reflects_outcome(r, oc)
            }),
    {
        self.run(code, u64::MAX)
    }

    /// Evaluates a sequence of tokens in order under the given iteration
    /// budget, stopping at the first error.
    fn run(&mut self, code: &[Token], fuel: u64) -> (r: Result<(), InterpretError>)
        requires
            old(self).wf(),
        ensures
            final(self).wf(),
            ({
                let (s2, oc) = eval_seq(old(self)@, deep_seq(code@), fuel as nat);
                final(self)@ == s2 && reflects_outcome(r, oc)
            }),
        decreases code@,
    {
        proof {
            assert(code@.skip(0) =~= code@);
        }
        let mut i: usize = 0;
        while i < code.len()
            invariant
                self.wf(),
                i <= code@.len(),
                ({
                    let (s2, oc) = eval_seq(old(self)@, deep_seq(code@), fuel as nat);
                    let (s2b, ocb) = eval_seq(self@, deep_seq(code@.skip(i as int)), fuel as nat);
                    s2 == s2b && oc == ocb
                }),
            decreases code@.len() - i,
        {
            proof {
                lemma_deep_seq_skip(code@, i as int);
            }
            let r = self.evaluate(&code[i], fuel);
            if let Err(e) = r {
                return Err(e);
            }
            i = i + 1;
        }
        proof {
            lemma_deep_seq_index(code@.skip(i as int));
        }
        Ok(())
    }

    /// Evaluates a single token under the given iteration budget.
    #[verifier::rlimit(60)]
    fn evaluate(&mut self, instruction: &Token, fuel: u64) -> (r: Result<(), InterpretError>)
        requires
            old(self).wf(),
        ensures
            final(self).wf(),
            ({
                let (s2, oc) = eval_node(old(self)@, instruction.deep(), fuel as nat);
                final(self)@ == s2 && reflects_outcome(r, oc)
            }),
        decreases instruction,
    {
        match instruction {
            Token::IncrementDataPointer(i) => {
                let r = self.op_move_right(*i);
                proof {
                    assert(eval_node(old(self)@, instruction.deep(), fuel as nat) == eval_node(
                        old(self)@,
                        Node::IncrementDataPointer(*i),
                        0,
                    ));
                }
                r
            },
            Token::DecrementDataPointer(i) => {
                let r = self.op_move_left(*i);
                proof {
                    assert(eval_node(old(self)@, instruction.deep(), fuel as nat) == eval_node(
                        old(self)@,
                        Node::DecrementDataPointer(*i),
                        0,
                    ));
                }
                r
            },
            Token::IncrementByte(i) => {
                let r = self.op_add(*i);
                proof {
                    assert(eval_node(old(self)@, instruction.deep(), fuel as nat) == eval_node(
                        old(self)@,
                        Node::IncrementByte(*i),
                        0,
                    ));
                }
                r
            },
            Token::DecrementByte(i) => {
                let r = self.op_sub(*i);
                proof {
                    assert(eval_node(old(self)@, instruction.deep(), fuel as nat) == eval_node(
                        old(self)@,
                        Node::DecrementByte(*i),
                        0,
                    ));
                }
                r
            },
            Token::WriteByte => {
                let r = self.op_write();
                proof {
                    assert(eval_node(old(self)@, instruction.deep(), fuel as nat) == eval_node(
                        old(self)@,
                        Node::WriteByte,
                        0,
                    ));
                }
                r
            },
            Token::ReadByte => {
                let r = self.op_read();
                proof {
                    assert(eval_node(old(self)@, instruction.deep(), fuel as nat) == eval_node(
                        old(self)@,
                        Node::ReadByte,
                        0,
                    ));
                }
                r
            },
            Token::Loop(code) => {
                let ghost t = instruction.deep();
                proof {
                    lemma_deep_seq_index(code@);
                }
                let mut remaining = fuel;
                while self.get_value() != 0
                    invariant
                        self.wf(),
                        *instruction == Token::Loop(*code),
                        t == instruction.deep(),
                        t == Node::Loop(deep_seq(code@)),
                        ({
                            let (s2, oc) = eval_node(old(self)@, t, fuel as nat);
                            let (s2b, ocb) = eval_node(self@, t, remaining as nat);
                            s2 == s2b && oc == ocb
                        }),
                    decreases remaining,
                {
                    proof {
                        lemma_deep_seq_index(code@);
                    }
                    if code.is_empty() {
                        return Err(InterpretError::EmptyLoop);
                    }
                    if remaining == 0 {
                        return Err(InterpretError::StepLimitExceeded);
                    }
                    proof {
                        assert(decreases_to!(*instruction => (*instruction)->Loop_0));
                        assert(decreases_to!((*instruction)->Loop_0 => ((*instruction)->Loop_0)@));
                        assert(((*instruction)->Loop_0)@ == code@);
                    }
                    let r = self.run(code.as_slice(), remaining);
                    if let Err(e) = r {
                        return Err(e);
                    }
                    remaining = remaining - 1;
                }
                Ok(())
            },
        }
    }

    /// Moves the data pointer right by `i`, growing the tape with zero
    /// cells until it covers the new position.
    fn op_move_right(&mut self, i: usize) -> (r: Result<(), InterpretError>)
        requires
            old(self).wf(),
        ensures
            final(self).wf(),
            ({
                let (s2, oc) = eval_node(old(self)@, Node::IncrementDataPointer(i), 0);
                final(self)@ == s2 && reflects_outcome(r, oc)
            }),
    {
        let p = match self.data_pointer.checked_add(i) {
            Some(p) => p,
            None => {
                return Err(InterpretError::DataPointerOutsideMemory);
            },
        };
        self.data_pointer = p;
        self.instruction_count = self.instruction_count.wrapping_add(i as u64);

        while self.data_pointer >= self.data.len()
            invariant
                self.data_pointer == p,
                self.input_pos == old(self).input_pos,
                self.input@ == old(self).input@,
                self.output@ == old(self).output@,
                self.instruction_count == bump(old(self)@.count, i as u64),
                old(self).data@.len() <= self.data@.len(),
                self.data@.len() <= p + 1 || self.data@.len() == old(self).data@.len(),
                self.data@ =~= old(self).data@ + Seq::new(
                    (self.data@.len() - old(self).data@.len()) as nat,
                    |k: int| 0u8,
                ),
            decreases p + 1 - self.data@.len(),
        {
            self.data.push(0);
        }
        proof {
            assert(self@.data =~= grow(old(self)@.data, p as nat));
            assert(self@.input =~= old(self)@.input);
        }
        Ok(())
    }

    /// Moves the data pointer left by `i`; the tape never shrinks.
    fn op_move_left(&mut self, i: usize) -> (r: Result<(), InterpretError>)
        requires
            old(self).wf(),
        ensures
            final(self).wf(),
            ({
                let (s2, oc) = eval_node(old(self)@, Node::DecrementDataPointer(i), 0);
                final(self)@ == s2 && reflects_outcome(r, oc)
            }),
    {
        let p = match self.data_pointer.checked_sub(i) {
            Some(p) => p,
            None => {
                return Err(InterpretError::DataPointerOutsideMemory);
            },
        };
        self.data_pointer = p;
        self.instruction_count = self.instruction_count.wrapping_add(i as u64);
        Ok(())
    }

    /// Adds `i` to the current cell, modulo 256.
    fn op_add(&mut self, i: u8) -> (r: Result<(), InterpretError>)
        requires
            old(self).wf(),
        ensures
            final(self).wf(),
            ({
                let (s2, oc) = eval_node(old(self)@, Node::IncrementByte(i), 0);
                final(self)@ == s2 && reflects_outcome(r, oc)
            }),
    {
        self.set_value(self.get_value().wrapping_add(i));
        self.instruction_count = self.instruction_count.wrapping_add(i as u64);
        Ok(())
    }

    /// Subtracts `i` from the current cell, modulo 256.
    fn op_sub(&mut self, i: u8) -> (r: Result<(), InterpretError>)
        requires
            old(self).wf(),
        ensures
            final(self).wf(),
            ({
                let (s2, oc) = eval_node(old(self)@, Node::DecrementByte(i), 0);
                final(self)@ == s2 && reflects_outcome(r, oc)
            }),
    {
        self.set_value(self.get_value().wrapping_sub(i));
        self.instruction_count = self.instruction_count.wrapping_add(i as u64);
        Ok(())
    }

    /// Emits the current cell as one byte of output.
    fn op_write(&mut self) -> (r: Result<(), InterpretError>)
        requires
            old(self).wf(),
        ensures
            final(self).wf(),
            ({
                let (s2, oc) = eval_node(old(self)@, Node::WriteByte, 0);
                final(self)@ == s2 && reflects_outcome(r, oc)
            }),
    {
        let v = self.get_value();
        self.output.push(v);
        self.instruction_count = self.instruction_count.wrapping_add(1);
        Ok(())
    }

    /// Reads one byte of input into the current cell; at end of input
    /// the cell is left unchanged, which is not an error.
    fn op_read(&mut self) -> (r: Result<(), InterpretError>)
        requires
            old(self).wf(),
        ensures
            final(self).wf(),
            ({
                let (s2, oc) = eval_node(old(self)@, Node::ReadByte, 0);
                final(self)@ == s2 && reflects_outcome(r, oc)
            }),
    {
        if self.input_pos < self.input.len() {
            let byte = self.input[self.input_pos];
            self.input_pos = self.input_pos + 1;
            self.set_value(byte);
            proof {
                assert(self@.input =~= old(self)@.input.drop_first());
            }
        } else {
            proof {
                assert(self@.input =~= old(self)@.input);
            }
        }
        self.instruction_count = self.instruction_count.wrapping_add(1);
        Ok(())
    }

    /// Reads the current memory position.
    fn get_value(&self) -> (r: u8)
        requires
            self.wf(),
        ensures
            r == cell(self@),
    {
        self.data[self.data_pointer]
    }

    /// Writes to the current memory position.
    fn set_value(&mut self, value: u8)
        requires
            old(self).wf(),
        ensures
            final(self).wf(),
            final(self)@ == (State {
                data: old(self)@.data.update(old(self)@.pointer as int, value),
                ..old(self)@
            }),
    {
        self.data[self.data_pointer] = value;
    }
}

/// The state after an explicit reset: a single zero cell, the pointer
/// and counter at zero, the streams untouched.
pub open spec fn reset_spec(s: State) -> State {
    State { data: seq![0u8], pointer: 0, input: s.input, output: s.output, count: 0 }
}

/// The statistics a state reports.
pub open spec fn stats_spec(s: State) -> InterpretStats {
    InterpretStats { instruction_count: s.count, used_memory: s.data.len() as usize }
}

/// Reset idempotence: after a reset the statistics are always a zero
/// instruction count and one cell of used memory, whatever ran before.
pub proof fn lemma_reset_stats(s: State)
    ensures
        stats_spec(reset_spec(s)) == (InterpretStats { instruction_count: 0, used_memory: 1 }),
{
}

/// Interpreting is deterministic: execution is a function of the start
/// state, the program and the budget alone, so equal states fed the
/// same program end in the same state -- same output, same statistics --
/// with the same outcome.
pub proof fn lemma_interpret_deterministic(s1: State, s2: State, code: Seq<Node>, fuel: nat)
    requires
        s1 == s2,
    ensures
        eval_seq(s1, code, fuel) == eval_seq(s2, code, fuel),
{
}

/// The iteration budget cannot change what a run computes, only whether
/// it finishes: a node whose run does not exhaust the budget behaves
/// identically under any larger budget.
pub proof fn lemma_eval_node_fuel_mono(s: State, t: Node, f1: nat, f2: nat)
    requires
        f1 <= f2,
        !(eval_node(s, t, f1).1 is Spent),
    ensures
        eval_node(s, t, f2) == eval_node(s, t, f1),
    decreases f1, t,
{
    match t {
        Node::Loop(body) => {
            if cell(s) != 0 && body.len() != 0 {
                let (s1, o) = eval_seq(s, body, f1);
                lemma_eval_seq_fuel_mono(s, body, f1, f2);
                if o is Done {
                    lemma_eval_node_fuel_mono(s1, t, (f1 - 1) as nat, (f2 - 1) as nat);
                }
            }
        },
        _ => {},
    }
}

/// The sequence form of [`lemma_eval_node_fuel_mono`].
pub proof fn lemma_eval_seq_fuel_mono(s: State, code: Seq<Node>, f1: nat, f2: nat)
    requires
        f1 <= f2,
        !(eval_seq(s, code, f1).1 is Spent),
    ensures
        eval_seq(s, code, f2) == eval_seq(s, code, f1),
    decreases f1, code,
{
    if code.len() > 0 {
        let (s1, o) = eval_node(s, code[0], f1);
        lemma_eval_node_fuel_mono(s, code[0], f1, f2);
        if o is Done {
            lemma_eval_seq_fuel_mono(s1, code.drop_first(), f1, f2);
        }
    }
}

/// Whether every node of `code` only modifies the current cell.
pub open spec fn all_cell_ops(code: Seq<Node>) -> bool {
    forall|i: int|
        0 <= i < code.len() ==> (code[i] is IncrementByte || code[i] is DecrementByte)
}

/// The net cell delta of a sequence of cell-modifying nodes.
pub open spec fn net_cell(code: Seq<Node>) -> int
    decreases code.len(),
{
    if code.len() == 0 {
        0
    } else {
        (match code[0] {
            Node::IncrementByte(i) => i as int,
            Node::DecrementByte(i) => -(i as int),
            _ => 0,
        }) + net_cell(code.drop_first())
    }
}

/// Running a sequence of cell-modifying nodes always succeeds, touches
/// nothing but the current cell and the counter, and leaves the cell at
/// its old value plus the net delta, modulo 256 -- under any budget.
pub proof fn lemma_cell_ops(s: State, code: Seq<Node>, fuel: nat)
    requires
        state_wf(s),
        all_cell_ops(code),
    ensures
        ({
            let (s2, o) = eval_seq(s, code, fuel);
            &&& o is Done
            &&& s2.pointer == s.pointer
            &&& s2.input == s.input
            &&& s2.output == s.output
            &&& s2.data == s.data.update(
                s.pointer as int,
                (((cell(s) + net_cell(code)) % 256) as u8),
            )
        }),
    decreases code.len(),
{
    let p = s.pointer as int;
    let c = cell(s) as int;
    if code.len() == 0 {
        assert((c + 0) % 256 == c) by {
            lemma_small_mod(cell(s) as nat, 256);
        }
        assert(s.data.update(p, (((cell(s) + 0) % 256) as u8)) =~= s.data);
    } else {
        let (s1, o1) = eval_node(s, code[0], fuel);
        let rest = code.drop_first();
        let net = net_cell(rest);
        match code[0] {
            Node::IncrementByte(i) => {
                lemma_cell_ops(s1, rest, fuel);
                assert(cell(s1) == byte_add(cell(s), i));
                assert(((byte_add(cell(s), i) + net) % 256) == ((c + i + net) % 256)) by {
                    lemma_add_mod_noop_right((c + i) % 256, net, 256);
                    lemma_add_mod_noop(c + i, net, 256);
                    lemma_add_mod_noop_right(c + i, net, 256);
                }
                let (s2, o) = eval_seq(s1, rest, fuel);
                assert(s2.data =~= s.data.update(
                    p,
                    (((cell(s) + net_cell(code)) % 256) as u8),
                ));
            },
            Node::DecrementByte(i) => {
                lemma_cell_ops(s1, rest, fuel);
                assert(cell(s1) == byte_sub(cell(s), i));
                assert(((byte_sub(cell(s), i) + net) % 256) == ((c - i + net) % 256)) by {
                    lemma_mod_add_multiples_vanish(c - i, 256);
                    lemma_add_mod_noop_right((c - i) % 256, net, 256);
                    lemma_add_mod_noop(c - i, net, 256);
                    lemma_add_mod_noop_right(c - i, net, 256);
                }
                let (s2, o) = eval_seq(s1, rest, fuel);
                assert(s2.data =~= s.data.update(
                    p,
                    (((cell(s) + net_cell(code)) % 256) as u8),
                ));
            },
            _ => {
                assert(false);
            },
        }
    }
}

/// Round-trip: a run of cell modifications whose net delta is a multiple
/// of 256 is a no-op on cell contents -- the tape, the pointer and both
/// streams come out exactly as they went in.
pub proof fn lemma_modify_cell_round_trip(s: State, code: Seq<Node>, fuel: nat)
    requires
        state_wf(s),
        all_cell_ops(code),
        net_cell(code) % 256 == 0,
    ensures
        ({
            let (s2, o) = eval_seq(s, code, fuel);
            &&& o is Done
            &&& s2.data == s.data
            &&& s2.pointer == s.pointer
            &&& s2.input == s.input
            &&& s2.output == s.output
        }),
{
    lemma_cell_ops(s, code, fuel);
    assert(((cell(s) + net_cell(code)) % 256) == cell(s)) by {
        lemma_add_mod_noop_right(cell(s) as int, net_cell(code), 256);
        lemma_small_mod(cell(s) as nat, 256);
    }
    assert(s.data.update(s.pointer as int, cell(s)) =~= s.data);
}

/// The tape-growth invariant: while a program runs the tape never
/// shrinks, and the pointer always stays on the tape.
pub proof fn lemma_eval_node_preserves_wf(s: State, t: Node, fuel: nat)
    requires
        state_wf(s),
    ensures
        ({
            let (s2, o) = eval_node(s, t, fuel);
            state_wf(s2) && s.data.len() <= s2.data.len()
        }),
    decreases fuel, t,
{
    match t {
        Node::Loop(body) => {
            if cell(s) != 0 && body.len() != 0 && fuel != 0 {
                let (s1, o) = eval_seq(s, body, fuel);
                lemma_eval_seq_preserves_wf(s, body, fuel);
                if o is Done {
                    lemma_eval_node_preserves_wf(s1, t, (fuel - 1) as nat);
                }
            }
        },
        _ => {},
    }
}

/// The sequence form of [`lemma_eval_node_preserves_wf`].
pub proof fn lemma_eval_seq_preserves_wf(s: State, code: Seq<Node>, fuel: nat)
    requires
        state_wf(s),
    ensures
        ({
            let (s2, o) = eval_seq(s, code, fuel);
            state_wf(s2) && s.data.len() <= s2.data.len()
        }),
    decreases fuel, code,
{
    if code.len() > 0 {
        let (s1, o) = eval_node(s, code[0], fuel);
        lemma_eval_node_preserves_wf(s, code[0], fuel);
        if o is Done {
            lemma_eval_seq_preserves_wf(s1, code.drop_first(), fuel);
        }
    }
}

} // verus!
