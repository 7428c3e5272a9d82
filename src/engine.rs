use vstd::prelude::*;
use std::collections::HashMap;
use vstd::arithmetic::div_mod::{lemma_add_mod_noop_right, lemma_sub_mod_noop_right, lemma_mod_multiples_vanish};
use crate::instruction::{Instruction, IR, decode, parse_num_idx};
use crate::brackets::{Malformed, pairs_brackets, balanced, brackets_of};
use crate::encode::{encode, clear_loops, rle, optimize_zero_loop};
use crate::text::{chars_of, string_of};

verus! {

broadcast use vstd::std_specs::hash::group_hash_axioms;

/// Number of cells on the tape.
pub const TAPE_LEN: usize = 30000;

/// Why a run stopped before the end of the program.
#[derive(Debug, Clone, Copy, PartialEq, Eq, Structural)]
pub enum RunError {
    /// The instruction at `cursor` would move the data pointer off the tape.
    OutOfBounds { cursor: usize },
    /// The input instruction at `cursor` found no byte left to read.
    InputExhausted { cursor: usize },
    /// The run used up its step budget before the program ended.
    StepLimit,
}

/// What one step of the machine asks of whoever drives it.
#[derive(Debug, Clone, Copy, PartialEq, Eq, Structural)]
pub enum Action {
    /// Nothing to do outside: take the next step.
    Continue,
    /// Emit this byte.
    Output(u8),
    /// Read this many bytes and hand the last of them to `store_input`.
    Input(usize),
    /// The program has ended.
    Halt,
    /// The program went wrong; the machine is left as it was.
    Fault(RunError),
}

/// The state that one step works on: the tape, the data pointer and the cursor.
pub type Machine = (Seq<u8>, int, int);

/// The effect of instruction `k` with repeat count `n`, decoded at `cursor`
/// with `next` the position after it.
pub open spec fn apply(
    k: Instruction,
    n: nat,
    next: int,
    pairs: Map<usize, usize>,
    m: Machine,
) -> (Machine, Action) {
    let (tape, ptr, cursor) = m;
    match k {
        Instruction::IncCell => (
            (tape.update(ptr, ((tape[ptr] + n) % 256) as u8), ptr, next),
            Action::Continue,
        ),
        Instruction::DecCell => (
            (tape.update(ptr, ((tape[ptr] - n) % 256) as u8), ptr, next),
            Action::Continue,
        ),
        Instruction::MoveRight => if ptr + n < TAPE_LEN {
            ((tape, ptr + n, next), Action::Continue)
        } else {
            (m, Action::Fault(RunError::OutOfBounds { cursor: cursor as usize }))
        },
        Instruction::MoveLeft => if n <= ptr {
            ((tape, ptr - n, next), Action::Continue)
        } else {
            (m, Action::Fault(RunError::OutOfBounds { cursor: cursor as usize }))
        },
        Instruction::Stdout => ((tape, ptr, next), Action::Output(tape[ptr])),
        Instruction::Stdin => ((tape, ptr, next), Action::Input(n as usize)),
        Instruction::Zero => ((tape.update(ptr, 0), ptr, next), Action::Continue),
        Instruction::LBrace => if tape[ptr] == 0 {
            ((tape, ptr, jump_target(pairs, next)), Action::Continue)
        } else {
            ((tape, ptr, next), Action::Continue)
        },
        Instruction::RBrace => if tape[ptr] != 0 {
            ((tape, ptr, jump_target(pairs, next)), Action::Continue)
        } else {
            ((tape, ptr, next), Action::Continue)
        },
        Instruction::Nop => ((tape, ptr, next), Action::Continue),
    }
}

/// Where a jump from the bracket just decoded lands: decoding has already
/// moved past the bracket, so its own position is `next - 1`, and the run
/// goes on just past its partner.
pub open spec fn jump_target(pairs: Map<usize, usize>, next: int) -> int {
    pairs[(next - 1) as usize] + 1
}

/// One step of program `text` with bracket table `pairs`.
#[verifier::opaque]
pub open spec fn step_of(text: Seq<char>, pairs: Map<usize, usize>, m: Machine) -> (Machine, Action) {
    match decode(text, m.2) {
        IR::Eof => (m, Action::Halt),
        IR::Sym(k, next) => apply(k, 1, next as int, pairs, m),
        IR::CntSym(n, k, next) => apply(k, n as nat, next as int, pairs, m),
    }
}

/// ASCII upper-case letters become lower case; other bytes stay.
pub open spec fn lower_byte(b: u8) -> u8 {
    if 65 <= b <= 90 {
        (b + 32) as u8
    } else {
        b
    }
}

/// The tape has its full length and the data pointer is on it.
pub open spec fn in_range(m: Machine) -> bool {
    m.0.len() == TAPE_LEN && 0 <= m.1 < TAPE_LEN
}

/// What running at most `fuel` steps from `m` gives, reading bytes from
/// `input` and having emitted `out` so far. An input instruction with count
/// `n` reads `n` bytes and keeps the last.
pub open spec fn run_of(
    text: Seq<char>,
    pairs: Map<usize, usize>,
    m: Machine,
    input: Seq<u8>,
    out: Seq<u8>,
    fuel: nat,
) -> Result<Seq<u8>, RunError>
    decreases fuel,
{
    if fuel == 0 {
        Err(RunError::StepLimit)
    } else {
        let (m2, a) = step_of(text, pairs, m);
        match a {
            Action::Continue => run_of(text, pairs, m2, input, out, (fuel - 1) as nat),
            Action::Output(b) => run_of(text, pairs, m2, input, out.push(b), (fuel - 1) as nat),
            Action::Input(n) => if input.len() < n {
                Err(RunError::InputExhausted { cursor: m.2 as usize })
            } else {
                run_of(
                    text,
                    pairs,
                    (m2.0.update(m2.1, lower_byte(input[n - 1])), m2.1, m2.2),
                    input.skip(n as int),
                    out,
                    (fuel - 1) as nat,
                )
            },
            Action::Halt => Ok(out),
            Action::Fault(e) => Err(e),
        }
    }
}

/// The characters that stand for the bytes, one each.
pub open spec fn text_of_bytes(b: Seq<u8>) -> Seq<char> {
    Seq::new(b.len(), |i: int| (b[i] as u32) as char)
}

/// The interpreter: the compacted program, its bracket table, the tape,
/// the data pointer and the cursor into the program.
pub struct BrainFuck {
    src: Vec<char>,
    paren_map: HashMap<usize, usize>,
    cell: Vec<u8>,
    ptr: usize,
    ir_ptr: usize,
}

impl BrainFuck {
    /// The compacted program text.
    pub closed spec fn program(&self) -> Seq<char> {
        self.src@
    }

    /// The bracket table of the compacted program.
    pub closed spec fn pairs(&self) -> Map<usize, usize> {
        self.paren_map@
    }

    pub closed spec fn machine(&self) -> Machine {
        (self.cell@, self.ptr as int, self.ir_ptr as int)
    }

    pub closed spec fn wf(&self) -> bool {
        &&& self.cell@.len() == TAPE_LEN
        &&& self.ptr < TAPE_LEN
        &&& self.ir_ptr <= self.src@.len()
        &&& pairs_brackets(self.src@, self.paren_map@)
    }

    /// Prepares `src` for running: run-length encodes it, rewrites each
    /// `[-]` to the zeroing instruction and pairs the brackets of the
    /// result. Fails when those brackets do not balance.
    pub fn new(src: &str) -> (r: Result<BrainFuck, Malformed>)
        ensures
            r is Ok <==> balanced(clear_loops(encode(src@))),
            r matches Ok(b) ==> {
                &&& b.wf()
                &&& b.program() == clear_loops(encode(src@))
                &&& pairs_brackets(b.program(), b.pairs())
                &&& in_range(b.machine())
                &&& b.machine() == (Seq::new(TAPE_LEN as nat, |i: int| 0u8), 0int, 0int)
            },
    {
        let src_encoded = rle(src);
        let src_encoded = optimize_zero_loop(src_encoded.as_str());
        BrainFuck::from_text(chars_of(src_encoded.as_str()))
    }

    /// A machine that runs `text` exactly as it stands.
    pub(crate) fn from_text(text: Vec<char>) -> (r: Result<BrainFuck, Malformed>)
        ensures
            r is Ok <==> balanced(text@),
            r matches Ok(b) ==> {
                &&& b.wf()
                &&& b.program() == text@
                &&& pairs_brackets(b.program(), b.pairs())
                &&& in_range(b.machine())
                &&& b.machine() == (Seq::new(TAPE_LEN as nat, |i: int| 0u8), 0int, 0int)
            },
    {
        let paren_map = match brackets_of(&text) {
            Ok(m) => m,
            Err(e) => return Err(e),
        };
        let cell: Vec<u8> = vec![0u8; TAPE_LEN];
        assert(cell@ =~= Seq::new(TAPE_LEN as nat, |i: int| 0u8));
        Ok(BrainFuck { src: text, paren_map, cell, ptr: 0, ir_ptr: 0 })
    }

    /// The position in the compacted program of the next instruction.
    pub fn cursor(&self) -> (r: usize)
        requires
            self.wf(),
        ensures
            in_range(self.machine()),
            r == self.machine().2,
    {
        self.ir_ptr
    }

    /// Position just past the partner of the bracket that ends right
    /// before `next`.
    fn jump(&self, next: usize) -> (r: usize)
        requires
            self.wf(),
            1 <= next <= self.src@.len(),
            self.src@[next - 1] == '[' || self.src@[next - 1] == ']',
        ensures
            r == jump_target(self.paren_map@, next as int),
            r <= self.src@.len(),
    {
        let at: usize = next - 1;
        let len = self.src.len();
        assert(self.paren_map@.contains_key(at));
        assert(self.paren_map@.contains_key(self.paren_map@[at]));
        match self.paren_map.get(&at) {
            Some(t) => *t + 1,
            None => next,
        }
    }

    /// Carries out instruction `k` with repeat count `n`; `next` is the
    /// position just past it.
    fn apply_instruction(&mut self, k: Instruction, n: usize, next: usize) -> (a: Action)
        requires
            old(self).wf(),
            1 <= next <= old(self).src@.len(),
            (k == Instruction::LBrace) ==> old(self).src@[next - 1] == '[',
            (k == Instruction::RBrace) ==> old(self).src@[next - 1] == ']',
        ensures
            final(self).wf(),
            in_range(final(self).machine()),
            final(self).program() == old(self).program(),
            final(self).pairs() == old(self).pairs(),
            (final(self).machine(), a) == apply(k, n as nat, next as int, old(self).pairs(), old(self).machine()),
    {
        let p = self.ptr;
        match k {
            Instruction::IncCell => {
                let v = self.cell[p];
                let nv: u8 = ((v as usize + n % 256) % 256) as u8;
                proof {
                    lemma_add_mod_noop_right(v as int, n as int, 256);
                }
                self.cell.set(p, nv);
                self.ir_ptr = next;
                Action::Continue
            },
            Instruction::DecCell => {
                let v = self.cell[p];
                let r: usize = n % 256;
                let nv: u8 = ((v as usize + 256 - r) % 256) as u8;
                proof {
                    lemma_sub_mod_noop_right(v as int, n as int, 256);
                    lemma_mod_multiples_vanish(1, v as int - r as int, 256);
                }
                self.cell.set(p, nv);
                self.ir_ptr = next;
                Action::Continue
            },
            Instruction::MoveRight => {
                if n < TAPE_LEN - p {
                    self.ptr = p + n;
                    self.ir_ptr = next;
                    Action::Continue
                } else {
                    Action::Fault(RunError::OutOfBounds { cursor: self.ir_ptr })
                }
            },
            Instruction::MoveLeft => {
                if n <= p {
                    self.ptr = p - n;
                    self.ir_ptr = next;
                    Action::Continue
                } else {
                    Action::Fault(RunError::OutOfBounds { cursor: self.ir_ptr })
                }
            },
            Instruction::Stdout => {
                self.ir_ptr = next;
                Action::Output(self.cell[p])
            },
            Instruction::Stdin => {
                self.ir_ptr = next;
                Action::Input(n)
            },
            Instruction::Zero => {
                self.cell.set(p, 0);
                self.ir_ptr = next;
                Action::Continue
            },
            Instruction::LBrace => {
                if self.cell[p] == 0 {
                    self.ir_ptr = self.jump(next);
                } else {
                    self.ir_ptr = next;
                }
                Action::Continue
            },
            Instruction::RBrace => {
                if self.cell[p] != 0 {
                    self.ir_ptr = self.jump(next);
                } else {
                    self.ir_ptr = next;
                }
                Action::Continue
            },
            Instruction::Nop => {
                self.ir_ptr = next;
                Action::Continue
            },
        }
    }

    /// Decodes the instruction at the cursor and carries it out.
    pub fn step(&mut self) -> (a: Action)
        requires
            old(self).wf(),
        ensures
            final(self).wf(),
            in_range(final(self).machine()),
            final(self).program() == old(self).program(),
            final(self).pairs() == old(self).pairs(),
            (final(self).machine(), a) == step_of(old(self).program(), old(self).pairs(), old(self).machine()),
            a matches Action::Input(n) ==> n >= 1,
    {
        let cursor = self.ir_ptr;
        let len = self.src.len();
        proof {
            reveal(step_of);
        }
        match parse_num_idx(&self.src, &cursor) {
            IR::Eof => Action::Halt,
            IR::Sym(k, next) => {
                proof { lemma_decode_next(self.src@, cursor as int); }
                self.apply_instruction(k, 1, next)
            },
            IR::CntSym(n, k, next) => {
                proof { lemma_decode_next(self.src@, cursor as int); }
                self.apply_instruction(k, n, next)
            },
        }
    }

    /// Runs from the current state for at most `fuel` steps, reading input
    /// bytes from `input` in order, and returns what the output
    /// instructions emitted, one character per byte.
    #[verifier::rlimit(40)]
    pub fn eval(&mut self, input: &Vec<u8>, fuel: u64) -> (r: Result<String, RunError>)
        requires
            old(self).wf(),
        ensures
            final(self).wf(),
            in_range(final(self).machine()),
            final(self).program() == old(self).program(),
            final(self).pairs() == old(self).pairs(),
            ({
                let expected = run_of(old(self).program(), old(self).pairs(), old(self).machine(), input@, Seq::empty(), fuel as nat);
                match r {
                    Ok(s) => expected matches Ok(bytes) && s@ == text_of_bytes(bytes),
                    Err(e) => expected == Err::<Seq<u8>, RunError>(e),
                }
            }),
    {
        let ghost text = self.src@;
        let ghost pairs = self.paren_map@;
        let ghost expected = run_of(text, pairs, self.machine(), input@, Seq::empty(), fuel as nat);
        let mut out: Vec<char> = Vec::new();
        let mut bytes: Vec<u8> = Vec::new();
        let mut pos: usize = 0;
        let mut left: u64 = fuel;
        assert(input@.skip(0) =~= input@);
        while left > 0
            invariant
                self.wf(),
                self.src@ == text,
                self.paren_map@ == pairs,
                text == old(self).src@,
                pairs == old(self).paren_map@,
                expected == run_of(text, pairs, old(self).machine(), input@, Seq::empty(), fuel as nat),
                pos <= input@.len(),
                out@ == text_of_bytes(bytes@),
                expected == run_of(text, pairs, self.machine(), input@.skip(pos as int), bytes@, left as nat),
            decreases left,
        {
            let ghost before = self.machine();
            let ghost rest = input@.skip(pos as int);
            let ghost before_bytes = bytes@;
            let cursor = self.ir_ptr;
            let a = self.step();
            proof {
                lemma_run_step(text, pairs, before, rest, before_bytes, left as nat);
            }
            left = left - 1;
            match a {
                Action::Continue => {},
                Action::Output(b) => {
                    out.push(b as char);
                    bytes.push(b);
                    assert(out@ =~= text_of_bytes(bytes@));
                },
                Action::Input(n) => {
                    if n <= input.len() - pos {
                        self.store_input(input[pos + n - 1]);
                        assert(input@.skip(pos as int).skip(n as int) =~= input@.skip(pos + n));
                        assert(rest[n - 1] == input@[pos + n - 1]);
                        pos = pos + n;
                    } else {
                        assert(rest.len() < n);
                        return Err(RunError::InputExhausted { cursor });
                    }
                },
                Action::Halt => {
                    return Ok(string_of(&out));
                },
                Action::Fault(e) => {
                    return Err(e);
                },
            }
        }
        Err(RunError::StepLimit)
    }

    /// Stores a byte read for an input instruction in the current cell,
    /// with ASCII letters lower-cased.
    pub fn store_input(&mut self, b: u8)
        requires
            old(self).wf(),
        ensures
            final(self).wf(),
            in_range(final(self).machine()),
            final(self).program() == old(self).program(),
            final(self).pairs() == old(self).pairs(),
            final(self).machine() == (
                old(self).machine().0.update(old(self).machine().1, lower_byte(b)),
                old(self).machine().1,
                old(self).machine().2,
            ),
    {
        let v: u8 = if 65 <= b && b <= 90 { b + 32 } else { b };
        let p = self.ptr;
        self.cell.set(p, v);
    }
}

/// Cell arithmetic wraps: incrementing a cell that holds 255 leaves 0 in
/// it, and decrementing a cell that holds 0 leaves 255.
pub proof fn cell_arithmetic_wraps(pairs: Map<usize, usize>, m: Machine, next: int)
    requires
        0 <= m.1 < m.0.len(),
    ensures
        m.0[m.1] == 255 ==> apply(Instruction::IncCell, 1, next, pairs, m).0.0[m.1] == 0,
        m.0[m.1] == 0 ==> apply(Instruction::DecCell, 1, next, pairs, m).0.0[m.1] == 255,
{
}

proof fn lemma_run_step(
    text: Seq<char>,
    pairs: Map<usize, usize>,
    m: Machine,
    input: Seq<u8>,
    out: Seq<u8>,
    fuel: nat,
)
    requires
        fuel > 0,
    ensures
        ({
            let (m2, a) = step_of(text, pairs, m);
            let f = (fuel - 1) as nat;
            &&& a == Action::Continue ==> run_of(text, pairs, m, input, out, fuel) == run_of(text, pairs, m2, input, out, f)
            &&& a matches Action::Output(b) ==> run_of(text, pairs, m, input, out, fuel) == run_of(text, pairs, m2, input, out.push(b), f)
            &&& a is Input && input.len() < a->Input_0 ==> run_of(text, pairs, m, input, out, fuel) == Err::<Seq<u8>, RunError>(RunError::InputExhausted { cursor: m.2 as usize })
            &&& a is Input && input.len() >= a->Input_0 ==> run_of(text, pairs, m, input, out, fuel) == run_of(
                text,
                pairs,
                (m2.0.update(m2.1, lower_byte(input[a->Input_0 - 1])), m2.1, m2.2),
                input.skip(a->Input_0 as int),
                out,
                f,
            )
            &&& a == Action::Halt ==> run_of(text, pairs, m, input, out, fuel) == Ok::<Seq<u8>, RunError>(out)
            &&& a matches Action::Fault(e) ==> run_of(text, pairs, m, input, out, fuel) == Err::<Seq<u8>, RunError>(e)
        }),
{
}

proof fn lemma_decode_next(s: Seq<char>, c: int)
    requires
        0 <= c <= s.len() <= usize::MAX,
    ensures
        decode(s, c) matches IR::Sym(k, next) ==> 1 <= next <= s.len() && k == crate::instruction::instruction_of(s[next - 1]),
        decode(s, c) matches IR::CntSym(n, k, next) ==> 1 <= next <= s.len() && k == crate::instruction::instruction_of(s[next - 1]),
{
    crate::instruction::lemma_digits_end_bounds(s, c);
}

} // verus!
