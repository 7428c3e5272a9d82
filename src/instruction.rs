use vstd::prelude::*;

verus! {

/// The operation that one character of program text stands for.
#[derive(Debug, Clone, Copy, PartialEq, Eq, Structural)]
pub enum Instruction {
    MoveLeft,
    MoveRight,
    IncCell,
    DecCell,
    LBrace,
    RBrace,
    Stdout,
    Stdin,
    Nop,
    Zero,
}

/// What a character means as an instruction.
pub open spec fn instruction_of(c: char) -> Instruction {
    if c == '+' {
        Instruction::IncCell
    } else if c == '-' {
        Instruction::DecCell
    } else if c == '[' {
        Instruction::LBrace
    } else if c == ']' {
        Instruction::RBrace
    } else if c == '.' {
        Instruction::Stdout
    } else if c == ',' {
        Instruction::Stdin
    } else if c == '<' {
        Instruction::MoveLeft
    } else if c == '>' {
        Instruction::MoveRight
    } else if c == '|' {
        Instruction::Zero
    } else {
        Instruction::Nop
    }
}

/// Instructions that may carry a repeat count.
pub open spec fn is_repeatable(i: Instruction) -> bool {
    match i {
        Instruction::IncCell | Instruction::DecCell | Instruction::MoveLeft
        | Instruction::MoveRight | Instruction::Stdin => true,
        _ => false,
    }
}

pub open spec fn is_digit(c: char) -> bool {
    '0' <= c && c <= '9'
}

pub open spec fn digit_value(c: char) -> nat {
    (c as nat - '0' as nat) as nat
}

/// The number that a run of decimal digits denotes.
pub open spec fn number_of(ds: Seq<char>) -> nat
    decreases ds.len(),
{
    if ds.len() == 0 {
        0
    } else {
        number_of(ds.drop_last()) * 10 + digit_value(ds.last())
    }
}

/// The position of the first non-digit at or after `i`.
pub open spec fn digits_end(s: Seq<char>, i: int) -> int
    decreases s.len() - i,
{
    if 0 <= i < s.len() && is_digit(s[i]) {
        digits_end(s, i + 1)
    } else {
        i
    }
}

/// Conversion of a character to the instruction it stands for.
pub trait ToInstruction {
    fn to_ir(self) -> Instruction;
}

impl ToInstruction for char {
    fn to_ir(self) -> (r: Instruction)
        ensures
            r == instruction_of(self),
    {
        match self {
            '+' => Instruction::IncCell,
            '-' => Instruction::DecCell,
            '[' => Instruction::LBrace,
            ']' => Instruction::RBrace,
            '.' => Instruction::Stdout,
            ',' => Instruction::Stdin,
            '<' => Instruction::MoveLeft,
            '>' => Instruction::MoveRight,
            '|' => Instruction::Zero,
            _ => Instruction::Nop,
        }
    }
}

impl Instruction {
    /// The character that stands for this instruction (`Nop` is a space).
    pub fn to_char(&self) -> (c: char)
        ensures
            *self != Instruction::Nop ==> instruction_of(c) == *self,
            *self == Instruction::Nop ==> instruction_of(c) == Instruction::Nop,
    {
        match self {
            Instruction::IncCell => '+',
            Instruction::DecCell => '-',
            Instruction::LBrace => '[',
            Instruction::RBrace => ']',
            Instruction::Stdout => '.',
            Instruction::Stdin => ',',
            Instruction::MoveLeft => '<',
            Instruction::MoveRight => '>',
            Instruction::Zero => '|',
            Instruction::Nop => ' ',
        }
    }
}

/// One decoded step of program text.
#[derive(Debug, Clone, Copy, PartialEq, Eq, Structural)]
pub enum IR {
    /// A single instruction and the cursor just past it.
    Sym(Instruction, usize),
    /// A repeat count, the instruction and the cursor just past it.
    CntSym(usize, Instruction, usize),
    /// The cursor stands at the end of the text.
    Eof,
}

/// What decoding `s` at cursor `c` yields: an optional decimal count, then
/// one instruction character. A count is kept only when it is positive, fits
/// in a `usize` and the instruction may repeat. Digits that run to the end
/// of the text are a no-op that ends there.
pub open spec fn decode(s: Seq<char>, c: int) -> IR {
    let e = digits_end(s, c);
    let n = number_of(s.subrange(c, e));
    if c >= s.len() {
        IR::Eof
    } else if e >= s.len() {
        IR::Sym(Instruction::Nop, s.len() as usize)
    } else if e > c && 1 <= n <= usize::MAX && is_repeatable(instruction_of(s[e])) {
        IR::CntSym(n as usize, instruction_of(s[e]), (e + 1) as usize)
    } else {
        IR::Sym(instruction_of(s[e]), (e + 1) as usize)
    }
}

pub(crate) proof fn lemma_digits_end_bounds(s: Seq<char>, i: int)
    requires
        0 <= i <= s.len(),
    ensures
        i <= digits_end(s, i) <= s.len(),
        forall|k: int| i <= k < digits_end(s, i) ==> is_digit(#[trigger] s[k]),
        digits_end(s, i) < s.len() ==> !is_digit(s[digits_end(s, i)]),
    decreases s.len() - i,
{
    if i < s.len() && is_digit(s[i]) {
        lemma_digits_end_bounds(s, i + 1);
    }
}

/// Decodes the instruction at `*ir_ptr` in `s`; the cursor itself is left
/// as it is, and the position after the instruction is in the result.
pub fn parse_num_idx(s: &Vec<char>, ir_ptr: &usize) -> (r: IR)
    requires
        *ir_ptr <= s@.len(),
    ensures
        r == decode(s@, *ir_ptr as int),
{
    let start = *ir_ptr;
    let len = s.len();
    if start == len {
        return IR::Eof;
    }
    let mut i: usize = start;
    let mut acc: usize = 0;
    let mut fits: bool = true;
    while i < len && '0' <= s[i] && s[i] <= '9'
        invariant
            start <= i <= len,
            len == s@.len(),
            digits_end(s@, start as int) == digits_end(s@, i as int),
            forall|k: int| start <= k < i ==> is_digit(#[trigger] s@[k]),
            fits ==> acc == number_of(s@.subrange(start as int, i as int)),
            !fits ==> number_of(s@.subrange(start as int, i as int)) > usize::MAX,
        decreases len - i,
    {
        let d = s[i];
        let ghost pre = s@.subrange(start as int, i as int);
        let ghost cur = s@.subrange(start as int, i + 1);
        assert(cur.drop_last() =~= pre);
        assert(cur.last() == d);
        let dv: usize = (d as u32 - '0' as u32) as usize;
        assert(number_of(cur) == number_of(pre) * 10 + dv);
        if fits {
            if acc <= (usize::MAX - dv) / 10 {
                acc = acc * 10 + dv;
            } else {
                fits = false;
            }
        } else {
            assert(number_of(pre) * 10 + dv > usize::MAX) by (nonlinear_arith)
                requires number_of(pre) > usize::MAX;
        }
        i = i + 1;
    }
    proof {
        lemma_digits_end_bounds(s@, i as int);
    }
    if i == len {
        return IR::Sym(Instruction::Nop, len);
    }
    let kind = s[i].to_ir();
    let repeatable = match kind {
        Instruction::IncCell | Instruction::DecCell | Instruction::MoveLeft
        | Instruction::MoveRight | Instruction::Stdin => true,
        _ => false,
    };
    if i > start && fits && acc >= 1 && repeatable {
        IR::CntSym(acc, kind, i + 1)
    } else {
        IR::Sym(kind, i + 1)
    }
}

} // verus!
