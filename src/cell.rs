use vstd::prelude::*;
use crate::instruction::{Instruction, instruction_of, ToInstruction};
use crate::brackets::{Malformed, balanced, brackets_of};
use crate::encode::{encode, rle};
use crate::text::chars_of;
use crate::engine::TAPE_LEN;

verus! {

/// A plain reader of raw program text: a tape, a data pointer, the
/// program as characters and an instruction pointer into it.
pub struct Brain {
    cell: Vec<u8>,
    ptr: usize,
    src: Vec<char>,
    ins_ptr: usize,
}

impl Brain {
    pub closed spec fn program(&self) -> Seq<char> {
        self.src@
    }

    pub closed spec fn position(&self) -> int {
        self.ins_ptr as int
    }

    pub closed spec fn tape(&self) -> Seq<u8> {
        self.cell@
    }

    pub closed spec fn data_ptr(&self) -> int {
        self.ptr as int
    }

    /// An empty program, a zeroed tape and both pointers at zero.
    pub fn new() -> (r: Brain)
        ensures
            r.program() == Seq::<char>::empty(),
            r.position() == 0,
            r.data_ptr() == 0,
            r.tape() == Seq::new(TAPE_LEN as nat, |i: int| 0u8),
    {
        let cell: Vec<u8> = vec![0u8; TAPE_LEN];
        assert(cell@ =~= Seq::new(TAPE_LEN as nat, |i: int| 0u8));
        Brain { cell, ptr: 0, src: Vec::new(), ins_ptr: 0 }
    }

    /// Steps the instruction pointer back by one, stopping at zero.
    pub fn decr_ptr(&mut self)
        ensures
            final(self).position() == if old(self).position() == 0 {
                0
            } else {
                old(self).position() - 1
            },
            final(self).program() == old(self).program(),
            final(self).tape() == old(self).tape(),
            final(self).data_ptr() == old(self).data_ptr(),
    {
        if self.ins_ptr != 0 {
            self.ins_ptr = self.ins_ptr - 1;
        }
    }

    /// Steps the instruction pointer forward by one, stopping at the end of
    /// the program.
    pub fn incr_ptr(&mut self)
        ensures
            final(self).position() == if old(self).position() < old(self).program().len() {
                old(self).position() + 1
            } else {
                old(self).position()
            },
            final(self).program() == old(self).program(),
            final(self).tape() == old(self).tape(),
            final(self).data_ptr() == old(self).data_ptr(),
    {
        if self.ins_ptr < self.src.len() {
            self.ins_ptr = self.ins_ptr + 1;
        }
    }

    /// The instruction a raw program character stands for; this reader
    /// knows no zeroing instruction, so `|` is a no-op here.
    pub fn parse_instruction(&mut self, ins_buff: char) -> (r: Result<Instruction, ()>)
        ensures
            r == Ok::<Instruction, ()>(if ins_buff == '|' {
                Instruction::Nop
            } else {
                instruction_of(ins_buff)
            }),
            *final(self) == *old(self),
    {
        if ins_buff == '|' {
            Ok(Instruction::Nop)
        } else {
            Ok(ins_buff.to_ir())
        }
    }

    /// Expansion of the reader's program; this reader keeps no compacted
    /// form, so there is nothing to expand and the result is empty.
    pub fn expand(&mut self) -> (r: String)
        ensures
            r@.len() == 0,
            *final(self) == *old(self),
    {
        String::new()
    }

    /// Takes `src` as this reader's program and returns its run-length
    /// encoding; fails, leaving the reader as it was, when the brackets of
    /// `src` do not balance.
    pub fn pre_process(&mut self, src: &str) -> (r: Result<String, Malformed>)
        ensures
            r is Ok <==> balanced(src@),
            r matches Ok(e) ==> e@ == encode(src@) && final(self).program() == src@
                && final(self).position() == 0,
            r is Err ==> *final(self) == *old(self),
    {
        let text = chars_of(src);
        match brackets_of(&text) {
            Ok(_) => {},
            Err(e) => return Err(e),
        }
        let encoded = rle(src);
        self.src = text;
        self.ins_ptr = 0;
        Ok(encoded)
    }
}

} // verus!
