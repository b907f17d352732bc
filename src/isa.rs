use vstd::prelude::*;

verus! {

/// Mask of the opcode nibble of an instruction word.
pub const INSTRUCTION_MASK: u16 = 0xF000;

/// Mask of the 12-bit argument field of an instruction word.
pub const ARGUMENT_MASK: u16 = 0x0FFF;

/// Mask that keeps a whole word (the indirect mask of extended mode).
pub const FULL_MASK: u16 = 0xFFFF;

/// Smallest word whose sign bit is set.
pub const FIRST_NEGATIVE: u16 = 0x8000;

/// The sixteen operations of the machine, one per opcode nibble.
#[derive(Copy, Clone, Debug, PartialEq, Eq, Structural)]
pub enum Opcode {
    JnS,
    Load,
    Store,
    Add,
    Subt,
    Input,
    Output,
    Halt,
    Skipcond,
    Jump,
    Clear,
    AddI,
    JumpI,
    LoadI,
    StoreI,
    Invalid,
}

/// The operations that carry a 12-bit argument.
#[derive(Copy, Clone, Debug, PartialEq, Eq, Structural)]
pub enum ArgOp {
    JnS,
    Load,
    Store,
    Add,
    Subt,
    Skipcond,
    Jump,
    AddI,
    JumpI,
    LoadI,
    StoreI,
}

/// The operations without an argument; `Breakpoint` assembles to the
/// `Invalid` opcode.
#[derive(Copy, Clone, Debug, PartialEq, Eq, Structural)]
pub enum NoArgOp {
    Input,
    Output,
    Clear,
    Halt,
    Breakpoint,
}

impl Opcode {
    pub open spec fn spec_code(self) -> u16 {
        match self {
            Opcode::JnS => 0x0,
            Opcode::Load => 0x1,
            Opcode::Store => 0x2,
            Opcode::Add => 0x3,
            Opcode::Subt => 0x4,
            Opcode::Input => 0x5,
            Opcode::Output => 0x6,
            Opcode::Halt => 0x7,
            Opcode::Skipcond => 0x8,
            Opcode::Jump => 0x9,
            Opcode::Clear => 0xA,
            Opcode::AddI => 0xB,
            Opcode::JumpI => 0xC,
            Opcode::LoadI => 0xD,
            Opcode::StoreI => 0xE,
            Opcode::Invalid => 0xF,
        }
    }

    /// The opcode nibble of this operation.
    pub fn code(&self) -> (r: u16)
        ensures
            r == self.spec_code(),
            r < 16,
    {
        match self {
            Opcode::JnS => 0x0,
            Opcode::Load => 0x1,
            Opcode::Store => 0x2,
            Opcode::Add => 0x3,
            Opcode::Subt => 0x4,
            Opcode::Input => 0x5,
            Opcode::Output => 0x6,
            Opcode::Halt => 0x7,
            Opcode::Skipcond => 0x8,
            Opcode::Jump => 0x9,
            Opcode::Clear => 0xA,
            Opcode::AddI => 0xB,
            Opcode::JumpI => 0xC,
            Opcode::LoadI => 0xD,
            Opcode::StoreI => 0xE,
            Opcode::Invalid => 0xF,
        }
    }

    /// The operation whose nibble is `c` (`Invalid` for 15 and above).
    pub open spec fn spec_from_code(c: u16) -> Opcode {
        if c == 0x0 {
            Opcode::JnS
        } else if c == 0x1 {
            Opcode::Load
        } else if c == 0x2 {
            Opcode::Store
        } else if c == 0x3 {
            Opcode::Add
        } else if c == 0x4 {
            Opcode::Subt
        } else if c == 0x5 {
            Opcode::Input
        } else if c == 0x6 {
            Opcode::Output
        } else if c == 0x7 {
            Opcode::Halt
        } else if c == 0x8 {
            Opcode::Skipcond
        } else if c == 0x9 {
            Opcode::Jump
        } else if c == 0xA {
            Opcode::Clear
        } else if c == 0xB {
            Opcode::AddI
        } else if c == 0xC {
            Opcode::JumpI
        } else if c == 0xD {
            Opcode::LoadI
        } else if c == 0xE {
            Opcode::StoreI
        } else {
            Opcode::Invalid
        }
    }

    /// The operation whose nibble is `c`.
    pub fn from_code(c: u16) -> (r: Opcode)
        requires
            c < 16,
        ensures
            r.spec_code() == c,
            r == Opcode::spec_from_code(c),
    {
        if c == 0x0 {
            Opcode::JnS
        } else if c == 0x1 {
            Opcode::Load
        } else if c == 0x2 {
            Opcode::Store
        } else if c == 0x3 {
            Opcode::Add
        } else if c == 0x4 {
            Opcode::Subt
        } else if c == 0x5 {
            Opcode::Input
        } else if c == 0x6 {
            Opcode::Output
        } else if c == 0x7 {
            Opcode::Halt
        } else if c == 0x8 {
            Opcode::Skipcond
        } else if c == 0x9 {
            Opcode::Jump
        } else if c == 0xA {
            Opcode::Clear
        } else if c == 0xB {
            Opcode::AddI
        } else if c == 0xC {
            Opcode::JumpI
        } else if c == 0xD {
            Opcode::LoadI
        } else if c == 0xE {
            Opcode::StoreI
        } else {
            Opcode::Invalid
        }
    }
}

impl ArgOp {
    pub open spec fn spec_opcode(self) -> Opcode {
        match self {
            ArgOp::JnS => Opcode::JnS,
            ArgOp::Load => Opcode::Load,
            ArgOp::Store => Opcode::Store,
            ArgOp::Add => Opcode::Add,
            ArgOp::Subt => Opcode::Subt,
            ArgOp::Skipcond => Opcode::Skipcond,
            ArgOp::Jump => Opcode::Jump,
            ArgOp::AddI => Opcode::AddI,
            ArgOp::JumpI => Opcode::JumpI,
            ArgOp::LoadI => Opcode::LoadI,
            ArgOp::StoreI => Opcode::StoreI,
        }
    }

    /// The opcode this operation assembles to.
    pub fn opcode(&self) -> (r: Opcode)
        ensures
            r == self.spec_opcode(),
    {
        match self {
            ArgOp::JnS => Opcode::JnS,
            ArgOp::Load => Opcode::Load,
            ArgOp::Store => Opcode::Store,
            ArgOp::Add => Opcode::Add,
            ArgOp::Subt => Opcode::Subt,
            ArgOp::Skipcond => Opcode::Skipcond,
            ArgOp::Jump => Opcode::Jump,
            ArgOp::AddI => Opcode::AddI,
            ArgOp::JumpI => Opcode::JumpI,
            ArgOp::LoadI => Opcode::LoadI,
            ArgOp::StoreI => Opcode::StoreI,
        }
    }
}

impl NoArgOp {
    pub open spec fn spec_opcode(self) -> Opcode {
        match self {
            NoArgOp::Input => Opcode::Input,
            NoArgOp::Output => Opcode::Output,
            NoArgOp::Clear => Opcode::Clear,
            NoArgOp::Halt => Opcode::Halt,
            NoArgOp::Breakpoint => Opcode::Invalid,
        }
    }

    /// The opcode this operation assembles to.
    pub fn opcode(&self) -> (r: Opcode)
        ensures
            r == self.spec_opcode(),
    {
        match self {
            NoArgOp::Input => Opcode::Input,
            NoArgOp::Output => Opcode::Output,
            NoArgOp::Clear => Opcode::Clear,
            NoArgOp::Halt => Opcode::Halt,
            NoArgOp::Breakpoint => Opcode::Invalid,
        }
    }
}

/// The word of an instruction with opcode nibble `code` and argument `arg`:
/// the opcode in the top four bits, the low twelve bits of `arg` below it.
pub open spec fn encode(code: u16, arg: u16) -> u16 {
    ((code << 12u16) | (arg & ARGUMENT_MASK)) as u16
}

/// Packs an opcode nibble and the low twelve bits of an argument into a word.
pub fn encode_word(code: u16, arg: u16) -> (r: u16)
    ensures
        r == encode(code, arg),
{
    (code << 12u16) | (arg & ARGUMENT_MASK)
}

/// The opcode nibble of a word.
pub open spec fn opcode_of(w: u16) -> u16 {
    w >> 12u16
}

/// The argument field of a word.
pub open spec fn argument_of(w: u16) -> u16 {
    w & ARGUMENT_MASK
}

pub proof fn lemma_fields_bounded(w: u16)
    ensures
        opcode_of(w) < 16,
        argument_of(w) < 4096,
{
    assert(w >> 12u16 < 16) by (bit_vector);
    assert(w & 0x0FFFu16 < 4096) by (bit_vector);
}

} // verus!
