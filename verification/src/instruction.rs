//! The instruction vocabulary and the part each instruction plays in nesting.

use vstd::prelude::*;

verus! {

/// One instruction of the virtual machine.
///
/// `If` and `Begin` open a block, `End` closes the innermost open block, and
/// the remaining instructions are payload that leaves the nesting untouched.
#[derive(Debug, Clone, Copy, PartialEq, Eq, Hash, Structural)]
pub enum Instruction {
    Push(usize),
    Or,
    And,
    Not,
    If,
    Begin,
    End,
}

/// What an instruction does to the nesting of blocks.
#[derive(Debug, Clone, Copy, PartialEq, Eq, Structural)]
pub enum Role {
    /// The instruction starts a new block.
    Opens,
    /// The instruction ends the innermost open block.
    Closes,
    /// The instruction is carried inside blocks without affecting them.
    Payload,
}

impl Instruction {
    /// The role of this instruction, by variant.
    pub open spec fn spec_role(self) -> Role {
        match self {
            Instruction::If => Role::Opens,
            Instruction::Begin => Role::Opens,
            Instruction::End => Role::Closes,
            Instruction::Push(_) => Role::Payload,
            Instruction::Or => Role::Payload,
            Instruction::And => Role::Payload,
            Instruction::Not => Role::Payload,
        }
    }

    /// Whether this instruction starts a block.
    pub open spec fn opens_block(self) -> bool {
        self.spec_role() == Role::Opens
    }

    /// Whether this instruction ends a block.
    pub open spec fn closes_block(self) -> bool {
        self.spec_role() == Role::Closes
    }

    /// The role of this instruction. Every variant is listed, so a new
    /// variant cannot be added without deciding its role here.
    #[verifier::when_used_as_spec(spec_role)]
    pub fn role(self) -> (r: Role)
        ensures
            r == self.spec_role(),
    {
        match self {
            Instruction::If => Role::Opens,
            Instruction::Begin => Role::Opens,
            Instruction::End => Role::Closes,
            Instruction::Push(_) => Role::Payload,
            Instruction::Or => Role::Payload,
            Instruction::And => Role::Payload,
            Instruction::Not => Role::Payload,
        }
    }
}

} // verus!
