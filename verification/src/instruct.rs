use vstd::prelude::*;

use crate::object::ObjectHandle;

verus! {

/// One-byte operation codes of the bytecode.  The byte of an operation is
/// its position in this list.
#[derive(Debug, Clone, Copy, PartialEq, Eq, Structural)]
pub enum ByteCode {
    Return,
    Pop,
    Nil,
    True,
    False,
    Negate,
    Not,
    Add,
    Sub,
    Mul,
    Div,
    Mod,
    FloorDiv,
    Equal,
    NotEqual,
    Greater,
    GreaterEqual,
    Less,
    LessEqual,
    Constant,
    DefineGlobal,
    GetGlobal,
    SetGlobal,
    GetLocal,
    SetLocal,
    JumpIfFalse,
    Jump,
    Loop,
    Call,
    CallKw,
    Closure,
    GetUpvalue,
    SetUpvalue,
    CloseUpvalue,
    Class,
    SetProperty,
    GetProperty,
    Method,
    Invoke,
    Inherit,
    SuperInvoke,
    BuildList,
    BuildDict,
    BuildSet,
    IndexGet,
    IndexSet,
    Import,
    IterEnd,
    ForInIter,
    ForInNext,
}

/// Number of operation codes.
pub const BYTECODE_COUNT: u8 = 50u8;

impl ByteCode {
    /// The byte that encodes this operation.
    pub open spec fn spec_byte(self) -> u8 {
        match self {
            ByteCode::Return => 0u8,
            ByteCode::Pop => 1u8,
            ByteCode::Nil => 2u8,
            ByteCode::True => 3u8,
            ByteCode::False => 4u8,
            ByteCode::Negate => 5u8,
            ByteCode::Not => 6u8,
            ByteCode::Add => 7u8,
            ByteCode::Sub => 8u8,
            ByteCode::Mul => 9u8,
            ByteCode::Div => 10u8,
            ByteCode::Mod => 11u8,
            ByteCode::FloorDiv => 12u8,
            ByteCode::Equal => 13u8,
            ByteCode::NotEqual => 14u8,
            ByteCode::Greater => 15u8,
            ByteCode::GreaterEqual => 16u8,
            ByteCode::Less => 17u8,
            ByteCode::LessEqual => 18u8,
            ByteCode::Constant => 19u8,
            ByteCode::DefineGlobal => 20u8,
            ByteCode::GetGlobal => 21u8,
            ByteCode::SetGlobal => 22u8,
            ByteCode::GetLocal => 23u8,
            ByteCode::SetLocal => 24u8,
            ByteCode::JumpIfFalse => 25u8,
            ByteCode::Jump => 26u8,
            ByteCode::Loop => 27u8,
            ByteCode::Call => 28u8,
            ByteCode::CallKw => 29u8,
            ByteCode::Closure => 30u8,
            ByteCode::GetUpvalue => 31u8,
            ByteCode::SetUpvalue => 32u8,
            ByteCode::CloseUpvalue => 33u8,
            ByteCode::Class => 34u8,
            ByteCode::SetProperty => 35u8,
            ByteCode::GetProperty => 36u8,
            ByteCode::Method => 37u8,
            ByteCode::Invoke => 38u8,
            ByteCode::Inherit => 39u8,
            ByteCode::SuperInvoke => 40u8,
            ByteCode::BuildList => 41u8,
            ByteCode::BuildDict => 42u8,
            ByteCode::BuildSet => 43u8,
            ByteCode::IndexGet => 44u8,
            ByteCode::IndexSet => 45u8,
            ByteCode::Import => 46u8,
            ByteCode::IterEnd => 47u8,
            ByteCode::ForInIter => 48u8,
            ByteCode::ForInNext => 49u8,
        }
    }

    /// The operation a byte encodes, if any.
    pub open spec fn spec_from_byte(b: u8) -> Option<ByteCode> {
        if b == 0u8 {
            Some(ByteCode::Return)
        } else if b == 1u8 {
            Some(ByteCode::Pop)
        } else if b == 2u8 {
            Some(ByteCode::Nil)
        } else if b == 3u8 {
            Some(ByteCode::True)
        } else if b == 4u8 {
            Some(ByteCode::False)
        } else if b == 5u8 {
            Some(ByteCode::Negate)
        } else if b == 6u8 {
            Some(ByteCode::Not)
        } else if b == 7u8 {
            Some(ByteCode::Add)
        } else if b == 8u8 {
            Some(ByteCode::Sub)
        } else if b == 9u8 {
            Some(ByteCode::Mul)
        } else if b == 10u8 {
            Some(ByteCode::Div)
        } else if b == 11u8 {
            Some(ByteCode::Mod)
        } else if b == 12u8 {
            Some(ByteCode::FloorDiv)
        } else if b == 13u8 {
            Some(ByteCode::Equal)
        } else if b == 14u8 {
            Some(ByteCode::NotEqual)
        } else if b == 15u8 {
            Some(ByteCode::Greater)
        } else if b == 16u8 {
            Some(ByteCode::GreaterEqual)
        } else if b == 17u8 {
            Some(ByteCode::Less)
        } else if b == 18u8 {
            Some(ByteCode::LessEqual)
        } else if b == 19u8 {
            Some(ByteCode::Constant)
        } else if b == 20u8 {
            Some(ByteCode::DefineGlobal)
        } else if b == 21u8 {
            Some(ByteCode::GetGlobal)
        } else if b == 22u8 {
            Some(ByteCode::SetGlobal)
        } else if b == 23u8 {
            Some(ByteCode::GetLocal)
        } else if b == 24u8 {
            Some(ByteCode::SetLocal)
        } else if b == 25u8 {
            Some(ByteCode::JumpIfFalse)
        } else if b == 26u8 {
            Some(ByteCode::Jump)
        } else if b == 27u8 {
            Some(ByteCode::Loop)
        } else if b == 28u8 {
            Some(ByteCode::Call)
        } else if b == 29u8 {
            Some(ByteCode::CallKw)
        } else if b == 30u8 {
            Some(ByteCode::Closure)
        } else if b == 31u8 {
            Some(ByteCode::GetUpvalue)
        } else if b == 32u8 {
            Some(ByteCode::SetUpvalue)
        } else if b == 33u8 {
            Some(ByteCode::CloseUpvalue)
        } else if b == 34u8 {
            Some(ByteCode::Class)
        } else if b == 35u8 {
            Some(ByteCode::SetProperty)
        } else if b == 36u8 {
            Some(ByteCode::GetProperty)
        } else if b == 37u8 {
            Some(ByteCode::Method)
        } else if b == 38u8 {
            Some(ByteCode::Invoke)
        } else if b == 39u8 {
            Some(ByteCode::Inherit)
        } else if b == 40u8 {
            Some(ByteCode::SuperInvoke)
        } else if b == 41u8 {
            Some(ByteCode::BuildList)
        } else if b == 42u8 {
            Some(ByteCode::BuildDict)
        } else if b == 43u8 {
            Some(ByteCode::BuildSet)
        } else if b == 44u8 {
            Some(ByteCode::IndexGet)
        } else if b == 45u8 {
            Some(ByteCode::IndexSet)
        } else if b == 46u8 {
            Some(ByteCode::Import)
        } else if b == 47u8 {
            Some(ByteCode::IterEnd)
        } else if b == 48u8 {
            Some(ByteCode::ForInIter)
        } else if b == 49u8 {
            Some(ByteCode::ForInNext)
        } else {
            None
        }
    }

    #[verifier::when_used_as_spec(spec_byte)]
    pub fn to_byte(self) -> (b: u8)
        ensures
            b == self.spec_byte(),
    {
        match self {
            ByteCode::Return => 0u8,
            ByteCode::Pop => 1u8,
            ByteCode::Nil => 2u8,
            ByteCode::True => 3u8,
            ByteCode::False => 4u8,
            ByteCode::Negate => 5u8,
            ByteCode::Not => 6u8,
            ByteCode::Add => 7u8,
            ByteCode::Sub => 8u8,
            ByteCode::Mul => 9u8,
            ByteCode::Div => 10u8,
            ByteCode::Mod => 11u8,
            ByteCode::FloorDiv => 12u8,
            ByteCode::Equal => 13u8,
            ByteCode::NotEqual => 14u8,
            ByteCode::Greater => 15u8,
            ByteCode::GreaterEqual => 16u8,
            ByteCode::Less => 17u8,
            ByteCode::LessEqual => 18u8,
            ByteCode::Constant => 19u8,
            ByteCode::DefineGlobal => 20u8,
            ByteCode::GetGlobal => 21u8,
            ByteCode::SetGlobal => 22u8,
            ByteCode::GetLocal => 23u8,
            ByteCode::SetLocal => 24u8,
            ByteCode::JumpIfFalse => 25u8,
            ByteCode::Jump => 26u8,
            ByteCode::Loop => 27u8,
            ByteCode::Call => 28u8,
            ByteCode::CallKw => 29u8,
            ByteCode::Closure => 30u8,
            ByteCode::GetUpvalue => 31u8,
            ByteCode::SetUpvalue => 32u8,
            ByteCode::CloseUpvalue => 33u8,
            ByteCode::Class => 34u8,
            ByteCode::SetProperty => 35u8,
            ByteCode::GetProperty => 36u8,
            ByteCode::Method => 37u8,
            ByteCode::Invoke => 38u8,
            ByteCode::Inherit => 39u8,
            ByteCode::SuperInvoke => 40u8,
            ByteCode::BuildList => 41u8,
            ByteCode::BuildDict => 42u8,
            ByteCode::BuildSet => 43u8,
            ByteCode::IndexGet => 44u8,
            ByteCode::IndexSet => 45u8,
            ByteCode::Import => 46u8,
            ByteCode::IterEnd => 47u8,
            ByteCode::ForInIter => 48u8,
            ByteCode::ForInNext => 49u8,
        }
    }

    #[verifier::when_used_as_spec(spec_from_byte)]
    pub fn from_byte(b: u8) -> (r: Option<ByteCode>)
        ensures
            r == Self::spec_from_byte(b),
    {
        if b == 0u8 {
            Some(ByteCode::Return)
        } else if b == 1u8 {
            Some(ByteCode::Pop)
        } else if b == 2u8 {
            Some(ByteCode::Nil)
        } else if b == 3u8 {
            Some(ByteCode::True)
        } else if b == 4u8 {
            Some(ByteCode::False)
        } else if b == 5u8 {
            Some(ByteCode::Negate)
        } else if b == 6u8 {
            Some(ByteCode::Not)
        } else if b == 7u8 {
            Some(ByteCode::Add)
        } else if b == 8u8 {
            Some(ByteCode::Sub)
        } else if b == 9u8 {
            Some(ByteCode::Mul)
        } else if b == 10u8 {
            Some(ByteCode::Div)
        } else if b == 11u8 {
            Some(ByteCode::Mod)
        } else if b == 12u8 {
            Some(ByteCode::FloorDiv)
        } else if b == 13u8 {
            Some(ByteCode::Equal)
        } else if b == 14u8 {
            Some(ByteCode::NotEqual)
        } else if b == 15u8 {
            Some(ByteCode::Greater)
        } else if b == 16u8 {
            Some(ByteCode::GreaterEqual)
        } else if b == 17u8 {
            Some(ByteCode::Less)
        } else if b == 18u8 {
            Some(ByteCode::LessEqual)
        } else if b == 19u8 {
            Some(ByteCode::Constant)
        } else if b == 20u8 {
            Some(ByteCode::DefineGlobal)
        } else if b == 21u8 {
            Some(ByteCode::GetGlobal)
        } else if b == 22u8 {
            Some(ByteCode::SetGlobal)
        } else if b == 23u8 {
            Some(ByteCode::GetLocal)
        } else if b == 24u8 {
            Some(ByteCode::SetLocal)
        } else if b == 25u8 {
            Some(ByteCode::JumpIfFalse)
        } else if b == 26u8 {
            Some(ByteCode::Jump)
        } else if b == 27u8 {
            Some(ByteCode::Loop)
        } else if b == 28u8 {
            Some(ByteCode::Call)
        } else if b == 29u8 {
            Some(ByteCode::CallKw)
        } else if b == 30u8 {
            Some(ByteCode::Closure)
        } else if b == 31u8 {
            Some(ByteCode::GetUpvalue)
        } else if b == 32u8 {
            Some(ByteCode::SetUpvalue)
        } else if b == 33u8 {
            Some(ByteCode::CloseUpvalue)
        } else if b == 34u8 {
            Some(ByteCode::Class)
        } else if b == 35u8 {
            Some(ByteCode::SetProperty)
        } else if b == 36u8 {
            Some(ByteCode::GetProperty)
        } else if b == 37u8 {
            Some(ByteCode::Method)
        } else if b == 38u8 {
            Some(ByteCode::Invoke)
        } else if b == 39u8 {
            Some(ByteCode::Inherit)
        } else if b == 40u8 {
            Some(ByteCode::SuperInvoke)
        } else if b == 41u8 {
            Some(ByteCode::BuildList)
        } else if b == 42u8 {
            Some(ByteCode::BuildDict)
        } else if b == 43u8 {
            Some(ByteCode::BuildSet)
        } else if b == 44u8 {
            Some(ByteCode::IndexGet)
        } else if b == 45u8 {
            Some(ByteCode::IndexSet)
        } else if b == 46u8 {
            Some(ByteCode::Import)
        } else if b == 47u8 {
            Some(ByteCode::IterEnd)
        } else if b == 48u8 {
            Some(ByteCode::ForInIter)
        } else if b == 49u8 {
            Some(ByteCode::ForInNext)
        } else {
            None
        }
    }
}

/// Decoding the byte of an operation gives the operation back, and every
/// byte that decodes to an operation is that operation's byte.
pub proof fn lemma_bytecode_roundtrip(op: ByteCode, b: u8)
    ensures
        ByteCode::spec_from_byte(op.spec_byte()) == Some(op),
        ByteCode::spec_from_byte(b) matches Some(o) ==> o.spec_byte() == b,
        ByteCode::spec_from_byte(b) is Some <==> b < BYTECODE_COUNT,
{
}

impl ByteCode {
    /// Every operation's byte decodes to the operation.
    pub proof fn lemma_roundtrip_all(op: ByteCode)
        ensures
            ByteCode::spec_from_byte(op.spec_byte()) == Some(op),
    {
    }
}

/// Descriptor for a single upvalue captured by a closure.
#[derive(Debug, Clone, Copy, PartialEq, Eq, Structural)]
pub struct UpvalueDesc {
    /// `true`: a stack slot of the enclosing function;
    /// `false`: an upvalue of the enclosing closure.
    pub is_local: bool,
    /// Slot index in the enclosing function, or upvalue index.
    pub index: usize,
}

/// High-level instruction with resolved operands.  The compiler and the
/// virtual machine work with instructions; a chunk encodes them as bytes.
#[derive(Debug, Clone)]
pub enum Instruction {
    Return,
    Pop,
    Nil,
    True,
    False,
    Negate,
    Not,
    Add,
    Sub,
    Mul,
    Div,
    Mod,
    FloorDiv,
    Equal,
    NotEqual,
    Greater,
    GreaterEqual,
    Less,
    LessEqual,
    Constant(ObjectHandle),
    DefineGlobal(String),
    GetGlobal(String),
    SetGlobal(String),
    GetLocal(usize),
    SetLocal(usize),
    JumpIfFalse(usize),
    Jump(usize),
    Loop(usize),
    Call(usize),
    /// Call with `pos_count` positional then `kw_count` keyword arguments;
    /// `kw_names` names the keyword arguments in order.
    CallKw { pos_count: usize, kw_count: usize, kw_names: Vec<String> },
    Closure { function: ObjectHandle, upvalues: Vec<UpvalueDesc> },
    GetUpvalue(usize),
    SetUpvalue(usize),
    CloseUpvalue,
    Class(String),
    SetProperty(String),
    GetProperty(String),
    Method(String),
    Invoke(String, usize),
    Inherit,
    SuperInvoke(String, usize),
    BuildList(usize),
    BuildDict(usize),
    BuildSet(usize),
    IndexGet,
    IndexSet,
    Import(String),
    IterEnd,
    ForInIter,
    ForInNext(usize),
}

} // verus!
