use vstd::prelude::*;

use crate::text::chars_eq;

verus! {

/// The instructions of the bytecode, in the order that gives each its number.
#[derive(Clone, Copy, Debug, PartialEq, Eq, Structural)]
pub enum OpCode {
    Add,
    Class,
    CloseUpvalue,
    Closure,
    Constant,
    DefineGlobal,
    Divide,
    Equal,
    False,
    FnCall,
    GetGlobal,
    GetLocal,
    GetProperty,
    GetSuper,
    GetUpvalue,
    Greater,
    Inherit,
    Invoke,
    Jump,
    JumpIfFalse,
    Less,
    Loop,
    Method,
    Multiply,
    Negate,
    Nil,
    Not,
    Pop,
    Print,
    Return,
    SetGlobal,
    SetLocal,
    SetProperty,
    SetUpvalue,
    Subtract,
    SuperInvoke,
    True,
}

/// The number of distinct opcodes.
pub const OPCODE_COUNT: u8 = 37;

/// The number that encodes an opcode: its place in the declaration.
pub open spec fn spec_opcode_index(op: OpCode) -> u8 {
    match op {
        OpCode::Add => 0,
        OpCode::Class => 1,
        OpCode::CloseUpvalue => 2,
        OpCode::Closure => 3,
        OpCode::Constant => 4,
        OpCode::DefineGlobal => 5,
        OpCode::Divide => 6,
        OpCode::Equal => 7,
        OpCode::False => 8,
        OpCode::FnCall => 9,
        OpCode::GetGlobal => 10,
        OpCode::GetLocal => 11,
        OpCode::GetProperty => 12,
        OpCode::GetSuper => 13,
        OpCode::GetUpvalue => 14,
        OpCode::Greater => 15,
        OpCode::Inherit => 16,
        OpCode::Invoke => 17,
        OpCode::Jump => 18,
        OpCode::JumpIfFalse => 19,
        OpCode::Less => 20,
        OpCode::Loop => 21,
        OpCode::Method => 22,
        OpCode::Multiply => 23,
        OpCode::Negate => 24,
        OpCode::Nil => 25,
        OpCode::Not => 26,
        OpCode::Pop => 27,
        OpCode::Print => 28,
        OpCode::Return => 29,
        OpCode::SetGlobal => 30,
        OpCode::SetLocal => 31,
        OpCode::SetProperty => 32,
        OpCode::SetUpvalue => 33,
        OpCode::Subtract => 34,
        OpCode::SuperInvoke => 35,
        OpCode::True => 36,
    }
}

/// The opcode that a number encodes, if any.
pub open spec fn spec_opcode_from_index(n: u8) -> Option<OpCode> {
    if n == 0 {
        Some(OpCode::Add)
    } else if n == 1 {
        Some(OpCode::Class)
    } else if n == 2 {
        Some(OpCode::CloseUpvalue)
    } else if n == 3 {
        Some(OpCode::Closure)
    } else if n == 4 {
        Some(OpCode::Constant)
    } else if n == 5 {
        Some(OpCode::DefineGlobal)
    } else if n == 6 {
        Some(OpCode::Divide)
    } else if n == 7 {
        Some(OpCode::Equal)
    } else if n == 8 {
        Some(OpCode::False)
    } else if n == 9 {
        Some(OpCode::FnCall)
    } else if n == 10 {
        Some(OpCode::GetGlobal)
    } else if n == 11 {
        Some(OpCode::GetLocal)
    } else if n == 12 {
        Some(OpCode::GetProperty)
    } else if n == 13 {
        Some(OpCode::GetSuper)
    } else if n == 14 {
        Some(OpCode::GetUpvalue)
    } else if n == 15 {
        Some(OpCode::Greater)
    } else if n == 16 {
        Some(OpCode::Inherit)
    } else if n == 17 {
        Some(OpCode::Invoke)
    } else if n == 18 {
        Some(OpCode::Jump)
    } else if n == 19 {
        Some(OpCode::JumpIfFalse)
    } else if n == 20 {
        Some(OpCode::Less)
    } else if n == 21 {
        Some(OpCode::Loop)
    } else if n == 22 {
        Some(OpCode::Method)
    } else if n == 23 {
        Some(OpCode::Multiply)
    } else if n == 24 {
        Some(OpCode::Negate)
    } else if n == 25 {
        Some(OpCode::Nil)
    } else if n == 26 {
        Some(OpCode::Not)
    } else if n == 27 {
        Some(OpCode::Pop)
    } else if n == 28 {
        Some(OpCode::Print)
    } else if n == 29 {
        Some(OpCode::Return)
    } else if n == 30 {
        Some(OpCode::SetGlobal)
    } else if n == 31 {
        Some(OpCode::SetLocal)
    } else if n == 32 {
        Some(OpCode::SetProperty)
    } else if n == 33 {
        Some(OpCode::SetUpvalue)
    } else if n == 34 {
        Some(OpCode::Subtract)
    } else if n == 35 {
        Some(OpCode::SuperInvoke)
    } else if n == 36 {
        Some(OpCode::True)
    } else {
        None
    }
}

/// The name under which an opcode is written in text.
pub open spec fn spec_opcode_name(op: OpCode) -> Seq<char> {
    match op {
        OpCode::Add => seq!['A', 'd', 'd'],
        OpCode::Class => seq!['C', 'l', 'a', 's', 's'],
        OpCode::CloseUpvalue => seq!['C', 'l', 'o', 's', 'e', 'U', 'p', 'v', 'a', 'l', 'u', 'e'],
        OpCode::Closure => seq!['C', 'l', 'o', 's', 'u', 'r', 'e'],
        OpCode::Constant => seq!['C', 'o', 'n', 's', 't', 'a', 'n', 't'],
        OpCode::DefineGlobal => seq!['D', 'e', 'f', 'i', 'n', 'e', 'G', 'l', 'o', 'b', 'a', 'l'],
        OpCode::Divide => seq!['D', 'i', 'v', 'i', 'd', 'e'],
        OpCode::Equal => seq!['E', 'q', 'u', 'a', 'l'],
        OpCode::False => seq!['F', 'a', 'l', 's', 'e'],
        OpCode::FnCall => seq!['F', 'n', 'C', 'a', 'l', 'l'],
        OpCode::GetGlobal => seq!['G', 'e', 't', 'G', 'l', 'o', 'b', 'a', 'l'],
        OpCode::GetLocal => seq!['G', 'e', 't', 'L', 'o', 'c', 'a', 'l'],
        OpCode::GetProperty => seq!['G', 'e', 't', 'P', 'r', 'o', 'p', 'e', 'r', 't', 'y'],
        OpCode::GetSuper => seq!['G', 'e', 't', 'S', 'u', 'p', 'e', 'r'],
        OpCode::GetUpvalue => seq!['G', 'e', 't', 'U', 'p', 'v', 'a', 'l', 'u', 'e'],
        OpCode::Greater => seq!['G', 'r', 'e', 'a', 't', 'e', 'r'],
        OpCode::Inherit => seq!['I', 'n', 'h', 'e', 'r', 'i', 't'],
        OpCode::Invoke => seq!['I', 'n', 'v', 'o', 'k', 'e'],
        OpCode::Jump => seq!['J', 'u', 'm', 'p'],
        OpCode::JumpIfFalse => seq!['J', 'u', 'm', 'p', 'I', 'f', 'F', 'a', 'l', 's', 'e'],
        OpCode::Less => seq!['L', 'e', 's', 's'],
        OpCode::Loop => seq!['L', 'o', 'o', 'p'],
        OpCode::Method => seq!['M', 'e', 't', 'h', 'o', 'd'],
        OpCode::Multiply => seq!['M', 'u', 'l', 't', 'i', 'p', 'l', 'y'],
        OpCode::Negate => seq!['N', 'e', 'g', 'a', 't', 'e'],
        OpCode::Nil => seq!['N', 'i', 'l'],
        OpCode::Not => seq!['N', 'o', 't'],
        OpCode::Pop => seq!['P', 'o', 'p'],
        OpCode::Print => seq!['P', 'r', 'i', 'n', 't'],
        OpCode::Return => seq!['R', 'e', 't', 'u', 'r', 'n'],
        OpCode::SetGlobal => seq!['S', 'e', 't', 'G', 'l', 'o', 'b', 'a', 'l'],
        OpCode::SetLocal => seq!['S', 'e', 't', 'L', 'o', 'c', 'a', 'l'],
        OpCode::SetProperty => seq!['S', 'e', 't', 'P', 'r', 'o', 'p', 'e', 'r', 't', 'y'],
        OpCode::SetUpvalue => seq!['S', 'e', 't', 'U', 'p', 'v', 'a', 'l', 'u', 'e'],
        OpCode::Subtract => seq!['S', 'u', 'b', 't', 'r', 'a', 'c', 't'],
        OpCode::SuperInvoke => seq!['S', 'u', 'p', 'e', 'r', 'I', 'n', 'v', 'o', 'k', 'e'],
        OpCode::True => seq!['T', 'r', 'u', 'e'],
    }
}

impl OpCode {
    /// The number that encodes this opcode.
    pub fn index(self) -> (res: u8)
        ensures
            res == spec_opcode_index(self),
            res < OPCODE_COUNT,
    {
        match self {
            OpCode::Add => 0,
            OpCode::Class => 1,
            OpCode::CloseUpvalue => 2,
            OpCode::Closure => 3,
            OpCode::Constant => 4,
            OpCode::DefineGlobal => 5,
            OpCode::Divide => 6,
            OpCode::Equal => 7,
            OpCode::False => 8,
            OpCode::FnCall => 9,
            OpCode::GetGlobal => 10,
            OpCode::GetLocal => 11,
            OpCode::GetProperty => 12,
            OpCode::GetSuper => 13,
            OpCode::GetUpvalue => 14,
            OpCode::Greater => 15,
            OpCode::Inherit => 16,
            OpCode::Invoke => 17,
            OpCode::Jump => 18,
            OpCode::JumpIfFalse => 19,
            OpCode::Less => 20,
            OpCode::Loop => 21,
            OpCode::Method => 22,
            OpCode::Multiply => 23,
            OpCode::Negate => 24,
            OpCode::Nil => 25,
            OpCode::Not => 26,
            OpCode::Pop => 27,
            OpCode::Print => 28,
            OpCode::Return => 29,
            OpCode::SetGlobal => 30,
            OpCode::SetLocal => 31,
            OpCode::SetProperty => 32,
            OpCode::SetUpvalue => 33,
            OpCode::Subtract => 34,
            OpCode::SuperInvoke => 35,
            OpCode::True => 36,
        }
    }

    /// The opcode that a number encodes; `None` past the last opcode.
    pub fn from_repr(n: u8) -> (res: Option<OpCode>)
        ensures
            res == spec_opcode_from_index(n),
    {
        match n {
            0 => Some(OpCode::Add),
            1 => Some(OpCode::Class),
            2 => Some(OpCode::CloseUpvalue),
            3 => Some(OpCode::Closure),
            4 => Some(OpCode::Constant),
            5 => Some(OpCode::DefineGlobal),
            6 => Some(OpCode::Divide),
            7 => Some(OpCode::Equal),
            8 => Some(OpCode::False),
            9 => Some(OpCode::FnCall),
            10 => Some(OpCode::GetGlobal),
            11 => Some(OpCode::GetLocal),
            12 => Some(OpCode::GetProperty),
            13 => Some(OpCode::GetSuper),
            14 => Some(OpCode::GetUpvalue),
            15 => Some(OpCode::Greater),
            16 => Some(OpCode::Inherit),
            17 => Some(OpCode::Invoke),
            18 => Some(OpCode::Jump),
            19 => Some(OpCode::JumpIfFalse),
            20 => Some(OpCode::Less),
            21 => Some(OpCode::Loop),
            22 => Some(OpCode::Method),
            23 => Some(OpCode::Multiply),
            24 => Some(OpCode::Negate),
            25 => Some(OpCode::Nil),
            26 => Some(OpCode::Not),
            27 => Some(OpCode::Pop),
            28 => Some(OpCode::Print),
            29 => Some(OpCode::Return),
            30 => Some(OpCode::SetGlobal),
            31 => Some(OpCode::SetLocal),
            32 => Some(OpCode::SetProperty),
            33 => Some(OpCode::SetUpvalue),
            34 => Some(OpCode::Subtract),
            35 => Some(OpCode::SuperInvoke),
            36 => Some(OpCode::True),
            _ => None,
        }
    }

    /// The name of this opcode, as written in the textual bytecode.
    pub fn name(self) -> (res: Vec<char>)
        ensures
            res@ == spec_opcode_name(self),
    {
        match self {
            OpCode::Add => vec!['A', 'd', 'd'],
            OpCode::Class => vec!['C', 'l', 'a', 's', 's'],
            OpCode::CloseUpvalue => vec!['C', 'l', 'o', 's', 'e', 'U', 'p', 'v', 'a', 'l', 'u', 'e'],
            OpCode::Closure => vec!['C', 'l', 'o', 's', 'u', 'r', 'e'],
            OpCode::Constant => vec!['C', 'o', 'n', 's', 't', 'a', 'n', 't'],
            OpCode::DefineGlobal => vec!['D', 'e', 'f', 'i', 'n', 'e', 'G', 'l', 'o', 'b', 'a', 'l'],
            OpCode::Divide => vec!['D', 'i', 'v', 'i', 'd', 'e'],
            OpCode::Equal => vec!['E', 'q', 'u', 'a', 'l'],
            OpCode::False => vec!['F', 'a', 'l', 's', 'e'],
            OpCode::FnCall => vec!['F', 'n', 'C', 'a', 'l', 'l'],
            OpCode::GetGlobal => vec!['G', 'e', 't', 'G', 'l', 'o', 'b', 'a', 'l'],
            OpCode::GetLocal => vec!['G', 'e', 't', 'L', 'o', 'c', 'a', 'l'],
            OpCode::GetProperty => vec!['G', 'e', 't', 'P', 'r', 'o', 'p', 'e', 'r', 't', 'y'],
            OpCode::GetSuper => vec!['G', 'e', 't', 'S', 'u', 'p', 'e', 'r'],
            OpCode::GetUpvalue => vec!['G', 'e', 't', 'U', 'p', 'v', 'a', 'l', 'u', 'e'],
            OpCode::Greater => vec!['G', 'r', 'e', 'a', 't', 'e', 'r'],
            OpCode::Inherit => vec!['I', 'n', 'h', 'e', 'r', 'i', 't'],
            OpCode::Invoke => vec!['I', 'n', 'v', 'o', 'k', 'e'],
            OpCode::Jump => vec!['J', 'u', 'm', 'p'],
            OpCode::JumpIfFalse => vec!['J', 'u', 'm', 'p', 'I', 'f', 'F', 'a', 'l', 's', 'e'],
            OpCode::Less => vec!['L', 'e', 's', 's'],
            OpCode::Loop => vec!['L', 'o', 'o', 'p'],
            OpCode::Method => vec!['M', 'e', 't', 'h', 'o', 'd'],
            OpCode::Multiply => vec!['M', 'u', 'l', 't', 'i', 'p', 'l', 'y'],
            OpCode::Negate => vec!['N', 'e', 'g', 'a', 't', 'e'],
            OpCode::Nil => vec!['N', 'i', 'l'],
            OpCode::Not => vec!['N', 'o', 't'],
            OpCode::Pop => vec!['P', 'o', 'p'],
            OpCode::Print => vec!['P', 'r', 'i', 'n', 't'],
            OpCode::Return => vec!['R', 'e', 't', 'u', 'r', 'n'],
            OpCode::SetGlobal => vec!['S', 'e', 't', 'G', 'l', 'o', 'b', 'a', 'l'],
            OpCode::SetLocal => vec!['S', 'e', 't', 'L', 'o', 'c', 'a', 'l'],
            OpCode::SetProperty => vec!['S', 'e', 't', 'P', 'r', 'o', 'p', 'e', 'r', 't', 'y'],
            OpCode::SetUpvalue => vec!['S', 'e', 't', 'U', 'p', 'v', 'a', 'l', 'u', 'e'],
            OpCode::Subtract => vec!['S', 'u', 'b', 't', 'r', 'a', 'c', 't'],
            OpCode::SuperInvoke => vec!['S', 'u', 'p', 'e', 'r', 'I', 'n', 'v', 'o', 'k', 'e'],
            OpCode::True => vec!['T', 'r', 'u', 'e'],
        }
    }

    /// The opcode whose name is `text`, if there is one.
    pub fn parse_name(text: &Vec<char>) -> (res: Option<OpCode>)
        ensures
            match res {
                Some(op) => spec_opcode_name(op) == text@,
                None => forall|op: OpCode| spec_opcode_name(op) != text@,
            },
    {
        let mut n: u8 = 0;
        while n < OPCODE_COUNT
            invariant
                n <= OPCODE_COUNT,
                forall|k: u8| k < n ==> match #[trigger] spec_opcode_from_index(k) {
                    Some(op) => spec_opcode_name(op) != text@,
                    None => true,
                },
            decreases OPCODE_COUNT - n,
        {
            match OpCode::from_repr(n) {
                Some(op) => {
                    let name = op.name();
                    if chars_eq(&name, text) {
                        return Some(op);
                    }
                },
                None => {},
            }
            n = n + 1;
        }
        proof {
            assert forall|op: OpCode| spec_opcode_name(op) != text@ by {
                lemma_opcode_index_roundtrip(op);
                let k = spec_opcode_index(op);
                assert(spec_opcode_from_index(k) == Some(op));
            }
        }
        None
    }
}

/// Every opcode is recovered from its number.
pub proof fn lemma_opcode_index_roundtrip(op: OpCode)
    ensures
        spec_opcode_from_index(spec_opcode_index(op)) == Some(op),
        spec_opcode_index(op) < OPCODE_COUNT,
{
}

/// Every number below the opcode count encodes an opcode, whose number it is.
pub proof fn lemma_opcode_from_index_roundtrip(n: u8)
    ensures
        n < OPCODE_COUNT <==> spec_opcode_from_index(n) is Some,
        spec_opcode_from_index(n) matches Some(op) ==> spec_opcode_index(op) == n,
{
}

/// One cell of a chunk's code: an instruction or a raw operand byte.
#[derive(Clone, Copy, Debug, PartialEq, Eq, Structural)]
pub enum Byte {
    Named(OpCode),
    Raw(u8),
}

/// The numeric value of a byte of code.
pub open spec fn spec_byte_value(b: Byte) -> u8 {
    match b {
        Byte::Named(op) => spec_opcode_index(op),
        Byte::Raw(n) => n,
    }
}

impl Byte {
    /// The byte's value as a `u8`.
    pub fn as_u8(self) -> (res: u8)
        ensures
            res == spec_byte_value(self),
    {
        match self {
            Byte::Named(opcode) => opcode.index(),
            Byte::Raw(num) => num,
        }
    }

    /// The byte's value widened to `u16`.
    pub fn as_u16(self) -> (res: u16)
        ensures
            res == spec_byte_value(self),
    {
        match self {
            Byte::Named(opcode) => opcode.index() as u16,
            Byte::Raw(num) => num as u16,
        }
    }

    /// The byte's value widened to `usize`.
    pub fn as_usize(self) -> (res: usize)
        ensures
            res == spec_byte_value(self),
    {
        match self {
            Byte::Named(opcode) => opcode.index() as usize,
            Byte::Raw(num) => num as usize,
        }
    }
}

} // verus!
