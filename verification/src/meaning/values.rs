//! The values that programs compute with.
use crate::common::ids::SymbolId;
use vstd::prelude::*;

verus! {

/// A value. Integers are those of mathematics.
#[verifier::ext_equal]
pub enum Value {
    Unit,
    Bool(bool),
    Int(int),
    /// A floating-point number, by its bits.
    Float(u64),
    Char(char),
    Text(Seq<char>),
    /// A struct, or a variant of an enum.
    Made { ty: SymbolId, variant: Option<SymbolId>, fields: Seq<Value> },
    /// No value: what is computed makes no sense.
    Wrong,
}

/// A machine that computes: which integer it holds for one of mathematics, what
/// it makes of two floating-point numbers under an operator, and what the pure
/// function of a name gives for arguments.
pub struct Arithmetic {
    pub word: spec_fn(int) -> int,
    pub float: spec_fn(char, u64, u64) -> Value,
    pub apply: spec_fn(SymbolId, Seq<Value>) -> Value,
}

impl Arithmetic {
    /// The integer that the machine holds.
    pub open spec fn held(self, n: int) -> Value {
        Value::Int((self.word)(n))
    }

    pub open spec fn floats(self, sign: char, a: u64, b: u64) -> Value {
        (self.float)(sign, a, b)
    }

    pub open spec fn applied(self, callee: SymbolId, args: Seq<Value>) -> Value {
        (self.apply)(callee, args)
    }
}

/// How far a number is from zero.
pub open spec fn size(a: int) -> int {
    if a < 0 {
        -a
    } else {
        a
    }
}

/// The whole number of times that one number goes into another, whatever the
/// signs.
pub open spec fn times(a: int, b: int) -> int {
    if (a < 0) == (b < 0) {
        size(a) / size(b)
    } else {
        -(size(a) / size(b))
    }
}

/// What is left over then.
pub open spec fn rest(a: int, b: int) -> int {
    a - times(a, b) * b
}

} // verus!
