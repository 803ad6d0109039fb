//! Arithmetic rules of the form `new = <operand> <symbol> <operand>`.
use vstd::prelude::*;

verus! {

/// One side of a rule: the incoming value, or a fixed number.
#[derive(Clone, Copy, Debug, PartialEq, Eq, Structural)]
pub enum Operand {
    Old,
    Num(u64),
}

/// The operator of a rule.
#[derive(Clone, Copy, Debug, PartialEq, Eq, Structural)]
pub enum Symbol {
    Plus,
    Minus,
    Mul,
    Div,
}

/// A rule `first symbol second`, evaluated against an incoming value.
#[derive(Clone, Copy, Debug, PartialEq, Eq, Structural)]
pub struct Operation {
    pub first: Operand,
    pub symbol: Symbol,
    pub second: Operand,
}

/// The value an operand stands for when the incoming value is `old`.
pub open spec fn operand_value(operand: Operand, old: int) -> int {
    match operand {
        Operand::Old => old,
        Operand::Num(n) => n as int,
    }
}

/// The mathematical result of a rule on `old`.  Both operands are never
/// negative, so `/` here truncates towards zero.
pub open spec fn spec_transform(op: Operation, old: int) -> int {
    let a = operand_value(op.first, old);
    let b = operand_value(op.second, old);
    match op.symbol {
        Symbol::Plus => a + b,
        Symbol::Minus => a - b,
        Symbol::Mul => a * b,
        Symbol::Div => a / b,
    }
}

/// The rule has a result on `old` that is a `u64`: no division by zero,
/// no negative difference, nothing above `u64::MAX`.
pub open spec fn transform_fits(op: Operation, old: int) -> bool {
    &&& !(op.symbol is Div && operand_value(op.second, old) == 0)
    &&& 0 <= spec_transform(op, old) <= u64::MAX
}

impl Operand {
    /// The value of this operand when the incoming value is `old`.
    pub fn resolve(&self, old: u64) -> (r: u64)
        ensures
            r == operand_value(*self, old as int),
    {
        match self {
            Operand::Old => old,
            Operand::Num(n) => *n,
        }
    }
}

impl Operation {
    /// Applies the rule to `old`; `None` where the result is not a `u64`.
    pub fn transform(&self, old: u64) -> (r: Option<u64>)
        ensures
            r == (if transform_fits(*self, old as int) {
                Some(spec_transform(*self, old as int) as u64)
            } else {
                None
            }),
    {
        let a = self.first.resolve(old);
        let b = self.second.resolve(old);
        match self.symbol {
            Symbol::Plus => a.checked_add(b),
            Symbol::Minus => a.checked_sub(b),
            Symbol::Mul => a.checked_mul(b),
            Symbol::Div => {
                if b == 0 {
                    None
                } else {
                    Some(a / b)
                }
            },
        }
    }
}

} // verus!
