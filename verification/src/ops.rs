//! The four arithmetic operations of the puzzle and the record of one
//! applied operation.

use vstd::prelude::*;

verus! {

/// One of the four operations the search may apply to a pair of values.
#[derive(Clone, Copy, PartialEq, Eq, Structural, Debug)]
pub enum Operation {
    Divide,
    Multiply,
    Add,
    Subtract,
}

/// A record of one applied operation: `op1` is the more recently available
/// operand, `op2` the next one back.
#[derive(Clone, Copy, PartialEq, Eq, Structural, Debug)]
pub struct Step {
    pub op1: u32,
    pub op2: u32,
    pub operation: Operation,
}

/// The value `op` produces on the pair `(a, b)`, or `None` when the
/// operation is not applicable there. Subtraction below zero, division by
/// zero, division with a nonzero remainder, and sums or products beyond
/// `u32::MAX` are all inapplicable: such a branch is pruned, never attempted.
pub open spec fn op_result(op: Operation, a: u32, b: u32) -> Option<u32> {
    match op {
        Operation::Add => if a + b <= u32::MAX {
            Some((a + b) as u32)
        } else {
            None
        },
        Operation::Multiply => if a * b <= u32::MAX {
            Some((a * b) as u32)
        } else {
            None
        },
        Operation::Subtract => if a >= b {
            Some((a - b) as u32)
        } else {
            None
        },
        Operation::Divide => if b != 0 && a % b == 0 {
            Some(a / b)
        } else {
            None
        },
    }
}

/// Applies `op` to `(a, b)`, returning the combined value exactly when the
/// operation is applicable to that pair.
pub fn apply_op(op: Operation, a: u32, b: u32) -> (r: Option<u32>)
    ensures
        r == op_result(op, a, b),
{
    match op {
        Operation::Add => a.checked_add(b),
        Operation::Multiply => a.checked_mul(b),
        Operation::Subtract => if a >= b {
            Some(a - b)
        } else {
            None
        },
        Operation::Divide => if b != 0 && a % b == 0 {
            Some(a / b)
        } else {
            None
        },
    }
}

} // verus!

