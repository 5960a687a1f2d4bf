//! The four binary operators, their legality test between two computed
//! values, and their application function.

use vstd::prelude::*;

verus! {

/// The numeric type every computed value is stored in.
pub type Int = i64;

/// One of the four arithmetic operators. The precedence rank (`priority`)
/// matters only for rendering; the validity predicate and the apply function
/// drive the search.
#[derive(Copy, Clone, Debug, PartialEq, Eq)]
pub enum Op {
    Add,
    Sub,
    Mul,
    Div,
}

/// When may `op` legally combine two already-computed values `x` (left) and
/// `y` (right)? Addition and multiplication admit only `x <= y`, so of two
/// commuted pairs exactly one is ever built; subtraction must stay strictly
/// positive; multiplication by 1 and division by 1 are excluded as trivial;
/// division must be exact.
pub open spec fn op_valid(op: Op, x: int, y: int) -> bool {
    match op {
        Op::Add => x <= y,
        Op::Sub => x > y,
        Op::Mul => x != 1 && y != 1 && x <= y,
        Op::Div => y > 1 && x % y == 0,
    }
}

/// The mathematical result of applying `op`, over unbounded integers.
pub open spec fn op_apply(op: Op, x: int, y: int) -> int {
    match op {
        Op::Add => x + y,
        Op::Sub => x - y,
        Op::Mul => x * y,
        Op::Div => x / y,
    }
}

/// Legality test between the values of two computed sub-results.
pub fn valid(op: Op, x: Int, y: Int) -> (r: bool)
    requires
        0 <= x,
        0 <= y,
    ensures
        r == op_valid(op, x as int, y as int),
{
    match op {
        Op::Add => x <= y,
        Op::Sub => x > y,
        Op::Mul => x != 1 && y != 1 && x <= y,
        Op::Div => y > 1 && ((x % y) == 0),
    }
}

/// Applies `op` to two values. A call is only meaningful — and only
/// permitted — after `valid` has passed, and the caller must know the
/// mathematical result fits the value type; both are enforced statically
/// here, so a misuse that would silently corrupt a value cannot verify.
pub fn apply(op: Op, a: Int, b: Int) -> (r: Int)
    requires
        0 <= a,
        0 <= b,
        op_valid(op, a as int, b as int),
        op_apply(op, a as int, b as int) <= i64::MAX,
    ensures
        r == op_apply(op, a as int, b as int),
{
    match op {
        Op::Add => a + b,
        Op::Sub => a - b,
        Op::Mul => a * b,
        Op::Div => a / b,
    }
}

/// The precedence rank used by the renderer: additive operators bind less
/// tightly than multiplicative ones.
pub open spec fn spec_priority(op: Op) -> u8 {
    match op {
        Op::Add | Op::Sub => 1,
        Op::Mul | Op::Div => 2,
    }
}

/// Precedence rank of `op`, for rendering.
pub fn priority(op: Op) -> (r: u8)
    ensures
        r == spec_priority(op),
{
    match op {
        Op::Add | Op::Sub => 1,
        Op::Mul | Op::Div => 2,
    }
}

/// Canonicalization law for addition: of two commuted operand orders with
/// `x <= y`, the ascending one is valid and the descending one is not,
/// unless the operands are equal.
pub proof fn lemma_add_canonical(x: int, y: int)
    requires
        x <= y,
    ensures
        op_valid(Op::Add, x, y),
        x != y ==> !op_valid(Op::Add, y, x),
{
}

/// Canonicalization law for multiplication: with both operands different
/// from 1 and `x <= y`, the ascending order is valid; the descending order
/// is never valid unless the operands are equal.
pub proof fn lemma_mul_canonical(x: int, y: int)
    requires
        x <= y,
    ensures
        x != 1 && y != 1 ==> op_valid(Op::Mul, x, y),
        x != y ==> !op_valid(Op::Mul, y, x),
{
}

/// Canonicalization law for subtraction: with `x > y` exactly the order
/// that keeps the result strictly positive is valid.
pub proof fn lemma_sub_canonical(x: int, y: int)
    requires
        x > y,
    ensures
        op_valid(Op::Sub, x, y),
        !op_valid(Op::Sub, y, x),
{
}

} // verus!
