//! The tree representation of a computed value: a literal number, or a
//! binary application of an operator to two owned sub-expressions.

use vstd::prelude::*;

use crate::ops::Int;
use crate::ops::Op;
use crate::ops::op_apply;
use crate::ops::op_valid;

verus! {

/// An expression tree. `Val` is a leaf holding one value; `App` applies an
/// operator to two owned children. Trees are built bottom-up and never
/// mutated afterwards.
#[derive(Debug, PartialEq, Eq)]
pub enum Expr {
    Val(Int),
    App(Op, Box<Expr>, Box<Expr>),
}

/// A computed expression paired with its evaluated value: the unit the tree
/// builder produces and the search driver filters.
pub type CdResult = (Expr, Int);

/// Structural evaluation of an expression, over unbounded integers.
pub open spec fn eval(e: Expr) -> int
    decreases e,
{
    match e {
        Expr::Val(v) => v as int,
        Expr::App(op, l, r) => op_apply(op, eval(*l), eval(*r)),
    }
}

/// Every application node in the tree satisfies the operator's validity
/// predicate on its children's values: no negative or fractional
/// intermediate result, and no non-canonical commuted pair.
pub open spec fn wf(e: Expr) -> bool
    decreases e,
{
    match e {
        Expr::Val(_) => true,
        Expr::App(op, l, r) => wf(*l) && wf(*r) && op_valid(op, eval(*l), eval(*r)),
    }
}

/// The leaf values of an expression, from left to right.
pub open spec fn leaves(e: Expr) -> Seq<Int>
    decreases e,
{
    match e {
        Expr::Val(v) => seq![v],
        Expr::App(_, l, r) => leaves(*l) + leaves(*r),
    }
}

/// The application node combining two finished expressions with `op`.
pub open spec fn mk_app(op: Op, l: Expr, r: Expr) -> Expr {
    Expr::App(op, Box::new(l), Box::new(r))
}

/// An exact structural copy of an expression.
pub fn clone_expr(e: &Expr) -> (r: Expr)
    ensures
        r == *e,
    decreases *e,
{
    match e {
        Expr::Val(v) => Expr::Val(*v),
        Expr::App(op, l, r) => Expr::App(*op, Box::new(clone_expr(l)), Box::new(clone_expr(r))),
    }
}

} // verus!
