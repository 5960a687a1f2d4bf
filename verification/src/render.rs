//! Expression-to-text rendering: parenthesized infix with the minimal
//! parentheses that standard precedence reading requires.

use vstd::prelude::*;
use vstd::string::StringExecFns;

use crate::expr::Expr;
use crate::ops::Int;
use crate::ops::Op;
use crate::ops::priority;
use crate::ops::spec_priority;

verus! {

/// The decimal digit character for `d`.
pub open spec fn digit_char(d: int) -> char {
    if d == 0 {
        '0'
    } else if d == 1 {
        '1'
    } else if d == 2 {
        '2'
    } else if d == 3 {
        '3'
    } else if d == 4 {
        '4'
    } else if d == 5 {
        '5'
    } else if d == 6 {
        '6'
    } else if d == 7 {
        '7'
    } else if d == 8 {
        '8'
    } else {
        '9'
    }
}

/// The decimal digits of a non-negative number, most significant first.
pub open spec fn dec_digits(n: nat) -> Seq<char>
    decreases n,
{
    if n < 10 {
        seq![digit_char(n as int)]
    } else {
        dec_digits(n / 10).push(digit_char((n % 10) as int))
    }
}

/// The decimal rendering of an integer: a minus sign first when negative.
pub open spec fn spec_decimal(n: int) -> Seq<char> {
    if n < 0 {
        seq!['-'] + dec_digits((-n) as nat)
    } else {
        dec_digits(n as nat)
    }
}

/// Relies on `i64`'s `Display` implementation through
/// `ToString::to_string`: the decimal representation of the value, with a
/// leading minus sign when it is negative.
#[verifier::external_body]
fn int_to_string(v: Int) -> (r: String)
    ensures
        r@ == spec_decimal(v as int),
{
    v.to_string()
}

/// The display glyph of an operator, with its surrounding spaces.
pub open spec fn op_glyph(op: Op) -> Seq<char> {
    match op {
        Op::Add => seq![' ', '+', ' '],
        Op::Sub => seq![' ', '-', ' '],
        Op::Mul => seq![' ', '*', ' '],
        Op::Div => seq![' ', '/', ' '],
    }
}

/// The display glyph of an operator, with its surrounding spaces.
pub fn op_str(op: Op) -> (r: &'static str)
    ensures
        r@ == op_glyph(op),
{
    match op {
        Op::Add => {
            proof {
                reveal_strlit(" + ");
            }
            let s = " + ";
            assert(s@ =~= op_glyph(op));
            s
        },
        Op::Sub => {
            proof {
                reveal_strlit(" - ");
            }
            let s = " - ";
            assert(s@ =~= op_glyph(op));
            s
        },
        Op::Mul => {
            proof {
                reveal_strlit(" * ");
            }
            let s = " * ";
            assert(s@ =~= op_glyph(op));
            s
        },
        Op::Div => {
            proof {
                reveal_strlit(" / ");
            }
            let s = " / ";
            assert(s@ =~= op_glyph(op));
            s
        },
    }
}

/// The infix rendering of an expression under a parent operator: a literal
/// as its decimal value; an application as its children around the
/// operator's glyph, parenthesized exactly when the operator binds less
/// tightly than the parent.
pub open spec fn render_spec(e: Expr, parent: Op) -> Seq<char>
    decreases e,
{
    match e {
        Expr::Val(v) => spec_decimal(v as int),
        Expr::App(op, l, r) => {
            let inner = render_spec(*l, op) + op_glyph(op) + render_spec(*r, op);
            if spec_priority(parent) > spec_priority(op) {
                seq!['('] + inner + seq![')']
            } else {
                inner
            }
        },
    }
}

/// Renders an expression under a parent operator, wrapping it in
/// parentheses exactly when its operator has strictly lower precedence
/// rank than the parent's.
pub fn get_str(expr: &Expr, parent_op: Op) -> (r: String)
    ensures
        r@ == render_spec(*expr, parent_op),
    decreases *expr,
{
    match expr {
        Expr::Val(v) => int_to_string(*v),
        Expr::App(op, l, r) => {
            let ls = get_str(l, *op);
            let rs = get_str(r, *op);
            let use_paren = priority(parent_op) > priority(*op);
            let mut s = String::new();
            if use_paren {
                s.append("(");
            }
            s.append(ls.as_str());
            s.append(op_str(*op));
            s.append(rs.as_str());
            if use_paren {
                s.append(")");
            }
            proof {
                reveal_strlit("(");
                reveal_strlit(")");
                assert(s@ =~= render_spec(*expr, parent_op));
            }
            s
        },
    }
}

/// Renders a finished expression as infix text, with no outer parentheses.
pub fn render(expr: &Expr) -> (r: String)
    ensures
        r@ == render_spec(*expr, Op::Sub),
{
    get_str(expr, Op::Sub)
}

} // verus!
