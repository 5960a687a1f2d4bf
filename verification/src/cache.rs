//! A precomputed table of single-operator results over the canonical tile
//! pool, built once before a search starts and read-only afterwards.

use vstd::pervasive::unreached;
use vstd::prelude::*;

use crate::expr::CdResult;
use crate::expr::Expr;
use crate::expr::clone_expr;
use crate::expr::mk_app;
use crate::ops::Int;
use crate::ops::Op;
use crate::ops::apply;
use crate::ops::op_apply;
use crate::ops::op_valid;
use crate::ops::valid;

verus! {

/// The face value at position `i` of the canonical tile pool.
pub open spec fn pool_at(i: int) -> Int {
    if i == 0 {
        1
    } else if i == 1 {
        2
    } else if i == 2 {
        3
    } else if i == 3 {
        4
    } else if i == 4 {
        5
    } else if i == 5 {
        6
    } else if i == 6 {
        7
    } else if i == 7 {
        8
    } else if i == 8 {
        9
    } else if i == 9 {
        10
    } else if i == 10 {
        15
    } else if i == 11 {
        20
    } else if i == 12 {
        25
    } else if i == 13 {
        50
    } else if i == 14 {
        75
    } else {
        100
    }
}

/// The 16 candidate face values of the canonical tile pool.
pub open spec fn pool() -> Seq<Int> {
    Seq::new(16, |i: int| pool_at(i))
}

/// Every pool value lies between 1 and 100.
pub proof fn lemma_pool_bounds(i: int)
    requires
        0 <= i < 16,
    ensures
        1 <= pool()[i] <= 100,
{
}

/// Position of each operator within a cache row group.
pub open spec fn op_index(op: Op) -> int {
    match op {
        Op::Add => 0,
        Op::Sub => 1,
        Op::Mul => 2,
        Op::Div => 3,
    }
}

/// Where the entry for (`op`, pool position `i`, pool position `j`) lives.
pub open spec fn cache_index(op: Op, i: int, j: int) -> int {
    op_index(op) * 256 + i * 16 + j
}

/// What the table holds for (`op`, pool position `i`, pool position `j`):
/// the trivial one-operator result when the pair is valid, nothing
/// otherwise.
pub open spec fn entry_spec(op: Op, i: int, j: int) -> Option<CdResult> {
    if op_valid(op, pool_at(i) as int, pool_at(j) as int) {
        Some(
            (
                mk_app(op, Expr::Val(pool_at(i)), Expr::Val(pool_at(j))),
                op_apply(op, pool_at(i) as int, pool_at(j) as int) as Int,
            ),
        )
    } else {
        None
    }
}

/// The precomputed leaf-level results, one slot per (operator, ordered pool
/// pair). Populated exhaustively once; read-only afterwards.
pub struct Cache {
    pub entries: Vec<Option<CdResult>>,
}

/// A fully and correctly populated cache: an entry for every valid
/// (operator, pool pair), and no others.
pub open spec fn cache_wf(c: Cache) -> bool {
    &&& c.entries@.len() == 1024
    &&& forall|op: Op, i: int, j: int|
        0 <= i < 16 && 0 <= j < 16 ==> c.entries@[#[trigger] cache_index(op, i, j)] == entry_spec(
            op,
            i,
            j,
        )
}

/// The operator whose cache row group starts at `k * 256`.
pub fn op_of_num(k: usize) -> (op: Op)
    requires
        k < 4,
    ensures
        op_index(op) == k as int,
{
    if k == 0 {
        Op::Add
    } else if k == 1 {
        Op::Sub
    } else if k == 2 {
        Op::Mul
    } else {
        Op::Div
    }
}

/// The pool face value at position `i`.
pub fn pool_val(i: usize) -> (v: Int)
    requires
        i < 16,
    ensures
        v == pool_at(i as int),
{
    if i == 0 {
        1
    } else if i == 1 {
        2
    } else if i == 2 {
        3
    } else if i == 3 {
        4
    } else if i == 4 {
        5
    } else if i == 5 {
        6
    } else if i == 6 {
        7
    } else if i == 7 {
        8
    } else if i == 8 {
        9
    } else if i == 9 {
        10
    } else if i == 10 {
        15
    } else if i == 11 {
        20
    } else if i == 12 {
        25
    } else if i == 13 {
        50
    } else if i == 14 {
        75
    } else {
        100
    }
}

/// The pool position holding `v`, or `None` when `v` is not a canonical
/// face value.
pub fn pool_index(v: Int) -> (r: Option<usize>)
    ensures
        match r {
            Some(i) => i < 16 && pool_at(i as int) == v,
            None => !pool().contains(v),
        },
{
    let mut i: usize = 0;
    while i < 16
        invariant
            i <= 16,
            forall|j: int| 0 <= j < i ==> pool_at(j) != v,
        decreases 16 - i,
    {
        if pool_val(i) == v {
            return Some(i);
        }
        i += 1;
    }
    assert(forall|j: int| 0 <= j < 16 ==> pool()[j] != v);
    None
}

/// Is `v` one of the canonical pool's face values?
pub fn in_pool(v: Int) -> (b: bool)
    ensures
        b == pool().contains(v),
{
    let r = pool_index(v);
    if r.is_some() {
        let i = r.unwrap();
        assert(pool()[i as int] == v);
        true
    } else {
        false
    }
}

impl Cache {
    /// Builds the table: for every ordered pool pair and every operator
    /// valid between the two face values, the trivial one-operator result,
    /// keyed by (operator, left position, right position).
    pub fn populate() -> (c: Cache)
        ensures
            cache_wf(c),
    {
        let mut entries: Vec<Option<CdResult>> = Vec::new();
        let mut k: usize = 0;
        while k < 4
            invariant
                k <= 4,
                entries@.len() == k * 256,
                forall|op: Op, i2: int, j2: int|
                    0 <= i2 < 16 && 0 <= j2 < 16 && #[trigger] cache_index(op, i2, j2)
                        < entries@.len() ==> entries@[cache_index(op, i2, j2)] == entry_spec(
                        op,
                        i2,
                        j2,
                    ),
            decreases 4 - k,
        {
            let op = op_of_num(k);
            let mut i: usize = 0;
            while i < 16
                invariant
                    k < 4,
                    i <= 16,
                    op_index(op) == k as int,
                    entries@.len() == k * 256 + i * 16,
                    forall|op2: Op, i2: int, j2: int|
                        0 <= i2 < 16 && 0 <= j2 < 16 && #[trigger] cache_index(op2, i2, j2)
                            < entries@.len() ==> entries@[cache_index(op2, i2, j2)] == entry_spec(
                            op2,
                            i2,
                            j2,
                        ),
                decreases 16 - i,
            {
                let mut j: usize = 0;
                while j < 16
                    invariant
                        k < 4,
                        i < 16,
                        j <= 16,
                        op_index(op) == k as int,
                        entries@.len() == k * 256 + i * 16 + j,
                        forall|op2: Op, i2: int, j2: int|
                            0 <= i2 < 16 && 0 <= j2 < 16 && #[trigger] cache_index(op2, i2, j2)
                                < entries@.len() ==> entries@[cache_index(op2, i2, j2)]
                                == entry_spec(op2, i2, j2),
                    decreases 16 - j,
                {
                    let a = pool_val(i);
                    let b = pool_val(j);
                    proof {
                        lemma_pool_bounds(i as int);
                        lemma_pool_bounds(j as int);
                        assert(a as int * b as int <= 10000) by (nonlinear_arith)
                            requires
                                1 <= a as int <= 100,
                                1 <= b as int <= 100,
                        ;
                        assert(b as int > 1 ==> a as int / b as int <= 100) by (nonlinear_arith)
                            requires
                                1 <= a as int <= 100,
                                1 <= b as int <= 100,
                        ;
                    }
                    if valid(op, a, b) {
                        let e = Expr::App(op, Box::new(Expr::Val(a)), Box::new(Expr::Val(b)));
                        let v = apply(op, a, b);
                        entries.push(Some((e, v)));
                    } else {
                        entries.push(None);
                    }
                    j += 1;
                }
                i += 1;
            }
            k += 1;
        }
        Cache { entries }
    }

    /// Returns the precomputed result for `op` between two canonical face
    /// values: the same expression and value that direct construction would
    /// build. A slot that the requires admit is always filled: a miss would
    /// be an invariant violation and is proven unreachable.
    pub fn lookup(&self, op: Op, x: Int, y: Int) -> (r: CdResult)
        requires
            cache_wf(*self),
            pool().contains(x),
            pool().contains(y),
            op_valid(op, x as int, y as int),
        ensures
            r.0 == mk_app(op, Expr::Val(x), Expr::Val(y)),
            r.1 as int == op_apply(op, x as int, y as int),
    {
        let ix = pool_index(x);
        let iy = pool_index(y);
        match (ix, iy) {
            (Some(i), Some(j)) => {
                let ko = op_num(op);
                let n: usize = ko * 256 + i * 16 + j;
                assert(n as int == cache_index(op, i as int, j as int));
                assert(self.entries@[n as int] == entry_spec(op, i as int, j as int));
                proof {
                    lemma_pool_bounds(i as int);
                    lemma_pool_bounds(j as int);
                }
                match &self.entries[n] {
                    Some(p) => (clone_expr(&p.0), p.1),
                    None => unreached(),
                }
            },
            _ => unreached(),
        }
    }
}

/// Position of `op` within a cache row group.
pub fn op_num(op: Op) -> (k: usize)
    ensures
        k as int == op_index(op),
{
    match op {
        Op::Add => 0,
        Op::Sub => 1,
        Op::Mul => 2,
        Op::Div => 3,
    }
}

/// Cache/direct-path equivalence: for a valid pair of canonical face
/// values, the entry the populated cache holds is exactly the result direct
/// construction builds — the same expression tree and the same value.
pub proof fn lemma_cache_direct_equiv(c: Cache, op: Op, i: int, j: int)
    requires
        cache_wf(c),
        0 <= i < 16,
        0 <= j < 16,
        op_valid(op, pool()[i] as int, pool()[j] as int),
    ensures
        c.entries@[cache_index(op, i, j)] == Some(
            (
                mk_app(op, Expr::Val(pool()[i]), Expr::Val(pool()[j])),
                op_apply(op, pool()[i] as int, pool()[j] as int) as Int,
            ),
        ),
{
}

} // verus!
