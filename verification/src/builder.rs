//! The tree builder: given an ordered sequence of numbers, enumerates every
//! way to split it into a left and a right run, builds all expression trees
//! for each run, and combines them pairwise through the operator rules,
//! consulting the leaf cache when both sides are canonical literals.

use vstd::prelude::*;

use crate::cache::Cache;
use crate::cache::cache_wf;
use crate::cache::pool;
use crate::expr::CdResult;
use crate::expr::Expr;
use crate::expr::clone_expr;
use crate::expr::eval;
use crate::expr::leaves;
use crate::expr::mk_app;
use crate::expr::wf;
use crate::ops::Int;
use crate::ops::Op;
use crate::ops::apply;
use crate::ops::op_apply;
use crate::ops::op_valid;
use crate::ops::valid;

verus! {

/// Every entry of the sequence is non-negative, as the data model demands
/// of values.
pub open spec fn all_nonneg(s: Seq<Int>) -> bool {
    forall|i: int| 0 <= i < s.len() ==> s[i] >= 0
}

/// The product of `entry + 1` over the sequence: an upper bound (minus one)
/// on every value reachable from it by valid operator applications, used to
/// show the arithmetic never leaves the value type.
pub open spec fn weight(s: Seq<Int>) -> int
    decreases s.len(),
{
    if s.len() == 0 {
        1
    } else {
        (s[0] + 1) * weight(s.drop_first())
    }
}

/// A sequence of sources small enough that the whole search stays within
/// the value type.
pub open spec fn seq_ok(s: Seq<Int>) -> bool {
    all_nonneg(s) && weight(s) - 1 <= i64::MAX
}

/// The weight of a sequence of non-negative entries is at least 1.
pub proof fn lemma_weight_pos(s: Seq<Int>)
    requires
        all_nonneg(s),
    ensures
        weight(s) >= 1,
    decreases s.len(),
{
    if s.len() > 0 {
        assert(all_nonneg(s.drop_first()));
        lemma_weight_pos(s.drop_first());
        assert((s[0] + 1) * weight(s.drop_first()) >= 1) by (nonlinear_arith)
            requires
                s[0] + 1 >= 1,
                weight(s.drop_first()) >= 1,
        ;
    }
}

/// Weight distributes over concatenation as a product.
pub proof fn lemma_weight_concat(a: Seq<Int>, b: Seq<Int>)
    ensures
        weight(a + b) == weight(a) * weight(b),
    decreases a.len(),
{
    if a.len() == 0 {
        assert(a + b =~= b);
    } else {
        assert((a + b).drop_first() =~= a.drop_first() + b);
        lemma_weight_concat(a.drop_first(), b);
        assert((a[0] + 1) * (weight(a.drop_first()) * weight(b)) == ((a[0] + 1) * weight(
            a.drop_first(),
        )) * weight(b)) by (nonlinear_arith);
    }
}

/// One finished combination: the application node over the two sub-trees,
/// paired with the operator's result on their values.
pub open spec fn mk_res(op: Op, l: Expr, x: Int, r: Expr, y: Int) -> CdResult {
    (mk_app(op, l, r), op_apply(op, x as int, y as int) as Int)
}

/// Every result of combining two sub-results through one valid operator,
/// in the fixed operator order Add, Sub, Mul, Div.
pub open spec fn combine_spec(l: Expr, x: Int, r: Expr, y: Int) -> Seq<CdResult> {
    (if op_valid(Op::Add, x as int, y as int) {
        seq![mk_res(Op::Add, l, x, r, y)]
    } else {
        Seq::empty()
    }) + (if op_valid(Op::Sub, x as int, y as int) {
        seq![mk_res(Op::Sub, l, x, r, y)]
    } else {
        Seq::empty()
    }) + (if op_valid(Op::Mul, x as int, y as int) {
        seq![mk_res(Op::Mul, l, x, r, y)]
    } else {
        Seq::empty()
    }) + (if op_valid(Op::Div, x as int, y as int) {
        seq![mk_res(Op::Div, l, x, r, y)]
    } else {
        Seq::empty()
    })
}

/// What the builder guarantees of each produced pair, relative to the
/// sequence it was built over: a well-formed tree whose leaves are exactly
/// that sequence, whose stored value is its structural evaluation, and
/// whose value stays below the sequence's weight.
pub open spec fn sound_for(p: CdResult, ns: Seq<Int>) -> bool {
    &&& wf(p.0)
    &&& leaves(p.0) == ns
    &&& p.1 as int == eval(p.0)
    &&& 0 <= eval(p.0) <= weight(ns) - 1
}

/// Combining two sound sub-results through any valid operator yields pairs
/// sound for the concatenated sequence; in particular no value overflows.
pub proof fn lemma_combine_spec_sound(l: Expr, x: Int, r: Expr, y: Int, lns: Seq<Int>, rns: Seq<
    Int,
>)
    requires
        all_nonneg(lns),
        all_nonneg(rns),
        sound_for((l, x), lns),
        sound_for((r, y), rns),
        weight(lns) * weight(rns) - 1 <= i64::MAX,
    ensures
        forall|k: int|
            0 <= k < combine_spec(l, x, r, y).len() ==> sound_for(
                #[trigger] combine_spec(l, x, r, y)[k],
                lns + rns,
            ),
{
    let wl = weight(lns);
    let wr = weight(rns);
    lemma_weight_pos(lns);
    lemma_weight_pos(rns);
    lemma_weight_concat(lns, rns);
    assert(x + y <= wl * wr - 1) by (nonlinear_arith)
        requires
            0 <= x <= wl - 1,
            0 <= y <= wr - 1,
            wl >= 1,
            wr >= 1,
    ;
    assert(x * y <= wl * wr - 1) by (nonlinear_arith)
        requires
            0 <= x <= wl - 1,
            0 <= y <= wr - 1,
            wl >= 1,
            wr >= 1,
    ;
    assert(x <= wl * wr - 1) by (nonlinear_arith)
        requires
            0 <= x <= wl - 1,
            wl >= 1,
            wr >= 1,
    ;
    assert(y as int > 1 ==> 0 <= x as int / y as int <= x) by (nonlinear_arith)
        requires
            0 <= x,
    ;
    assert forall|k: int| 0 <= k < combine_spec(l, x, r, y).len() implies sound_for(
        #[trigger] combine_spec(l, x, r, y)[k],
        lns + rns,
    ) by {
        let p = combine_spec(l, x, r, y)[k];
        assert(leaves(p.0) =~= lns + rns);
    }
}

/// All results over one ordered sequence: nothing from an empty run, the
/// bare literal from a single number, and otherwise every combination
/// arising from every split point, in ascending split order.
pub open spec fn results_spec(ns: Seq<Int>) -> Seq<CdResult>
    decreases ns.len(), 1int, 0int,
{
    if ns.len() == 0 {
        Seq::empty()
    } else if ns.len() == 1 {
        seq![(Expr::Val(ns[0]), ns[0])]
    } else {
        splits_from(ns, 1)
    }
}

/// The results contributed by split points `i` and upward: the left run is
/// the first `i` entries, the right run the rest.
pub open spec fn splits_from(ns: Seq<Int>, i: int) -> Seq<CdResult>
    decreases ns.len(), 0int, ns.len() - i,
{
    if 1 <= i < ns.len() {
        pairs_from(
            results_spec(ns.subrange(0, i)),
            results_spec(ns.subrange(i, ns.len() as int)),
            0,
        ) + splits_from(ns, i + 1)
    } else {
        Seq::empty()
    }
}

/// Every combination of a left result from `ls[j..]` with every right
/// result, left results outermost.
pub open spec fn pairs_from(ls: Seq<CdResult>, rs: Seq<CdResult>, j: int) -> Seq<CdResult>
    decreases ls.len() - j,
{
    if 0 <= j < ls.len() {
        row_from(ls[j], rs, 0) + pairs_from(ls, rs, j + 1)
    } else {
        Seq::empty()
    }
}

/// Every combination of the one left result `lp` with the right results
/// from `rs[k..]`, in right-result order.
pub open spec fn row_from(lp: CdResult, rs: Seq<CdResult>, k: int) -> Seq<CdResult>
    decreases rs.len() - k,
{
    if 0 <= k < rs.len() {
        combine_spec(lp.0, lp.1, rs[k].0, rs[k].1) + row_from(lp, rs, k + 1)
    } else {
        Seq::empty()
    }
}

/// Soundness of one row: combining a sound left result with sound right
/// results yields pairs sound for the concatenated sequence.
proof fn lemma_row_sound(lp: CdResult, rs: Seq<CdResult>, k: int, lns: Seq<Int>, rns: Seq<Int>)
    requires
        all_nonneg(lns),
        all_nonneg(rns),
        sound_for(lp, lns),
        forall|m: int| 0 <= m < rs.len() ==> sound_for(#[trigger] rs[m], rns),
        weight(lns) * weight(rns) - 1 <= i64::MAX,
    ensures
        forall|t: int|
            0 <= t < row_from(lp, rs, k).len() ==> sound_for(
                #[trigger] row_from(lp, rs, k)[t],
                lns + rns,
            ),
    decreases rs.len() - k,
{
    if 0 <= k < rs.len() {
        lemma_combine_spec_sound(lp.0, lp.1, rs[k].0, rs[k].1, lns, rns);
        lemma_row_sound(lp, rs, k + 1, lns, rns);
        let c = combine_spec(lp.0, lp.1, rs[k].0, rs[k].1);
        assert forall|t: int| 0 <= t < row_from(lp, rs, k).len() implies sound_for(
            #[trigger] row_from(lp, rs, k)[t],
            lns + rns,
        ) by {
            if t < c.len() {
                assert(row_from(lp, rs, k)[t] == c[t]);
            } else {
                assert(row_from(lp, rs, k)[t] == row_from(lp, rs, k + 1)[t - c.len()]);
            }
        }
    }
}

/// Soundness of all pair combinations between two sound result lists.
proof fn lemma_pairs_sound(ls: Seq<CdResult>, rs: Seq<CdResult>, j: int, lns: Seq<Int>, rns: Seq<
    Int,
>)
    requires
        all_nonneg(lns),
        all_nonneg(rns),
        forall|m: int| 0 <= m < ls.len() ==> sound_for(#[trigger] ls[m], lns),
        forall|m: int| 0 <= m < rs.len() ==> sound_for(#[trigger] rs[m], rns),
        weight(lns) * weight(rns) - 1 <= i64::MAX,
    ensures
        forall|t: int|
            0 <= t < pairs_from(ls, rs, j).len() ==> sound_for(
                #[trigger] pairs_from(ls, rs, j)[t],
                lns + rns,
            ),
    decreases ls.len() - j,
{
    if 0 <= j < ls.len() {
        lemma_row_sound(ls[j], rs, 0, lns, rns);
        lemma_pairs_sound(ls, rs, j + 1, lns, rns);
        let c = row_from(ls[j], rs, 0);
        assert forall|t: int| 0 <= t < pairs_from(ls, rs, j).len() implies sound_for(
            #[trigger] pairs_from(ls, rs, j)[t],
            lns + rns,
        ) by {
            if t < c.len() {
                assert(pairs_from(ls, rs, j)[t] == c[t]);
            } else {
                assert(pairs_from(ls, rs, j)[t] == pairs_from(ls, rs, j + 1)[t - c.len()]);
            }
        }
    }
}

/// Soundness of the whole builder over one sequence: every produced pair
/// is a well-formed tree over exactly that sequence, carries its own
/// evaluation, and stays within the weight bound. This is the round-trip
/// and no-invalid-intermediates guarantee at the specification level.
pub proof fn lemma_results_sound(ns: Seq<Int>)
    requires
        all_nonneg(ns),
        weight(ns) - 1 <= i64::MAX,
    ensures
        forall|t: int|
            0 <= t < results_spec(ns).len() ==> sound_for(#[trigger] results_spec(ns)[t], ns),
    decreases ns.len(), 1int, 0int,
{
    if ns.len() == 1 {
        let p = results_spec(ns)[0];
        assert(ns[0] >= 0);
        assert(leaves(p.0) =~= ns);
        assert(weight(ns) == (ns[0] + 1) * weight(ns.drop_first()));
        assert(weight(ns.drop_first()) == 1);
        assert(sound_for(results_spec(ns)[0], ns));
    } else if ns.len() > 1 {
        lemma_splits_sound(ns, 1);
        assert forall|t: int| 0 <= t < results_spec(ns).len() implies sound_for(
            #[trigger] results_spec(ns)[t],
            ns,
        ) by {
            assert(results_spec(ns)[t] == splits_from(ns, 1)[t]);
        }
    }
}

/// Soundness of the contributions of split points `i` and upward.
proof fn lemma_splits_sound(ns: Seq<Int>, i: int)
    requires
        all_nonneg(ns),
        weight(ns) - 1 <= i64::MAX,
        ns.len() >= 2,
    ensures
        forall|t: int|
            0 <= t < splits_from(ns, i).len() ==> sound_for(#[trigger] splits_from(ns, i)[t], ns),
    decreases ns.len(), 0int, ns.len() - i,
{
    if 1 <= i < ns.len() {
        let lns = ns.subrange(0, i);
        let rns = ns.subrange(i, ns.len() as int);
        assert(ns =~= lns + rns);
        lemma_weight_concat(lns, rns);
        lemma_weight_pos(lns);
        lemma_weight_pos(rns);
        assert(weight(lns) - 1 <= i64::MAX && weight(rns) - 1 <= i64::MAX) by (nonlinear_arith)
            requires
                weight(lns) >= 1,
                weight(rns) >= 1,
                weight(lns) * weight(rns) - 1 <= i64::MAX,
        ;
        lemma_results_sound(lns);
        lemma_results_sound(rns);
        lemma_pairs_sound(results_spec(lns), results_spec(rns), 0, lns, rns);
        lemma_splits_sound(ns, i + 1);
        let c = pairs_from(results_spec(lns), results_spec(rns), 0);
        assert forall|t: int| 0 <= t < splits_from(ns, i).len() implies sound_for(
            #[trigger] splits_from(ns, i)[t],
            ns,
        ) by {
            if t < c.len() {
                assert(splits_from(ns, i)[t] == c[t]);
                assert(sound_for(c[t], lns + rns));
            } else {
                assert(splits_from(ns, i)[t] == splits_from(ns, i + 1)[t - c.len()]);
            }
        }
    }
}

/// An expression always has at least one leaf.
proof fn lemma_leaves_len(e: Expr)
    ensures
        leaves(e).len() >= 1,
    decreases e,
{
    match e {
        Expr::Val(_) => {},
        Expr::App(_, l, r) => {
            lemma_leaves_len(*l);
            lemma_leaves_len(*r);
        },
    }
}

/// The combination through any one valid operator is among the
/// combinations of the pair.
proof fn lemma_combine_spec_contains(op: Op, l: Expr, x: Int, r: Expr, y: Int)
    requires
        op_valid(op, x as int, y as int),
    ensures
        combine_spec(l, x, r, y).contains(mk_res(op, l, x, r, y)),
{
    let s = combine_spec(l, x, r, y);
    let na: int = if op_valid(Op::Add, x as int, y as int) {
        1
    } else {
        0
    };
    let ns_: int = if op_valid(Op::Sub, x as int, y as int) {
        1
    } else {
        0
    };
    let nm: int = if op_valid(Op::Mul, x as int, y as int) {
        1
    } else {
        0
    };
    match op {
        Op::Add => {
            assert(s[0] == mk_res(op, l, x, r, y));
        },
        Op::Sub => {
            assert(s[na] == mk_res(op, l, x, r, y));
        },
        Op::Mul => {
            assert(s[na + ns_] == mk_res(op, l, x, r, y));
        },
        Op::Div => {
            assert(s[na + ns_ + nm] == mk_res(op, l, x, r, y));
        },
    }
}

/// Whatever one pair of list members combines to is among the
/// combinations of the two lists.
proof fn lemma_pairs_from_contains(ls: Seq<CdResult>, rs: Seq<CdResult>, j: int, k: int, p:
    CdResult)
    requires
        0 <= j < ls.len(),
        0 <= k < rs.len(),
        combine_spec(ls[j].0, ls[j].1, rs[k].0, rs[k].1).contains(p),
    ensures
        pairs_from(ls, rs, 0).contains(p),
{
    lemma_row_from_contains(ls[j], rs, 0, k, p);
    lemma_pairs_from_step(ls, rs, 0, j, p);
}

/// Whatever the row of `lp` against `rs[k..]` holds at its start position
/// is in the row from any earlier start.
proof fn lemma_row_from_contains(lp: CdResult, rs: Seq<CdResult>, j: int, k: int, p: CdResult)
    requires
        0 <= j <= k < rs.len(),
        combine_spec(lp.0, lp.1, rs[k].0, rs[k].1).contains(p),
    ensures
        row_from(lp, rs, j).contains(p),
    decreases k - j,
{
    let c = combine_spec(lp.0, lp.1, rs[j].0, rs[j].1);
    if j == k {
        let i = choose|i: int| 0 <= i < c.len() && c[i] == p;
        assert(row_from(lp, rs, j)[i] == p);
    } else {
        lemma_row_from_contains(lp, rs, j + 1, k, p);
        let i = choose|i: int|
            0 <= i < row_from(lp, rs, j + 1).len() && #[trigger] row_from(lp, rs, j + 1)[i] == p;
        assert(row_from(lp, rs, j)[c.len() + i] == p);
    }
}

/// A member of the row of `ls[j]` is among the pair combinations from any
/// earlier left position.
proof fn lemma_pairs_from_step(ls: Seq<CdResult>, rs: Seq<CdResult>, i: int, j: int, p: CdResult)
    requires
        0 <= i <= j < ls.len(),
        row_from(ls[j], rs, 0).contains(p),
    ensures
        pairs_from(ls, rs, i).contains(p),
    decreases j - i,
{
    let c = row_from(ls[i], rs, 0);
    if i == j {
        let t = choose|t: int| 0 <= t < c.len() && c[t] == p;
        assert(pairs_from(ls, rs, i)[t] == p);
    } else {
        lemma_pairs_from_step(ls, rs, i + 1, j, p);
        let t = choose|t: int|
            0 <= t < pairs_from(ls, rs, i + 1).len() && #[trigger] pairs_from(ls, rs, i + 1)[t]
                == p;
        assert(pairs_from(ls, rs, i)[c.len() + t] == p);
    }
}

/// A member of the combinations of split point `i` is among the
/// contributions of split points `i0` and upward.
proof fn lemma_splits_from_step(ns: Seq<Int>, i0: int, i: int, p: CdResult)
    requires
        1 <= i0 <= i < ns.len(),
        pairs_from(
            results_spec(ns.subrange(0, i)),
            results_spec(ns.subrange(i, ns.len() as int)),
            0,
        ).contains(p),
    ensures
        splits_from(ns, i0).contains(p),
    decreases i - i0,
{
    let c = pairs_from(
        results_spec(ns.subrange(0, i0)),
        results_spec(ns.subrange(i0, ns.len() as int)),
        0,
    );
    if i0 == i {
        let t = choose|t: int| 0 <= t < c.len() && c[t] == p;
        assert(splits_from(ns, i0)[t] == p);
    } else {
        lemma_splits_from_step(ns, i0 + 1, i, p);
        let t = choose|t: int|
            0 <= t < splits_from(ns, i0 + 1).len() && #[trigger] splits_from(ns, i0 + 1)[t] == p;
        assert(splits_from(ns, i0)[c.len() + t] == p);
    }
}

/// Completeness of the builder: every well-formed expression whose leaves
/// are exactly the sequence, in order, appears in the builder's results,
/// paired with its value. Together with `lemma_results_sound` this pins
/// the result list down to exactly the canonical expressions over the
/// sequence.
pub proof fn lemma_results_complete(e: Expr, ns: Seq<Int>)
    requires
        wf(e),
        leaves(e) == ns,
        all_nonneg(ns),
        weight(ns) - 1 <= i64::MAX,
    ensures
        results_spec(ns).contains((e, eval(e) as Int)),
    decreases e,
{
    match e {
        Expr::Val(v) => {
            assert(ns =~= seq![v]);
            assert(results_spec(ns)[0] == (e, eval(e) as Int));
        },
        Expr::App(op, l, r) => {
            let lns = leaves(*l);
            let rns = leaves(*r);
            lemma_leaves_len(*l);
            lemma_leaves_len(*r);
            let i = lns.len() as int;
            assert(ns =~= lns + rns);
            assert(lns =~= ns.subrange(0, i));
            assert(rns =~= ns.subrange(i, ns.len() as int));
            assert(all_nonneg(lns) && all_nonneg(rns)) by {
                assert(forall|t: int| 0 <= t < lns.len() ==> lns[t] == ns[t]);
                assert(forall|t: int| 0 <= t < rns.len() ==> rns[t] == ns[t + i]);
            }
            lemma_weight_concat(lns, rns);
            lemma_weight_pos(lns);
            lemma_weight_pos(rns);
            assert(weight(lns) - 1 <= i64::MAX && weight(rns) - 1 <= i64::MAX)
                by (nonlinear_arith)
                requires
                    weight(lns) >= 1,
                    weight(rns) >= 1,
                    weight(lns) * weight(rns) - 1 <= i64::MAX,
            ;
            lemma_results_complete(*l, lns);
            lemma_results_complete(*r, rns);
            lemma_results_sound(lns);
            lemma_results_sound(rns);
            let ls = results_spec(lns);
            let rs = results_spec(rns);
            let lp = (*l, eval(*l) as Int);
            let rp = (*r, eval(*r) as Int);
            let j = choose|j: int| 0 <= j < ls.len() && ls[j] == lp;
            let k = choose|k: int| 0 <= k < rs.len() && rs[k] == rp;
            assert(sound_for(ls[j], lns));
            assert(sound_for(rs[k], rns));
            lemma_combine_spec_contains(op, *l, lp.1, *r, rp.1);
            assert(mk_res(op, *l, lp.1, *r, rp.1) == (e, eval(e) as Int));
            lemma_pairs_from_contains(ls, rs, j, k, (e, eval(e) as Int));
            lemma_splits_from_step(ns, 1, i, (e, eval(e) as Int));
        },
    }
}

/// Builds the combination of two finished sub-results through `op`,
/// handing out the precomputed result when both sides are canonical
/// literals and constructing a fresh application node otherwise. Either
/// path yields the identical expression and value.
fn make(cache: &Cache, op: Op, l: &Expr, x: Int, r: &Expr, y: Int) -> (p: CdResult)
    requires
        cache_wf(*cache),
        0 <= x,
        0 <= y,
        x as int == eval(*l),
        y as int == eval(*r),
        op_valid(op, x as int, y as int),
        op_apply(op, x as int, y as int) <= i64::MAX,
    ensures
        p == mk_res(op, *l, x, *r, y),
{
    if let Expr::Val(a) = l {
        if let Expr::Val(b) = r {
            if crate::cache::in_pool(*a) && crate::cache::in_pool(*b) {
                return cache.lookup(op, *a, *b);
            }
        }
    }
    (Expr::App(op, Box::new(clone_expr(l)), Box::new(clone_expr(r))), apply(op, x, y))
}

/// Combines two finished sub-results through every operator valid between
/// their values, in the fixed order Add, Sub, Mul, Div.
pub fn combine(cache: &Cache, l: &Expr, x: Int, r: &Expr, y: Int) -> (vr: Vec<CdResult>)
    requires
        cache_wf(*cache),
        0 <= x,
        0 <= y,
        x as int == eval(*l),
        y as int == eval(*r),
        x as int + y as int <= i64::MAX,
        x as int * y as int <= i64::MAX,
    ensures
        vr@ == combine_spec(*l, x, *r, y),
{
    proof {
        assert(y as int > 1 ==> 0 <= x as int / y as int <= x as int) by (nonlinear_arith)
            requires
                0 <= x,
        ;
    }
    let mut vr: Vec<CdResult> = Vec::new();
    if valid(Op::Add, x, y) {
        vr.push(make(cache, Op::Add, l, x, r, y));
    }
    if valid(Op::Sub, x, y) {
        vr.push(make(cache, Op::Sub, l, x, r, y));
    }
    if valid(Op::Mul, x, y) {
        vr.push(make(cache, Op::Mul, l, x, r, y));
    }
    if valid(Op::Div, x, y) {
        vr.push(make(cache, Op::Div, l, x, r, y));
    }
    proof {
        assert(vr@ =~= combine_spec(*l, x, *r, y));
    }
    vr
}

/// A copy of the run `ns[a..b]`.
#[verifier::loop_isolation(false)]
fn subvec(ns: &Vec<Int>, a: usize, b: usize) -> (r: Vec<Int>)
    requires
        a <= b <= ns@.len(),
    ensures
        r@ == ns@.subrange(a as int, b as int),
{
    let mut r: Vec<Int> = Vec::new();
    let mut k = a;
    while k < b
        invariant
            a <= k <= b,
            r@ == ns@.subrange(a as int, k as int),
        decreases b - k,
    {
        r.push(ns[k]);
        proof {
            assert(r@ =~= ns@.subrange(a as int, k as int + 1));
        }
        k += 1;
    }
    r
}

/// All combinations contributed by the single split point `i`: every left
/// result over the first `i` numbers against every right result over the
/// rest, left results outermost, operators in fixed order.
#[verifier::loop_isolation(false)]
pub fn combine_chunks(cache: &Cache, ns: &Vec<Int>, i: usize) -> (vr: Vec<CdResult>)
    requires
        cache_wf(*cache),
        seq_ok(ns@),
        1 <= i < ns@.len(),
    ensures
        vr@ == pairs_from(
            results_spec(ns@.subrange(0, i as int)),
            results_spec(ns@.subrange(i as int, ns@.len() as int)),
            0,
        ),
    decreases ns@.len(), 0int, 0int,
{
    let lv = subvec(ns, 0, i);
    let rv = subvec(ns, i, ns.len());
    let ghost wl = weight(lv@);
    let ghost wr = weight(rv@);
    proof {
        assert(ns@ =~= lv@ + rv@);
        lemma_weight_concat(lv@, rv@);
        lemma_weight_pos(lv@);
        lemma_weight_pos(rv@);
        assert(wl - 1 <= i64::MAX && wr - 1 <= i64::MAX) by (nonlinear_arith)
            requires
                wl >= 1,
                wr >= 1,
                wl * wr - 1 <= i64::MAX,
        ;
    }
    let lr = results(cache, &lv);
    let rr = results(cache, &rv);
    proof {
        lemma_results_sound(lv@);
        lemma_results_sound(rv@);
    }
    let mut vr: Vec<CdResult> = Vec::new();
    let mut j: usize = 0;
    while j < lr.len()
        invariant
            j <= lr@.len(),
            vr@ + pairs_from(lr@, rr@, j as int) == pairs_from(lr@, rr@, 0),
        decreases lr@.len() - j,
    {
        let mut k: usize = 0;
        proof {
            assert(pairs_from(lr@, rr@, j as int) == row_from(lr@[j as int], rr@, 0)
                + pairs_from(lr@, rr@, j as int + 1));
            assert(vr@ + row_from(lr@[j as int], rr@, 0) + pairs_from(lr@, rr@, j as int + 1)
                =~= vr@ + pairs_from(lr@, rr@, j as int));
        }
        while k < rr.len()
            invariant
                j < lr@.len(),
                k <= rr@.len(),
                vr@ + row_from(lr@[j as int], rr@, k as int) + pairs_from(lr@, rr@, j as int + 1)
                    == pairs_from(lr@, rr@, 0),
            decreases rr@.len() - k,
        {
            let lp = &lr[j];
            let rp = &rr[k];
            proof {
                assert(sound_for(lr@[j as int], lv@));
                assert(sound_for(rr@[k as int], rv@));
                assert(lp.1 + rp.1 <= i64::MAX && lp.1 * rp.1 <= i64::MAX) by (nonlinear_arith)
                    requires
                        0 <= lp.1 <= wl - 1,
                        0 <= rp.1 <= wr - 1,
                        wl >= 1,
                        wr >= 1,
                        wl * wr - 1 <= i64::MAX,
                ;
            }
            let mut c = combine(cache, &lp.0, lp.1, &rp.0, rp.1);
            let ghost vr_old = vr@;
            vr.append(&mut c);
            proof {
                assert(row_from(lr@[j as int], rr@, k as int) == combine_spec(
                    lr@[j as int].0,
                    lr@[j as int].1,
                    rr@[k as int].0,
                    rr@[k as int].1,
                ) + row_from(lr@[j as int], rr@, k as int + 1));
                assert(vr@ + row_from(lr@[j as int], rr@, k as int + 1) + pairs_from(
                    lr@,
                    rr@,
                    j as int + 1,
                ) =~= vr_old + row_from(lr@[j as int], rr@, k as int) + pairs_from(
                    lr@,
                    rr@,
                    j as int + 1,
                ));
            }
            k += 1;
        }
        proof {
            assert(vr@ + row_from(lr@[j as int], rr@, rr@.len() as int) + pairs_from(
                lr@,
                rr@,
                j as int + 1,
            ) =~= vr@ + pairs_from(lr@, rr@, j as int + 1));
        }
        j += 1;
    }
    proof {
        assert(vr@ + pairs_from(lr@, rr@, lr@.len() as int) =~= vr@);
    }
    vr
}

/// The results of every split point of a sequence of two or more numbers,
/// in ascending split order.
#[verifier::loop_isolation(false)]
pub fn _results(cache: &Cache, ns: &Vec<Int>) -> (vr: Vec<CdResult>)
    requires
        cache_wf(*cache),
        seq_ok(ns@),
        ns@.len() >= 2,
    ensures
        vr@ == splits_from(ns@, 1),
    decreases ns@.len(), 0int, ns@.len() as int + 1,
{
    let mut vr: Vec<CdResult> = Vec::new();
    let mut i: usize = 1;
    while i < ns.len()
        invariant
            1 <= i <= ns@.len(),
            vr@ + splits_from(ns@, i as int) == splits_from(ns@, 1),
        decreases ns@.len() - i,
    {
        let mut chunk = combine_chunks(cache, ns, i);
        let ghost vr_old = vr@;
        vr.append(&mut chunk);
        proof {
            assert(splits_from(ns@, i as int) == pairs_from(
                results_spec(ns@.subrange(0, i as int)),
                results_spec(ns@.subrange(i as int, ns@.len() as int)),
                0,
            ) + splits_from(ns@, i as int + 1));
            assert(vr@ + splits_from(ns@, i as int + 1) =~= vr_old + splits_from(ns@, i as int));
        }
        i += 1;
    }
    proof {
        assert(vr@ + splits_from(ns@, ns@.len() as int) =~= vr@);
    }
    vr
}

/// Every distinct expression (up to operand-order canonicalization) that
/// uses all numbers of `ns`, in the given order, each exactly once, paired
/// with its value. The result list is exactly `results_spec(ns@)`, so it is
/// deterministic, and by `lemma_results_sound` every pair is a well-formed
/// tree that re-evaluates to its stored value.
pub fn results(cache: &Cache, ns: &Vec<Int>) -> (r: Vec<CdResult>)
    requires
        cache_wf(*cache),
        seq_ok(ns@),
    ensures
        r@ == results_spec(ns@),
    decreases ns@.len(), 1int, 0int,
{
    if ns.len() == 0 {
        let r: Vec<CdResult> = Vec::new();
        proof {
            assert(r@ =~= results_spec(ns@));
        }
        r
    } else if ns.len() == 1 {
        let mut r: Vec<CdResult> = Vec::new();
        let n0 = ns[0];
        r.push((Expr::Val(n0), n0));
        proof {
            assert(r@ =~= results_spec(ns@));
        }
        r
    } else {
        _results(cache, ns)
    }
}

} // verus!
