//! Subset enumeration and the search driver: every permutation of every
//! non-empty subset of the sources goes through the tree builder, and the
//! results whose value equals the target are gathered.

use vstd::prelude::*;
use vstd::seq_lib::group_to_multiset_ensures;

use crate::builder::all_nonneg;
use crate::builder::lemma_results_sound;
use crate::builder::lemma_weight_concat;
use crate::builder::lemma_weight_pos;
use crate::builder::results;
use crate::builder::results_spec;
use crate::builder::seq_ok;
use crate::builder::sound_for;
use crate::builder::weight;
use crate::cache::Cache;
use crate::cache::cache_wf;
use crate::expr::CdResult;
use crate::expr::eval;
use crate::expr::leaves;
use crate::expr::wf;
use crate::ops::Int;

use itertools::Itertools;

verus! {

/// The list of `k`-length permutations that `itertools` yields for a given
/// sequence: a function of the sequence and `k` alone.
pub uninterp spec fn perms_of(s: Seq<Int>, k: nat) -> Seq<Seq<Int>>;

/// Relies on itertools' `Itertools::permutations`: every yielded vector
/// has length `k` and draws its entries, clones of the input's, from `k`
/// distinct input positions — so each yielded vector's contents are a
/// sub-multiset of the input's. The yielded list depends on the input
/// sequence and `k` alone; it is named `perms_of`.
#[verifier::external_body]
fn permutations_len(xs: &Vec<Int>, k: usize) -> (r: Vec<Vec<Int>>)
    ensures
        r.deep_view() == perms_of(xs@, k as nat),
        forall|i: int| 0 <= i < r@.len() ==> (#[trigger] r@[i])@.len() == k as int,
        forall|i: int|
            0 <= i < r@.len() ==> (#[trigger] r@[i])@.to_multiset().subset_of(xs@.to_multiset()),
{
    xs.iter().cloned().permutations(k).collect()
}

/// Every ordered selection of `k` or more entries: the permutations of
/// size `k`, then of `k + 1`, and so on up to the full count.
pub open spec fn bags_from(s: Seq<Int>, k: nat) -> Seq<Seq<Int>>
    decreases s.len() + 1 - k,
{
    if k <= s.len() {
        perms_of(s, k) + bags_from(s, k + 1)
    } else {
        Seq::empty()
    }
}

/// Every ordered selection of the sources: for every subset size from 1 up
/// to the full count, every permutation of every subset of that size,
/// positions treated as distinct.
pub open spec fn sub_bags_spec(s: Seq<Int>) -> Seq<Seq<Int>> {
    bags_from(s, 1)
}

/// Removing one occurrence factors its `entry + 1` out of the weight.
proof fn lemma_weight_remove(s: Seq<Int>, i: int)
    requires
        0 <= i < s.len(),
    ensures
        weight(s) == (s[i] + 1) * weight(s.remove(i)),
{
    let pre = s.subrange(0, i);
    let mid = seq![s[i]];
    let suf = s.subrange(i + 1, s.len() as int);
    assert(s =~= pre + (mid + suf));
    assert(s.remove(i) =~= pre + suf);
    lemma_weight_concat(pre, mid + suf);
    lemma_weight_concat(mid, suf);
    lemma_weight_concat(pre, suf);
    let e: Seq<Int> = Seq::empty();
    assert(mid.drop_first() =~= e);
    assert(weight(e) == 1);
    assert(weight(mid) == (s[i] + 1) * weight(mid.drop_first()));
    assert(weight(mid) == s[i] + 1);
    assert(weight(pre) * ((s[i] + 1) * weight(suf)) == (s[i] + 1) * (weight(pre) * weight(suf)))
        by (nonlinear_arith);
}

/// A sequence whose contents are a sub-multiset of a sequence of
/// non-negative entries is itself non-negative and weighs no more.
pub proof fn lemma_weight_submultiset(b: Seq<Int>, s: Seq<Int>)
    requires
        b.to_multiset().subset_of(s.to_multiset()),
        all_nonneg(s),
    ensures
        all_nonneg(b),
        weight(b) <= weight(s),
    decreases b.len(),
{
    broadcast use group_to_multiset_ensures;

    if b.len() == 0 {
        lemma_weight_pos(s);
    } else {
        let x = b[0];
        assert(b.contains(x));
        assert(b.to_multiset().count(x) > 0);
        assert(s.to_multiset().count(x) > 0);
        assert(s.contains(x));
        let i = choose|i: int| 0 <= i < s.len() && s[i] == x;
        assert(x >= 0);
        let b2 = b.remove(0);
        let s2 = s.remove(i);
        assert(b2 =~= b.drop_first());
        assert(b2.to_multiset() == b.to_multiset().remove(x));
        assert(s2.to_multiset() == s.to_multiset().remove(x));
        assert(b2.to_multiset().subset_of(s2.to_multiset())) by {
            assert forall|v: Int| b2.to_multiset().count(v) <= s2.to_multiset().count(v) by {
                assert(b.to_multiset().count(v) <= s.to_multiset().count(v));
            }
        }
        assert(all_nonneg(s2)) by {
            assert forall|j: int| 0 <= j < s2.len() implies s2[j] >= 0 by {
                if j < i {
                    assert(s2[j] == s[j]);
                } else {
                    assert(s2[j] == s[j + 1]);
                }
            }
        }
        lemma_weight_submultiset(b2, s2);
        assert(all_nonneg(b)) by {
            assert forall|j: int| 0 <= j < b.len() implies b[j] >= 0 by {
                if j > 0 {
                    assert(b[j] == b2[j - 1]);
                }
            }
        }
        lemma_weight_remove(s, i);
        lemma_weight_pos(b2);
        assert(weight(b) == (x + 1) * weight(b2));
        assert((x + 1) * weight(b2) <= (x + 1) * weight(s2)) by (nonlinear_arith)
            requires
                x + 1 >= 1,
                weight(b2) <= weight(s2),
        ;
    }
}

/// Every ordered selection (permutation of a non-empty subset) of the
/// sources, positions treated as distinct, sizes ascending. The list is
/// exactly `sub_bags_spec(xs@)`, and each selection's contents are a
/// sub-multiset of the sources.
pub fn sub_bags(xs: &Vec<Int>) -> (r: Vec<Vec<Int>>)
    ensures
        r.deep_view() == sub_bags_spec(xs@),
        forall|i: int|
            0 <= i < r@.len() ==> (#[trigger] r@[i])@.to_multiset().subset_of(xs@.to_multiset()),
        forall|i: int| 0 <= i < r@.len() ==> (#[trigger] r@[i])@ == r.deep_view()[i],
{
    let mut r: Vec<Vec<Int>> = Vec::new();
    let mut k: usize = 0;
    while k < xs.len()
        invariant
            k <= xs@.len(),
            r.deep_view() + bags_from(xs@, k as nat + 1) == bags_from(xs@, 1),
            forall|i: int|
                0 <= i < r@.len() ==> (#[trigger] r@[i])@.to_multiset().subset_of(
                    xs@.to_multiset(),
                ),
            forall|i: int| 0 <= i < r@.len() ==> (#[trigger] r@[i])@ == r.deep_view()[i],
        decreases xs@.len() - k,
    {
        let kk = k + 1;
        let mut rk = permutations_len(xs, kk);
        let ghost r_old = r@;
        let ghost dv_old = r.deep_view();
        let ghost rk_old = rk@;
        r.append(&mut rk);
        proof {
            assert(r.deep_view() =~= dv_old + perms_of(xs@, kk as nat));
            assert(bags_from(xs@, kk as nat) == perms_of(xs@, kk as nat) + bags_from(
                xs@,
                kk as nat + 1,
            ));
            assert(r.deep_view() + bags_from(xs@, kk as nat + 1) =~= dv_old + bags_from(
                xs@,
                kk as nat,
            ));
            assert forall|i: int| 0 <= i < r@.len() implies (#[trigger] r@[i])@
                == r.deep_view()[i] by {
                if i < r_old.len() {
                    assert(r@[i] == r_old[i]);
                } else {
                    assert(r@[i] == rk_old[i - r_old.len()]);
                }
            }
        }
        k += 1;
    }
    proof {
        assert(bags_from(xs@, k as nat + 1) == Seq::<Seq<Int>>::empty());
        assert(r.deep_view() + bags_from(xs@, k as nat + 1) =~= r.deep_view());
    }
    r
}

/// The members of `rs[j..]` whose value equals the target, in order.
pub open spec fn filt_from(rs: Seq<CdResult>, n: Int, j: int) -> Seq<CdResult>
    decreases rs.len() - j,
{
    if 0 <= j < rs.len() {
        (if rs[j].1 == n {
            seq![rs[j]]
        } else {
            Seq::empty()
        }) + filt_from(rs, n, j + 1)
    } else {
        Seq::empty()
    }
}

/// The target-valued results of the selections `bags[j..]`, concatenated
/// in selection order.
pub open spec fn solve_from(bags: Seq<Seq<Int>>, n: Int, j: int) -> Seq<CdResult>
    decreases bags.len() - j,
{
    if 0 <= j < bags.len() {
        filt_from(results_spec(bags[j]), n, 0) + solve_from(bags, n, j + 1)
    } else {
        Seq::empty()
    }
}

/// Every expression over every ordered selection of the sources whose
/// value is the target, paired with that value.
pub open spec fn solutions_spec(s: Seq<Int>, n: Int) -> Seq<CdResult> {
    solve_from(sub_bags_spec(s), n, 0)
}

/// The unit of independent search work: all results over one ordered
/// selection, filtered to those whose value equals the target. Every
/// returned pair is a well-formed tree over exactly that selection that
/// evaluates to the target.
pub fn bag_solutions(cache: &Cache, bag: &Vec<Int>, n: Int) -> (r: Vec<CdResult>)
    requires
        cache_wf(*cache),
        seq_ok(bag@),
    ensures
        r@ == filt_from(results_spec(bag@), n, 0),
        forall|t: int|
            0 <= t < r@.len() ==> sound_for(#[trigger] r@[t], bag@) && r@[t].1 == n,
{
    let rs = results(cache, bag);
    proof {
        lemma_results_sound(bag@);
    }
    let mut r: Vec<CdResult> = Vec::new();
    let mut j: usize = 0;
    while j < rs.len()
        invariant
            cache_wf(*cache),
            seq_ok(bag@),
            j <= rs@.len(),
            rs@ == results_spec(bag@),
            r@ + filt_from(rs@, n, j as int) == filt_from(rs@, n, 0),
            forall|t: int|
                0 <= t < r@.len() ==> sound_for(#[trigger] r@[t], bag@) && r@[t].1 == n,
        decreases rs@.len() - j,
    {
        proof {
            lemma_results_sound(bag@);
        }
        let ghost r_old = r@;
        let p = &rs[j];
        if p.1 == n {
            r.push((crate::expr::clone_expr(&p.0), p.1));
            proof {
                assert(r@ =~= r_old + seq![rs@[j as int]]);
            }
        }
        proof {
            assert(filt_from(rs@, n, j as int) == (if rs@[j as int].1 == n {
                seq![rs@[j as int]]
            } else {
                Seq::empty()
            }) + filt_from(rs@, n, j as int + 1));
            assert(r@ + filt_from(rs@, n, j as int + 1) =~= r_old + filt_from(rs@, n, j as int));
        }
        j += 1;
    }
    proof {
        assert(r@ + filt_from(rs@, n, rs@.len() as int) =~= r@);
    }
    r
}

/// The search driver: every ordered selection of the sources goes through
/// the tree builder, and the results whose value equals the target are
/// concatenated in selection order. An empty result is the normal "no
/// solution" outcome, not an error. The result is exactly
/// `solutions_spec(ns@, n)` — a function of the arguments alone — and every
/// returned pair is a well-formed tree that evaluates to the target and
/// uses each source number at most once.
pub fn solutions(ns: Vec<Int>, n: Int) -> (r: Vec<CdResult>)
    requires
        seq_ok(ns@),
    ensures
        r@ == solutions_spec(ns@, n),
        forall|t: int|
            0 <= t < r@.len() ==> {
                &&& (#[trigger] r@[t]).1 == n
                &&& wf(r@[t].0)
                &&& eval(r@[t].0) == n as int
                &&& leaves(r@[t].0).to_multiset().subset_of(ns@.to_multiset())
            },
{
    let cache = Cache::populate();
    let bags = sub_bags(&ns);
    let ghost dv = bags.deep_view();
    let mut r: Vec<CdResult> = Vec::new();
    let mut j: usize = 0;
    while j < bags.len()
        invariant
            cache_wf(cache),
            seq_ok(ns@),
            j <= bags@.len(),
            dv == bags.deep_view(),
            dv.len() == bags@.len(),
            dv == sub_bags_spec(ns@),
            forall|i: int|
                0 <= i < bags@.len() ==> (#[trigger] bags@[i])@.to_multiset().subset_of(
                    ns@.to_multiset(),
                ),
            forall|i: int| 0 <= i < bags@.len() ==> (#[trigger] bags@[i])@ == dv[i],
            r@ + solve_from(dv, n, j as int) == solve_from(dv, n, 0),
            forall|t: int|
                0 <= t < r@.len() ==> {
                    &&& (#[trigger] r@[t]).1 == n
                    &&& wf(r@[t].0)
                    &&& eval(r@[t].0) == n as int
                    &&& leaves(r@[t].0).to_multiset().subset_of(ns@.to_multiset())
                },
        decreases bags@.len() - j,
    {
        let bag = &bags[j];
        proof {
            lemma_weight_submultiset(bag@, ns@);
        }
        let mut found = bag_solutions(&cache, bag, n);
        let ghost found_old = found@;
        let ghost r_old = r@;
        r.append(&mut found);
        proof {
            assert(solve_from(dv, n, j as int) == filt_from(results_spec(dv[j as int]), n, 0)
                + solve_from(dv, n, j as int + 1));
            assert(r@ + solve_from(dv, n, j as int + 1) =~= r_old + solve_from(dv, n, j as int));
            assert forall|t: int| 0 <= t < r@.len() implies {
                &&& (#[trigger] r@[t]).1 == n
                &&& wf(r@[t].0)
                &&& eval(r@[t].0) == n as int
                &&& leaves(r@[t].0).to_multiset().subset_of(ns@.to_multiset())
            } by {
                if t >= r_old.len() {
                    assert(r@[t] == found_old[t - r_old.len()]);
                    assert(sound_for(found_old[t - r_old.len()], bag@));
                }
            }
        }
        j += 1;
    }
    proof {
        assert(solve_from(dv, n, bags@.len() as int) == Seq::<CdResult>::empty());
        assert(r@ + solve_from(dv, n, bags@.len() as int) =~= r@);
    }
    r
}

/// A member of the result list whose value is the target survives the
/// filter.
proof fn lemma_filt_from_contains(rs: Seq<CdResult>, n: Int, j: int, t: int)
    requires
        0 <= j <= t < rs.len(),
        rs[t].1 == n,
    ensures
        filt_from(rs, n, j).contains(rs[t]),
    decreases t - j,
{
    if j == t {
        assert(filt_from(rs, n, j)[0] == rs[t]);
    } else {
        lemma_filt_from_contains(rs, n, j + 1, t);
        let c: Seq<CdResult> = if rs[j].1 == n {
            seq![rs[j]]
        } else {
            Seq::empty()
        };
        let i = choose|i: int|
            0 <= i < filt_from(rs, n, j + 1).len() && #[trigger] filt_from(rs, n, j + 1)[i]
                == rs[t];
        assert(filt_from(rs, n, j)[c.len() + i] == rs[t]);
    }
}

/// A surviving result of one selection is among the driver's gathered
/// results from any earlier selection onward.
proof fn lemma_solve_from_step(bags: Seq<Seq<Int>>, n: Int, i: int, j: int, p: CdResult)
    requires
        0 <= i <= j < bags.len(),
        filt_from(results_spec(bags[j]), n, 0).contains(p),
    ensures
        solve_from(bags, n, i).contains(p),
    decreases j - i,
{
    let c = filt_from(results_spec(bags[i]), n, 0);
    if i == j {
        let t = choose|t: int| 0 <= t < c.len() && c[t] == p;
        assert(solve_from(bags, n, i)[t] == p);
    } else {
        lemma_solve_from_step(bags, n, i + 1, j, p);
        let t = choose|t: int|
            0 <= t < solve_from(bags, n, i + 1).len() && #[trigger] solve_from(bags, n, i + 1)[t]
                == p;
        assert(solve_from(bags, n, i)[c.len() + t] == p);
    }
}

/// Completeness law for the driver: every well-formed expression over one
/// of the enumerated ordered selections whose value is the target appears
/// in the search's result, paired with the target.
pub proof fn lemma_solutions_complete(e: crate::expr::Expr, bag: Seq<Int>, s: Seq<Int>, n: Int)
    requires
        sub_bags_spec(s).contains(bag),
        wf(e),
        leaves(e) == bag,
        all_nonneg(bag),
        weight(bag) - 1 <= i64::MAX,
        eval(e) == n as int,
    ensures
        solutions_spec(s, n).contains((e, n)),
{
    crate::builder::lemma_results_complete(e, bag);
    let rs = results_spec(bag);
    let t = choose|t: int| 0 <= t < rs.len() && #[trigger] rs[t] == (e, eval(e) as Int);
    assert(rs[t].1 == n);
    lemma_filt_from_contains(rs, n, 0, t);
    let j = choose|j: int|
        0 <= j < sub_bags_spec(s).len() && #[trigger] sub_bags_spec(s)[j] == bag;
    lemma_solve_from_step(sub_bags_spec(s), n, 0, j, (e, n));
}

/// Idempotence law: the search is deterministic, so two runs over the same
/// sources and target return the same result list, order included.
pub proof fn lemma_solutions_idempotent(r1: Seq<CdResult>, r2: Seq<CdResult>, s: Seq<Int>, n: Int)
    requires
        r1 == solutions_spec(s, n),
        r2 == solutions_spec(s, n),
    ensures
        r1 == r2,
{
}

} // verus!

