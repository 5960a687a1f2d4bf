use count_down::Cache;
use count_down::Expr;
use count_down::Op;
use count_down::apply;
use count_down::bag_solutions;
use count_down::priority;
use count_down::render;
use count_down::solutions;
use count_down::sub_bags;
use count_down::valid;

/// Independent structural re-evaluation of an expression tree.
fn eval_expr(e: &Expr) -> i64 {
    match e {
        Expr::Val(v) => *v,
        Expr::App(op, l, r) => {
            let a = eval_expr(l);
            let b = eval_expr(r);
            match op {
                Op::Add => a + b,
                Op::Sub => a - b,
                Op::Mul => a * b,
                Op::Div => a / b,
            }
        }
    }
}

/// Checks that no subtraction or division node in the tree has children
/// whose values would produce a negative or non-integer result.
fn no_invalid_intermediates(e: &Expr) -> bool {
    match e {
        Expr::Val(_) => true,
        Expr::App(op, l, r) => {
            let a = eval_expr(l);
            let b = eval_expr(r);
            let here = match op {
                Op::Add => true,
                Op::Sub => a > b,
                Op::Mul => true,
                Op::Div => b > 1 && a % b == 0,
            };
            here && no_invalid_intermediates(l) && no_invalid_intermediates(r)
        }
    }
}

fn lit(v: i64) -> Expr {
    Expr::Val(v)
}

fn app(op: Op, l: Expr, r: Expr) -> Expr {
    Expr::App(op, Box::new(l), Box::new(r))
}

#[test]
fn add_canonicalization() {
    assert!(valid(Op::Add, 2, 3));
    assert!(!valid(Op::Add, 3, 2));
    assert!(valid(Op::Add, 2, 2));
}

#[test]
fn mul_canonicalization() {
    assert!(valid(Op::Mul, 2, 3));
    assert!(!valid(Op::Mul, 3, 2));
    assert!(!valid(Op::Mul, 1, 5));
    assert!(!valid(Op::Mul, 5, 1));
}

#[test]
fn sub_requires_positive_result() {
    assert!(valid(Op::Sub, 3, 2));
    assert!(!valid(Op::Sub, 2, 3));
    assert!(!valid(Op::Sub, 2, 2));
}

#[test]
fn div_requires_exact_nontrivial() {
    assert!(valid(Op::Div, 4, 2));
    assert!(!valid(Op::Div, 5, 2));
    assert!(!valid(Op::Div, 5, 1));
    assert!(!valid(Op::Div, 0, 0));
}

#[test]
fn apply_computes() {
    assert_eq!(apply(Op::Add, 2, 3), 5);
    assert_eq!(apply(Op::Sub, 7, 3), 4);
    assert_eq!(apply(Op::Mul, 6, 7), 42);
    assert_eq!(apply(Op::Div, 15, 5), 3);
}

#[test]
fn priorities() {
    assert_eq!(priority(Op::Add), 1);
    assert_eq!(priority(Op::Sub), 1);
    assert_eq!(priority(Op::Mul), 2);
    assert_eq!(priority(Op::Div), 2);
}

#[test]
fn cache_matches_direct_construction() {
    let cache = Cache::populate();
    for x in [1i64, 2, 3, 7, 10, 15, 25, 50, 75, 100] {
        for y in [1i64, 2, 3, 7, 10, 15, 25, 50, 75, 100] {
            for op in [Op::Add, Op::Sub, Op::Mul, Op::Div] {
                if valid(op, x, y) {
                    let cached = cache.lookup(op, x, y);
                    let direct = (app(op, lit(x), lit(y)), apply(op, x, y));
                    assert_eq!(cached, direct);
                    assert_eq!(eval_expr(&cached.0), cached.1);
                }
            }
        }
    }
}

#[test]
fn cache_lookup_example() {
    let cache = Cache::populate();
    let (e, v) = cache.lookup(Op::Add, 3, 7);
    assert_eq!(v, 10);
    assert_eq!(e, app(Op::Add, lit(3), lit(7)));
}

#[test]
fn sub_bags_of_two() {
    let bags = sub_bags(&vec![1, 2]);
    assert_eq!(bags, vec![vec![1], vec![2], vec![1, 2], vec![2, 1]]);
}

#[test]
fn sub_bags_counts() {
    // 3 singles, 6 ordered pairs, 6 orderings of all three
    let bags = sub_bags(&vec![1, 2, 3]);
    assert_eq!(bags.len(), 15);
    assert_eq!(bags.iter().filter(|b| b.len() == 1).count(), 3);
    assert_eq!(bags.iter().filter(|b| b.len() == 2).count(), 6);
    assert_eq!(bags.iter().filter(|b| b.len() == 3).count(), 6);
}

#[test]
fn bag_solutions_filters_by_target() {
    let cache = Cache::populate();
    let found = bag_solutions(&cache, &vec![2, 3], 5);
    assert_eq!(found.len(), 1);
    assert_eq!(found[0].1, 5);
    assert_eq!(found[0].0, app(Op::Add, lit(2), lit(3)));
    let none = bag_solutions(&cache, &vec![2, 3], 7);
    assert!(none.is_empty());
}

#[test]
fn solve_two_numbers_finds_sum() {
    let found = solutions(vec![1, 2], 3);
    assert!(!found.is_empty());
    assert!(found.iter().any(|(e, v)| {
        *v == 3 && render(e) == "1 + 2"
    }));
    for (e, v) in &found {
        assert_eq!(*v, 3);
        assert_eq!(eval_expr(e), 3);
    }
}

#[test]
fn solve_two_numbers_unreachable_target() {
    let found = solutions(vec![1, 2], 99);
    assert!(found.is_empty());
}

#[test]
fn solve_single_tile_matches_itself() {
    let found = solutions(vec![4, 7], 7);
    assert!(found.iter().any(|(e, v)| *v == 7 && *e == lit(7)));
}

#[test]
fn solve_results_are_idempotent() {
    let a = solutions(vec![1, 3, 7], 10);
    let b = solutions(vec![1, 3, 7], 10);
    assert_eq!(a, b);
}

#[test]
fn solve_empty_sources() {
    let found = solutions(vec![], 5);
    assert!(found.is_empty());
}

#[test]
fn repeated_tiles_yield_redundant_results() {
    // two draws of the same face value are distinct positions, so the
    // identical expression is reported once per permutation
    let found = solutions(vec![2, 2], 4);
    // each of the two orderings yields both 2 + 2 and 2 * 2
    assert_eq!(found.len(), 4);
    let sums = found
        .iter()
        .filter(|(e, _)| *e == app(Op::Add, lit(2), lit(2)))
        .count();
    let products = found
        .iter()
        .filter(|(e, _)| *e == app(Op::Mul, lit(2), lit(2)))
        .count();
    assert_eq!(sums, 2);
    assert_eq!(products, 2);
    for (_, v) in &found {
        assert_eq!(*v, 4);
    }
}

#[test]
fn results_builds_in_order() {
    let cache = Cache::populate();
    let rs = count_down::results(&cache, &vec![1, 2]);
    assert_eq!(rs.len(), 1);
    assert_eq!(rs[0], (app(Op::Add, lit(1), lit(2)), 3));
    let empty = count_down::results(&cache, &vec![]);
    assert!(empty.is_empty());
}

#[test]
fn render_literals() {
    assert_eq!(render(&lit(123)), "123");
    assert_eq!(render(&lit(0)), "0");
    assert_eq!(render(&lit(-5)), "-5");
}

#[test]
fn render_precedence() {
    let e = app(Op::Mul, app(Op::Add, lit(1), lit(2)), lit(3));
    assert_eq!(render(&e), "(1 + 2) * 3");
    let f = app(Op::Add, lit(1), app(Op::Mul, lit(2), lit(3)));
    assert_eq!(render(&f), "1 + 2 * 3");
    let g = app(Op::Div, app(Op::Sub, lit(9), lit(3)), lit(2));
    assert_eq!(render(&g), "(9 - 3) / 2");
    let h = app(Op::Add, app(Op::Mul, lit(2), lit(3)), app(Op::Mul, lit(4), lit(5)));
    assert_eq!(render(&h), "2 * 3 + 4 * 5");
}

#[test]
fn no_invalid_intermediates_in_results() {
    let found = solutions(vec![2, 3, 5, 8], 21);
    assert!(!found.is_empty());
    for (e, v) in &found {
        assert_eq!(*v, 21);
        assert_eq!(eval_expr(e), 21);
        assert!(no_invalid_intermediates(e));
    }
}
