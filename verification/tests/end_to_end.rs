use count_down::Expr;
use count_down::Op;
use count_down::render;
use count_down::solutions;

fn eval_expr(e: &Expr) -> i64 {
    match e {
        Expr::Val(v) => *v,
        Expr::App(op, l, r) => {
            let a = eval_expr(l);
            let b = eval_expr(r);
            match op {
                Op::Add => a + b,
                Op::Sub => a - b,
                Op::Mul => a * b,
                Op::Div => a / b,
            }
        }
    }
}

#[derive(Clone, PartialEq, Debug)]
enum Tok {
    Num(i64),
    Plus,
    Minus,
    Star,
    Slash,
    LParen,
    RParen,
}

fn tokenize(s: &str) -> Vec<Tok> {
    let mut toks = Vec::new();
    let chars: Vec<char> = s.chars().collect();
    let mut i = 0;
    while i < chars.len() {
        let c = chars[i];
        match c {
            ' ' => i += 1,
            '+' => {
                toks.push(Tok::Plus);
                i += 1;
            }
            '-' => {
                toks.push(Tok::Minus);
                i += 1;
            }
            '*' => {
                toks.push(Tok::Star);
                i += 1;
            }
            '/' => {
                toks.push(Tok::Slash);
                i += 1;
            }
            '(' => {
                toks.push(Tok::LParen);
                i += 1;
            }
            ')' => {
                toks.push(Tok::RParen);
                i += 1;
            }
            _ => {
                assert!(c.is_ascii_digit(), "unexpected character {c:?} in {s:?}");
                let mut n: i64 = 0;
                while i < chars.len() && chars[i].is_ascii_digit() {
                    n = n * 10 + (chars[i] as i64 - '0' as i64);
                    i += 1;
                }
                toks.push(Tok::Num(n));
            }
        }
    }
    toks
}

/// Standard infix-precedence evaluation of a rendered expression string.
fn parse_expr(toks: &[Tok], pos: &mut usize) -> i64 {
    let mut acc = parse_term(toks, pos);
    while *pos < toks.len() {
        match toks[*pos] {
            Tok::Plus => {
                *pos += 1;
                acc += parse_term(toks, pos);
            }
            Tok::Minus => {
                *pos += 1;
                acc -= parse_term(toks, pos);
            }
            _ => break,
        }
    }
    acc
}

fn parse_term(toks: &[Tok], pos: &mut usize) -> i64 {
    let mut acc = parse_factor(toks, pos);
    while *pos < toks.len() {
        match toks[*pos] {
            Tok::Star => {
                *pos += 1;
                acc *= parse_factor(toks, pos);
            }
            Tok::Slash => {
                *pos += 1;
                acc /= parse_factor(toks, pos);
            }
            _ => break,
        }
    }
    acc
}

fn parse_factor(toks: &[Tok], pos: &mut usize) -> i64 {
    match toks[*pos] {
        Tok::Num(n) => {
            *pos += 1;
            n
        }
        Tok::LParen => {
            *pos += 1;
            let v = parse_expr(toks, pos);
            assert_eq!(toks[*pos], Tok::RParen);
            *pos += 1;
            v
        }
        ref t => panic!("unexpected token {t:?}"),
    }
}

fn parse_and_eval(s: &str) -> i64 {
    let toks = tokenize(s);
    let mut pos = 0;
    let v = parse_expr(&toks, &mut pos);
    assert_eq!(pos, toks.len());
    v
}

#[test]
fn classic_draw_reaches_522() {
    let found = solutions(vec![1, 1, 4, 7, 15, 50], 522);
    assert!(!found.is_empty());
    let mut one_parses = false;
    for (e, v) in &found {
        assert_eq!(*v, 522);
        assert_eq!(eval_expr(e), 522);
        if parse_and_eval(&render(e)) == 522 {
            one_parses = true;
        }
    }
    assert!(one_parses);
}

#[test]
fn classic_draw_reaches_785() {
    let found = solutions(vec![7, 3, 4, 5, 15, 75], 785);
    assert!(!found.is_empty());
    for (e, v) in &found {
        assert_eq!(*v, 785);
        assert_eq!(eval_expr(e), 785);
    }
}
