use mcctl::formula::Formula;
use mcctl::lts::Lts;
use mcctl::mark::{make_marks, Mark, MarkError, Marks};
use mcctl::process::{ExecUnit, Label, Location, Trans};

type G = fn(&Vec<i64>) -> bool;
type A = fn(Vec<i64>) -> Vec<i64>;

fn trans(dst: &str, guard: G, action: A) -> Trans<G, A> {
    Trans { label: Label::new(""), dst: Location::new(dst), guard, action }
}

fn prop(s: &str) -> Box<Formula> {
    Box::new(Formula::Prop(s.to_string()))
}

/// x counts 1..9, with back edges 6 -> 3 and 9 -> 5.
fn counter() -> Lts {
    let p = vec![ExecUnit {
        src: Location::new("S"),
        transs: vec![
            trans("S", |v| v[0] < 9, |mut v| { v[0] += 1; v }),
            trans("S", |v| v[0] == 6, |mut v| { v[0] = 3; v }),
            trans("S", |v| v[0] == 9, |mut v| { v[0] = 5; v }),
        ],
    }];
    Lts::concurrent_composition(vec![1], vec![p]).unwrap()
}

fn val(p: &String, v: &Vec<i64>) -> Option<bool> {
    let x = v[0];
    match p.as_str() {
        "even" => Some(x % 2 == 0),
        "small" => Some(x <= 4),
        "big" => Some(x >= 8),
        "mid" => Some(x >= 3 && x <= 6),
        _ => None,
    }
}

fn top(lts: &Lts, m: &Marks) -> Vec<bool> {
    let t = m.subformulas.len() - 1;
    (0..lts.0.len()).map(|s| m.marks[s].is_marked(t)).collect()
}

fn succs(lts: &Lts, s: usize) -> Vec<usize> {
    lts.0[s].transs.iter().map(|e| e.1).collect()
}

#[test]
fn unknown_proposition_fails() {
    let lts = counter();
    let r = make_marks(&lts, val, Formula::And(prop("even"), prop("purple")));
    assert_eq!(r.err(), Some(MarkError::PropositionUnknown));
}

#[test]
fn implication_marks() {
    let lts = counter();
    let m = make_marks(&lts, val, Formula::Impl(prop("even"), prop("small"))).unwrap();
    let xs: Vec<i64> = lts.0.iter().map(|s| s.state.vars[0]).collect();
    let t = top(&lts, &m);
    for s in 0..lts.0.len() {
        assert_eq!(t[s], xs[s] % 2 != 0 || xs[s] <= 4);
    }
}

#[test]
fn and_marks_within_operand_marks() {
    let lts = counter();
    let m = make_marks(&lts, val, Formula::And(prop("even"), prop("small"))).unwrap();
    // table: even, small, and
    for s in 0..lts.0.len() {
        if m.marks[s].is_marked(2) {
            assert!(m.marks[s].is_marked(0));
        }
    }
    let marked: Vec<i64> = (0..lts.0.len()).filter(|s| m.marks[*s].is_marked(2)).map(|s| lts.0[s].state.vars[0]).collect();
    assert_eq!(marked, vec![2, 4]);
}

#[test]
fn de_morgan_on_counter() {
    let lts = counter();
    let lhs = Formula::Not(Box::new(Formula::And(prop("even"), prop("small"))));
    let rhs = Formula::Or(Box::new(Formula::Not(prop("even"))), Box::new(Formula::Not(prop("small"))));
    let m1 = make_marks(&lts, val, lhs).unwrap();
    let m2 = make_marks(&lts, val, rhs).unwrap();
    assert_eq!(top(&lts, &m1), top(&lts, &m2));
    assert_eq!(top(&lts, &m1).iter().filter(|b| !**b).count(), 2);
}

#[test]
fn eu_is_least_fixed_point() {
    let lts = counter();
    let m = make_marks(&lts, val, Formula::EU(prop("mid"), prop("big"))).unwrap();
    let f: Vec<bool> = (0..lts.0.len()).map(|s| m.marks[s].is_marked(0)).collect();
    let g: Vec<bool> = (0..lts.0.len()).map(|s| m.marks[s].is_marked(1)).collect();
    let z = top(&lts, &m);
    let n = lts.0.len();
    let holds_eq = |z: &Vec<bool>, s: usize| z[s] == (g[s] || (f[s] && succs(&lts, s).iter().any(|t| z[*t])));
    for s in 0..n {
        assert!(holds_eq(&z, s));
    }
    for s in 0..n {
        if z[s] {
            let mut smaller = z.clone();
            smaller[s] = false;
            assert!((0..n).any(|x| !holds_eq(&smaller, x)));
        }
    }
    let xs: Vec<i64> = (0..n).filter(|s| z[*s]).map(|s| lts.0[s].state.vars[0]).collect();
    let mut xs = xs;
    xs.sort();
    // 6 reaches 7 only, which is neither mid nor big
    assert_eq!(xs, vec![8, 9]);
}

#[test]
fn eg_is_greatest_fixed_point() {
    let lts = counter();
    let m = make_marks(&lts, val, Formula::EG(prop("mid"))).unwrap();
    let f: Vec<bool> = (0..lts.0.len()).map(|s| m.marks[s].is_marked(0)).collect();
    let z = top(&lts, &m);
    let n = lts.0.len();
    let holds_eq = |z: &Vec<bool>, s: usize| z[s] == (f[s] && succs(&lts, s).iter().any(|t| z[*t]));
    for s in 0..n {
        assert!(holds_eq(&z, s));
    }
    for s in 0..n {
        if !z[s] {
            let mut larger = z.clone();
            larger[s] = true;
            assert!((0..n).any(|x| !holds_eq(&larger, x)));
        }
    }
    let mut xs: Vec<i64> = (0..n).filter(|s| z[*s]).map(|s| lts.0[s].state.vars[0]).collect();
    xs.sort();
    assert_eq!(xs, vec![3, 4, 5, 6]);
}

#[test]
fn duplicate_subformulas_share_a_bit() {
    let lts = counter();
    let m = make_marks(&lts, val, Formula::And(prop("even"), prop("even"))).unwrap();
    assert_eq!(m.subformulas.len(), 2);
    let marked: Vec<i64> = (0..lts.0.len()).filter(|s| m.marks[*s].is_marked(1)).map(|s| lts.0[s].state.vars[0]).collect();
    assert_eq!(marked, vec![2, 4, 6, 8]);
}

#[test]
fn mark_bits() {
    let mut m = Mark::empty();
    assert!(!m.is_marked(0));
    m.mark(3);
    assert!(m.is_marked(3));
    assert!(!m.is_marked(2));
    m.mark(100);
    assert!(m.is_marked(100));
    assert!(m.is_marked(3));
    m.unmark(3);
    assert!(!m.is_marked(3));
    assert!(m.is_marked(100));
    m.unmark(500);
    assert!(m.is_marked(100));
}
