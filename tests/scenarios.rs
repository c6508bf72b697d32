use mcctl::formula::Formula;
use mcctl::lts::Lts;
use mcctl::mark::{make_marks, Marks};
use mcctl::process::{ExecUnit, Label, Location, Trans};

type G = fn(&Vec<i64>) -> bool;
type A = fn(Vec<i64>) -> Vec<i64>;

fn trans(label: &str, dst: &str, guard: G, action: A) -> Trans<G, A> {
    Trans { label: Label::new(label), dst: Location::new(dst), guard, action }
}

fn unit(src: &str, transs: Vec<Trans<G, A>>) -> ExecUnit<G, A> {
    ExecUnit { src: Location::new(src), transs }
}

fn prop(s: &str) -> Formula {
    Formula::Prop(s.to_string())
}

fn top_marked(lts: &Lts, m: &Marks) -> Vec<usize> {
    let top = m.subformulas.len() - 1;
    (0..lts.0.len()).filter(|s| m.marks[*s].is_marked(top)).collect()
}

fn xs_of(lts: &Lts, ids: &[usize]) -> Vec<i64> {
    let mut v: Vec<i64> = ids.iter().map(|i| lts.0[*i].state.vars[0]).collect();
    v.sort();
    v
}

fn always(_: &Vec<i64>) -> bool {
    true
}

fn sequential() -> Lts {
    let p = vec![
        unit("P0", vec![trans("x=1", "P1", always, |mut v| { v[0] = 1; v })]),
        unit("P1", vec![trans("y=1", "P2", always, |mut v| { v[1] = 1; v })]),
        unit("P2", vec![trans("z=1", "P3", always, |mut v| { v[2] = 1; v })]),
        unit("P3", vec![trans("y=0", "P4", always, |mut v| { v[1] = 0; v })]),
        unit("P4", vec![]),
    ];
    Lts::concurrent_composition(vec![0, 0, 0], vec![p]).unwrap()
}

fn val_seq(p: &String, v: &Vec<i64>) -> Option<bool> {
    match p.as_str() {
        "x=1" => Some(v[0] == 1),
        "y>0" => Some(v[1] > 0),
        "z=0" => Some(v[2] == 0),
        _ => None,
    }
}

#[test]
fn sequential_assignment() {
    let lts = sequential();
    assert_eq!(lts.0.len(), 5);
    let expected = [vec![0, 0, 0], vec![1, 0, 0], vec![1, 1, 0], vec![1, 1, 1], vec![1, 0, 1]];
    for i in 0..5 {
        assert_eq!(lts.0[i].state.vars, expected[i]);
        assert_eq!(lts.0[i].state.locations, vec![Location::new(&format!("P{}", i))]);
        if i < 4 {
            assert_eq!(lts.0[i].transs.len(), 1);
            assert_eq!(lts.0[i].transs[0].1, i + 1);
        } else {
            assert!(lts.0[i].transs.is_empty());
        }
    }
    let spec = Formula::Or(
        Box::new(Formula::And(Box::new(prop("x=1")), Box::new(prop("y>0")))),
        Box::new(Formula::Not(Box::new(prop("z=0")))),
    );
    let m = make_marks(&lts, val_seq, spec).unwrap();
    assert_eq!(m.subformulas.len(), 6);
    // x=1 and y>0: states 2 and 3; not z=0: states 3 and 4
    let and_idx = 2;
    let not_idx = 4;
    let ands: Vec<usize> = (0..5).filter(|s| m.marks[*s].is_marked(and_idx)).collect();
    let nots: Vec<usize> = (0..5).filter(|s| m.marks[*s].is_marked(not_idx)).collect();
    assert_eq!(ands, vec![2, 3]);
    assert_eq!(nots, vec![3, 4]);
    assert_eq!(top_marked(&lts, &m), vec![2, 3, 4]);
}

fn val_x2(p: &String, v: &Vec<i64>) -> Option<bool> {
    match p.as_str() {
        "x=2" => Some(v[0] == 2),
        _ => None,
    }
}

#[test]
fn triple_ex() {
    let p = vec![
        unit("P0", vec![trans("x=1", "P1", always, |mut v| { v[0] = 1; v })]),
        unit(
            "P1",
            vec![
                trans("x=2", "P2", always, |mut v| { v[0] = 2; v }),
                trans("x=3", "P2", always, |mut v| { v[0] = 3; v }),
                trans("x=4", "P2", always, |mut v| { v[0] = 4; v }),
            ],
        ),
        unit("P2", vec![trans("x--", "P3", always, |mut v| { v[0] -= 1; v })]),
        unit("P3", vec![]),
    ];
    let lts = Lts::concurrent_composition(vec![0], vec![p]).unwrap();
    assert_eq!(lts.0.len(), 8);
    let xs: Vec<i64> = lts.0.iter().map(|s| s.state.vars[0]).collect();
    assert_eq!(xs, vec![0, 1, 2, 3, 4, 1, 2, 3]);
    let spec = Formula::EX(Box::new(Formula::EX(Box::new(Formula::EX(Box::new(prop("x=2")))))));
    let m = make_marks(&lts, val_x2, spec).unwrap();
    assert_eq!(m.subformulas.len(), 4);
    let ex1: Vec<usize> = (0..8).filter(|s| m.marks[*s].is_marked(1)).collect();
    let ex2: Vec<usize> = (0..8).filter(|s| m.marks[*s].is_marked(2)).collect();
    assert_eq!(ex1, vec![1, 3]);
    assert_eq!(ex2, vec![0, 1]);
    assert_eq!(top_marked(&lts, &m), vec![0]);
}

fn doubling() -> Lts {
    let p = vec![unit(
        "S",
        vec![
            trans("", "S", |v| v[0] < 16, |mut v| { v[0] *= 2; v }),
            trans("", "S", |v| v[0] < 16, |mut v| { v[0] = v[0] * 2 + 1; v }),
        ],
    )];
    Lts::concurrent_composition(vec![1], vec![p]).unwrap()
}

fn val_eu(p: &String, v: &Vec<i64>) -> Option<bool> {
    match p.as_str() {
        "x=1 or x%2=0" => Some(v[0] == 1 || v[0] % 2 == 0),
        "x>=16 and x%4=0" => Some(v[0] >= 16 && v[0] % 4 == 0),
        _ => None,
    }
}

#[test]
fn exists_until() {
    let lts = doubling();
    assert_eq!(lts.0.len(), 31);
    let xs: Vec<i64> = lts.0.iter().map(|s| s.state.vars[0]).collect();
    assert_eq!(xs, (1..32).collect::<Vec<i64>>());
    let spec = Formula::EU(Box::new(prop("x=1 or x%2=0")), Box::new(prop("x>=16 and x%4=0")));
    let m = make_marks(&lts, val_eu, spec).unwrap();
    let marked = top_marked(&lts, &m);
    assert_eq!(xs_of(&lts, &marked), vec![1, 2, 4, 6, 8, 10, 12, 14, 16, 20, 24, 28]);
}

fn counter() -> Lts {
    let p = vec![unit(
        "S",
        vec![
            trans("", "S", |v| v[0] < 9, |mut v| { v[0] += 1; v }),
            trans("", "S", |v| v[0] == 6, |mut v| { v[0] = 3; v }),
            trans("", "S", |v| v[0] == 9, |mut v| { v[0] = 5; v }),
        ],
    )];
    Lts::concurrent_composition(vec![1], vec![p]).unwrap()
}

fn val_eg(p: &String, v: &Vec<i64>) -> Option<bool> {
    match p.as_str() {
        "x<=7" => Some(v[0] <= 7),
        "x<=4" => Some(v[0] <= 4),
        "x>=4" => Some(v[0] >= 4),
        _ => None,
    }
}

#[test]
fn exists_globally() {
    let lts = counter();
    assert_eq!(lts.0.len(), 9);
    let m1 = make_marks(&lts, val_eg, Formula::EG(Box::new(prop("x<=7")))).unwrap();
    assert_eq!(xs_of(&lts, &top_marked(&lts, &m1)), vec![1, 2, 3, 4, 5, 6]);
    let m2 = make_marks(&lts, val_eg, Formula::EG(Box::new(prop("x<=4")))).unwrap();
    assert!(top_marked(&lts, &m2).is_empty());
    let m3 = make_marks(&lts, val_eg, Formula::EG(Box::new(prop("x>=4")))).unwrap();
    assert_eq!(xs_of(&lts, &top_marked(&lts, &m3)), vec![4, 5, 6, 7, 8, 9]);
}

fn val_lone(p: &String, _v: &Vec<i64>) -> Option<bool> {
    match p.as_str() {
        "yes" => Some(true),
        "no" => Some(false),
        _ => None,
    }
}

#[test]
fn lone_state() {
    let p = vec![unit("L", vec![])];
    let lts = Lts::concurrent_composition(vec![7], vec![p]).unwrap();
    assert_eq!(lts.0.len(), 1);
    assert!(lts.0[0].transs.is_empty());
    let ex = make_marks(&lts, val_lone, Formula::EX(Box::new(prop("yes")))).unwrap();
    assert!(top_marked(&lts, &ex).is_empty());
    let eg = make_marks(&lts, val_lone, Formula::EG(Box::new(prop("yes")))).unwrap();
    assert!(top_marked(&lts, &eg).is_empty());
    let yes = make_marks(&lts, val_lone, prop("yes")).unwrap();
    assert_eq!(top_marked(&lts, &yes), vec![0]);
    let no = make_marks(&lts, val_lone, prop("no")).unwrap();
    assert!(top_marked(&lts, &no).is_empty());
    let eu = make_marks(&lts, val_lone, Formula::EU(Box::new(prop("yes")), Box::new(prop("yes"))))
        .unwrap();
    assert_eq!(top_marked(&lts, &eu), vec![0]);
}
