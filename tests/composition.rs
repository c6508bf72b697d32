use mcctl::lts::{Lts, LtsError, State};
use mcctl::process::{ExecUnit, Label, Location, Trans};

type G = fn(&Vec<i64>) -> bool;
type A = fn(Vec<i64>) -> Vec<i64>;

fn trans(label: &str, dst: &str, guard: G, action: A) -> Trans<G, A> {
    Trans { label: Label::new(label), dst: Location::new(dst), guard, action }
}

fn unit(src: &str, transs: Vec<Trans<G, A>>) -> ExecUnit<G, A> {
    ExecUnit { src: Location::new(src), transs }
}

fn always(_: &Vec<i64>) -> bool {
    true
}

fn never(_: &Vec<i64>) -> bool {
    false
}

fn two_movers() -> Vec<Vec<ExecUnit<G, A>>> {
    let p1 = vec![unit("A", vec![trans("p+1", "B", always, |mut v| { v[0] += 1; v })]), unit("B", vec![])];
    let p2 = vec![unit("A", vec![trans("q+10", "B", always, |mut v| { v[0] += 10; v })]), unit("B", vec![])];
    vec![p1, p2]
}

fn locs(names: &[&str]) -> Vec<Location> {
    names.iter().map(|n| Location::new(n)).collect()
}

#[test]
fn interleaving_moves_one_process() {
    let lts = Lts::concurrent_composition(vec![0], two_movers()).unwrap();
    assert_eq!(lts.0.len(), 4);
    assert_eq!(lts.0[0].state, State { vars: vec![0], locations: locs(&["A", "A"]) });
    assert_eq!(lts.0[1].state, State { vars: vec![1], locations: locs(&["B", "A"]) });
    assert_eq!(lts.0[2].state, State { vars: vec![10], locations: locs(&["A", "B"]) });
    assert_eq!(lts.0[3].state, State { vars: vec![11], locations: locs(&["B", "B"]) });
    assert_eq!(lts.0[0].transs, vec![(Label::new("p+1"), 1), (Label::new("q+10"), 2)]);
    assert_eq!(lts.0[1].transs, vec![(Label::new("q+10"), 3)]);
    assert_eq!(lts.0[2].transs, vec![(Label::new("p+1"), 3)]);
    assert!(lts.0[3].transs.is_empty());
}

#[test]
fn edges_stay_inside_and_states_are_distinct() {
    let lts = Lts::concurrent_composition(vec![0], two_movers()).unwrap();
    let n = lts.0.len();
    for s in lts.0.iter() {
        for (_, t) in s.transs.iter() {
            assert!(*t < n);
        }
    }
    for i in 0..n {
        for j in 0..n {
            if i != j {
                assert_ne!(lts.0[i].state, lts.0[j].state);
            }
        }
    }
}

#[test]
fn building_twice_gives_the_same_system() {
    let a = Lts::concurrent_composition(vec![0], two_movers()).unwrap();
    let b = Lts::concurrent_composition(vec![0], two_movers()).unwrap();
    assert_eq!(a.0.len(), b.0.len());
    for i in 0..a.0.len() {
        assert_eq!(a.0[i].state, b.0[i].state);
        assert_eq!(a.0[i].transs, b.0[i].transs);
    }
}

#[test]
fn empty_process_is_malformed() {
    let mut procs = two_movers();
    procs.push(vec![]);
    assert_eq!(Lts::concurrent_composition(vec![0], procs).err(), Some(LtsError::ProcessMalformed));
}

#[test]
fn missing_location_is_reported() {
    let p = vec![unit("A", vec![trans("go", "Z", always, |v| v)])];
    assert_eq!(Lts::concurrent_composition(vec![0], vec![p]).err(), Some(LtsError::NoSuchLocation));
}

#[test]
fn unreachable_missing_location_is_fine() {
    let p = vec![unit("A", vec![trans("go", "Z", never, |v| v)])];
    let lts = Lts::concurrent_composition(vec![0], vec![p]).unwrap();
    assert_eq!(lts.0.len(), 1);
    assert!(lts.0[0].transs.is_empty());
}

#[test]
fn guards_filter_and_known_states_keep_their_id() {
    // a counter modulo 3: the third step returns to the initial state
    let p = vec![unit(
        "C",
        vec![
            trans("inc", "C", |v| v[0] < 2, |mut v| { v[0] += 1; v }),
            trans("wrap", "C", |v| v[0] == 2, |mut v| { v[0] = 0; v }),
        ],
    )];
    let lts = Lts::concurrent_composition(vec![0], vec![p]).unwrap();
    assert_eq!(lts.0.len(), 3);
    assert_eq!(lts.0[0].transs, vec![(Label::new("inc"), 1)]);
    assert_eq!(lts.0[1].transs, vec![(Label::new("inc"), 2)]);
    assert_eq!(lts.0[2].transs, vec![(Label::new("wrap"), 0)]);
}

#[test]
fn find_states_in_order() {
    let lts = Lts::concurrent_composition(vec![0], two_movers()).unwrap();
    let odd = lts.find_states(|_, s| s.state.vars[0] % 2 == 1);
    assert_eq!(odd, vec![1, 3]);
    let late = lts.find_states(|i, _| i >= 2);
    assert_eq!(late, vec![2, 3]);
    assert!(Lts::new().find_states(|_, _| true).is_empty());
}

#[test]
fn location_and_label_keep_their_text() {
    assert_eq!(Location::new("P0").0, "P0");
    assert_eq!(Label::new("x=1").0, "x=1");
    assert_eq!(Location::new("P0").duplicate(), Location::new("P0"));
    assert!(Location::new("a").same_as(&Location::new("a")));
    assert!(!Location::new("a").same_as(&Location::new("b")));
}
