use mcctl::formula::Formula;

fn prop(s: &str) -> Box<Formula> {
    Box::new(Formula::Prop(s.to_string()))
}

fn texts(f: Formula) -> Vec<String> {
    let t = f.unfold();
    (0..t.len()).map(|i| t.get(i).to_text()).collect()
}

#[test]
fn unfold_is_post_order() {
    let f = Formula::Or(
        Box::new(Formula::And(prop("x=1"), prop("y>0"))),
        Box::new(Formula::Not(prop("z=0"))),
    );
    assert_eq!(
        texts(f),
        vec!["x=1", "y>0", "(and x=1 y>0)", "z=0", "(not z=0)", "(or (and x=1 y>0) (not z=0))"]
    );
}

#[test]
fn unfold_collapses_duplicates() {
    let f = Formula::EU(
        Box::new(Formula::And(prop("p"), prop("q"))),
        Box::new(Formula::Or(Box::new(Formula::And(prop("p"), prop("q"))), prop("p"))),
    );
    assert_eq!(
        texts(f),
        vec!["p", "q", "(and p q)", "(or (and p q) p)", "(EU (and p q) (or (and p q) p))"]
    );
    assert_eq!(texts(Formula::Impl(prop("a"), prop("a"))), vec!["a", "(impl a a)"]);
}

#[test]
fn formula_text() {
    let f = Formula::EG(Box::new(Formula::EX(Box::new(Formula::Impl(prop("a"), prop("b"))))));
    assert_eq!(f.to_text(), "(EG (EX (impl a b)))");
    assert_eq!(f.deep_copy().to_text(), "(EG (EX (impl a b)))");
}

#[test]
fn constructors_build_the_variants() {
    let f = Formula::implies(
        Formula::and(Formula::prop("a"), Formula::not(Formula::prop("b"))),
        Formula::or(
            Formula::ex(Formula::prop("c")),
            Formula::eu(Formula::prop("d"), Formula::eg(Formula::prop("e"))),
        ),
    );
    assert_eq!(f.to_text(), "(impl (and a (not b)) (or (EX c) (EU d (EG e))))");
}
