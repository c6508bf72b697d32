//! Processes: locations, labels and guarded transitions over shared integer variables.

use vstd::prelude::*;

verus! {

/// A named point inside one sequential process.
#[derive(Debug, Clone, PartialEq, Eq, Hash)]
pub struct Location(pub String);

impl View for Location {
    type V = Seq<char>;

    open spec fn view(&self) -> Seq<char> {
        self.0@
    }
}

impl Location {
    pub fn new(s: &str) -> (r: Location)
        ensures
            r@ == s@,
    {
        Location(s.to_owned())
    }

    /// A copy carrying the same name.
    pub fn duplicate(&self) -> (r: Location)
        ensures
            r@ == self@,
    {
        Location(self.0.clone())
    }

    /// Name equality.
    pub fn same_as(&self, other: &Location) -> (r: bool)
        ensures
            r == (self@ == other@),
    {
        self.0 == other.0
    }
}

/// The display text of a transition; it takes no part in matching.
#[derive(Debug, Clone, PartialEq, Eq, Hash)]
pub struct Label(pub String);

impl View for Label {
    type V = Seq<char>;

    open spec fn view(&self) -> Seq<char> {
        self.0@
    }
}

impl Label {
    pub fn new(s: &str) -> (r: Label)
        ensures
            r@ == s@,
    {
        Label(s.to_owned())
    }

    /// A copy carrying the same text.
    pub fn duplicate(&self) -> (r: Label)
        ensures
            r@ == self@,
    {
        Label(self.0.clone())
    }
}

/// A guarded transition: when `guard` holds of the shared variables, the
/// process may move to `dst`, replacing the variables by `action`'s result.
pub struct Trans<G, A> {
    pub label: Label,
    pub dst: Location,
    pub guard: G,
    pub action: A,
}

/// A source location together with its outgoing transitions, in order.
pub struct ExecUnit<G, A> {
    pub src: Location,
    pub transs: Vec<Trans<G, A>>,
}

/// A sequential process; its first unit's source is its initial location.
pub type Process<G, A> = Vec<ExecUnit<G, A>>;

/// The guard holds of variables whose contents are `v`.
pub open spec fn guard_holds<G: Fn(&Vec<i64>) -> bool>(g: G, v: Seq<i64>) -> bool {
    exists|x: Vec<i64>| x@ == v && #[trigger] g.ensures((&x,), true)
}

/// The action may turn variables whose contents are `v` into `y`.
pub open spec fn produces<A: Fn(Vec<i64>) -> Vec<i64>>(a: A, v: Seq<i64>, y: Vec<i64>) -> bool {
    exists|x: Vec<i64>| x@ == v && #[trigger] a.ensures((x,), y)
}

/// The contents of the variables that the action produces from contents `v`.
pub open spec fn action_result<A: Fn(Vec<i64>) -> Vec<i64>>(a: A, v: Seq<i64>) -> Seq<i64> {
    (choose|y: Vec<i64>| #[trigger] produces(a, v, y))@
}

/// The guard is total and a function of the variables' contents.
pub open spec fn pure_guard<G: Fn(&Vec<i64>) -> bool>(g: G) -> bool {
    &&& forall|x: Vec<i64>| #[trigger] g.requires((&x,))
    &&& forall|x1: Vec<i64>, x2: Vec<i64>, r1: bool, r2: bool|
        x1@ == x2@ && #[trigger] g.ensures((&x1,), r1) && #[trigger] g.ensures((&x2,), r2)
            ==> r1 == r2
}

/// The action is total and a function of the variables' contents.
pub open spec fn pure_action<A: Fn(Vec<i64>) -> Vec<i64>>(a: A) -> bool {
    &&& forall|x: Vec<i64>| #[trigger] a.requires((x,))
    &&& forall|x1: Vec<i64>, x2: Vec<i64>, y1: Vec<i64>, y2: Vec<i64>|
        x1@ == x2@ && #[trigger] a.ensures((x1,), y1) && #[trigger] a.ensures((x2,), y2)
            ==> y1@ == y2@
}

pub open spec fn pure_trans<G: Fn(&Vec<i64>) -> bool, A: Fn(Vec<i64>) -> Vec<i64>>(
    t: Trans<G, A>,
) -> bool {
    pure_guard(t.guard) && pure_action(t.action)
}

/// Every guard and action of every process is pure.
pub open spec fn pure_processes<G: Fn(&Vec<i64>) -> bool, A: Fn(Vec<i64>) -> Vec<i64>>(
    procs: Seq<Process<G, A>>,
) -> bool {
    forall|i: int, u: int, t: int|
        0 <= i < procs.len() && 0 <= u < procs[i]@.len() && 0 <= t
            < procs[i]@[u].transs@.len() ==> pure_trans(#[trigger] procs[i]@[u].transs@[t])
}

/// Calls the guard; the result is what `guard_holds` says.
pub fn eval_guard<G: Fn(&Vec<i64>) -> bool>(g: &G, v: &Vec<i64>) -> (r: bool)
    requires
        pure_guard(*g),
    ensures
        r == guard_holds(*g, v@),
{
    let r = g(v);
    assert(g.ensures((v,), r));
    proof {
        if !r && guard_holds(*g, v@) {
            let x = choose|x: Vec<i64>| x@ == v@ && #[trigger] g.ensures((&x,), true);
            assert(g.ensures((&x,), true));
        }
    }
    r
}

/// Calls the action on a copy of `v`; the result is what `action_result` says.
pub fn eval_action<A: Fn(Vec<i64>) -> Vec<i64>>(a: &A, v: &Vec<i64>) -> (r: Vec<i64>)
    requires
        pure_action(*a),
    ensures
        r@ == action_result(*a, v@),
{
    let c = v.clone();
    assert(c@ =~= v@);
    let r = a(c);
    assert(a.ensures((c,), r));
    proof {
        assert(produces(*a, v@, r));
        let y = choose|y: Vec<i64>| #[trigger] produces(*a, v@, y);
        let x = choose|x: Vec<i64>| x@ == v@ && #[trigger] a.ensures((x,), y);
        assert(a.ensures((x,), y));
    }
    r
}

} // verus!
