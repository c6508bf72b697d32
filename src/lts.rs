//! Breadth-first construction of the transition system of interleaved processes.

use vstd::prelude::*;
use crate::process::{
    action_result, eval_action, eval_guard, guard_holds, pure_processes, pure_trans, ExecUnit,
    Label, Location, Process, Trans,
};

verus! {

/// The view of a global state: the variables' contents and each process's location.
pub type GState = (Seq<i64>, Seq<Seq<char>>);

/// The view of one outgoing edge: its label and its destination id.
pub type EdgeView = (Seq<char>, nat);

/// A global state: the shared variables and the current location of each process.
#[derive(Debug, Clone, PartialEq, Eq, Hash)]
pub struct State {
    pub vars: Vec<i64>,
    pub locations: Vec<Location>,
}

impl View for State {
    type V = GState;

    open spec fn view(&self) -> GState {
        (self.vars@, self.locations@.map_values(|l: Location| l@))
    }
}

pub type StateId = usize;

/// A state of the transition system with its outgoing edges, in order.
#[derive(Debug)]
pub struct StateEx {
    pub state: State,
    pub transs: Vec<(Label, StateId)>,
}

/// Some edge of `es` leads to `x`.
pub open spec fn leads_to(es: Seq<(Label, StateId)>, x: int) -> bool {
    exists|e: int| 0 <= e < es.len() && (#[trigger] es[e]).1 == x
}

/// An edge list among the first ones, of a smaller id than `x`, leads to `x`.
spec fn found_from(edges: Seq<Vec<(Label, StateId)>>, x: int) -> bool {
    exists|i: int| 0 <= i < edges.len() && i < x && #[trigger] leads_to(edges[i]@, x)
}

pub open spec fn edges_view(es: Seq<(Label, StateId)>) -> Seq<EdgeView> {
    es.map_values(|e: (Label, StateId)| (e.0@, e.1 as nat))
}

pub open spec fn succs_view(v: Seq<(Label, State)>) -> Seq<(Seq<char>, GState)> {
    v.map_values(|p: (Label, State)| (p.0@, p.1@))
}

/// A labelled transition system; the state with id `i` is at position `i`.
#[derive(Debug)]
pub struct Lts(pub Vec<StateEx>);

/// Why composing processes failed.
#[derive(Debug, Clone, Copy, PartialEq, Eq, Hash)]
pub enum LtsError {
    /// Some process has no unit at all.
    ProcessMalformed,
    /// A reachable state puts a process at a location that none of its units starts from.
    NoSuchLocation,
}

impl Lts {
    pub open spec fn states_view(&self) -> Seq<GState> {
        self.0@.map_values(|s: StateEx| s.state@)
    }

    pub open spec fn edges(&self) -> Seq<Seq<EdgeView>> {
        self.0@.map_values(|s: StateEx| edges_view(s.transs@))
    }

    /// Every edge leads to a state of the system.
    pub open spec fn closed(&self) -> bool {
        forall|i: int, e: int|
            0 <= i < self.0@.len() && 0 <= e < self.0@[i].transs@.len() ==> (#[trigger] self.0@[
                i
            ].transs@[e]).1 < self.0@.len()
    }

    /// No two ids hold the same global state.
    pub open spec fn canonical(&self) -> bool {
        forall|i: int, j: int|
            0 <= i < self.0@.len() && 0 <= j < self.0@.len() && i != j ==> self.0@[i].state@
                != self.0@[j].state@
    }

    /// Every state but the first is the target of an edge out of a state with a
    /// smaller id; so every state is reachable from state 0.
    pub open spec fn discovered(&self) -> bool {
        forall|x: int| 0 < x < self.0@.len() ==> #[trigger] self.has_parent(x)
    }

    /// An edge out of a state with an id below `x` leads to `x`.
    pub open spec fn has_parent(&self, x: int) -> bool {
        exists|i: int| 0 <= i < x && #[trigger] leads_to(self.0@[i].transs@, x)
    }

    pub fn new() -> (r: Lts)
        ensures
            r.0@.len() == 0,
    {
        Lts(Vec::new())
    }

    /// The ids, in increasing order, of the states that `pred` accepts.
    pub fn find_states<P: Fn(usize, &StateEx) -> bool>(&self, pred: P) -> (r: Vec<usize>)
        requires
            forall|i: usize| i < self.0@.len() ==> pred.requires((i, &self.0@[i as int])),
        ensures
            forall|k: int| 0 <= k < r@.len() ==> r@[k] < self.0@.len(),
            forall|k: int, l: int| 0 <= k < l < r@.len() ==> r@[k] < r@[l],
            forall|k: int| 0 <= k < r@.len() ==> pred.ensures((r@[k], &self.0@[r@[k] as int]), true),
            forall|i: usize|
                i < self.0@.len() && !r@.contains(i) ==> pred.ensures((i, &self.0@[i as int]), false),
    {
        let mut result: Vec<usize> = Vec::new();
        let mut i: usize = 0;
        while i < self.0.len()
            invariant
                i <= self.0@.len(),
                forall|i: usize| i < self.0@.len() ==> pred.requires((i, &self.0@[i as int])),
                forall|k: int| 0 <= k < result@.len() ==> result@[k] < i,
                forall|k: int, l: int| 0 <= k < l < result@.len() ==> result@[k] < result@[l],
                forall|k: int|
                    0 <= k < result@.len() ==> pred.ensures(
                        (result@[k], &self.0@[result@[k] as int]),
                        true,
                    ),
                forall|j: usize|
                    j < i && !result@.contains(j) ==> pred.ensures((j, &self.0@[j as int]), false),
            decreases self.0@.len() - i,
        {
            let b = pred(i, &self.0[i]);
            let ghost before = result@;
            if b {
                result.push(i);
            }
            proof {
                assert forall|j: usize|
                    j < i + 1 && !result@.contains(j) implies pred.ensures(
                    (j, &self.0@[j as int]),
                    false,
                ) by {
                    if j == i {
                        if b {
                            assert(result@[result@.len() - 1] == i);
                        }
                    } else if before.contains(j) {
                        let k = choose|k: int| 0 <= k < before.len() && before[k] == j;
                        assert(result@[k] == j);
                    }
                }
            }
            i = i + 1;
        }
        result
    }
}

/// The first unit of `units`, at or after `i`, that starts from `loc`.
pub open spec fn find_unit_from<G, A>(units: Seq<ExecUnit<G, A>>, loc: Seq<char>, i: int) -> Option<
    int,
>
    decreases units.len() - i,
{
    if i < 0 || i >= units.len() {
        None
    } else if units[i].src@ == loc {
        Some(i)
    } else {
        find_unit_from(units, loc, i + 1)
    }
}

/// The first unit of `units` that starts from `loc`.
pub open spec fn find_unit<G, A>(units: Seq<ExecUnit<G, A>>, loc: Seq<char>) -> Option<int> {
    find_unit_from(units, loc, 0)
}

/// The steps that the transitions `ts`, taken by process `i`, allow from `s`, in order.
pub open spec fn trans_succs<G: Fn(&Vec<i64>) -> bool, A: Fn(Vec<i64>) -> Vec<i64>>(
    ts: Seq<Trans<G, A>>,
    i: int,
    s: GState,
) -> Seq<(Seq<char>, GState)>
    decreases ts.len(),
{
    if ts.len() == 0 {
        Seq::empty()
    } else {
        let prev = trans_succs(ts.drop_last(), i, s);
        let t = ts.last();
        if guard_holds(t.guard, s.0) {
            prev.push((t.label@, (action_result(t.action, s.0), s.1.update(i, t.dst@))))
        } else {
            prev
        }
    }
}

/// The steps of processes `0..k` from `s`, processes in order; `None` where one of
/// them stands at a location that none of its units starts from.
pub open spec fn succs_upto<G: Fn(&Vec<i64>) -> bool, A: Fn(Vec<i64>) -> Vec<i64>>(
    procs: Seq<Process<G, A>>,
    s: GState,
    k: int,
) -> Option<Seq<(Seq<char>, GState)>>
    decreases k,
{
    if k <= 0 {
        Some(Seq::empty())
    } else {
        match succs_upto(procs, s, k - 1) {
            None => None,
            Some(prev) => match find_unit(procs[k - 1]@, s.1[k - 1]) {
                None => None,
                Some(u) => Some(prev + trans_succs(procs[k - 1]@[u].transs@, k - 1, s)),
            },
        }
    }
}

/// All successors of `s` under interleaving, labelled, in enumeration order.
pub open spec fn successors<G: Fn(&Vec<i64>) -> bool, A: Fn(Vec<i64>) -> Vec<i64>>(
    procs: Seq<Process<G, A>>,
    s: GState,
) -> Option<Seq<(Seq<char>, GState)>> {
    succs_upto(procs, s, procs.len() as int)
}

/// The initial global state: each process at its first unit's source.
pub open spec fn initial_state<G, A>(vars: Seq<i64>, procs: Seq<Process<G, A>>) -> GState {
    (vars, Seq::new(procs.len(), |i: int| procs[i]@[0].src@))
}

/// Where `x` stands in `ss`.
pub open spec fn position_of(ss: Seq<GState>, x: GState) -> int {
    choose|i: int| 0 <= i < ss.len() && ss[i] == x
}

/// Gives ids to the successors `succ` against the states `ss` already known:
/// a known state keeps its id, a new one is appended and takes the next id.
pub open spec fn expand(ss: Seq<GState>, succ: Seq<(Seq<char>, GState)>) -> (
    Seq<GState>,
    Seq<EdgeView>,
)
    decreases succ.len(),
{
    if succ.len() == 0 {
        (ss, Seq::empty())
    } else {
        let (s1, es) = expand(ss, succ.drop_last());
        let (l, x) = succ.last();
        if s1.contains(x) {
            (s1, es.push((l, position_of(s1, x) as nat)))
        } else {
            (s1.push(x), es.push((l, s1.len())))
        }
    }
}

/// The known states and the edge lists of the first `k` states after `k` steps
/// of breadth-first exploration; `None` once a step has failed.
pub open spec fn explore<G: Fn(&Vec<i64>) -> bool, A: Fn(Vec<i64>) -> Vec<i64>>(
    procs: Seq<Process<G, A>>,
    init: GState,
    k: nat,
) -> Option<(Seq<GState>, Seq<Seq<EdgeView>>)>
    decreases k,
{
    if k == 0 {
        Some((seq![init], Seq::empty()))
    } else {
        match explore(procs, init, (k - 1) as nat) {
            None => None,
            Some((ss, es)) => if es.len() < ss.len() {
                match successors(procs, ss[es.len() as int]) {
                    None => None,
                    Some(succ) => {
                        let (ss1, e1) = expand(ss, succ);
                        Some((ss1, es.push(e1)))
                    },
                }
            } else {
                Some((ss, es))
            },
        }
    }
}

/// `lts` is the complete outcome of exploring from `init`.
pub open spec fn explored<G: Fn(&Vec<i64>) -> bool, A: Fn(Vec<i64>) -> Vec<i64>>(
    procs: Seq<Process<G, A>>,
    init: GState,
    lts: Lts,
) -> bool {
    exists|k: nat|
        #[trigger] explore(procs, init, k) == Some((lts.states_view(), lts.edges()))
            && lts.edges().len() == lts.states_view().len()
}

/// Exploration from `init` fails at some step.
pub open spec fn exploration_fails<G: Fn(&Vec<i64>) -> bool, A: Fn(Vec<i64>) -> Vec<i64>>(
    procs: Seq<Process<G, A>>,
    init: GState,
) -> bool {
    exists|k: nat| #[trigger] explore(procs, init, k) is None
}

/// The edges out of the state `s` are exactly its successors, in order.
pub open spec fn edges_match(lts: Lts, s: int, succ: Seq<(Seq<char>, GState)>) -> bool {
    &&& lts.0@[s].transs@.len() == succ.len()
    &&& forall|e: int|
        0 <= e < succ.len() ==> (#[trigger] lts.0@[s].transs@[e]).0@ == succ[e].0
            && lts.0@[s].transs@[e].1 < lts.0@.len() && lts.0@[lts.0@[s].transs@[e].1 as int].state@
            == succ[e].1
}

/// The edges out of state `s` of `lts` are the successors of its state.
pub open spec fn steps_match<G: Fn(&Vec<i64>) -> bool, A: Fn(Vec<i64>) -> Vec<i64>>(
    procs: Seq<Process<G, A>>,
    lts: Lts,
    s: int,
) -> bool {
    match successors(procs, lts.0@[s].state@) {
        Some(succ) => edges_match(lts, s, succ),
        None => false,
    }
}

spec fn list_matches<G: Fn(&Vec<i64>) -> bool, A: Fn(Vec<i64>) -> Vec<i64>>(
    procs: Seq<Process<G, A>>,
    states: Seq<State>,
    es: Seq<(Label, StateId)>,
    i: int,
) -> bool {
    match successors(procs, states[i]@) {
        Some(succ) => edge_list_matches(states, es, succ),
        None => false,
    }
}

fn find_unit_exec<G, A>(units: &Vec<ExecUnit<G, A>>, loc: &Location) -> (r: Option<usize>)
    ensures
        match r {
            None => find_unit(units@, loc@) is None,
            Some(u) => find_unit(units@, loc@) == Some(u as int) && u < units@.len()
                && units@[u as int].src@ == loc@,
        },
{
    let mut i: usize = 0;
    while i < units.len()
        invariant
            i <= units@.len(),
            find_unit(units@, loc@) == find_unit_from(units@, loc@, i as int),
        decreases units@.len() - i,
    {
        if units[i].src.same_as(loc) {
            return Some(i);
        }
        i = i + 1;
    }
    None
}

/// A copy of `locs` with position `i` replaced by `dst`.
fn moved_locations(locs: &Vec<Location>, i: usize, dst: &Location) -> (r: Vec<Location>)
    requires
        i < locs@.len(),
    ensures
        r@.map_values(|l: Location| l@) == locs@.map_values(|l: Location| l@).update(
            i as int,
            dst@,
        ),
{
    let mut r: Vec<Location> = Vec::new();
    let mut j: usize = 0;
    while j < locs.len()
        invariant
            j <= locs@.len(),
            i < locs@.len(),
            r@.len() == j,
            forall|k: int| 0 <= k < j ==> r@[k]@ == (if k == i { dst@ } else { locs@[k]@ }),
        decreases locs@.len() - j,
    {
        if j == i {
            r.push(dst.duplicate());
        } else {
            r.push(locs[j].duplicate());
        }
        j = j + 1;
    }
    assert(r@.map_values(|l: Location| l@) =~= locs@.map_values(|l: Location| l@).update(
        i as int,
        dst@,
    ));
    r
}

/// Appends to `next` the steps that process `i`, through the transitions
/// `transs`, allows from `state`.
fn calc_transitions_from<G: Fn(&Vec<i64>) -> bool, A: Fn(Vec<i64>) -> Vec<i64>>(
    next: &mut Vec<(Label, State)>,
    i: usize,
    state: &State,
    transs: &Vec<Trans<G, A>>,
)
    requires
        i < state.locations@.len(),
        forall|t: int| 0 <= t < transs@.len() ==> pure_trans(#[trigger] transs@[t]),
    ensures
        succs_view(final(next)@) == succs_view(old(next)@) + trans_succs(
            transs@,
            i as int,
            state@,
        ),
{
    let ghost start = succs_view(next@);
    let mut j: usize = 0;
    while j < transs.len()
        invariant
            j <= transs@.len(),
            i < state.locations@.len(),
            forall|t: int| 0 <= t < transs@.len() ==> pure_trans(#[trigger] transs@[t]),
            succs_view(next@) == start + trans_succs(transs@.take(j as int), i as int, state@),
        decreases transs@.len() - j,
    {
        let trans = &transs[j];
        assert(pure_trans(transs@[j as int]));
        assert(transs@.take(j + 1).drop_last() =~= transs@.take(j as int));
        assert(transs@.take(j + 1).last() == transs@[j as int]);
        let ghost before = succs_view(next@);
        if eval_guard(&trans.guard, &state.vars) {
            let vars = eval_action(&trans.action, &state.vars);
            let locations = moved_locations(&state.locations, i, &trans.dst);
            let dst_state = State { vars, locations };
            next.push((trans.label.duplicate(), dst_state));
            assert(succs_view(next@) =~= before.push(
                (trans.label@, (dst_state.vars@, dst_state@.1)),
            ));
        } else {
            assert(succs_view(next@) =~= before);
        }
        assert(start + trans_succs(transs@.take(j + 1), i as int, state@) =~= succs_view(next@));
        j = j + 1;
    }
    assert(transs@.take(transs@.len() as int) =~= transs@);
}

proof fn lemma_trans_succs_shape<G: Fn(&Vec<i64>) -> bool, A: Fn(Vec<i64>) -> Vec<i64>>(
    ts: Seq<Trans<G, A>>,
    i: int,
    s: GState,
)
    requires
        0 <= i < s.1.len(),
    ensures
        forall|e: int|
            0 <= e < trans_succs(ts, i, s).len() ==> (#[trigger] trans_succs(ts, i, s)[e]).1.1.len()
                == s.1.len(),
    decreases ts.len(),
{
    if ts.len() > 0 {
        lemma_trans_succs_shape(ts.drop_last(), i, s);
        let prev = trans_succs(ts.drop_last(), i, s);
        assert forall|e: int|
            0 <= e < trans_succs(ts, i, s).len() implies (#[trigger] trans_succs(ts, i, s)[e]).1.1.len()
                == s.1.len() by {
            if e < prev.len() {
                assert(trans_succs(ts, i, s)[e] == prev[e]);
            }
        }
    }
}

proof fn lemma_succs_upto<G: Fn(&Vec<i64>) -> bool, A: Fn(Vec<i64>) -> Vec<i64>>(
    procs: Seq<Process<G, A>>,
    s: GState,
    k: int,
    m: int,
)
    requires
        k <= m,
        m <= s.1.len(),
    ensures
        succs_upto(procs, s, k) is None ==> succs_upto(procs, s, m) is None,
        succs_upto(procs, s, m) matches Some(v) ==> forall|e: int|
            0 <= e < v.len() ==> (#[trigger] v[e]).1.1.len() == s.1.len(),
    decreases m,
{
    if m > 0 {
        if k < m {
            lemma_succs_upto(procs, s, k, m - 1);
        } else {
            lemma_succs_upto(procs, s, k - 1, m - 1);
        }
        if let Some(prev) = succs_upto(procs, s, m - 1) {
            if let Some(u) = find_unit(procs[m - 1]@, s.1[m - 1]) {
                lemma_trans_succs_shape(procs[m - 1]@[u].transs@, m - 1, s);
                let v = prev + trans_succs(procs[m - 1]@[u].transs@, m - 1, s);
                assert forall|e: int| 0 <= e < v.len() implies (#[trigger] v[e]).1.1.len()
                    == s.1.len() by {
                    if e >= prev.len() {
                        assert(v[e] == trans_succs(procs[m - 1]@[u].transs@, m - 1, s)[e
                            - prev.len()]);
                    }
                }
            }
        }
    }
}

/// The successors of `state` under the interleaving of `processes`.
fn successors_exec<G: Fn(&Vec<i64>) -> bool, A: Fn(Vec<i64>) -> Vec<i64>>(
    processes: &Vec<Process<G, A>>,
    state: &State,
) -> (r: Result<Vec<(Label, State)>, LtsError>)
    requires
        pure_processes(processes@),
        state.locations@.len() == processes@.len(),
    ensures
        match r {
            Ok(v) => successors(processes@, state@) == Some(succs_view(v@)),
            Err(e) => e == LtsError::NoSuchLocation && successors(processes@, state@) is None,
        },
{
    let mut next: Vec<(Label, State)> = Vec::new();
    let mut i: usize = 0;
    assert(succs_view(next@) =~= Seq::empty());
    while i < processes.len()
        invariant
            i <= processes@.len(),
            pure_processes(processes@),
            state.locations@.len() == processes@.len(),
            succs_upto(processes@, state@, i as int) == Some(succs_view(next@)),
        decreases processes@.len() - i,
    {
        let process = &processes[i];
        match find_unit_exec(process, &state.locations[i]) {
            None => {
                proof {
                    lemma_succs_upto(
                        processes@,
                        state@,
                        i + 1,
                        processes@.len() as int,
                    );
                }
                return Err(LtsError::NoSuchLocation);
            },
            Some(u) => {
                let ghost before = succs_view(next@);
                assert(state@.1[i as int] == state.locations@[i as int]@);
                assert(process@ == processes@[i as int]@);
                assert forall|t: int| 0 <= t < process@[u as int].transs@.len() implies pure_trans(
                    #[trigger] process@[u as int].transs@[t],
                ) by {
                    assert(pure_trans(processes@[i as int]@[u as int].transs@[t]));
                }
                calc_transitions_from(&mut next, i, state, &process[u].transs);
                assert(succs_upto(processes@, state@, i + 1) == Some(
                    before + trans_succs(processes@[i as int]@[u as int].transs@, i as int, state@),
                ));
            },
        }
        i = i + 1;
    }
    Ok(next)
}

/// Whether two states hold the same variables and the same locations.
fn same_state(a: &State, b: &State) -> (r: bool)
    ensures
        r == (a@ == b@),
{
    if a.vars.len() != b.vars.len() || a.locations.len() != b.locations.len() {
        proof {
            if a@ == b@ {
                assert(a@.1.len() == b@.1.len());
            }
        }
        return false;
    }
    let mut i: usize = 0;
    while i < a.vars.len()
        invariant
            i <= a.vars@.len(),
            a.vars@.len() == b.vars@.len(),
            forall|k: int| 0 <= k < i ==> a.vars@[k] == b.vars@[k],
        decreases a.vars@.len() - i,
    {
        if a.vars[i] != b.vars[i] {
            assert(a@.0[i as int] != b@.0[i as int]);
            return false;
        }
        i = i + 1;
    }
    assert(a.vars@ =~= b.vars@);
    let mut j: usize = 0;
    while j < a.locations.len()
        invariant
            j <= a.locations@.len(),
            a.locations@.len() == b.locations@.len(),
            a.vars@ == b.vars@,
            forall|k: int| 0 <= k < j ==> a.locations@[k]@ == b.locations@[k]@,
        decreases a.locations@.len() - j,
    {
        if !a.locations[j].same_as(&b.locations[j]) {
            assert(a@.1[j as int] != b@.1[j as int]);
            return false;
        }
        j = j + 1;
    }
    assert(a@.1 =~= b@.1);
    true
}

/// The id of `x` among `states`, if it is there.
fn find_state(states: &Vec<State>, x: &State) -> (r: Option<usize>)
    ensures
        match r {
            Some(i) => i < states@.len() && states@[i as int]@ == x@,
            None => forall|i: int| 0 <= i < states@.len() ==> states@[i]@ != x@,
        },
{
    let mut i: usize = 0;
    while i < states.len()
        invariant
            i <= states@.len(),
            forall|k: int| 0 <= k < i ==> states@[k]@ != x@,
        decreases states@.len() - i,
    {
        if same_state(&states[i], x) {
            return Some(i);
        }
        i = i + 1;
    }
    None
}

pub open spec fn states_of(states: Seq<State>) -> Seq<GState> {
    states.map_values(|s: State| s@)
}

pub open spec fn edge_lists_of(edges: Seq<Vec<(Label, StateId)>>) -> Seq<Seq<EdgeView>> {
    edges.map_values(|es: Vec<(Label, StateId)>| edges_view(es@))
}

pub open spec fn distinct_states(states: Seq<State>) -> bool {
    forall|i: int, j: int|
        0 <= i < states.len() && 0 <= j < states.len() && i != j ==> states[i]@ != states[j]@
}

/// The edges `es` are the successors `succ`, with ids into `states`.
pub open spec fn edge_list_matches(
    states: Seq<State>,
    es: Seq<(Label, StateId)>,
    succ: Seq<(Seq<char>, GState)>,
) -> bool {
    &&& es.len() == succ.len()
    &&& forall|e: int|
        0 <= e < succ.len() ==> (#[trigger] es[e]).0@ == succ[e].0 && es[e].1 < states.len()
            && states[es[e].1 as int]@ == succ[e].1
}

/// Breadth-first exploration from `init`: ids in order of discovery.
fn bfs<G: Fn(&Vec<i64>) -> bool, A: Fn(Vec<i64>) -> Vec<i64>>(
    init: State,
    processes: &Vec<Process<G, A>>,
) -> (r: Result<Lts, LtsError>)
    requires
        pure_processes(processes@),
        init.locations@.len() == processes@.len(),
    ensures
        match r {
            Ok(lts) => {
                &&& explored(processes@, init@, lts)
                &&& lts.0@.len() >= 1
                &&& lts.0@[0].state@ == init@
                &&& lts.closed()
                &&& lts.canonical()
                &&& lts.discovered()
                &&& forall|i: int| 0 <= i < lts.0@.len() ==> #[trigger] steps_match(processes@, lts, i)
            },
            Err(e) => e == LtsError::NoSuchLocation && exploration_fails(processes@, init@),
        },
{
    let ghost procs = processes@;
    let ghost init_v = init@;
    let n = processes.len();
    let mut states: Vec<State> = Vec::new();
    states.push(init);
    let mut edges: Vec<Vec<(Label, StateId)>> = Vec::new();
    assert(states_of(states@) =~= seq![init_v]);
    assert(edge_lists_of(edges@) =~= Seq::empty());
    while edges.len() < states.len()
        invariant
            procs == processes@,
            init_v == init@,
            n == procs.len(),
            pure_processes(procs),
            states@.len() >= 1,
            states@[0]@ == init_v,
            edges@.len() <= states@.len(),
            explore(procs, init_v, edges@.len() as nat) == Some(
                (states_of(states@), edge_lists_of(edges@)),
            ),
            distinct_states(states@),
            forall|i: int| 0 <= i < states@.len() ==> (#[trigger] states@[i]).locations@.len() == n,
            forall|i: int|
                0 <= i < edges@.len() ==> #[trigger] list_matches(procs, states@, edges@[i]@, i),
            forall|x: int| 0 < x < states@.len() ==> #[trigger] found_from(edges@, x),
        decreases usize::MAX - edges@.len(),
    {
        let head = edges.len();
        let nexts = match successors_exec(processes, &states[head]) {
            Ok(v) => v,
            Err(e) => {
                proof {
                    let ss = states_of(states@);
                    let es = edge_lists_of(edges@);
                    assert(es.len() == head);
                    assert(ss[head as int] == states@[head as int]@);
                    assert(explore(procs, init_v, (head + 1) as nat) is None);
                    assert(exploration_fails(procs, init_v));
                }
                return Err(e);
            },
        };
        let ghost succ = succs_view(nexts@);
        let ghost s0 = states@;
        proof {
            lemma_succs_upto(procs, states@[head as int]@, 0, procs.len() as int);
        }
        let mut es: Vec<(Label, StateId)> = Vec::new();
        let mut j: usize = 0;
        assert(succ.take(0) =~= Seq::<(Seq<char>, GState)>::empty());
        assert(edges_view(es@) =~= Seq::empty());
        while j < nexts.len()
            invariant
                procs == processes@,
                n == procs.len(),
                head == edges@.len(),
                head < s0.len(),
                succ == succs_view(nexts@),
                forall|e: int| 0 <= e < succ.len() ==> (#[trigger] succ[e]).1.1.len() == n,
                j <= nexts@.len(),
                s0.len() <= states@.len(),
                forall|i: int| 0 <= i < s0.len() ==> states@[i] == s0[i],
                expand(states_of(s0), succ.take(j as int)) == (
                    states_of(states@),
                    edges_view(es@),
                ),
                distinct_states(states@),
                forall|i: int| 0 <= i < states@.len() ==> (#[trigger] states@[i]).locations@.len() == n,
                es@.len() == j,
                forall|e: int|
                    0 <= e < j ==> (#[trigger] es@[e]).0@ == succ[e].0 && es@[e].1 < states@.len()
                        && states@[es@[e].1 as int]@ == succ[e].1,
                forall|x: int| s0.len() <= x < states@.len() ==> #[trigger] leads_to(es@, x),
            decreases nexts@.len() - j,
        {
            let (label, next_state) = (&nexts[j].0, &nexts[j].1);
            assert(succ.take(j + 1).drop_last() =~= succ.take(j as int));
            assert(succ.take(j + 1).last() == succ[j as int]);
            assert(succ[j as int] == (label@, next_state@));
            let ghost before_states = states@;
            let ghost before_es = es@;
            let next_id = match find_state(&states, next_state) {
                Some(id) => {
                    proof {
                        assert(states_of(states@)[id as int] == next_state@);
                        assert(states_of(states@).contains(next_state@));
                        let p = position_of(states_of(states@), next_state@);
                        assert(states@[p]@ == next_state@);
                    }
                    id
                },
                None => {
                    proof {
                        if states_of(states@).contains(next_state@) {
                            let p = choose|p: int|
                                0 <= p < states_of(states@).len() && states_of(states@)[p]
                                    == next_state@;
                            assert(states@[p]@ == next_state@);
                        }
                    }
                    let id = states.len();
                    assert(next_state@.1.len() == n);
                    let copy = State {
                        vars: next_state.vars.clone(),
                        locations: copy_locations(&next_state.locations),
                    };
                    assert(copy.vars@ =~= next_state.vars@);
                    assert(copy@ == next_state@);
                    states.push(copy);
                    assert(states_of(states@) =~= states_of(before_states).push(next_state@));
                    id
                },
            };
            es.push((label.duplicate(), next_id));
            assert(edges_view(es@) =~= edges_view(before_es).push((label@, next_id as nat)));
            proof {
                assert forall|x: int| s0.len() <= x < states@.len() implies #[trigger] leads_to(
                    es@,
                    x,
                ) by {
                    if x == next_id {
                        assert(es@[j as int].1 == x);
                    } else {
                        assert(leads_to(before_es, x));
                        let e = choose|e: int| 0 <= e < before_es.len() && (#[trigger] before_es[e]).1 == x;
                        assert(es@[e] == before_es[e]);
                    }
                }
            }
            j = j + 1;
        }
        assert(succ.take(succ.len() as int) =~= succ);
        let ghost old_edges = edges@;
        edges.push(es);
        proof {
            assert(edge_lists_of(edges@) =~= edge_lists_of(old_edges).push(edges_view(es@)));
            assert forall|x: int| 0 < x < states@.len() implies #[trigger] found_from(edges@, x) by {
                if x < s0.len() {
                    assert(found_from(old_edges, x));
                    let i = choose|i: int|
                        0 <= i < old_edges.len() && i < x && #[trigger] leads_to(old_edges[i]@, x);
                    assert(edges@[i] == old_edges[i]);
                    assert(leads_to(edges@[i]@, x));
                } else {
                    assert(leads_to(edges@[head as int]@, x));
                }
            }
            assert(states_of(s0)[head as int] == s0[head as int]@);
            assert forall|i: int|
                0 <= i < edges@.len() implies #[trigger] list_matches(procs, states@, edges@[i]@, i) by {
                if i < head {
                    assert(edges@[i] == old_edges[i]);
                    assert(list_matches(procs, s0, old_edges[i]@, i));
                    let sc = successors(procs, s0[i]@)->Some_0;
                    assert(edge_list_matches(s0, old_edges[i]@, sc));
                    assert(states@[i] == s0[i]);
                    assert forall|e: int| 0 <= e < sc.len() implies (#[trigger] edges@[i]@[e]).0@
                        == sc[e].0 && edges@[i]@[e].1 < states@.len() && states@[edges@[i]@[e].1 as int]@
                        == sc[e].1 by {
                        assert(old_edges[i]@[e].1 < s0.len());
                        assert(states@[old_edges[i]@[e].1 as int] == s0[old_edges[i]@[e].1 as int]);
                    }
                    assert(edge_list_matches(states@, edges@[i]@, sc));
                } else {
                    assert(i == head);
                    assert(states@[i] == s0[i]);
                    assert(edges@[i] == es);
                    assert(edge_list_matches(states@, es@, succ));
                }
            }
        }
    }
    let ghost fs = states@;
    let ghost fe = edges@;
    let lts = zip_states(states, edges);
    proof {
        assert(lts.states_view() =~= states_of(fs));
        assert(lts.edges() =~= edge_lists_of(fe));
        assert(explore(procs, init_v, fe.len() as nat) == Some((lts.states_view(), lts.edges())));
        assert forall|x: int| 0 < x < lts.0@.len() implies #[trigger] lts.has_parent(x) by {
            assert(found_from(fe, x));
            let i = choose|i: int| 0 <= i < fe.len() && i < x && #[trigger] leads_to(fe[i]@, x);
            assert(lts.0@[i].transs == fe[i]);
            assert(leads_to(lts.0@[i].transs@, x));
        }
        assert forall|i: int, e: int|
            0 <= i < lts.0@.len() && 0 <= e < lts.0@[i].transs@.len() implies (#[trigger] lts.0@[
                i
            ].transs@[e]).1 < lts.0@.len() by {
            assert(list_matches(procs, fs, fe[i]@, i));
            let sc = successors(procs, fs[i]@)->Some_0;
            assert(edge_list_matches(fs, fe[i]@, sc));
            assert(lts.0@[i].transs == fe[i]);
            assert(fe[i]@[e] == lts.0@[i].transs@[e]);
        }
        assert forall|i: int| 0 <= i < lts.0@.len() implies #[trigger] steps_match(procs, lts, i) by {
            assert(list_matches(procs, fs, fe[i]@, i));
            let sc = successors(procs, fs[i]@)->Some_0;
            assert(edge_list_matches(fs, fe[i]@, sc));
            assert(lts.0@[i].transs == fe[i]);
            assert forall|e: int| 0 <= e < sc.len() implies (#[trigger] lts.0@[i].transs@[e]).0@
                == sc[e].0 && lts.0@[i].transs@[e].1 < lts.0@.len() && lts.0@[lts.0@[i].transs@[
                e
            ].1 as int].state@ == sc[e].1 by {
                assert(fe[i]@[e] == lts.0@[i].transs@[e]);
                assert(lts.0@[fe[i]@[e].1 as int].state == fs[fe[i]@[e].1 as int]);
            }
        }
    }
    Ok(lts)
}

/// A copy of `locs`.
fn copy_locations(locs: &Vec<Location>) -> (r: Vec<Location>)
    ensures
        r@.map_values(|l: Location| l@) == locs@.map_values(|l: Location| l@),
{
    let mut r: Vec<Location> = Vec::new();
    let mut j: usize = 0;
    while j < locs.len()
        invariant
            j <= locs@.len(),
            r@.len() == j,
            forall|k: int| 0 <= k < j ==> r@[k]@ == locs@[k]@,
        decreases locs@.len() - j,
    {
        r.push(locs[j].duplicate());
        j = j + 1;
    }
    assert(r@.map_values(|l: Location| l@) =~= locs@.map_values(|l: Location| l@));
    r
}

/// Pairs each state with its edge list, keeping ids.
fn zip_states(states: Vec<State>, edges: Vec<Vec<(Label, StateId)>>) -> (r: Lts)
    requires
        states@.len() == edges@.len(),
    ensures
        r.0@.len() == states@.len(),
        forall|i: int|
            0 <= i < states@.len() ==> (#[trigger] r.0@[i]).state == states@[i] && r.0@[i].transs
                == edges@[i],
{
    let ghost n = states@.len();
    let ghost s0 = states@;
    let ghost e0 = edges@;
    let mut states = states;
    let mut edges = edges;
    let mut rev: Vec<StateEx> = Vec::new();
    while states.len() > 0
        invariant
            states@.len() == edges@.len(),
            states@.len() + rev@.len() == n,
            s0.len() == n,
            e0.len() == n,
            forall|i: int| 0 <= i < states@.len() ==> states@[i] == s0[i] && edges@[i] == e0[i],
            forall|k: int|
                0 <= k < rev@.len() ==> (#[trigger] rev@[k]).state == s0[n - 1 - k] && rev@[k].transs
                    == e0[n - 1 - k],
        decreases states@.len(),
    {
        let st = states.pop();
        let es = edges.pop();
        match (st, es) {
            (Some(st), Some(es)) => {
                rev.push(StateEx { state: st, transs: es });
            },
            _ => {},
        }
    }
    let mut out: Vec<StateEx> = Vec::new();
    while rev.len() > 0
        invariant
            out@.len() + rev@.len() == n,
            s0.len() == n,
            e0.len() == n,
            forall|k: int|
                0 <= k < rev@.len() ==> (#[trigger] rev@[k]).state == s0[n - 1 - k] && rev@[k].transs
                    == e0[n - 1 - k],
            forall|i: int|
                0 <= i < out@.len() ==> (#[trigger] out@[i]).state == s0[i] && out@[i].transs
                    == e0[i],
        decreases rev@.len(),
    {
        match rev.pop() {
            Some(x) => {
                out.push(x);
            },
            None => {},
        }
    }
    Lts(out)
}

/// The initial location of a process: its first unit's source.
fn pick_init_location<G, A>(p: &Process<G, A>) -> (r: Result<Location, LtsError>)
    ensures
        match r {
            Ok(l) => p@.len() > 0 && l@ == p@[0].src@,
            Err(e) => p@.len() == 0 && e == LtsError::ProcessMalformed,
        },
{
    if p.len() > 0 {
        Ok(p[0].src.duplicate())
    } else {
        Err(LtsError::ProcessMalformed)
    }
}

/// Some process has no unit.
pub open spec fn some_process_empty<G, A>(procs: Seq<Process<G, A>>) -> bool {
    exists|i: int| 0 <= i < procs.len() && (#[trigger] procs[i])@.len() == 0
}

/// Once exploration is complete at step `k`, later steps change nothing.
proof fn lemma_explore_stable<G: Fn(&Vec<i64>) -> bool, A: Fn(Vec<i64>) -> Vec<i64>>(
    procs: Seq<Process<G, A>>,
    init: GState,
    k: nat,
    m: nat,
)
    requires
        k <= m,
        explore(procs, init, k) matches Some((ss, es)) && es.len() == ss.len(),
    ensures
        explore(procs, init, m) == explore(procs, init, k),
    decreases m,
{
    if k < m {
        lemma_explore_stable(procs, init, k, (m - 1) as nat);
    }
}

/// A step that fails leaves every later step failed.
proof fn lemma_explore_failed<G: Fn(&Vec<i64>) -> bool, A: Fn(Vec<i64>) -> Vec<i64>>(
    procs: Seq<Process<G, A>>,
    init: GState,
    k: nat,
    m: nat,
)
    requires
        k <= m,
        explore(procs, init, k) is None,
    ensures
        explore(procs, init, m) is None,
    decreases m,
{
    if k < m {
        lemma_explore_failed(procs, init, k, (m - 1) as nat);
    }
}

/// A complete exploration never fails.
pub proof fn lemma_explored_never_fails<G: Fn(&Vec<i64>) -> bool, A: Fn(Vec<i64>) -> Vec<i64>>(
    procs: Seq<Process<G, A>>,
    init: GState,
    lts: Lts,
)
    requires
        explored(procs, init, lts),
    ensures
        !exploration_fails(procs, init),
{
    let k = choose|k: nat|
        #[trigger] explore(procs, init, k) == Some((lts.states_view(), lts.edges()))
            && lts.edges().len() == lts.states_view().len();
    if exploration_fails(procs, init) {
        let m = choose|m: nat| #[trigger] explore(procs, init, m) is None;
        if m <= k {
            lemma_explore_failed(procs, init, m, k);
        } else {
            lemma_explore_stable(procs, init, k, m);
        }
    }
}

/// Exploring the same processes from the same state twice gives the same
/// states under the same ids, with the same edges.
pub proof fn lemma_build_deterministic<G: Fn(&Vec<i64>) -> bool, A: Fn(Vec<i64>) -> Vec<i64>>(
    procs: Seq<Process<G, A>>,
    init: GState,
    l1: Lts,
    l2: Lts,
)
    requires
        explored(procs, init, l1),
        explored(procs, init, l2),
    ensures
        l1.states_view() == l2.states_view(),
        l1.edges() == l2.edges(),
{
    let k1 = choose|k: nat|
        #[trigger] explore(procs, init, k) == Some((l1.states_view(), l1.edges()))
            && l1.edges().len() == l1.states_view().len();
    let k2 = choose|k: nat|
        #[trigger] explore(procs, init, k) == Some((l2.states_view(), l2.edges()))
            && l2.edges().len() == l2.states_view().len();
    if k1 <= k2 {
        lemma_explore_stable(procs, init, k1, k2);
    } else {
        lemma_explore_stable(procs, init, k2, k1);
    }
}

/// The outcome of composing `procs` from variables `vars`, as
/// `concurrent_composition` states it.
pub open spec fn composition<G: Fn(&Vec<i64>) -> bool, A: Fn(Vec<i64>) -> Vec<i64>>(
    vars: Seq<i64>,
    procs: Seq<Process<G, A>>,
    r: Result<Lts, LtsError>,
) -> bool {
    let init = initial_state(vars, procs);
    match r {
        Ok(lts) => {
            &&& !some_process_empty(procs)
            &&& explored(procs, init, lts)
            &&& lts.0@.len() >= 1
            &&& lts.0@[0].state@ == init
            &&& lts.closed()
            &&& lts.canonical()
            &&& lts.discovered()
            &&& forall|i: int| 0 <= i < lts.0@.len() ==> #[trigger] steps_match(procs, lts, i)
        },
        Err(LtsError::ProcessMalformed) => some_process_empty(procs),
        Err(LtsError::NoSuchLocation) => !some_process_empty(procs) && exploration_fails(
            procs,
            init,
        ),
    }
}

impl Lts {
    /// The reachable transition system of the asynchronous interleaving of
    /// `processes`, starting from `vars` with each process at its initial location.
    pub fn concurrent_composition<G: Fn(&Vec<i64>) -> bool, A: Fn(Vec<i64>) -> Vec<i64>>(
        vars: Vec<i64>,
        processes: Vec<Process<G, A>>,
    ) -> (r: Result<Lts, LtsError>)
        requires
            pure_processes(processes@),
        ensures
            composition(vars@, processes@, r),
            r is Ok <==> !some_process_empty(processes@) && !exploration_fails(
                processes@,
                initial_state(vars@, processes@),
            ),
    {
        let ghost procs = processes@;
        let mut locations: Vec<Location> = Vec::new();
        let mut i: usize = 0;
        while i < processes.len()
            invariant
                procs == processes@,
                i <= procs.len(),
                locations@.len() == i,
                forall|k: int| 0 <= k < i ==> procs[k]@.len() > 0,
                forall|k: int| 0 <= k < i ==> (#[trigger] locations@[k])@ == procs[k]@[0].src@,
            decreases procs.len() - i,
        {
            match pick_init_location(&processes[i]) {
                Ok(l) => {
                    locations.push(l);
                },
                Err(e) => {
                    assert(procs[i as int]@.len() == 0);
                    return Err(e);
                },
            }
            i = i + 1;
        }
        let ghost vars_v = vars@;
        let init = State { vars, locations };
        assert(init@ =~= initial_state(vars_v, procs));
        let r = bfs(init, &processes);
        proof {
            if r is Ok {
                lemma_explored_never_fails(procs, initial_state(vars_v, procs), r->Ok_0);
            }
        }
        r
    }
}

} // verus!
