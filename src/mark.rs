//! Marking: which states satisfy which subformulas, with `EU` and `EG` as
//! least and greatest fixed points.

use vstd::prelude::*;
use crate::formula::{
    lemma_subformulas_exact, subformulas, Ctl, Formula, Prop, SubformulaTable, TAG_AND, TAG_EG, TAG_EU, TAG_EX, TAG_IMPL,
    TAG_NOT, TAG_OR, TAG_PROP,
};
use crate::lts::Lts;
use crate::table::{node_map_get_by_left, node_pairs};

verus! {

/// A set of subformula indices, one bit per index.
#[derive(Debug)]
pub struct Mark(pub Vec<bool>);

impl View for Mark {
    type V = Set<nat>;

    open spec fn view(&self) -> Set<nat> {
        Set::new(|i: nat| i < self.0@.len() && self.0@[i as int])
    }
}

impl Mark {
    pub fn empty() -> (r: Mark)
        ensures
            r@ == Set::<nat>::empty(),
    {
        let r = Mark(Vec::new());
        assert(r@ =~= Set::<nat>::empty());
        r
    }

    pub fn is_marked(&self, index: usize) -> (r: bool)
        ensures
            r == self@.contains(index as nat),
    {
        index < self.0.len() && self.0[index]
    }

    pub fn mark(&mut self, index: usize)
        ensures
            final(self)@ == old(self)@.insert(index as nat),
    {
        let ghost before = self@;
        while self.0.len() <= index
            invariant
                self@ == before,
            decreases index + 1 - self.0@.len(),
        {
            self.0.push(false);
            assert(self@ =~= before);
        }
        self.0.set(index, true);
        assert(self@ =~= before.insert(index as nat));
    }

    pub fn unmark(&mut self, index: usize)
        ensures
            final(self)@ == old(self)@.remove(index as nat),
    {
        let ghost before = self@;
        if index < self.0.len() {
            self.0.set(index, false);
        }
        assert(self@ =~= before.remove(index as nat));
    }
}

/// Why marking failed.
#[derive(Debug, Clone, Copy, PartialEq, Eq, Hash)]
pub enum MarkError {
    /// The valuator knows no value for a proposition of the formula in some state.
    PropositionUnknown,
}

/// The valuator may answer `r` for proposition `p` on variables `v`.
pub open spec fn prop_gives<V: Fn(&Prop, &Vec<i64>) -> Option<bool>>(
    val: V,
    p: Seq<char>,
    v: Seq<i64>,
    r: Option<bool>,
) -> bool {
    exists|ps: Prop, vs: Vec<i64>| ps@ == p && vs@ == v && #[trigger] val.ensures((&ps, &vs), r)
}

/// What the valuator answers for proposition `p` on variables `v`
/// (`None`: it does not know the proposition).
pub open spec fn prop_value<V: Fn(&Prop, &Vec<i64>) -> Option<bool>>(
    val: V,
    p: Seq<char>,
    v: Seq<i64>,
) -> Option<bool> {
    choose|r: Option<bool>| #[trigger] prop_gives(val, p, v, r)
}

/// The valuator is total and a function of the name and the variables' contents.
pub open spec fn pure_valuator<V: Fn(&Prop, &Vec<i64>) -> Option<bool>>(val: V) -> bool {
    &&& forall|ps: Prop, vs: Vec<i64>| #[trigger] val.requires((&ps, &vs))
    &&& forall|p1: Prop, v1: Vec<i64>, p2: Prop, v2: Vec<i64>, r1: Option<bool>, r2: Option<bool>|
        p1@ == p2@ && v1@ == v2@ && #[trigger] val.ensures((&p1, &v1), r1) && #[trigger] val.ensures(
            (&p2, &v2),
            r2,
        ) ==> r1 == r2
}

fn eval_prop<V: Fn(&Prop, &Vec<i64>) -> Option<bool>>(val: &V, p: &Prop, v: &Vec<i64>) -> (r:
    Option<bool>)
    requires
        pure_valuator(*val),
    ensures
        r == prop_value(*val, p@, v@),
{
    let r = val(p, v);
    proof {
        assert(val.ensures((p, v), r));
        assert(prop_gives(*val, p@, v@, r));
        let c = choose|c: Option<bool>| #[trigger] prop_gives(*val, p@, v@, c);
        let (ps, vs) = choose|ps: Prop, vs: Vec<i64>|
            ps@ == p@ && vs@ == v@ && #[trigger] val.ensures((&ps, &vs), c);
        assert(val.ensures((&ps, &vs), c));
    }
    r
}

/// Some edge leads from `s` to `t`.
pub open spec fn has_edge(lts: Lts, s: int, t: int) -> bool {
    exists|e: int| 0 <= e < lts.0@[s].transs@.len() && (#[trigger] lts.0@[s].transs@[e]).1 == t
}

/// Some edge leads from `s` into `z`.
pub open spec fn ex_in(lts: Lts, s: int, z: Set<int>) -> bool {
    exists|t: int| #[trigger] has_edge(lts, s, t) && z.contains(t)
}

/// `z` is closed under `g ∨ (f ∧ EX z)`.
pub open spec fn eu_pre(lts: Lts, f: Set<int>, g: Set<int>, z: Set<int>) -> bool {
    forall|s: int|
        0 <= s < lts.0@.len() && (g.contains(s) || (f.contains(s) && ex_in(lts, s, z)))
            ==> #[trigger] z.contains(s)
}

/// The least fixed point of `Z = g ∨ (f ∧ EX Z)`: the states in every closed set.
pub open spec fn eu_set(lts: Lts, f: Set<int>, g: Set<int>) -> Set<int> {
    Set::new(
        |s: int| 0 <= s < lts.0@.len() && forall|z: Set<int>| #[trigger] eu_pre(lts, f, g, z) ==> z.contains(s),
    )
}

/// Every state of `z` satisfies `f ∧ EX z`.
pub open spec fn eg_post(lts: Lts, f: Set<int>, z: Set<int>) -> bool {
    forall|s: int| #[trigger]
        z.contains(s) ==> 0 <= s < lts.0@.len() && f.contains(s) && ex_in(lts, s, z)
}

/// The greatest fixed point of `Z = f ∧ EX Z`: the states of some set that keeps itself.
pub open spec fn eg_set(lts: Lts, f: Set<int>) -> Set<int> {
    Set::new(|s: int| exists|z: Set<int>| #[trigger] eg_post(lts, f, z) && z.contains(s))
}

/// State `s` of `lts` satisfies `f`, propositions read through `val`.
pub open spec fn holds<V: Fn(&Prop, &Vec<i64>) -> Option<bool>>(
    lts: Lts,
    val: V,
    f: Ctl,
    s: int,
) -> bool
    decreases f, 0nat,
{
    match f {
        Ctl::Prop(p) => prop_value(val, p, lts.0@[s].state.vars@) == Some(true),
        Ctl::Not(g) => !holds(lts, val, *g, s),
        Ctl::And(a, b) => holds(lts, val, *a, s) && holds(lts, val, *b, s),
        Ctl::Or(a, b) => holds(lts, val, *a, s) || holds(lts, val, *b, s),
        Ctl::Impl(a, b) => !holds(lts, val, *a, s) || holds(lts, val, *b, s),
        Ctl::EX(g) => exists|t: int| #[trigger] has_edge(lts, s, t) && holds(lts, val, *g, t),
        Ctl::EU(a, b) => eu_set(lts, sat_set(lts, val, *a), sat_set(lts, val, *b)).contains(s),
        Ctl::EG(g) => eg_set(lts, sat_set(lts, val, *g)).contains(s),
    }
}

/// The states of `lts` that satisfy `f`.
pub open spec fn sat_set<V: Fn(&Prop, &Vec<i64>) -> Option<bool>>(lts: Lts, val: V, f: Ctl) -> Set<
    int,
>
    decreases f, 1nat,
{
    Set::new(|x: int| 0 <= x < lts.0@.len() && holds(lts, val, f, x))
}

/// The states whose entry in `col` is set.
pub open spec fn set_of(col: Seq<bool>) -> Set<int> {
    Set::new(|x: int| 0 <= x < col.len() && col[x])
}

pub open spec fn count_true(s: Seq<bool>) -> nat
    decreases s.len(),
{
    if s.len() == 0 {
        0
    } else {
        count_true(s.drop_last()) + if s.last() {
            1nat
        } else {
            0nat
        }
    }
}

proof fn lemma_count_le(s: Seq<bool>)
    ensures
        count_true(s) <= s.len(),
    decreases s.len(),
{
    if s.len() > 0 {
        lemma_count_le(s.drop_last());
    }
}

proof fn lemma_count_update(s: Seq<bool>, i: int, b: bool)
    requires
        0 <= i < s.len(),
    ensures
        count_true(s.update(i, b)) + (if s[i] {
            1int
        } else {
            0int
        }) == count_true(s) + (if b {
            1int
        } else {
            0int
        }),
    decreases s.len(),
{
    if i < s.len() - 1 {
        assert(s.update(i, b).drop_last() =~= s.drop_last().update(i, b));
        lemma_count_update(s.drop_last(), i, b);
    } else {
        assert(s.update(i, b).drop_last() =~= s.drop_last());
    }
}

/// Whether some edge leads from `p` to `u`.
fn edge_to(lts: &Lts, p: usize, u: usize) -> (r: bool)
    requires
        p < lts.0@.len(),
    ensures
        r == has_edge(*lts, p as int, u as int),
{
    let transs = &lts.0[p].transs;
    let mut e: usize = 0;
    while e < transs.len()
        invariant
            e <= transs@.len(),
            transs@ == lts.0@[p as int].transs@,
            forall|k: int| 0 <= k < e ==> transs@[k].1 != u,
        decreases transs@.len() - e,
    {
        if transs[e].1 == u {
            assert(lts.0@[p as int].transs@[e as int].1 == u);
            return true;
        }
        e = e + 1;
    }
    false
}

/// Whether some edge leads from `s` to a state set in `col`.
fn has_succ_in(lts: &Lts, col: &Vec<bool>, s: usize) -> (r: bool)
    requires
        lts.closed(),
        col@.len() == lts.0@.len(),
        s < lts.0@.len(),
    ensures
        r == ex_in(*lts, s as int, set_of(col@)),
{
    let transs = &lts.0[s].transs;
    let mut e: usize = 0;
    while e < transs.len()
        invariant
            lts.closed(),
            col@.len() == lts.0@.len(),
            s < lts.0@.len(),
            e <= transs@.len(),
            transs@ == lts.0@[s as int].transs@,
            forall|k: int| 0 <= k < e ==> !col@[lts.0@[s as int].transs@[k].1 as int],
        decreases transs@.len() - e,
    {
        let t = transs[e].1;
        assert(lts.0@[s as int].transs@[e as int].1 < lts.0@.len());
        if col[t] {
            assert(has_edge(*lts, s as int, t as int));
            assert(set_of(col@).contains(t as int));
            return true;
        }
        e = e + 1;
    }
    proof {
        if ex_in(*lts, s as int, set_of(col@)) {
            let t = choose|t: int| #[trigger] has_edge(*lts, s as int, t) && set_of(col@).contains(t);
            let k = choose|k: int|
                0 <= k < lts.0@[s as int].transs@.len() && (#[trigger] lts.0@[s as int].transs@[k]).1
                    == t;
        }
    }
    false
}

/// The states satisfying `EU(f, g)`, where `f` and `g` give the states satisfying
/// the operands: the closure of `g` under predecessors that satisfy `f`, by a
/// worklist. The predecessors of a state are found by a scan over all states.
fn eu_states(lts: &Lts, f: &Vec<bool>, g: &Vec<bool>) -> (r: Vec<bool>)
    requires
        lts.closed(),
        f@.len() == lts.0@.len(),
        g@.len() == lts.0@.len(),
    ensures
        r@.len() == lts.0@.len(),
        set_of(r@) == eu_set(*lts, set_of(f@), set_of(g@)),
{
    let n = lts.0.len();
    let ghost fs = set_of(f@);
    let ghost gs = set_of(g@);
    let mut in_u: Vec<bool> = Vec::new();
    let mut queue: Vec<usize> = Vec::new();
    let mut s: usize = 0;
    while s < n
        invariant
            n == lts.0@.len(),
            g@.len() == n,
            s <= n,
            in_u@ == g@.take(s as int),
            count_true(in_u@) == queue@.len(),
            forall|k: int| 0 <= k < queue@.len() ==> queue@[k] < s && in_u@[queue@[k] as int],
            forall|x: int| 0 <= x < s && in_u@[x] ==> queue@.contains(x as usize),
        decreases n - s,
    {
        let ghost before = in_u@;
        in_u.push(g[s]);
        assert(in_u@.drop_last() == before);
        assert(g@.take(s + 1) =~= in_u@);
        let ghost qbefore = queue@;
        if g[s] {
            queue.push(s);
        }
        proof {
            assert forall|x: int| 0 <= x < s + 1 && in_u@[x] implies queue@.contains(x as usize) by {
                if x == s {
                    assert(queue@[queue@.len() - 1] == s);
                } else {
                    assert(before[x]);
                    let k = choose|k: int| 0 <= k < qbefore.len() && qbefore[k] == x as usize;
                    assert(queue@[k] == x as usize);
                }
            }
        }
        s = s + 1;
    }
    assert(g@.take(n as int) =~= g@);
    proof {
        assert forall|z: Set<int>| #[trigger] eu_pre(*lts, fs, gs, z) implies (forall|x: int|
            0 <= x < n && in_u@[x] ==> z.contains(x)) by {
            assert forall|x: int| 0 <= x < n && in_u@[x] implies z.contains(x) by {
                assert(gs.contains(x));
            }
        }
        lemma_count_le(in_u@);
    }
    let mut head: usize = 0;
    while head < queue.len()
        invariant
            lts.closed(),
            n == lts.0@.len(),
            f@.len() == n,
            g@.len() == n,
            fs == set_of(f@),
            gs == set_of(g@),
            in_u@.len() == n,
            head <= queue@.len(),
            count_true(in_u@) == queue@.len(),
            queue@.len() <= n,
            forall|k: int| 0 <= k < queue@.len() ==> queue@[k] < n && in_u@[queue@[k] as int],
            forall|x: int| 0 <= x < n && in_u@[x] ==> queue@.contains(x as usize),
            forall|x: int| 0 <= x < n && g@[x] ==> in_u@[x],
            forall|k: int, p: int|
                0 <= k < head && 0 <= p < n && f@[p] && has_edge(*lts, p, queue@[k] as int)
                    ==> in_u@[p],
            forall|z: Set<int>| #[trigger]
                eu_pre(*lts, fs, gs, z) ==> forall|x: int| 0 <= x < n && in_u@[x] ==> z.contains(x),
        decreases n - head,
    {
        let u = queue[head];
        let mut p: usize = 0;
        while p < n
            invariant
                lts.closed(),
                n == lts.0@.len(),
                f@.len() == n,
                g@.len() == n,
                fs == set_of(f@),
                gs == set_of(g@),
                in_u@.len() == n,
                head < queue@.len(),
                u == queue@[head as int],
                p <= n,
                count_true(in_u@) == queue@.len(),
                queue@.len() <= n,
                forall|k: int| 0 <= k < queue@.len() ==> queue@[k] < n && in_u@[queue@[k] as int],
                forall|x: int| 0 <= x < n && in_u@[x] ==> queue@.contains(x as usize),
                forall|x: int| 0 <= x < n && g@[x] ==> in_u@[x],
                forall|k: int, q: int|
                    0 <= k < head && 0 <= q < n && f@[q] && has_edge(*lts, q, queue@[k] as int)
                        ==> in_u@[q],
                forall|q: int| 0 <= q < p && f@[q] && has_edge(*lts, q, u as int) ==> in_u@[q],
                forall|z: Set<int>| #[trigger]
                    eu_pre(*lts, fs, gs, z) ==> forall|x: int|
                        0 <= x < n && in_u@[x] ==> z.contains(x),
            decreases n - p,
        {
            if !in_u[p] && f[p] && edge_to(lts, p, u) {
                let ghost before = in_u@;
                let ghost qbefore = queue@;
                proof {
                    lemma_count_update(before, p as int, true);
                    lemma_count_le(before.update(p as int, true));
                    assert forall|z: Set<int>| #[trigger] eu_pre(*lts, fs, gs, z) implies z.contains(
                        p as int,
                    ) by {
                        assert(z.contains(u as int));
                        assert(has_edge(*lts, p as int, u as int));
                        assert(ex_in(*lts, p as int, z));
                        assert(fs.contains(p as int));
                    }
                }
                in_u.set(p, true);
                queue.push(p);
                proof {
                    assert forall|x: int| 0 <= x < n && in_u@[x] implies queue@.contains(x as usize) by {
                        if x == p {
                            assert(queue@[queue@.len() - 1] == p);
                        } else {
                            assert(before[x]);
                            let k = choose|k: int| 0 <= k < qbefore.len() && qbefore[k] == x as usize;
                            assert(queue@[k] == x as usize);
                        }
                    }
                    assert forall|k: int| 0 <= k < queue@.len() implies queue@[k] < n && in_u@[queue@[k] as int] by {
                        if k < qbefore.len() {
                            assert(queue@[k] == qbefore[k]);
                        }
                    }
                }
            }
            p = p + 1;
        }
        head = head + 1;
    }
    proof {
        assert(eu_pre(*lts, fs, gs, set_of(in_u@))) by {
            assert forall|x: int|
                0 <= x < n && (gs.contains(x) || (fs.contains(x) && ex_in(
                    *lts,
                    x,
                    set_of(in_u@),
                ))) implies #[trigger] set_of(in_u@).contains(x) by {
                if !gs.contains(x) {
                    let t = choose|t: int| #[trigger] has_edge(*lts, x, t) && set_of(in_u@).contains(t);
                    let k = choose|k: int| 0 <= k < queue@.len() && queue@[k] == t as usize;
                    assert(has_edge(*lts, x, queue@[k] as int));
                }
            }
        }
        assert(set_of(in_u@) =~= eu_set(*lts, fs, gs));
    }
    in_u
}

/// The states satisfying `EG(f)`, where `f` gives the states satisfying the
/// operand: states are dropped while some has no successor left, until none is.
fn eg_states(lts: &Lts, f: &Vec<bool>) -> (r: Vec<bool>)
    requires
        lts.closed(),
        f@.len() == lts.0@.len(),
    ensures
        r@.len() == lts.0@.len(),
        set_of(r@) == eg_set(*lts, set_of(f@)),
{
    let n = lts.0.len();
    let ghost fs = set_of(f@);
    let mut in_g: Vec<bool> = Vec::new();
    let mut s: usize = 0;
    while s < n
        invariant
            n == lts.0@.len(),
            f@.len() == n,
            s <= n,
            in_g@ == f@.take(s as int),
        decreases n - s,
    {
        in_g.push(f[s]);
        assert(f@.take(s + 1) =~= in_g@);
        s = s + 1;
    }
    assert(f@.take(n as int) =~= f@);
    proof {
        assert forall|z: Set<int>| #[trigger] eg_post(*lts, fs, z) implies (forall|x: int|
            z.contains(x) ==> 0 <= x < n && in_g@[x]) by {
            assert forall|x: int| z.contains(x) implies 0 <= x < n && in_g@[x] by {
                assert(fs.contains(x));
            }
        }
    }
    let mut changed = true;
    while changed
        invariant
            lts.closed(),
            n == lts.0@.len(),
            f@.len() == n,
            fs == set_of(f@),
            in_g@.len() == n,
            forall|x: int| 0 <= x < n && in_g@[x] ==> f@[x],
            forall|z: Set<int>| #[trigger]
                eg_post(*lts, fs, z) ==> forall|x: int| z.contains(x) ==> 0 <= x < n && in_g@[x],
            !changed ==> forall|x: int|
                0 <= x < n && in_g@[x] ==> ex_in(*lts, x, set_of(in_g@)),
        decreases count_true(in_g@) + if changed {
            1int
        } else {
            0int
        },
    {
        let ghost start = in_g@;
        changed = false;
        let mut s: usize = 0;
        while s < n
            invariant
                lts.closed(),
                n == lts.0@.len(),
                f@.len() == n,
                fs == set_of(f@),
                in_g@.len() == n,
                s <= n,
                start.len() == n,
                forall|x: int| 0 <= x < n && in_g@[x] ==> f@[x],
                forall|z: Set<int>| #[trigger]
                    eg_post(*lts, fs, z) ==> forall|x: int| z.contains(x) ==> 0 <= x < n && in_g@[x],
                !changed ==> in_g@ == start,
                changed ==> count_true(in_g@) < count_true(start),
                !changed ==> forall|x: int|
                    0 <= x < s && in_g@[x] ==> ex_in(*lts, x, set_of(in_g@)),
            decreases n - s,
        {
            if in_g[s] && !has_succ_in(lts, &in_g, s) {
                let ghost before = in_g@;
                proof {
                    lemma_count_update(before, s as int, false);
                    assert forall|z: Set<int>| #[trigger] eg_post(*lts, fs, z) implies !z.contains(
                        s as int,
                    ) by {
                        if z.contains(s as int) {
                            let t = choose|t: int| #[trigger] has_edge(*lts, s as int, t) && z.contains(t);
                            assert(set_of(before).contains(t));
                        }
                    }
                }
                in_g.set(s, false);
                changed = true;
            }
            s = s + 1;
        }
    }
    proof {
        assert(eg_post(*lts, fs, set_of(in_g@)));
        assert(set_of(in_g@) =~= eg_set(*lts, fs));
    }
    in_g
}

/// The subformula table of a formula and, for each state id, the indices of
/// the subformulas that the state satisfies.
pub struct Marks {
    pub subformulas: SubformulaTable,
    pub marks: Vec<Mark>,
}

/// Each state's mark holds exactly the indices below `i` of the subformulas it satisfies.
pub open spec fn marked_upto<V: Fn(&Prop, &Vec<i64>) -> Option<bool>>(
    lts: Lts,
    val: V,
    fs: Seq<Ctl>,
    marks: Seq<Mark>,
    i: int,
) -> bool {
    &&& marks.len() == lts.0@.len()
    &&& forall|s: int|
        0 <= s < marks.len() ==> #[trigger] marks[s]@ == Set::new(
            |k: nat| k < i && holds(lts, val, fs[k as int], s),
        )
}

/// Each state's bits below `i` say exactly which of those subformulas it
/// satisfies, and its bit `i` is clear; higher bits may be anything.
pub open spec fn ready_for<V: Fn(&Prop, &Vec<i64>) -> Option<bool>>(
    lts: Lts,
    val: V,
    fs: Seq<Ctl>,
    marks: Seq<Mark>,
    i: int,
) -> bool {
    &&& marks.len() == lts.0@.len()
    &&& forall|s: int, k: nat|
        0 <= s < marks.len() && k < i ==> (#[trigger] marks[s]@.contains(k) <==> holds(
            lts,
            val,
            fs[k as int],
            s,
        ))
    &&& forall|s: int| 0 <= s < marks.len() ==> !(#[trigger] marks[s])@.contains(i as nat)
}

/// `f` is a proposition that the valuator does not know in some state.
pub open spec fn prop_unknown_at<V: Fn(&Prop, &Vec<i64>) -> Option<bool>>(
    lts: Lts,
    val: V,
    f: Ctl,
) -> bool {
    match f {
        Ctl::Prop(p) => exists|s: int|
            0 <= s < lts.0@.len() && #[trigger] prop_value(val, p, lts.0@[s].state.vars@) is None,
        _ => false,
    }
}

/// Some formula of `fs` is a proposition that the valuator does not know in some state.
pub open spec fn some_prop_unknown<V: Fn(&Prop, &Vec<i64>) -> Option<bool>>(
    lts: Lts,
    val: V,
    fs: Seq<Ctl>,
) -> bool {
    exists|k: int| 0 <= k < fs.len() && #[trigger] prop_unknown_at(lts, val, fs[k])
}

proof fn lemma_edge_in_range(lts: Lts, s: int, t: int)
    requires
        lts.closed(),
        0 <= s < lts.0@.len(),
        has_edge(lts, s, t),
    ensures
        0 <= t < lts.0@.len(),
{
    let e = choose|e: int|
        0 <= e < lts.0@[s].transs@.len() && (#[trigger] lts.0@[s].transs@[e]).1 == t;
}

/// Bit `a` of each state's mark.
fn column(marks: &Vec<Mark>, a: usize) -> (r: Vec<bool>)
    ensures
        r@.len() == marks@.len(),
        forall|s: int| 0 <= s < marks@.len() ==> r@[s] == marks@[s]@.contains(a as nat),
{
    let mut r: Vec<bool> = Vec::new();
    let mut s: usize = 0;
    while s < marks.len()
        invariant
            s <= marks@.len(),
            r@.len() == s,
            forall|k: int| 0 <= k < s ==> r@[k] == marks@[k]@.contains(a as nat),
        decreases marks@.len() - s,
    {
        r.push(marks[s].is_marked(a));
        s = s + 1;
    }
    r
}

/// Sets bit `i` in the mark of each state whose entry in `col` is set.
fn apply_column(marks: &mut Vec<Mark>, i: usize, col: &Vec<bool>)
    requires
        col@.len() == old(marks)@.len(),
    ensures
        final(marks)@.len() == old(marks)@.len(),
        forall|s: int|
            0 <= s < old(marks)@.len() ==> final(marks)@[s]@ == if col@[s] {
                old(marks)@[s]@.insert(i as nat)
            } else {
                old(marks)@[s]@
            },
{
    let ghost m0 = marks@;
    let mut s: usize = 0;
    while s < marks.len()
        invariant
            s <= marks@.len(),
            marks@.len() == m0.len(),
            col@.len() == m0.len(),
            forall|k: int|
                0 <= k < s ==> marks@[k]@ == if col@[k] {
                    m0[k]@.insert(i as nat)
                } else {
                    m0[k]@
                },
            forall|k: int| s <= k < m0.len() ==> marks@[k] == m0[k],
        decreases m0.len() - s,
    {
        if col[s] {
            marks[s].mark(i);
        }
        s = s + 1;
    }
}

/// What the valuator says of `p` in each state; `None` where it does not know `p` in one.
fn prop_column<V: Fn(&Prop, &Vec<i64>) -> Option<bool>>(lts: &Lts, val: &V, p: &Prop) -> (r: Option<
    Vec<bool>,
>)
    requires
        pure_valuator(*val),
    ensures
        match r {
            Some(c) => c@.len() == lts.0@.len() && forall|s: int|
                0 <= s < lts.0@.len() ==> prop_value(*val, p@, lts.0@[s].state.vars@) == Some(
                    #[trigger] c@[s],
                ),
            None => exists|s: int|
                0 <= s < lts.0@.len() && #[trigger] prop_value(
                    *val,
                    p@,
                    lts.0@[s].state.vars@,
                ) is None,
        },
{
    let mut c: Vec<bool> = Vec::new();
    let mut s: usize = 0;
    while s < lts.0.len()
        invariant
            pure_valuator(*val),
            s <= lts.0@.len(),
            c@.len() == s,
            forall|k: int|
                0 <= k < s ==> prop_value(*val, p@, lts.0@[k].state.vars@) == Some(#[trigger] c@[k]),
        decreases lts.0@.len() - s,
    {
        match eval_prop(val, p, &lts.0[s].state.vars) {
            Some(b) => {
                c.push(b);
            },
            None => {
                return None;
            },
        }
        s = s + 1;
    }
    Some(c)
}

/// Sets bit `i` on the states that satisfy subformula `i`, from the bits of its operands.
fn mark_impl<V: Fn(&Prop, &Vec<i64>) -> Option<bool>>(
    marks: &mut Vec<Mark>,
    lts: &Lts,
    val: &V,
    i: usize,
    table: &SubformulaTable,
) -> (r: Result<(), MarkError>)
    requires
        lts.closed(),
        pure_valuator(*val),
        table.wf(),
        i < table@.len(),
        ready_for(*lts, *val, table@, old(marks)@, i as int),
    ensures
        r is Ok ==> final(marks)@.len() == old(marks)@.len(),
        r is Ok ==> forall|s: int|
            0 <= s < old(marks)@.len() ==> (#[trigger] final(marks)@[s])@ == if holds(
                *lts,
                *val,
                table@[i as int],
                s,
            ) {
                old(marks)@[s]@.insert(i as nat)
            } else {
                old(marks)@[s]@
            },
        r is Ok <==> !prop_unknown_at(*lts, *val, table@[i as int]),
{
    let n = lts.0.len();
    let ghost fs = table@;
    let ghost fi = fs[i as int];
    let ghost m0 = marks@;
    let node = match node_map_get_by_left(&table.nodes, i) {
        Some(nd) => nd,
        None => {
            return Ok(());
        },
    };
    assert(table.encodes(node, fi, i as int));
    let col: Vec<bool>;
    if node.0 == TAG_PROP {
        let p = &table.props[node.1];
        match prop_column(lts, val, p) {
            Some(c) => {
                col = c;
            },
            None => {
                assert(prop_unknown_at(*lts, *val, fi));
                return Err(MarkError::PropositionUnknown);
            },
        }
        proof {
            assert forall|s: int| 0 <= s < n implies col@[s] == holds(*lts, *val, fi, s) by {
                assert(prop_value(*val, p@, lts.0@[s].state.vars@) == Some(col@[s]));
            }
            if prop_unknown_at(*lts, *val, fi) {
                let s = choose|s: int|
                    0 <= s < lts.0@.len() && #[trigger] prop_value(
                        *val,
                        p@,
                        lts.0@[s].state.vars@,
                    ) is None;
                assert(prop_value(*val, p@, lts.0@[s].state.vars@) == Some(col@[s]));
            }
        }
    } else if node.0 == TAG_NOT || node.0 == TAG_EX || node.0 == TAG_EG {
        let ca = column(marks, node.1);
        proof {
            assert forall|s: int| 0 <= s < n implies ca@[s] == holds(*lts, *val, fs[node.1 as int], s) by {
                assert(m0[s]@.contains(node.1 as nat) == holds(*lts, *val, fs[node.1 as int], s));
            }
            assert(set_of(ca@) =~= sat_set(*lts, *val, fs[node.1 as int]));
        }
        if node.0 == TAG_NOT {
            let mut c: Vec<bool> = Vec::new();
            let mut s: usize = 0;
            while s < n
                invariant
                    n == lts.0@.len(),
                    ca@.len() == n,
                    s <= n,
                    c@.len() == s,
                    forall|k: int| 0 <= k < s ==> c@[k] == !ca@[k],
                decreases n - s,
            {
                c.push(!ca[s]);
                s = s + 1;
            }
            col = c;
        } else if node.0 == TAG_EX {
            let mut c: Vec<bool> = Vec::new();
            let mut s: usize = 0;
            while s < n
                invariant
                    lts.closed(),
                    n == lts.0@.len(),
                    ca@.len() == n,
                    s <= n,
                    c@.len() == s,
                    forall|k: int| 0 <= k < s ==> c@[k] == ex_in(*lts, k, set_of(ca@)),
                decreases n - s,
            {
                c.push(has_succ_in(lts, &ca, s));
                s = s + 1;
            }
            col = c;
            proof {
                assert forall|s: int| 0 <= s < n implies col@[s] == holds(*lts, *val, fi, s) by {
                    if holds(*lts, *val, fi, s) {
                        let g = fs[node.1 as int];
                        let t = choose|t: int| #[trigger] has_edge(*lts, s, t) && holds(*lts, *val, g, t);
                        lemma_edge_in_range(*lts, s, t);
                        assert(set_of(ca@).contains(t));
                    }
                    if col@[s] {
                        let t = choose|t: int| #[trigger] has_edge(*lts, s, t) && set_of(ca@).contains(t);
                        assert(sat_set(*lts, *val, fs[node.1 as int]).contains(t));
                    }
                }
            }
        } else {
            col = eg_states(lts, &ca);
            proof {
                assert forall|s: int| 0 <= s < n implies col@[s] == holds(*lts, *val, fi, s) by {
                    assert(set_of(col@).contains(s) == col@[s]);
                }
            }
        }
    } else {
        let ca = column(marks, node.1);
        let cb = column(marks, node.2);
        proof {
            assert forall|s: int| 0 <= s < n implies ca@[s] == holds(*lts, *val, fs[node.1 as int], s)
                && cb@[s] == holds(*lts, *val, fs[node.2 as int], s) by {
                assert(m0[s]@.contains(node.1 as nat) == holds(*lts, *val, fs[node.1 as int], s));
                assert(m0[s]@.contains(node.2 as nat) == holds(*lts, *val, fs[node.2 as int], s));
            }
            assert(set_of(ca@) =~= sat_set(*lts, *val, fs[node.1 as int]));
            assert(set_of(cb@) =~= sat_set(*lts, *val, fs[node.2 as int]));
        }
        if node.0 == TAG_EU {
            col = eu_states(lts, &ca, &cb);
            proof {
                assert forall|s: int| 0 <= s < n implies col@[s] == holds(*lts, *val, fi, s) by {
                    assert(set_of(col@).contains(s) == col@[s]);
                }
            }
        } else {
            let mut c: Vec<bool> = Vec::new();
            let mut s: usize = 0;
            while s < n
                invariant
                    n == lts.0@.len(),
                    ca@.len() == n,
                    cb@.len() == n,
                    s <= n,
                    c@.len() == s,
                    forall|k: int|
                        0 <= k < s ==> c@[k] == if node.0 == TAG_AND {
                            ca@[k] && cb@[k]
                        } else if node.0 == TAG_OR {
                            ca@[k] || cb@[k]
                        } else {
                            !ca@[k] || cb@[k]
                        },
                decreases n - s,
            {
                let b = if node.0 == TAG_AND {
                    ca[s] && cb[s]
                } else if node.0 == TAG_OR {
                    ca[s] || cb[s]
                } else {
                    !ca[s] || cb[s]
                };
                c.push(b);
                s = s + 1;
            }
            col = c;
        }
    }
    apply_column(marks, i, &col);
    proof {
        assert forall|s: int| 0 <= s < m0.len() implies (#[trigger] marks@[s])@ == if holds(
            *lts,
            *val,
            fi,
            s,
        ) {
            m0[s]@.insert(i as nat)
        } else {
            m0[s]@
        } by {
            assert(col@[s] == holds(*lts, *val, fi, s));
        }
    }
    Ok(())
}

/// Marks every state of `lts` with the subformulas of `spec` that it satisfies,
/// propositions read through `prop_valuate`.
pub fn make_marks<V: Fn(&Prop, &Vec<i64>) -> Option<bool>>(
    lts: &Lts,
    prop_valuate: V,
    spec: Formula,
) -> (r: Result<Marks, MarkError>)
    requires
        lts.closed(),
        pure_valuator(prop_valuate),
    ensures
        match r {
            Ok(m) => {
                &&& m.subformulas.wf()
                &&& m.subformulas@ == subformulas(spec@)
                &&& marked_upto(*lts, prop_valuate, m.subformulas@, m.marks@, m.subformulas@.len() as int)
            },
            Err(e) => e == MarkError::PropositionUnknown,
        },
        r is Ok <==> !some_prop_unknown(*lts, prop_valuate, subformulas(spec@)),
{
    let ghost spec_v = spec@;
    let table = spec.unfold();
    let mut marks: Vec<Mark> = Vec::new();
    let mut s: usize = 0;
    while s < lts.0.len()
        invariant
            s <= lts.0@.len(),
            marks@.len() == s,
            forall|k: int| 0 <= k < s ==> (#[trigger] marks@[k])@ == Set::<nat>::empty(),
        decreases lts.0@.len() - s,
    {
        marks.push(Mark::empty());
        s = s + 1;
    }
    proof {
        assert forall|s: int| 0 <= s < marks@.len() implies #[trigger] marks@[s]@ == Set::new(
            |k: nat| k < 0 && holds(*lts, prop_valuate, table@[k as int], s),
        ) by {
            assert(marks@[s]@ =~= Set::new(
                |k: nat| k < 0 && holds(*lts, prop_valuate, table@[k as int], s),
            ));
        }
    }
    let mut i: usize = 0;
    while i < table.len()
        invariant
            lts.closed(),
            pure_valuator(prop_valuate),
            table.wf(),
            table@ == subformulas(spec_v),
            spec_v == spec@,
            i <= table@.len(),
            marked_upto(*lts, prop_valuate, table@, marks@, i as int),
            forall|k: int| 0 <= k < i ==> !#[trigger] prop_unknown_at(*lts, prop_valuate, table@[k]),
        decreases table@.len() - i,
    {
        let ghost m0 = marks@;
        proof {
            assert forall|s: int| 0 <= s < m0.len() implies !(#[trigger] m0[s])@.contains(
                i as nat,
            ) by {
                assert(m0[s]@ == Set::new(
                    |k: nat| k < i && holds(*lts, prop_valuate, table@[k as int], s),
                ));
            }
            assert forall|s: int, k: nat| 0 <= s < m0.len() && k < i implies (
            #[trigger] m0[s]@.contains(k) <==> holds(*lts, prop_valuate, table@[k as int], s)) by {
                assert(m0[s]@ == Set::new(
                    |k: nat| k < i && holds(*lts, prop_valuate, table@[k as int], s),
                ));
            }
        }
        match mark_impl(&mut marks, lts, &prop_valuate, i, &table) {
            Ok(()) => {
                proof {
                    assert forall|s: int| 0 <= s < marks@.len() implies #[trigger] marks@[s]@
                        == Set::new(
                        |k: nat| k < i + 1 && holds(*lts, prop_valuate, table@[k as int], s),
                    ) by {
                        assert(m0[s]@ == Set::new(
                            |k: nat| k < i && holds(*lts, prop_valuate, table@[k as int], s),
                        ));
                        assert(marks@[s]@ =~= Set::new(
                            |k: nat| k < i + 1 && holds(*lts, prop_valuate, table@[k as int], s),
                        ));
                    }
                }
            },
            Err(e) => {
                assert(prop_unknown_at(*lts, prop_valuate, table@[i as int]));
                assert(table@ == subformulas(spec_v));
                assert(some_prop_unknown(*lts, prop_valuate, subformulas(spec_v)));
                return Err(e);
            },
        }
        i = i + 1;
    }
    Ok(Marks { subformulas: table, marks })
}

/// Where every state satisfying subformula `k1` of one marking satisfies
/// subformula `k2` of another (on the same system), every state marked for `k1`
/// in the first is marked for `k2` in the second.
pub proof fn lemma_marks_monotone<V: Fn(&Prop, &Vec<i64>) -> Option<bool>>(
    lts: Lts,
    val: V,
    fs1: Seq<Ctl>,
    marks1: Seq<Mark>,
    k1: int,
    fs2: Seq<Ctl>,
    marks2: Seq<Mark>,
    k2: int,
)
    requires
        marked_upto(lts, val, fs1, marks1, fs1.len() as int),
        marked_upto(lts, val, fs2, marks2, fs2.len() as int),
        0 <= k1 < fs1.len(),
        0 <= k2 < fs2.len(),
        forall|s: int|
            0 <= s < lts.0@.len() && holds(lts, val, fs1[k1], s) ==> holds(lts, val, fs2[k2], s),
    ensures
        forall|s: int|
            0 <= s < lts.0@.len() && (#[trigger] marks1[s])@.contains(k1 as nat) ==> marks2[s]@.contains(
                k2 as nat,
            ),
{
    assert forall|s: int|
        0 <= s < lts.0@.len() && (#[trigger] marks1[s])@.contains(k1 as nat) implies marks2[s]@.contains(
        k2 as nat,
    ) by {
        assert(marks1[s]@ == Set::new(|k: nat| k < fs1.len() && holds(lts, val, fs1[k as int], s)));
        assert(marks2[s]@ == Set::new(|k: nat| k < fs2.len() && holds(lts, val, fs2[k as int], s)));
    }
}

/// A conjunction implies its left operand.
pub proof fn lemma_and_implies_left<V: Fn(&Prop, &Vec<i64>) -> Option<bool>>(
    lts: Lts,
    val: V,
    a: Ctl,
    b: Ctl,
)
    ensures
        sat_set(lts, val, Ctl::And(Box::new(a), Box::new(b))).subset_of(sat_set(lts, val, a)),
{
}

/// `Not(And(a, b))` and `Or(Not(a), Not(b))` hold in the same states.
pub proof fn lemma_de_morgan<V: Fn(&Prop, &Vec<i64>) -> Option<bool>>(
    lts: Lts,
    val: V,
    a: Ctl,
    b: Ctl,
)
    ensures
        sat_set(lts, val, Ctl::Not(Box::new(Ctl::And(Box::new(a), Box::new(b))))) == sat_set(
            lts,
            val,
            Ctl::Or(Box::new(Ctl::Not(Box::new(a))), Box::new(Ctl::Not(Box::new(b)))),
        ),
{
    let f1 = Ctl::Not(Box::new(Ctl::And(Box::new(a), Box::new(b))));
    let f2 = Ctl::Or(Box::new(Ctl::Not(Box::new(a))), Box::new(Ctl::Not(Box::new(b))));
    assert forall|x: int| sat_set(lts, val, f1).contains(x) == sat_set(lts, val, f2).contains(x) by {
        assert(holds(lts, val, Ctl::And(Box::new(a), Box::new(b)), x) == (holds(lts, val, a, x)
            && holds(lts, val, b, x)));
        assert(holds(lts, val, Ctl::Not(Box::new(a)), x) == !holds(lts, val, a, x));
        assert(holds(lts, val, Ctl::Not(Box::new(b)), x) == !holds(lts, val, b, x));
    }
    assert(sat_set(lts, val, Ctl::Not(Box::new(Ctl::And(Box::new(a), Box::new(b))))) =~= sat_set(
        lts,
        val,
        Ctl::Or(Box::new(Ctl::Not(Box::new(a))), Box::new(Ctl::Not(Box::new(b)))),
    ));
}

/// Marking `Not(And(a, b))` and marking `Or(Not(a), Not(b))` on one system set the
/// top-level bit in the same states.
pub proof fn lemma_de_morgan_marks<V: Fn(&Prop, &Vec<i64>) -> Option<bool>>(
    lts: Lts,
    val: V,
    a: Ctl,
    b: Ctl,
    m1: Seq<Mark>,
    m2: Seq<Mark>,
)
    requires
        marked_upto(
            lts,
            val,
            subformulas(Ctl::Not(Box::new(Ctl::And(Box::new(a), Box::new(b))))),
            m1,
            subformulas(Ctl::Not(Box::new(Ctl::And(Box::new(a), Box::new(b))))).len() as int,
        ),
        marked_upto(
            lts,
            val,
            subformulas(Ctl::Or(Box::new(Ctl::Not(Box::new(a))), Box::new(Ctl::Not(Box::new(b))))),
            m2,
            subformulas(
                Ctl::Or(Box::new(Ctl::Not(Box::new(a))), Box::new(Ctl::Not(Box::new(b)))),
            ).len() as int,
        ),
    ensures
        forall|s: int|
            0 <= s < lts.0@.len() ==> (#[trigger] m1[s])@.contains(
                (subformulas(Ctl::Not(Box::new(Ctl::And(Box::new(a), Box::new(b))))).len() - 1) as nat,
            ) == m2[s]@.contains(
                (subformulas(
                    Ctl::Or(Box::new(Ctl::Not(Box::new(a))), Box::new(Ctl::Not(Box::new(b)))),
                ).len() - 1) as nat,
            ),
{
    let f1 = Ctl::Not(Box::new(Ctl::And(Box::new(a), Box::new(b))));
    let f2 = Ctl::Or(Box::new(Ctl::Not(Box::new(a))), Box::new(Ctl::Not(Box::new(b))));
    let s1 = subformulas(f1);
    let s2 = subformulas(f2);
    lemma_subformulas_exact(f1);
    lemma_subformulas_exact(f2);
    lemma_de_morgan(lts, val, a, b);
    assert forall|s: int| 0 <= s < lts.0@.len() implies (#[trigger] m1[s])@.contains(
        (s1.len() - 1) as nat,
    ) == m2[s]@.contains((s2.len() - 1) as nat) by {
        assert(m1[s]@ == Set::new(|k: nat| k < s1.len() && holds(lts, val, s1[k as int], s)));
        assert(m2[s]@ == Set::new(|k: nat| k < s2.len() && holds(lts, val, s2[k as int], s)));
        assert(sat_set(lts, val, f1).contains(s) == sat_set(lts, val, f2).contains(s));
    }
}

/// `z` meets `Z = g ∨ (f ∧ EX Z)` at every state.
pub open spec fn eu_fixpoint(lts: Lts, f: Set<int>, g: Set<int>, z: Set<int>) -> bool {
    forall|s: int|
        0 <= s < lts.0@.len() ==> (#[trigger] z.contains(s) <==> g.contains(s) || (f.contains(s)
            && ex_in(lts, s, z)))
}

/// `z` meets `Z = f ∧ EX Z` at every state.
pub open spec fn eg_fixpoint(lts: Lts, f: Set<int>, z: Set<int>) -> bool {
    forall|s: int|
        0 <= s < lts.0@.len() ==> (#[trigger] z.contains(s) <==> f.contains(s) && ex_in(lts, s, z))
}

/// The `EU` set solves its equation, lies inside every set closed under it, and
/// without any one of its states no longer solves it.
pub proof fn lemma_eu_least(lts: Lts, f: Set<int>, g: Set<int>)
    ensures
        eu_fixpoint(lts, f, g, eu_set(lts, f, g)),
        forall|z: Set<int>| #[trigger] eu_pre(lts, f, g, z) ==> eu_set(lts, f, g).subset_of(z),
        forall|s: int| #[trigger]
            eu_set(lts, f, g).contains(s) ==> !eu_fixpoint(lts, f, g, eu_set(lts, f, g).remove(s)),
{
    let u = eu_set(lts, f, g);
    let n = lts.0@.len();
    assert(eu_pre(lts, f, g, u)) by {
        assert forall|s: int|
            0 <= s < n && (g.contains(s) || (f.contains(s) && ex_in(lts, s, u))) implies #[trigger] u.contains(s) by {
            assert forall|z: Set<int>| #[trigger] eu_pre(lts, f, g, z) implies z.contains(s) by {
                if !g.contains(s) {
                    let t = choose|t: int| #[trigger] has_edge(lts, s, t) && u.contains(t);
                    assert(z.contains(t));
                    assert(ex_in(lts, s, z));
                }
            }
        }
    }
    let w = Set::new(|s: int| u.contains(s) && (g.contains(s) || (f.contains(s) && ex_in(lts, s, u))));
    assert(eu_pre(lts, f, g, w)) by {
        assert forall|s: int|
            0 <= s < n && (g.contains(s) || (f.contains(s) && ex_in(lts, s, w))) implies #[trigger] w.contains(s) by {
            if !g.contains(s) {
                let t = choose|t: int| #[trigger] has_edge(lts, s, t) && w.contains(t);
                assert(ex_in(lts, s, u));
            }
        }
    }
    assert forall|s: int| 0 <= s < n implies (#[trigger] u.contains(s) <==> g.contains(s) || (
    f.contains(s) && ex_in(lts, s, u))) by {
        if u.contains(s) {
            assert(w.contains(s));
        }
    }
    assert forall|s: int| #[trigger] u.contains(s) implies !eu_fixpoint(lts, f, g, u.remove(s)) by {
        let r = u.remove(s);
        if eu_fixpoint(lts, f, g, r) {
            assert(eu_pre(lts, f, g, r));
            assert(r.contains(s));
        }
    }
}

proof fn lemma_eg_set_post(lts: Lts, f: Set<int>)
    ensures
        eg_post(lts, f, eg_set(lts, f)),
{
    let u = eg_set(lts, f);
    assert forall|s: int| #[trigger] u.contains(s) implies 0 <= s < lts.0@.len() && f.contains(s)
        && ex_in(lts, s, u) by {
        let z = choose|z: Set<int>| #[trigger] eg_post(lts, f, z) && z.contains(s);
        let t = choose|t: int| #[trigger] has_edge(lts, s, t) && z.contains(t);
        assert(u.contains(t));
    }
}

proof fn lemma_eg_set_closed(lts: Lts, f: Set<int>, s: int)
    requires
        0 <= s < lts.0@.len(),
        f.contains(s),
        ex_in(lts, s, eg_set(lts, f)),
    ensures
        eg_set(lts, f).contains(s),
{
    let u = eg_set(lts, f);
    let n = lts.0@.len();
    let z = u.insert(s);
    let t0 = choose|t: int| #[trigger] has_edge(lts, s, t) && u.contains(t);
    assert forall|x: int| #[trigger] z.contains(x) implies 0 <= x < n && f.contains(x) && ex_in(
        lts,
        x,
        z,
    ) by {
        if x != s {
            assert(u.contains(x));
            let zx = choose|zx: Set<int>| #[trigger] eg_post(lts, f, zx) && zx.contains(x);
            assert(zx.contains(x));
            let t2 = choose|t: int| #[trigger] has_edge(lts, x, t) && zx.contains(t);
            assert(u.contains(t2));
            assert(z.contains(t2));
        } else {
            assert(z.contains(t0));
        }
    }
    assert(eg_post(lts, f, z));
    assert(z.contains(s));
}

/// The `EG` set solves its equation, holds every set that keeps itself under it,
/// and with any other state added no longer solves it.
pub proof fn lemma_eg_greatest(lts: Lts, f: Set<int>)
    ensures
        eg_fixpoint(lts, f, eg_set(lts, f)),
        forall|z: Set<int>| #[trigger] eg_post(lts, f, z) ==> z.subset_of(eg_set(lts, f)),
        forall|s: int|
            0 <= s < lts.0@.len() && !#[trigger] eg_set(lts, f).contains(s) ==> !eg_fixpoint(
                lts,
                f,
                eg_set(lts, f).insert(s),
            ),
{
    let u = eg_set(lts, f);
    let n = lts.0@.len();
    lemma_eg_set_post(lts, f);
    assert forall|s: int| 0 <= s < n implies (#[trigger] u.contains(s) <==> f.contains(s) && ex_in(
        lts,
        s,
        u,
    )) by {
        if f.contains(s) && ex_in(lts, s, u) {
            lemma_eg_set_closed(lts, f, s);
        }
    }
    assert forall|s: int|
        0 <= s < n && !#[trigger] u.contains(s) implies !eg_fixpoint(lts, f, u.insert(s)) by {
        let z = u.insert(s);
        if eg_fixpoint(lts, f, z) {
            assert forall|x: int| #[trigger] z.contains(x) implies 0 <= x < n && f.contains(x)
                && ex_in(lts, x, z) by {
                if x != s {
                    assert(u.contains(x));
                }
            }
            assert(eg_post(lts, f, z));
            assert(z.contains(s));
        }
    }
}

} // verus!
