//! CTL formulas and their tables of distinct subformulas.

use vstd::prelude::*;
use vstd::string::StringExecFns;
use crate::table::{
    node_map_get_by_right, node_map_insert, node_map_new, node_pairs, Node, NodeMap,
};

verus! {

pub type Prop = String;

/// A CTL formula over named atomic propositions.
#[derive(Debug)]
pub enum Formula {
    Prop(Prop),
    Not(Box<Formula>),
    And(Box<Formula>, Box<Formula>),
    Or(Box<Formula>, Box<Formula>),
    Impl(Box<Formula>, Box<Formula>),
    EX(Box<Formula>),
    EU(Box<Formula>, Box<Formula>),
    EG(Box<Formula>),
}

/// The mathematical view of a formula: propositions named by character sequences.
pub enum Ctl {
    Prop(Seq<char>),
    Not(Box<Ctl>),
    And(Box<Ctl>, Box<Ctl>),
    Or(Box<Ctl>, Box<Ctl>),
    Impl(Box<Ctl>, Box<Ctl>),
    EX(Box<Ctl>),
    EU(Box<Ctl>, Box<Ctl>),
    EG(Box<Ctl>),
}

pub open spec fn ctl_of(f: Formula) -> Ctl
    decreases f,
{
    match f {
        Formula::Prop(p) => Ctl::Prop(p@),
        Formula::Not(g) => Ctl::Not(Box::new(ctl_of(*g))),
        Formula::And(a, b) => Ctl::And(Box::new(ctl_of(*a)), Box::new(ctl_of(*b))),
        Formula::Or(a, b) => Ctl::Or(Box::new(ctl_of(*a)), Box::new(ctl_of(*b))),
        Formula::Impl(a, b) => Ctl::Impl(Box::new(ctl_of(*a)), Box::new(ctl_of(*b))),
        Formula::EX(g) => Ctl::EX(Box::new(ctl_of(*g))),
        Formula::EU(a, b) => Ctl::EU(Box::new(ctl_of(*a)), Box::new(ctl_of(*b))),
        Formula::EG(g) => Ctl::EG(Box::new(ctl_of(*g))),
    }
}

impl View for Formula {
    type V = Ctl;

    open spec fn view(&self) -> Ctl {
        ctl_of(*self)
    }
}

/// `acc` with `f` appended, unless `f` is in it already.
pub open spec fn add_new(acc: Seq<Ctl>, f: Ctl) -> Seq<Ctl> {
    if acc.contains(f) {
        acc
    } else {
        acc.push(f)
    }
}

/// The subformulas of `f` appended to `acc` in post-order, left operand first,
/// each one only where it is not there yet.
pub open spec fn unfold_into(f: Ctl, acc: Seq<Ctl>) -> Seq<Ctl>
    decreases f,
{
    match f {
        Ctl::Prop(_) => add_new(acc, f),
        Ctl::Not(g) => add_new(unfold_into(*g, acc), f),
        Ctl::And(a, b) => add_new(unfold_into(*b, unfold_into(*a, acc)), f),
        Ctl::Or(a, b) => add_new(unfold_into(*b, unfold_into(*a, acc)), f),
        Ctl::Impl(a, b) => add_new(unfold_into(*b, unfold_into(*a, acc)), f),
        Ctl::EX(g) => add_new(unfold_into(*g, acc), f),
        Ctl::EU(a, b) => add_new(unfold_into(*b, unfold_into(*a, acc)), f),
        Ctl::EG(g) => add_new(unfold_into(*g, acc), f),
    }
}

/// The distinct subformulas of `f`, in post-order.
pub open spec fn subformulas(f: Ctl) -> Seq<Ctl> {
    unfold_into(f, Seq::empty())
}

pub const TAG_PROP: usize = 0;
pub const TAG_NOT: usize = 1;
pub const TAG_AND: usize = 2;
pub const TAG_OR: usize = 3;
pub const TAG_IMPL: usize = 4;
pub const TAG_EX: usize = 5;
pub const TAG_EU: usize = 6;
pub const TAG_EG: usize = 7;

/// The distinct subformulas of a formula under dense indices, with the node of
/// each (operator and operand indices) paired to its index in a bimap.
pub struct SubformulaTable {
    pub nodes: NodeMap,
    pub props: Vec<Prop>,
    pub formulas: Vec<Formula>,
}

impl View for SubformulaTable {
    type V = Seq<Ctl>;

    open spec fn view(&self) -> Seq<Ctl> {
        self.formulas@.map_values(|f: Formula| f@)
    }
}

impl SubformulaTable {
    /// `n` is the node of `f`, with operands among the first `bound` entries.
    pub open spec fn encodes(&self, n: Node, f: Ctl, bound: int) -> bool {
        let fs = self@;
        match f {
            Ctl::Prop(p) => n.0 == TAG_PROP && n.1 < self.props@.len() && self.props@[n.1 as int]@
                == p && n.2 == 0,
            Ctl::Not(g) => n.0 == TAG_NOT && n.1 < bound && fs[n.1 as int] == *g && n.2 == 0,
            Ctl::And(a, b) => n.0 == TAG_AND && n.1 < bound && n.2 < bound && fs[n.1 as int] == *a
                && fs[n.2 as int] == *b,
            Ctl::Or(a, b) => n.0 == TAG_OR && n.1 < bound && n.2 < bound && fs[n.1 as int] == *a
                && fs[n.2 as int] == *b,
            Ctl::Impl(a, b) => n.0 == TAG_IMPL && n.1 < bound && n.2 < bound && fs[n.1 as int] == *a
                && fs[n.2 as int] == *b,
            Ctl::EX(g) => n.0 == TAG_EX && n.1 < bound && fs[n.1 as int] == *g && n.2 == 0,
            Ctl::EU(a, b) => n.0 == TAG_EU && n.1 < bound && n.2 < bound && fs[n.1 as int] == *a
                && fs[n.2 as int] == *b,
            Ctl::EG(g) => n.0 == TAG_EG && n.1 < bound && fs[n.1 as int] == *g && n.2 == 0,
        }
    }

    pub open spec fn wf(&self) -> bool {
        let fs = self@;
        &&& forall|i: int, j: int| 0 <= i < j < fs.len() ==> fs[i] != fs[j]
        &&& forall|i: int, j: int|
            0 <= i < j < self.props@.len() ==> self.props@[i]@ != self.props@[j]@
        &&& forall|k: usize| #[trigger]
            node_pairs(self.nodes).contains_key(k) <==> k < fs.len()
        &&& forall|k: usize|
            k < fs.len() ==> self.encodes(#[trigger] node_pairs(self.nodes)[k], fs[k as int], k as int)
    }

    pub fn len(&self) -> (r: usize)
        ensures
            r == self@.len(),
    {
        self.formulas.len()
    }

    /// The subformula at index `i`.
    pub fn get(&self, i: usize) -> (r: &Formula)
        requires
            i < self@.len(),
        ensures
            r@ == self@[i as int],
    {
        &self.formulas[i]
    }
}

/// Two nodes that encode one formula are equal.
proof fn lemma_encoding_unique(t: &SubformulaTable, n1: Node, n2: Node, f: Ctl, b1: int, b2: int)
    requires
        t.wf(),
        b1 <= t@.len(),
        b2 <= t@.len(),
        t.encodes(n1, f, b1),
        t.encodes(n2, f, b2),
    ensures
        n1 == n2,
{
}

/// A node encodes one formula only.
proof fn lemma_encoding_determines(
    t: &SubformulaTable,
    n: Node,
    f1: Ctl,
    f2: Ctl,
    b1: int,
    b2: int,
)
    requires
        t.encodes(n, f1, b1),
        t.encodes(n, f2, b2),
    ensures
        f1 == f2,
{
}

impl Formula {
    /// A copy with the same view.
    pub fn deep_copy(&self) -> (r: Formula)
        ensures
            r@ == self@,
        decreases self,
    {
        match self {
            Formula::Prop(p) => Formula::Prop(p.clone()),
            Formula::Not(g) => Formula::Not(Box::new(g.deep_copy())),
            Formula::And(a, b) => Formula::And(Box::new(a.deep_copy()), Box::new(b.deep_copy())),
            Formula::Or(a, b) => Formula::Or(Box::new(a.deep_copy()), Box::new(b.deep_copy())),
            Formula::Impl(a, b) => Formula::Impl(Box::new(a.deep_copy()), Box::new(b.deep_copy())),
            Formula::EX(g) => Formula::EX(Box::new(g.deep_copy())),
            Formula::EU(a, b) => Formula::EU(Box::new(a.deep_copy()), Box::new(b.deep_copy())),
            Formula::EG(g) => Formula::EG(Box::new(g.deep_copy())),
        }
    }
}

/// Encodings carry over to a table that extends the first `b` subformulas and the names.
proof fn lemma_encodes_extends(t1: &SubformulaTable, t2: &SubformulaTable, n: Node, f: Ctl, b: int)
    requires
        0 <= b <= t1@.len(),
        b <= t2@.len(),
        forall|i: int| 0 <= i < b ==> t1@[i] == t2@[i],
        t1.props@.len() <= t2.props@.len(),
        forall|i: int| 0 <= i < t1.props@.len() ==> t1.props@[i]@ == t2.props@[i]@,
        t1.encodes(n, f, b),
    ensures
        t2.encodes(n, f, b),
{
}

/// The index of the name `p` among `props`, appending it where it is missing.
fn intern_prop(props: &mut Vec<Prop>, p: &Prop) -> (r: usize)
    requires
        forall|i: int, j: int| 0 <= i < j < old(props)@.len() ==> old(props)@[i]@ != old(props)@[j]@,
    ensures
        forall|i: int, j: int|
            0 <= i < j < final(props)@.len() ==> final(props)@[i]@ != final(props)@[j]@,
        r < final(props)@.len(),
        final(props)@[r as int]@ == p@,
        old(props)@.len() <= final(props)@.len(),
        forall|i: int| 0 <= i < old(props)@.len() ==> final(props)@[i] == old(props)@[i],
{
    let mut i: usize = 0;
    while i < props.len()
        invariant
            i <= props@.len(),
            props@ == old(props)@,
            forall|i: int, j: int| 0 <= i < j < props@.len() ==> props@[i]@ != props@[j]@,
            forall|k: int| 0 <= k < i ==> props@[k]@ != p@,
        decreases props@.len() - i,
    {
        if props[i] == *p {
            return i;
        }
        i = i + 1;
    }
    let r = props.len();
    props.push(p.clone());
    r
}

/// Gives `f`, whose node is `node`, an index: the one it has, or the next free one.
fn add_node(table: &mut SubformulaTable, node: Node, f: &Formula) -> (r: usize)
    requires
        old(table).wf(),
        old(table).encodes(node, f@, old(table)@.len() as int),
    ensures
        final(table).wf(),
        final(table)@ == add_new(old(table)@, f@),
        final(table).props@ == old(table).props@,
        r < final(table)@.len(),
        final(table)@[r as int] == f@,
{
    let ghost fs = table@;
    match node_map_get_by_right(&table.nodes, &node) {
        Some(j) => {
            proof {
                lemma_encoding_determines(table, node, fs[j as int], f@, j as int, fs.len() as int);
                assert(fs.contains(f@));
            }
            j
        },
        None => {
            let k = table.formulas.len();
            proof {
                if fs.contains(f@) {
                    let ji = choose|j: int| 0 <= j < fs.len() && fs[j] == f@;
                    assert(fs.len() == table.formulas@.len());
                    let j = ji as usize;
                    assert(fs[j as int] == f@);
                    let nj = node_pairs(table.nodes)[j];
                    lemma_encoding_unique(table, nj, node, f@, j as int, fs.len() as int);
                    assert(node_pairs(table.nodes).contains_key(j));
                }
            }
            let ghost t0 = *table;
            node_map_insert(&mut table.nodes, k, node);
            let copy = f.deep_copy();
            table.formulas.push(copy);
            proof {
                assert(table@ =~= fs.push(f@));
                assert forall|i: int, j: int| 0 <= i < j < table@.len() implies table@[i]
                    != table@[j] by {
                    if j == fs.len() {
                        assert(table@[i] == fs[i]);
                    }
                }
                assert forall|kk: usize| kk < table@.len() implies table.encodes(
                    #[trigger] node_pairs(table.nodes)[kk],
                    table@[kk as int],
                    kk as int,
                ) by {
                    if kk < fs.len() {
                        assert(t0.encodes(node_pairs(t0.nodes)[kk], fs[kk as int], kk as int));
                        lemma_encodes_extends(&t0, table, node_pairs(t0.nodes)[kk], fs[kk as int], kk as int);
                    } else {
                        lemma_encodes_extends(&t0, table, node, f@, k as int);
                    }
                }
            }
            k
        },
    }
}

/// Adds the subformulas of `f` to `table` in post-order; the result is the index of `f`.
fn unfold_impl(f: &Formula, table: &mut SubformulaTable) -> (r: usize)
    requires
        old(table).wf(),
    ensures
        final(table).wf(),
        final(table)@ == unfold_into(f@, old(table)@),
        r < final(table)@.len(),
        final(table)@[r as int] == f@,
        old(table).props@.len() <= final(table).props@.len(),
        forall|i: int| 0 <= i < old(table).props@.len() ==> final(table).props@[i] == old(table).props@[i],
    decreases f,
{
    let ghost t0 = *table;
    match f {
        Formula::Prop(p) => {
            let pi = intern_prop(&mut table.props, p);
            proof {
                assert(table@ == t0@);
                assert forall|kk: usize| kk < table@.len() implies table.encodes(
                    #[trigger] node_pairs(table.nodes)[kk],
                    table@[kk as int],
                    kk as int,
                ) by {
                    assert(t0.encodes(node_pairs(t0.nodes)[kk], t0@[kk as int], kk as int));
                    lemma_encodes_extends(&t0, table, node_pairs(t0.nodes)[kk], t0@[kk as int], kk as int);
                }
            }
            add_node(table, (TAG_PROP, pi, 0), f)
        },
        Formula::Not(g) => {
            let a = unfold_impl(g, table);
            add_node(table, (TAG_NOT, a, 0), f)
        },
        Formula::And(x, y) => {
            let a = unfold_impl(x, table);
            let ghost t1 = *table;
            let b = unfold_impl(y, table);
            proof {
                lemma_unfold_extends(y@, t1@);
            }
            assert(table@[a as int] == t1@[a as int]);
            add_node(table, (TAG_AND, a, b), f)
        },
        Formula::Or(x, y) => {
            let a = unfold_impl(x, table);
            let ghost t1 = *table;
            let b = unfold_impl(y, table);
            proof {
                lemma_unfold_extends(y@, t1@);
            }
            assert(table@[a as int] == t1@[a as int]);
            add_node(table, (TAG_OR, a, b), f)
        },
        Formula::Impl(x, y) => {
            let a = unfold_impl(x, table);
            let ghost t1 = *table;
            let b = unfold_impl(y, table);
            proof {
                lemma_unfold_extends(y@, t1@);
            }
            assert(table@[a as int] == t1@[a as int]);
            add_node(table, (TAG_IMPL, a, b), f)
        },
        Formula::EX(g) => {
            let a = unfold_impl(g, table);
            add_node(table, (TAG_EX, a, 0), f)
        },
        Formula::EU(x, y) => {
            let a = unfold_impl(x, table);
            let ghost t1 = *table;
            let b = unfold_impl(y, table);
            proof {
                lemma_unfold_extends(y@, t1@);
            }
            assert(table@[a as int] == t1@[a as int]);
            add_node(table, (TAG_EU, a, b), f)
        },
        Formula::EG(g) => {
            let a = unfold_impl(g, table);
            add_node(table, (TAG_EG, a, 0), f)
        },
    }
}

/// Adding subformulas keeps what was there in place.
pub proof fn lemma_unfold_extends(f: Ctl, acc: Seq<Ctl>)
    ensures
        acc.len() <= unfold_into(f, acc).len(),
        forall|i: int| 0 <= i < acc.len() ==> unfold_into(f, acc)[i] == acc[i],
    decreases f,
{
    match f {
        Ctl::Prop(_) => {},
        Ctl::Not(g) => lemma_unfold_extends(*g, acc),
        Ctl::And(a, b) => {
            lemma_unfold_extends(*a, acc);
            lemma_unfold_extends(*b, unfold_into(*a, acc));
        },
        Ctl::Or(a, b) => {
            lemma_unfold_extends(*a, acc);
            lemma_unfold_extends(*b, unfold_into(*a, acc));
        },
        Ctl::Impl(a, b) => {
            lemma_unfold_extends(*a, acc);
            lemma_unfold_extends(*b, unfold_into(*a, acc));
        },
        Ctl::EX(g) => lemma_unfold_extends(*g, acc),
        Ctl::EU(a, b) => {
            lemma_unfold_extends(*a, acc);
            lemma_unfold_extends(*b, unfold_into(*a, acc));
        },
        Ctl::EG(g) => lemma_unfold_extends(*g, acc),
    }
}

impl Formula {
    /// The distinct subformulas of this formula under dense indices, in
    /// post-order (left operand first): each operand stands before the formulas
    /// that use it, and the formula itself is at the highest index.
    pub fn unfold(self) -> (r: SubformulaTable)
        ensures
            r.wf(),
            r@ == subformulas(self@),
    {
        let mut table = SubformulaTable {
            nodes: node_map_new(),
            props: Vec::new(),
            formulas: Vec::new(),
        };
        assert(table@ =~= Seq::<Ctl>::empty());
        assert forall|k: usize| #[trigger] node_pairs(table.nodes).contains_key(k) <==> k < table@.len() by {
            assert(!node_pairs(table.nodes).dom().contains(k));
        }
        unfold_impl(&self, &mut table);
        table
    }
}

/// `g` is an immediate operand of `f`.
pub open spec fn is_operand(g: Ctl, f: Ctl) -> bool {
    match f {
        Ctl::Prop(_) => false,
        Ctl::Not(x) => *x == g,
        Ctl::And(a, b) => *a == g || *b == g,
        Ctl::Or(a, b) => *a == g || *b == g,
        Ctl::Impl(a, b) => *a == g || *b == g,
        Ctl::EX(x) => *x == g,
        Ctl::EU(a, b) => *a == g || *b == g,
        Ctl::EG(x) => *x == g,
    }
}

/// `x` occurs in `f` (`f` itself included).
pub open spec fn is_subformula(x: Ctl, f: Ctl) -> bool
    decreases f,
{
    x == f || match f {
        Ctl::Prop(_) => false,
        Ctl::Not(g) => is_subformula(x, *g),
        Ctl::And(a, b) => is_subformula(x, *a) || is_subformula(x, *b),
        Ctl::Or(a, b) => is_subformula(x, *a) || is_subformula(x, *b),
        Ctl::Impl(a, b) => is_subformula(x, *a) || is_subformula(x, *b),
        Ctl::EX(g) => is_subformula(x, *g),
        Ctl::EU(a, b) => is_subformula(x, *a) || is_subformula(x, *b),
        Ctl::EG(g) => is_subformula(x, *g),
    }
}

pub open spec fn size(f: Ctl) -> nat
    decreases f,
{
    match f {
        Ctl::Prop(_) => 1,
        Ctl::Not(g) => 1 + size(*g),
        Ctl::And(a, b) => 1 + size(*a) + size(*b),
        Ctl::Or(a, b) => 1 + size(*a) + size(*b),
        Ctl::Impl(a, b) => 1 + size(*a) + size(*b),
        Ctl::EX(g) => 1 + size(*g),
        Ctl::EU(a, b) => 1 + size(*a) + size(*b),
        Ctl::EG(g) => 1 + size(*g),
    }
}

pub open spec fn distinct(s: Seq<Ctl>) -> bool {
    forall|i: int, j: int| 0 <= i < j < s.len() ==> s[i] != s[j]
}

/// Each operand of each entry stands at an earlier position.
pub open spec fn operands_before(s: Seq<Ctl>) -> bool {
    forall|k: int, g: Ctl|
        0 <= k < s.len() && #[trigger] is_operand(g, s[k]) ==> exists|j: int|
            0 <= j < k && s[j] == g
}

proof fn lemma_size_sub(x: Ctl, f: Ctl)
    requires
        is_subformula(x, f),
    ensures
        size(x) <= size(f),
    decreases f,
{
    if x != f {
        match f {
            Ctl::Prop(_) => {},
            Ctl::Not(g) => lemma_size_sub(x, *g),
            Ctl::And(a, b) => if is_subformula(x, *a) {
                lemma_size_sub(x, *a)
            } else {
                lemma_size_sub(x, *b)
            },
            Ctl::Or(a, b) => if is_subformula(x, *a) {
                lemma_size_sub(x, *a)
            } else {
                lemma_size_sub(x, *b)
            },
            Ctl::Impl(a, b) => if is_subformula(x, *a) {
                lemma_size_sub(x, *a)
            } else {
                lemma_size_sub(x, *b)
            },
            Ctl::EX(g) => lemma_size_sub(x, *g),
            Ctl::EU(a, b) => if is_subformula(x, *a) {
                lemma_size_sub(x, *a)
            } else {
                lemma_size_sub(x, *b)
            },
            Ctl::EG(g) => lemma_size_sub(x, *g),
        }
    }
}

proof fn lemma_add_new(acc: Seq<Ctl>, f: Ctl)
    requires
        distinct(acc),
        operands_before(acc),
        forall|g: Ctl| #[trigger] is_operand(g, f) ==> acc.contains(g),
    ensures
        distinct(add_new(acc, f)),
        operands_before(add_new(acc, f)),
        forall|x: Ctl| #[trigger] add_new(acc, f).contains(x) <==> acc.contains(x) || x == f,
{
    let r = add_new(acc, f);
    if !acc.contains(f) {
        assert forall|x: Ctl| #[trigger] r.contains(x) <==> acc.contains(x) || x == f by {
            if r.contains(x) && x != f {
                let i = choose|i: int| 0 <= i < r.len() && r[i] == x;
                assert(acc[i] == x);
            }
            if acc.contains(x) {
                let i = choose|i: int| 0 <= i < acc.len() && acc[i] == x;
                assert(r[i] == x);
            }
            if x == f {
                assert(r[acc.len() as int] == f);
            }
        }
        assert forall|k: int, g: Ctl|
            0 <= k < r.len() && #[trigger] is_operand(g, r[k]) implies exists|j: int|
                0 <= j < k && r[j] == g by {
            if k < acc.len() {
                assert(r[k] == acc[k]);
                let j = choose|j: int| 0 <= j < k && acc[j] == g;
                assert(r[j] == g);
            } else {
                assert(acc.contains(g));
                let j = choose|j: int| 0 <= j < acc.len() && acc[j] == g;
                assert(r[j] == g);
            }
        }
    }
}

proof fn lemma_unary(f: Ctl, g: Ctl, acc: Seq<Ctl>)
    requires
        distinct(acc),
        operands_before(acc),
        size(g) < size(f),
        unfold_into(f, acc) == add_new(unfold_into(g, acc), f),
        forall|x: Ctl| #[trigger] is_operand(x, f) <==> x == g,
        forall|x: Ctl| #[trigger] is_subformula(x, f) <==> x == f || is_subformula(x, g),
    ensures
        distinct(unfold_into(f, acc)),
        operands_before(unfold_into(f, acc)),
        forall|x: Ctl| #[trigger]
            unfold_into(f, acc).contains(x) <==> acc.contains(x) || is_subformula(x, f),
    decreases size(f), 0nat,
{
    lemma_unfold_into_sized(g, acc);
    assert(is_subformula(g, g));
    lemma_add_new(unfold_into(g, acc), f);
}

proof fn lemma_binary(f: Ctl, a: Ctl, b: Ctl, acc: Seq<Ctl>)
    requires
        distinct(acc),
        operands_before(acc),
        size(a) < size(f),
        size(b) < size(f),
        unfold_into(f, acc) == add_new(unfold_into(b, unfold_into(a, acc)), f),
        forall|x: Ctl| #[trigger] is_operand(x, f) <==> x == a || x == b,
        forall|x: Ctl| #[trigger]
            is_subformula(x, f) <==> x == f || is_subformula(x, a) || is_subformula(x, b),
    ensures
        distinct(unfold_into(f, acc)),
        operands_before(unfold_into(f, acc)),
        forall|x: Ctl| #[trigger]
            unfold_into(f, acc).contains(x) <==> acc.contains(x) || is_subformula(x, f),
    decreases size(f), 0nat,
{
    let acc1 = unfold_into(a, acc);
    lemma_unfold_into_sized(a, acc);
    lemma_unfold_into_sized(b, acc1);
    assert(is_subformula(a, a));
    assert(is_subformula(b, b));
    assert(acc1.contains(a));
    lemma_add_new(unfold_into(b, acc1), f);
}

proof fn lemma_unfold_into_sized(f: Ctl, acc: Seq<Ctl>)
    requires
        distinct(acc),
        operands_before(acc),
    ensures
        distinct(unfold_into(f, acc)),
        operands_before(unfold_into(f, acc)),
        forall|x: Ctl| #[trigger]
            unfold_into(f, acc).contains(x) <==> acc.contains(x) || is_subformula(x, f),
    decreases size(f), 1nat,
{
    match f {
        Ctl::Prop(_) => {
            lemma_add_new(acc, f);
        },
        Ctl::Not(g) => {
            lemma_unary(f, *g, acc);
        },
        Ctl::EX(g) => {
            lemma_unary(f, *g, acc);
        },
        Ctl::EG(g) => {
            lemma_unary(f, *g, acc);
        },
        Ctl::And(a, b) => {
            lemma_binary(f, *a, *b, acc);
        },
        Ctl::Or(a, b) => {
            lemma_binary(f, *a, *b, acc);
        },
        Ctl::Impl(a, b) => {
            lemma_binary(f, *a, *b, acc);
        },
        Ctl::EU(a, b) => {
            lemma_binary(f, *a, *b, acc);
        },
    }
}

/// Every operand of a subformula stands at a smaller index than the subformula.
pub proof fn lemma_operands_precede(f: Ctl)
    ensures
        forall|k: int, j: int|
            0 <= k < subformulas(f).len() && 0 <= j < subformulas(f).len() && is_operand(
                #[trigger] subformulas(f)[j],
                #[trigger] subformulas(f)[k],
            ) ==> j < k,
{
    let s = subformulas(f);
    lemma_unfold_into_sized(f, Seq::empty());
    assert forall|k: int, j: int|
        0 <= k < s.len() && 0 <= j < s.len() && is_operand(
            #[trigger] s[j],
            #[trigger] s[k],
        ) implies j < k by {
        let jj = choose|jj: int| 0 <= jj < k && s[jj] == s[j];
        if jj != j {
            if jj < j {
                assert(s[jj] != s[j]);
            } else {
                assert(s[j] != s[jj]);
            }
        }
    }
}

/// The subformulas of `f` are distinct, are exactly the formulas that occur in
/// `f`, and end with `f` itself.
pub proof fn lemma_subformulas_exact(f: Ctl)
    ensures
        distinct(subformulas(f)),
        forall|x: Ctl| #[trigger] subformulas(f).contains(x) <==> is_subformula(x, f),
        subformulas(f).len() > 0,
        subformulas(f).last() == f,
{
    let e = Seq::<Ctl>::empty();
    lemma_unfold_into_sized(f, e);
    assert(is_subformula(f, f));
    let before = match f {
        Ctl::Prop(_) => e,
        Ctl::Not(g) => unfold_into(*g, e),
        Ctl::And(a, b) => unfold_into(*b, unfold_into(*a, e)),
        Ctl::Or(a, b) => unfold_into(*b, unfold_into(*a, e)),
        Ctl::Impl(a, b) => unfold_into(*b, unfold_into(*a, e)),
        Ctl::EX(g) => unfold_into(*g, e),
        Ctl::EU(a, b) => unfold_into(*b, unfold_into(*a, e)),
        Ctl::EG(g) => unfold_into(*g, e),
    };
    assert(subformulas(f) == add_new(before, f));
    if before.contains(f) {
        match f {
            Ctl::Prop(_) => {},
            Ctl::Not(g) => {
                lemma_unfold_into_sized(*g, e);
                lemma_size_sub(f, *g);
            },
            Ctl::EX(g) => {
                lemma_unfold_into_sized(*g, e);
                lemma_size_sub(f, *g);
            },
            Ctl::EG(g) => {
                lemma_unfold_into_sized(*g, e);
                lemma_size_sub(f, *g);
            },
            Ctl::And(a, b) => {
                lemma_binary_not_inside(f, *a, *b);
            },
            Ctl::Or(a, b) => {
                lemma_binary_not_inside(f, *a, *b);
            },
            Ctl::Impl(a, b) => {
                lemma_binary_not_inside(f, *a, *b);
            },
            Ctl::EU(a, b) => {
                lemma_binary_not_inside(f, *a, *b);
            },
        }
    }
}

proof fn lemma_binary_not_inside(f: Ctl, a: Ctl, b: Ctl)
    requires
        size(a) < size(f),
        size(b) < size(f),
    ensures
        !unfold_into(b, unfold_into(a, Seq::empty())).contains(f),
{
    let e = Seq::<Ctl>::empty();
    lemma_unfold_into_sized(a, e);
    lemma_unfold_into_sized(b, unfold_into(a, e));
    if is_subformula(f, a) {
        lemma_size_sub(f, a);
    }
    if is_subformula(f, b) {
        lemma_size_sub(f, b);
    }
}

/// The text of a formula: a proposition by its name, an operator in prefix
/// form with its operands, in parentheses.
pub open spec fn text_of(f: Ctl) -> Seq<char>
    decreases f,
{
    match f {
        Ctl::Prop(p) => p,
        Ctl::Not(g) => "(not "@ + text_of(*g) + ")"@,
        Ctl::And(a, b) => "(and "@ + text_of(*a) + " "@ + text_of(*b) + ")"@,
        Ctl::Or(a, b) => "(or "@ + text_of(*a) + " "@ + text_of(*b) + ")"@,
        Ctl::Impl(a, b) => "(impl "@ + text_of(*a) + " "@ + text_of(*b) + ")"@,
        Ctl::EX(g) => "(EX "@ + text_of(*g) + ")"@,
        Ctl::EU(a, b) => "(EU "@ + text_of(*a) + " "@ + text_of(*b) + ")"@,
        Ctl::EG(g) => "(EG "@ + text_of(*g) + ")"@,
    }
}

impl Formula {
    /// Appends the text of this formula to `out`.
    pub fn write_text(&self, out: &mut String)
        ensures
            final(out)@ == old(out)@ + text_of(self@),
        decreases self,
    {
        let ghost start = out@;
        match self {
            Formula::Prop(p) => {
                out.append(p.as_str());
            },
            Formula::Not(g) => {
                out.append("(not ");
                g.write_text(out);
                out.append(")");
            },
            Formula::And(a, b) => {
                out.append("(and ");
                a.write_text(out);
                out.append(" ");
                b.write_text(out);
                out.append(")");
            },
            Formula::Or(a, b) => {
                out.append("(or ");
                a.write_text(out);
                out.append(" ");
                b.write_text(out);
                out.append(")");
            },
            Formula::Impl(a, b) => {
                out.append("(impl ");
                a.write_text(out);
                out.append(" ");
                b.write_text(out);
                out.append(")");
            },
            Formula::EX(g) => {
                out.append("(EX ");
                g.write_text(out);
                out.append(")");
            },
            Formula::EU(a, b) => {
                out.append("(EU ");
                a.write_text(out);
                out.append(" ");
                b.write_text(out);
                out.append(")");
            },
            Formula::EG(g) => {
                out.append("(EG ");
                g.write_text(out);
                out.append(")");
            },
        }
        assert(out@ =~= start + text_of(self@));
    }

    /// The text of this formula.
    pub fn to_text(&self) -> (r: String)
        ensures
            r@ == text_of(self@),
    {
        let mut out = String::new();
        self.write_text(&mut out);
        assert(out@ =~= text_of(self@));
        out
    }
}

impl Formula {
    pub fn prop(name: &str) -> (r: Formula)
        ensures
            r@ == Ctl::Prop(name@),
    {
        Formula::Prop(name.to_owned())
    }

    pub fn not(f: Formula) -> (r: Formula)
        ensures
            r@ == Ctl::Not(Box::new(f@)),
    {
        Formula::Not(Box::new(f))
    }

    pub fn and(f: Formula, g: Formula) -> (r: Formula)
        ensures
            r@ == Ctl::And(Box::new(f@), Box::new(g@)),
    {
        Formula::And(Box::new(f), Box::new(g))
    }

    pub fn or(f: Formula, g: Formula) -> (r: Formula)
        ensures
            r@ == Ctl::Or(Box::new(f@), Box::new(g@)),
    {
        Formula::Or(Box::new(f), Box::new(g))
    }

    /// `f` implies `g`.
    pub fn implies(f: Formula, g: Formula) -> (r: Formula)
        ensures
            r@ == Ctl::Impl(Box::new(f@), Box::new(g@)),
    {
        Formula::Impl(Box::new(f), Box::new(g))
    }

    pub fn ex(f: Formula) -> (r: Formula)
        ensures
            r@ == Ctl::EX(Box::new(f@)),
    {
        Formula::EX(Box::new(f))
    }

    pub fn eu(f: Formula, g: Formula) -> (r: Formula)
        ensures
            r@ == Ctl::EU(Box::new(f@), Box::new(g@)),
    {
        Formula::EU(Box::new(f), Box::new(g))
    }

    pub fn eg(f: Formula) -> (r: Formula)
        ensures
            r@ == Ctl::EG(Box::new(f@)),
    {
        Formula::EG(Box::new(f))
    }
}

} // verus!
