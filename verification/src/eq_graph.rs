//! Equivalence graph and expression Ids.
use vstd::prelude::*;

use rustc_hash::{FxHashMap, FxHashSet};

use crate::tables::{
    class_entries,
    class_table_get,
    class_table_insert,
    class_table_new,
    class_table_remove,
    id_map_entries,
    id_map_get,
    id_map_insert,
    id_map_new,
    id_set_contains,
    id_set_entries,
    id_set_insert,
    id_set_new,
};
use crate::model::{
    GraphModel,
    add_model,
    add_model_upto,
    lemma_add_congruence,
    lemma_add_model_wf,
    lemma_congruent,
    lemma_record_model_wf,
    lemma_union_congruence,
    lemma_union_model_wf,
    congruent,
    ck,
    canon_key,
    congruence_inv,
    class_listing,
    dep_count,
    empty_model,
    extends,
    extract,
    insert_model,
    insert_result,
    key_of,
    pending,
    settled,
    lemma_add_extends,
    lemma_extends_trans,
    lemma_extract_extends,
    lemma_extract_same_terms,
    lemma_class_listing,
    lemma_rebuild_nodes,
    law_lower_children_first,
    expr_size,
    lower_each,
    rebuild_nodes_ok,
    listed,
    has_twin,
    pdeps_at,
    lemma_lookup_extends,
    lemma_lookup_root,
    lemma_rebuild_step_decreases,
    lemma_rebuild_step_inv,
    lemma_rebuild_step_finer,
    lemma_closure_exact,
    closed_under,
    finer,
    cc_equiv,
    lemma_nodes_only,
    kids_known,
    node_key,
    lemma_unmarked_empty,
    lemma_union_coarsens,
    lookup,
    lookup_kids,
    lookup_node,
    lower_args_model,
    lower_model,
    model_wf,
    nodes_at,
    nodes_of,
    num_classes,
    pdeps_of,
    rebuild,
    rebuild_ok,
    rebuild_step,
    strip_classes,
    union_model,
    union_result,
    unmarked,
    update_model,
};
use crate::ty::{Expr, ExprModel, Term, Type};

verus! {

/// A unique high-level-representation Id to an expression.
#[derive(Clone, Copy, PartialEq, Eq, Structural, PartialOrd, Ord, Hash, Debug)]
pub struct HirId(usize);

impl View for HirId {
    type V = usize;

    closed spec fn view(&self) -> usize {
        self.0
    }
}

/// The Id at position `n`.
pub closed spec fn fresh_id(n: nat) -> HirId {
    HirId(n as usize)
}

/// The Id at position `n` has index `n`.
pub proof fn lemma_fresh_id(n: nat)
    requires
        n <= usize::MAX,
    ensures
        fresh_id(n)@ == n,
{
}

impl HirId {
    /// The position of this Id in the graph's arena.
    pub fn index(self) -> (i: usize)
        ensures
            i == self@,
    {
        self.0
    }

    /// The text of this Id: its index in decimal, between backquotes.
    pub fn to_text(&self) -> (s: String)
        ensures
            s@ == seq!['`'] + decimal(self@ as nat) + seq!['`'],
    {
        proof {
            reveal_strlit("`");
        }
        let mut s = String::from_str("`");
        append_decimal(&mut s, self.0);
        s.append("`");
        s
    }
}

/// The character of the decimal digit `d`.
pub open spec fn digit_char(d: nat) -> char {
    if d == 0 {
        '0'
    } else if d == 1 {
        '1'
    } else if d == 2 {
        '2'
    } else if d == 3 {
        '3'
    } else if d == 4 {
        '4'
    } else if d == 5 {
        '5'
    } else if d == 6 {
        '6'
    } else if d == 7 {
        '7'
    } else if d == 8 {
        '8'
    } else {
        '9'
    }
}

/// The decimal digits of `n`, most significant first.
pub open spec fn decimal(n: nat) -> Seq<char>
    decreases n,
{
    if n < 10 {
        seq![digit_char(n)]
    } else {
        decimal(n / 10).push(digit_char(n % 10))
    }
}

/// The text of the decimal digit `d`.
fn digit_text(d: usize) -> (s: &'static str)
    requires
        d < 10,
    ensures
        s@ == seq![digit_char(d as nat)],
{
    proof {
        reveal_strlit("0");
        reveal_strlit("1");
        reveal_strlit("2");
        reveal_strlit("3");
        reveal_strlit("4");
        reveal_strlit("5");
        reveal_strlit("6");
        reveal_strlit("7");
        reveal_strlit("8");
        reveal_strlit("9");
    }
    if d == 0 {
        "0"
    } else if d == 1 {
        "1"
    } else if d == 2 {
        "2"
    } else if d == 3 {
        "3"
    } else if d == 4 {
        "4"
    } else if d == 5 {
        "5"
    } else if d == 6 {
        "6"
    } else if d == 7 {
        "7"
    } else if d == 8 {
        "8"
    } else {
        "9"
    }
}

/// Appends the decimal digits of `n` to `s`.
fn append_decimal(s: &mut String, n: usize)
    ensures
        final(s)@ == old(s)@ + decimal(n as nat),
    decreases n,
{
    if n >= 10 {
        append_decimal(s, n / 10);
    }
    s.append(digit_text(n % 10));
    proof {
        if n >= 10 {
            assert(decimal(n as nat) == decimal((n / 10) as nat).push(digit_char((n % 10) as nat)));
        }
    }
}

/// A class of equivalent expressions.
#[derive(Clone, Debug, PartialEq, Eq, Hash)]
pub struct HirClass {
    /// Equivalent nodes Ids.
    nodes: Vec<HirId>,
    /// Dependent parents Ids.
    pdeps: Vec<HirId>,
}

impl View for HirClass {
    type V = (Seq<HirId>, Seq<HirId>);

    closed spec fn view(&self) -> (Seq<HirId>, Seq<HirId>) {
        (self.nodes@, self.pdeps@)
    }
}

/// The ids of a sequence of `HirId`s.
pub open spec fn ids(s: Seq<HirId>) -> Seq<usize> {
    s.map_values(|h: HirId| h@)
}

/// The key of a term: its operator and the ids of its children.
pub type TermKey = (u64, Seq<usize>);

/// The hash-consing key of a term: its operator and the ids of its children.
pub open spec fn term_key(t: Term<HirId>) -> TermKey {
    (t.op, ids(t.args@))
}

/// A parent array is well formed when every parent is no larger than its child.
pub open spec fn forest(s: Seq<HirId>) -> bool {
    forall|i: int| 0 <= i < s.len() ==> #[trigger] s[i]@ <= i
}

/// The root reached from `i` by following parents.
pub open spec fn root_in(s: Seq<HirId>, i: int) -> int
    decreases i,
{
    if 0 <= i < s.len() && (s[i]@ as int) < i {
        root_in(s, s[i]@ as int)
    } else {
        i
    }
}

/// Following parents from `i` ends at a root no larger than `i`.
pub proof fn lemma_root_in(s: Seq<HirId>, i: int)
    requires
        forest(s),
        0 <= i < s.len(),
    ensures
        0 <= root_in(s, i) <= i,
        s[root_in(s, i)]@ == root_in(s, i),
        root_in(s, root_in(s, i)) == root_in(s, i),
    decreases i,
{
    if (s[i]@ as int) < i {
        lemma_root_in(s, s[i]@ as int);
    }
}

/// Pointing a non-root at its grandparent keeps every root.
proof fn lemma_halve(s: Seq<HirId>, c: int, i: int)
    requires
        forest(s),
        0 <= c < s.len(),
        (s[c]@ as int) < c,
        0 <= i < s.len(),
    ensures
        forest(s.update(c, s[s[c]@ as int])),
        root_in(s.update(c, s[s[c]@ as int]), i) == root_in(s, i),
    decreases i,
{
    let t = s.update(c, s[s[c]@ as int]);
    assert(forest(t)) by {
        assert forall|j: int| 0 <= j < t.len() implies #[trigger] t[j]@ <= j by {
            if j == c {
                assert(s[s[c]@ as int]@ <= s[c]@);
            }
        }
    }
    if i == c {
        let p = s[c]@ as int;
        lemma_halve(s, c, s[p]@ as int);
        if (s[p]@ as int) < p {
            assert(root_in(s, p) == root_in(s, s[p]@ as int));
        }
    } else if (s[i]@ as int) < i {
        lemma_halve(s, c, s[i]@ as int);
    }
}

/// Linking root `hi` under root `lo` sends the roots of the class of `hi` to `lo`.
proof fn lemma_link(s: Seq<HirId>, lo: int, hi: int, i: int)
    requires
        forest(s),
        0 <= lo < hi < s.len(),
        s[lo]@ == lo,
        s[hi]@ == hi,
        0 <= i < s.len(),
    ensures
        forest(s.update(hi, HirId(lo as usize))),
        root_in(s.update(hi, HirId(lo as usize)), i) == (if root_in(s, i) == hi {
            lo
        } else {
            root_in(s, i)
        }),
    decreases i,
{
    let t = s.update(hi, HirId(lo as usize));
    assert(forest(t)) by {
        assert forall|j: int| 0 <= j < t.len() implies #[trigger] t[j]@ <= j by {}
    }
    if i == hi {
        assert(root_in(t, lo) == lo);
    } else if (s[i]@ as int) < i {
        lemma_link(s, lo, hi, s[i]@ as int);
    }
}

/// Appending a fresh root keeps every other root.
proof fn lemma_push_root(s: Seq<HirId>, fresh: HirId, i: int)
    requires
        forest(s),
        fresh@ == s.len(),
        0 <= i <= s.len(),
    ensures
        forest(s.push(fresh)),
        root_in(s.push(fresh), i) == if i < s.len() { root_in(s, i) } else { i },
    decreases i,
{
    let t = s.push(fresh);
    assert(forest(t)) by {
        assert forall|j: int| 0 <= j < t.len() implies #[trigger] t[j]@ <= j by {}
    }
    if i < s.len() && (s[i]@ as int) < i {
        lemma_push_root(s, fresh, s[i]@ as int);
    }
}

/// Appends a copy of every id of `src` to `dst`, in order.
fn append_ids(dst: &mut Vec<HirId>, src: &Vec<HirId>)
    ensures
        final(dst)@ == old(dst)@ + src@,
{
    let ghost start = dst@;
    let mut k: usize = 0;
    while k < src.len()
        invariant
            k <= src@.len(),
            dst@ == start + src@.subrange(0, k as int),
        decreases src@.len() - k,
    {
        dst.push(src[k]);
        k = k + 1;
        proof {
            assert(dst@ =~= start + src@.subrange(0, k as int));
        }
    }
    assert(src@.subrange(0, k as int) =~= src@);
}

/// The ids of `nodes` that `cong` does not hold, in order.
fn keep_unmarked(nodes: &Vec<HirId>, cong: &FxHashSet<HirId>) -> (r: Vec<HirId>)
    ensures
        r@ == nodes@.filter(unmarked(id_set_entries(*cong))),
        forall|k: int| 0 <= k < r@.len() ==> nodes@.contains(#[trigger] r@[k]),
{
    let ghost marked = id_set_entries(*cong);
    let mut r: Vec<HirId> = Vec::new();
    let mut k: usize = 0;
    while k < nodes.len()
        invariant
            k <= nodes@.len(),
            marked == id_set_entries(*cong),
            r@ == nodes@.take(k as int).filter(unmarked(marked)),
            forall|j: int| 0 <= j < r@.len() ==> nodes@.contains(#[trigger] r@[j]),
        decreases nodes@.len() - k,
    {
        let node = nodes[k];
        proof {
            reveal_with_fuel(Seq::filter, 1);
            assert(nodes@.take(k + 1).drop_last() =~= nodes@.take(k as int));
            assert(nodes@.take(k + 1).last() == node);
            assert(nodes@.contains(node));
            assert(unmarked(marked)(node) == !marked.contains(node@));
        }
        if !id_set_contains(cong, node) {
            r.push(node);
        }
        k = k + 1;
    }
    assert(nodes@.take(k as int) =~= nodes@);
    r
}

/// A graph maintaining equivalence between expressions.
#[derive(Clone, Debug)]
pub struct Graph {
    /// A union-find equivalence structure.
    parent: Vec<HirId>,
    /// A map indexed on an IR arena.
    ty_map: Vec<Term<HirId>>,
    /// A map from IR to unique Id.
    id_map: FxHashMap<Term<HirId>, HirId>,
    /// A quotient space of equivalence classes.
    qspace: FxHashMap<HirId, HirClass>,
    /// A worklist for rebuilds.
    work: Vec<HirId>,
}

/// The class `c`, stored at Id `i` of the parent array `p`, records as nodes
/// only Ids whose root is `i`, and as dependent parents only Ids of `p`.
pub open spec fn class_bounded(c: Option<(Seq<HirId>, Seq<HirId>)>, p: Seq<HirId>, i: int) -> bool {
    &&& forall|k: int|
        0 <= k < nodes_of(c).len() ==> #[trigger] nodes_of(c)[k]@ < p.len() && root_in(p, nodes_of(c)[k]@ as int)
            == i
    &&& forall|k: int| 0 <= k < pdeps_of(c).len() ==> #[trigger] pdeps_of(c)[k]@ < p.len()
}

/// A change of the class table and of the parent array keeps every class
/// bounded when each class is either bounded anew or kept as it was, and an
/// Id changes root only where the class of its old root changed.
proof fn lemma_classes_bounded(
    q0: Seq<Option<(Seq<HirId>, Seq<HirId>)>>,
    p0: Seq<HirId>,
    q1: Seq<Option<(Seq<HirId>, Seq<HirId>)>>,
    p1: Seq<HirId>,
)
    requires
        q0.len() == p0.len(),
        q1.len() == p1.len(),
        p0.len() <= p1.len(),
        forall|i: int| 0 <= i < p0.len() ==> class_bounded(#[trigger] q0[i], p0, i),
        forall|i: int|
            0 <= i < p1.len() ==> (i < p0.len() && #[trigger] q1[i] == q0[i]) || class_bounded(q1[i], p1, i),
        forall|x: int|
            0 <= x < p0.len() && #[trigger] root_in(p1, x) != root_in(p0, x) ==> q1[root_in(p0, x)] != q0[root_in(
                p0,
                x,
            )],
    ensures
        forall|i: int| 0 <= i < p1.len() ==> class_bounded(#[trigger] q1[i], p1, i),
{
    assert forall|i: int| 0 <= i < p1.len() implies class_bounded(#[trigger] q1[i], p1, i) by {
        if !class_bounded(q1[i], p1, i) {
            assert(class_bounded(q0[i], p0, i));
            assert forall|k: int| 0 <= k < nodes_of(q1[i]).len() implies #[trigger] nodes_of(q1[i])[k]@ < p1.len()
                && root_in(p1, nodes_of(q1[i])[k]@ as int) == i by {
                let x = nodes_of(q0[i])[k]@ as int;
                assert(root_in(p0, x) == i);
            }
        }
    }
}

/// The first `n` entries of a class table, by index.
pub open spec fn table_seq(t: Map<usize, (Seq<HirId>, Seq<HirId>)>, n: nat) -> Seq<
    Option<(Seq<HirId>, Seq<HirId>)>,
> {
    Seq::new(n, |i: int| if t.contains_key(i as usize) { Some(t[i as usize]) } else { None })
}

/// Inserting a class under an Id below `n` updates that position.
proof fn lemma_table_insert(
    t: Map<usize, (Seq<HirId>, Seq<HirId>)>,
    n: nat,
    id: usize,
    c: (Seq<HirId>, Seq<HirId>),
)
    requires
        id < n <= usize::MAX,
    ensures
        table_seq(t.insert(id, c), n) == table_seq(t, n).update(id as int, Some(c)),
{
    assert(table_seq(t.insert(id, c), n) =~= table_seq(t, n).update(id as int, Some(c)));
}

/// Removing the class of an Id below `n` clears that position.
proof fn lemma_table_remove(t: Map<usize, (Seq<HirId>, Seq<HirId>)>, n: nat, id: usize)
    requires
        id < n <= usize::MAX,
    ensures
        table_seq(t.remove(id), n) == table_seq(t, n).update(id as int, None),
{
    assert(table_seq(t.remove(id), n) =~= table_seq(t, n).update(id as int, None));
}

/// Inserting a class under Id `n` extends the table by one position.
proof fn lemma_table_push(t: Map<usize, (Seq<HirId>, Seq<HirId>)>, n: nat, c: (Seq<HirId>, Seq<HirId>))
    requires
        n < usize::MAX,
        forall|key: usize| #[trigger] t.contains_key(key) ==> key < n,
    ensures
        table_seq(t.insert(n as usize, c), n + 1) == table_seq(t, n).push(Some(c)),
{
    assert(table_seq(t.insert(n as usize, c), n + 1) =~= table_seq(t, n).push(Some(c)));
}

impl Graph {
    /// The number of ids in the graph.
    pub closed spec fn len(&self) -> nat {
        self.parent@.len()
    }

    /// The classes of the graph, by Id.
    pub closed spec fn qs(&self) -> Seq<Option<(Seq<HirId>, Seq<HirId>)>> {
        table_seq(class_entries(self.qspace), self.parent@.len())
    }

    /// The model of the graph.
    pub closed spec fn model(&self) -> GraphModel {
        GraphModel {
            roots: Seq::new(self.parent@.len(), |i: int| root_in(self.parent@, i)),
            terms: self.ty_map@.map_values(|t: Term<HirId>| term_key(t)),
            classes: self.qs(),
            work: self.work@,
            entries: id_map_entries(self.id_map),
        }
    }

    /// The invariant of a graph: its structure, and congruence restored up to
    /// the pending parents.
    pub closed spec fn wf(&self) -> bool {
        self.wf_core() && congruence_inv(self.model())
    }

    /// The structural invariant of a graph.
    pub closed spec fn wf_core(&self) -> bool {
        let n = self.parent@.len();
        &&& n <= usize::MAX
        &&& self.ty_map@.len() == n
        &&& forall|key: usize| #[trigger] class_entries(self.qspace).contains_key(key) ==> key < n
        &&& forest(self.parent@)
        &&& forall|i: int| 0 <= i < n ==> (#[trigger] self.qs()[i] is Some) == (self.parent@[i]@ == i)
        &&& forall|i: int| 0 <= i < n ==> class_bounded(#[trigger] self.qs()[i], self.parent@, i)
        &&& forall|i: int, k: int|
            0 <= i < n && 0 <= k < self.ty_map@[i].args@.len() ==> #[trigger] self.ty_map@[i].args@[k]@ < i
        &&& model_wf(self.model())
        &&& forall|k: int| 0 <= k < self.work@.len() ==> #[trigger] self.work@[k]@ < n
    }
}

impl Graph {
    /// A valid graph is structurally sound, and its model has one entry per Id.
    pub proof fn lemma_wf_core(&self)
        requires
            self.wf(),
        ensures
            self.wf_core(),
            self.len() == self.model().roots.len(),
            model_wf(self.model()),
    {
        self.lemma_model_wf();
    }

    /// The invariant of a graph guarantees the facts of [`model_wf`].
    pub proof fn lemma_model_wf(&self)
        requires
            self.wf_core(),
        ensures
            model_wf(self.model()),
            self.model().roots.len() == self.len(),
    {
        let m = self.model();
        let n = self.len();
        assert forall|i: int| 0 <= i < n implies 0 <= #[trigger] m.roots[i] <= i && m.roots[m.roots[i]]
            == m.roots[i] by {
            lemma_root_in(self.parent@, i);
        }
        assert forall|i: int, k: int| 0 <= i < n && 0 <= k < m.terms[i].1.len() implies #[trigger] m.terms[i].1[k]
            < i by {
            assert(m.terms[i].1[k] == self.ty_map@[i].args@[k]@);
        }
    }
}

impl Graph {
    /// Constructs a new, empty graph.
    pub fn new() -> (g: Graph)
        ensures
            g.wf(),
            g.wf_core(),
            g.len() == 0,
            g.model() == empty_model(),
    {
        let g = Graph {
            parent: Vec::new(),
            ty_map: Vec::new(),
            id_map: id_map_new(),
            qspace: class_table_new(),
            work: Vec::new(),
        };
        proof {
            let m = g.model();
            assert(m.roots =~= Seq::<int>::empty());
            assert(m.terms =~= Seq::<TermKey>::empty());
            assert(m.classes =~= Seq::<Option<(Seq<HirId>, Seq<HirId>)>>::empty());
            assert(m.work =~= Seq::<HirId>::empty());
            assert(m.entries =~= Map::<TermKey, usize>::empty());
        }
        g
    }

    /// Find the root (minimal) equivalent expression, halving the path on the way.
    pub fn find(&mut self, cur_id: HirId) -> (root: HirId)
        requires
            old(self).wf_core(),
            cur_id@ < old(self).len(),
        ensures
            final(self).wf_core(),
            old(self).wf() ==> final(self).wf(),
            root@ == old(self).model().roots[cur_id@ as int],
            root@ <= cur_id@,
            final(self).len() == old(self).len(),
            final(self).model() == old(self).model(),
        decreases cur_id@,
    {
        proof {
            lemma_root_in(self.parent@, cur_id@ as int);
        }
        if cur_id != self.parent[cur_id.0] {
            let path_id = self.parent[cur_id.0];
            let grand = self.parent[path_id.0];
            let ghost before = self.parent@;
            proof {
                assert forall|i: int| 0 <= i < before.len() implies root_in(
                    before.update(cur_id@ as int, before[before[cur_id@ as int]@ as int]),
                    i,
                ) == root_in(before, i) by {
                    lemma_halve(before, cur_id@ as int, i);
                }
                lemma_halve(before, cur_id@ as int, 0);
            }
            self.parent.set(cur_id.0, grand);
            proof {
                assert(self.parent@ == before.update(cur_id@ as int, before[before[cur_id@ as int]@ as int]));
                assert(self.model().roots =~= old(self).model().roots);
                assert(self.model() == old(self).model());
            }
            self.find(path_id)
        } else {
            cur_id
        }
    }

    /// Find the root of `cur_id` without changing the graph.
    pub(crate) fn search(&self, cur_id: HirId) -> (root: HirId)
        requires
            self.wf_core(),
            cur_id@ < self.len(),
        ensures
            root@ == self.model().roots[cur_id@ as int],
    {
        let mut cur_id = cur_id;
        let ghost start = cur_id@ as int;
        while cur_id != self.parent[cur_id.0]
            invariant
                self.wf_core(),
                cur_id@ < self.len(),
                root_in(self.parent@, cur_id@ as int) == root_in(self.parent@, start),
            decreases cur_id@,
        {
            cur_id = self.parent[cur_id.0];
        }
        cur_id
    }

    /// Replace each child of `ty` by its representative.
    fn canonalize(&mut self, ty: Term<HirId>) -> (r: Term<HirId>)
        requires
            old(self).wf_core(),
            forall|k: int| 0 <= k < ty.args@.len() ==> #[trigger] ty.args@[k]@ < old(self).len(),
        ensures
            final(self).wf_core(),
            final(self).len() == old(self).len(),
            final(self).model() == old(self).model(),
            term_key(r) == canon_key(old(self).model(), term_key(ty)),
            forall|k: int| 0 <= k < r.args@.len() ==> #[trigger] r.args@[k]@ < old(self).len(),
    {
        let ghost m0 = self.model();
        let mut args: Vec<HirId> = Vec::new();
        let mut k: usize = 0;
        while k < ty.args.len()
            invariant
                self.wf_core(),
                self.len() == old(self).len(),
                self.model() == m0,
                m0 == old(self).model(),
                k <= ty.args@.len(),
                args@.len() == k,
                forall|j: int| 0 <= j < ty.args@.len() ==> #[trigger] ty.args@[j]@ < old(self).len(),
                forall|j: int|
                    0 <= j < k ==> #[trigger] args@[j]@ == m0.roots[ty.args@[j]@ as int] && args@[j]@
                        < old(self).len(),
            decreases ty.args@.len() - k,
        {
            let root = self.find(ty.args[k]);
            proof {
                assert(old(self).model().roots[ty.args@[k as int]@ as int] == root_in(
                    old(self).parent@,
                    ty.args@[k as int]@ as int,
                ));
            }
            args.push(root);
            k = k + 1;
        }
        let r = Term { op: ty.op, args };
        assert(ids(r.args@) =~= canon_key(m0, term_key(ty)).1);
        r
    }

    /// Store a term that is not in the graph yet under a fresh Id.
    #[verifier::spinoff_prover]
    fn new_id(&mut self, ty: Term<HirId>) -> (id: HirId)
        requires
            old(self).wf(),
            !old(self).model().entries.contains_key(term_key(ty)),
            forall|k: int|
                0 <= k < ty.args@.len() ==> #[trigger] ty.args@[k]@ < old(self).len() && old(
                    self,
                ).model().roots[ty.args@[k]@ as int] == ty.args@[k]@,
        ensures
            final(self).wf(),
            final(self).len() == old(self).len() + 1,
            id@ == old(self).len(),
            final(self).model() == add_model(old(self).model(), term_key(ty), id),
    {
        let ghost m0 = self.model();
        let ghost n = self.len() as int;
        let ghost qold = self.qs();
        let ghost told = class_entries(self.qspace);
        let next_id = HirId(self.ty_map.len());
        proof {
            assert forall|i: int| 0 <= i <= n implies root_in(self.parent@.push(next_id), i) == if i
                < n {
                root_in(self.parent@, i)
            } else {
                i
            } by {
                lemma_push_root(self.parent@, next_id, i);
            }
            lemma_push_root(self.parent@, next_id, 0);
        }
        self.parent.push(next_id);
        self.ty_map.push(ty.duplicate());
        id_map_insert(&mut self.id_map, ty.duplicate(), next_id);
        let class = HirClass { nodes: vec![next_id], pdeps: Vec::new() };
        let ghost cv = class@;
        class_table_insert(&mut self.qspace, next_id, class);
        proof {
            assert(self.parent@.len() == n + 1);
            assert(self.parent.len() as int == self.parent@.len());
            lemma_table_push(told, n as nat, cv);
            assert(self.qs() == qold.push(Some(cv)));
            assert(class_bounded(self.qs()[n], self.parent@, n));
            lemma_classes_bounded(qold, old(self).parent@, self.qs(), self.parent@);
            let m1 = self.model();
            let ma = add_model_upto(m0, term_key(ty), next_id, 0);
            assert(m1.roots =~= ma.roots);
            assert(m1.terms =~= ma.terms);
            assert forall|i: int| 0 <= i < n + 1 implies #[trigger] m1.classes[i] == ma.classes[i] by {
                if i < n {
                    match m0.classes[i] {
                        Some(c) => {
                            assert(c.1 + Seq::new(0, |j: int| next_id) =~= c.1);
                        },
                        None => {},
                    }
                }
            }
            assert(m1.classes =~= ma.classes);
            assert(m1 == ma);
            assert(self.parent.len() as int == self.parent@.len());
            assert forall|j: int| 0 <= j < term_key(ty).1.len() implies #[trigger] term_key(ty).1[j] < n
                && m0.roots[term_key(ty).1[j] as int] == term_key(ty).1[j] by {
                assert(term_key(ty).1[j] == ty.args@[j]@);
            }
            lemma_add_model_wf(m0, term_key(ty), next_id, 0);
            assert(self.wf_core());
        }
        let mut k: usize = 0;
        while k < ty.args.len()
            invariant
                self.wf_core(),
                model_wf(m0),
                congruence_inv(m0),
                m0.roots.len() < usize::MAX,
                !m0.entries.contains_key(term_key(ty)),
                forall|j: int|
                    0 <= j < term_key(ty).1.len() ==> #[trigger] term_key(ty).1[j] < n && m0.roots[term_key(
                        ty,
                    ).1[j] as int] == term_key(ty).1[j],
                self.len() == n + 1,
                next_id@ == n,
                m0.roots.len() == n,
                k <= ty.args@.len(),
                forall|j: int| 0 <= j < ty.args@.len() ==> #[trigger] ty.args@[j]@ < n,
                self.model() == add_model_upto(m0, term_key(ty), next_id, k as int),
            decreases ty.args@.len() - k,
        {
            let ghost mk = self.model();
            let node = self.find(ty.args[k]);
            let ghost r = node@ as int;
            proof {
                assert(mk.roots[ty.args@[k as int]@ as int] == root_in(
                    self.parent@,
                    ty.args@[k as int]@ as int,
                ));
                lemma_root_in(self.parent@, ty.args@[k as int]@ as int);
            }
            let ghost q0 = self.qs();
            let ghost t0 = class_entries(self.qspace);
            assert(q0 == mk.classes);
            assert(q0[r] is Some);
            assert(t0.contains_key(node@));
            let taken = class_table_remove(&mut self.qspace, node);
            match taken {
                Some(mut class) => {
                    class.pdeps.push(next_id);
                    let ghost cv = class@;
                    class_table_insert(&mut self.qspace, node, class);
                    proof {
                        lemma_table_remove(t0, (n + 1) as nat, node@);
                        lemma_table_insert(t0.remove(node@), (n + 1) as nat, node@, cv);
                        assert(self.qs() == q0.update(r, Some(cv)));
                    }
                },
                None => {
                    assert(false);
                },
            }
            proof {
                let cr = (nodes_of(q0[r]), pdeps_of(q0[r]).push(next_id));
                assert(self.qs() == q0.update(r, Some(cr)));
                assert(class_bounded(q0[r], self.parent@, r));
                assert(class_bounded(self.qs()[r], self.parent@, r));
                lemma_classes_bounded(q0, self.parent@, self.qs(), self.parent@);
                let key = term_key(ty);
                let m2 = self.model();
                let ma = add_model_upto(m0, key, next_id, k + 1);
                assert(key.1.take(k + 1).drop_last() =~= key.1.take(k as int));
                assert(key.1[k as int] == ty.args@[k as int]@);
                assert(key.1.take(k + 1).last() == key.1[k as int]);
                assert forall|i: int| 0 <= i < n implies #[trigger] dep_count(m0, key.1.take(k + 1), i)
                    == dep_count(m0, key.1.take(k as int), i) + if i == r {
                    1nat
                } else {
                    0nat
                } by {}
                assert(m2.classes.len() == n + 1);
                assert(m0.roots[ty.args@[k as int]@ as int] == r);
                assert forall|i: int| 0 <= i < n + 1 implies #[trigger] m2.classes[i] == ma.classes[i] by {
                    if i < n {
                        match m0.classes[i] {
                            Some(c) => {
                                let before = dep_count(m0, key.1.take(k as int), i);
                                if i == r {
                                    assert(c.1 + Seq::new(before + 1, |j: int| next_id) =~= (c.1
                                        + Seq::new(before, |j: int| next_id)).push(next_id));
                                }
                            },
                            None => {},
                        }
                    }
                }
                assert(m2.classes =~= ma.classes);
                assert(m2.roots =~= ma.roots);
                assert(m2 == ma);
                lemma_add_model_wf(m0, key, next_id, k + 1);
            }
            k = k + 1;
        }
        proof {
            assert(term_key(ty).1.take(k as int) =~= term_key(ty).1);
            lemma_add_congruence(m0, term_key(ty), next_id);
        }
        next_id
    }

    /// Insert an expression and return its unique Id.
    pub(crate) fn insert(&mut self, ty: Term<HirId>) -> (id: HirId)
        requires
            old(self).wf(),
            forall|k: int| 0 <= k < ty.args@.len() ==> #[trigger] ty.args@[k]@ < old(self).len(),
        ensures
            final(self).wf(),
            final(self).wf_core(),
            id@ == insert_result(old(self).model(), term_key(ty)),
            final(self).model() == insert_model(old(self).model(), term_key(ty), id),
            final(self).len() == final(self).model().roots.len(),
            forall|i: int|
                0 <= i < old(self).len() && old(self).model().work.len() == 0 && #[trigger] ck(
                    old(self).model(),
                    i,
                ) == canon_key(old(self).model(), term_key(ty)) ==> id@ == old(self).model().roots[i]
                    && final(self).model() == old(self).model(),
    {
        let ghost m0 = self.model();
        proof {
            if m0.work.len() == 0 {
                lemma_congruent(m0);
                assert forall|i: int|
                    0 <= i < m0.roots.len() && #[trigger] ck(m0, i) == canon_key(m0, term_key(ty)) implies m0.entries.contains_key(
                    canon_key(m0, term_key(ty)),
                ) && m0.roots[m0.entries[canon_key(m0, term_key(ty))] as int] == m0.roots[i] by {
                    assert(!pending(m0, i));
                    assert(settled(m0, i));
                }
            }
        }
        let ghost ty0 = ty;
        let ty = self.canonalize(ty);
        proof {
            assert(model_wf(m0));
            assert forall|k: int| 0 <= k < ty.args@.len() implies #[trigger] ty.args@[k]@ < m0.roots.len()
                && m0.roots[ty.args@[k]@ as int] == ty.args@[k]@ by {
                assert(term_key(ty).1[k] == ty.args@[k]@);
                assert(term_key(ty) == canon_key(m0, term_key(ty0)));
                assert(ids(ty.args@).len() == ty.args@.len());
                assert(ty.args@.len() == ty0.args@.len());
                let y = ty0.args@[k]@ as int;
                assert(term_key(ty0).1[k] == y);
                assert(y < m0.roots.len());
                assert(term_key(ty).1[k] == m0.roots[y] as usize);
                assert(0 <= m0.roots[y] <= y);
                assert(m0.roots[m0.roots[y]] == m0.roots[y]);
            }
        }
        match id_map_get(&self.id_map, &ty) {
            Some(cur_id) => {
                proof {
                    assert(m0.entries.contains_key(term_key(ty)));
                    assert(key_of(m0, term_key(ty), cur_id@ as int));
                    assert(self.model().roots[cur_id@ as int] == root_in(self.parent@, cur_id@ as int));
                }
                self.find(cur_id)
            },
            None => self.new_id(ty),
        }
    }

    /// Lower an expression into the graph, sharing every sub-expression that
    /// the graph already represents.
    #[verifier::spinoff_prover]
    fn lower_ref(&mut self, expr: &Expr) -> (id: HirId)
        requires
            old(self).wf(),
        ensures
            final(self).wf(),
            (final(self).model(), id@ as int) == lower_model(old(self).model(), expr.model()),
            extends(final(self).model(), old(self).model()),
            lookup(final(self).model(), expr.model()) == Some(id@ as int),
            lookup(old(self).model(), expr.model()) is Some ==> final(self).model() == old(self).model(),
            forall|i: int|
                old(self).model().roots.len() <= i < final(self).model().roots.len()
                    ==> #[trigger] final(self).model().roots[i] == i,
        decreases expr,
    {
        let ghost m0 = self.model();
        let ghost e = expr.model();
        proof {
            self.lemma_model_wf();
        }
        let mut ids: Vec<HirId> = Vec::new();
        let mut k: usize = 0;
        while k < expr.args.len()
            invariant
                self.wf(),
                model_wf(m0),
                m0 == old(self).model(),
                e == expr.model(),
                extends(self.model(), m0),
                k <= expr.args@.len(),
                ids@.len() == k,
                forall|j: int|
                    0 <= j < k ==> lookup(self.model(), #[trigger] expr.args@[j].model()) == Some(
                        ids@[j]@ as int,
                    ),
                lookup(m0, e) is Some ==> self.model() == m0,
                lower_args_model(m0, e, k as int).0 == self.model(),
                lower_args_model(m0, e, k as int).1 == Seq::new(k as nat, |j: int| ids@[j]@ as int),
                forall|i: int| m0.roots.len() <= i < self.model().roots.len() ==> #[trigger] self.model().roots[i] == i,
            decreases expr.args@.len() - k,
        {
            let ghost mk = self.model();
            proof {
                self.lemma_model_wf();
                assert(e.args[k as int] == expr.args@[k as int].model());
                if lookup(m0, e) is Some {
                    assert(lookup_kids(m0, e)[k as int] is Some);
                }
            }
            let child = self.lower_ref(&expr.args[k]);
            proof {
                assert forall|j: int| 0 <= j < k implies lookup(
                    self.model(),
                    #[trigger] expr.args@[j].model(),
                ) == Some(ids@[j]@ as int) by {
                    lemma_lookup_extends(mk, self.model(), expr.args@[j].model());
                }
                lemma_extends_trans(m0, mk, self.model());
                assert forall|i: int| m0.roots.len() <= i < self.model().roots.len() implies #[trigger] self.model().roots[i]
                    == i by {
                    if i < mk.roots.len() {
                        assert(mk.roots[i] == i);
                    }
                }
            }
            ids.push(child);
            k = k + 1;
            proof {
                assert(Seq::new(k as nat, |j: int| ids@[j]@ as int) =~= lower_args_model(m0, e, k - 1).1.push(
                    child@ as int,
                ));
            }
        }
        let ghost m1 = self.model();
        let ghost kids = lookup_kids(m1, e);
        proof {
            self.lemma_model_wf();
            assert forall|j: int| 0 <= j < ids@.len() implies #[trigger] kids[j] == Some(ids@[j]@ as int)
                && ids@[j]@ < self.len() && m1.roots[ids@[j]@ as int] == ids@[j]@ by {
                assert(e.args[j] == expr.args@[j].model());
                lemma_lookup_root(m1, e.args[j]);
            }
        }
        let term = Term { op: expr.op, args: ids };
        let ghost key = term_key(term);
        proof {
            assert(term.args@ == ids@);
            assert forall|j: int| 0 <= j < term.args@.len() implies #[trigger] term.args@[j]@ < self.len()
                && m1.roots[term.args@[j]@ as int] == term.args@[j]@ && key.1[j] == term.args@[j]@ by {
                assert(kids[j] == Some(ids@[j]@ as int));
            }
            assert(canon_key(m1, key).1 =~= key.1);
            assert(canon_key(m1, key) =~= key);
            assert(key.1 =~= Seq::new(kids.len(), |j: int| kids[j]->0 as usize));
            assert(lookup(m1, e) == lookup_node(m1, e.op, kids));
        }
        let id = self.insert(term);
        proof {
            let m2 = self.model();
            let r = lower_args_model(m0, e, e.args.len() as int);
            assert(r.1.len() == ids@.len());
            assert(Seq::new(r.1.len(), |j: int| r.1[j] as usize) =~= key.1);
            lemma_fresh_id(m1.roots.len());
            if !m1.entries.contains_key(canon_key(m1, key)) {
                assert(id == fresh_id(m1.roots.len()));
            }
            if !m1.entries.contains_key(key) {
                lemma_add_extends(m1, key, id);
                assert forall|j: int| 0 <= j < kids.len() implies #[trigger] lookup_kids(m2, e)[j]
                    == kids[j] by {
                    assert(kids[j] == lookup(m1, e.args[j]));
                    assert(kids[j] == Some(ids@[j]@ as int));
                    lemma_lookup_extends(m1, m2, e.args[j]);
                }
                assert(lookup_kids(m2, e) =~= kids);
                lemma_extends_trans(m0, m1, m2);
            }
            assert forall|i: int| m0.roots.len() <= i < m2.roots.len() implies #[trigger] m2.roots[i] == i by {
                if i < m1.roots.len() {
                    assert(m1.roots[i] == i);
                }
            }
        }
        id
    }

    /// Lower an expression into IR.
    pub fn lower(&mut self, expr: Expr) -> (id: HirId)
        requires
            old(self).wf(),
        ensures
            final(self).wf(),
            final(self).wf_core(),
            final(self).len() == final(self).model().roots.len(),
            old(self).len() <= final(self).len(),
            id@ < final(self).len(),
            final(self).model().roots[id@ as int] == id@,
            forall|i: int| old(self).len() <= i < final(self).len() ==> #[trigger] final(self).model().roots[i] == i,
            forall|i: int|
                0 <= i < old(self).len() ==> #[trigger] extract(final(self).model(), i) == extract(
                    old(self).model(),
                    i,
                ),
            (forall|i: int| 0 <= i < old(self).len() ==> #[trigger] old(self).model().roots[i] == i) ==> extract(
                final(self).model(),
                id@ as int,
            ) == expr.model(),
            (final(self).model(), id@ as int) == lower_model(old(self).model(), expr.model()),
            extends(final(self).model(), old(self).model()),
            lookup(final(self).model(), expr.model()) == Some(id@ as int),
            lookup(old(self).model(), expr.model()) is Some ==> final(self).model() == old(self).model()
                && lookup(old(self).model(), expr.model()) == Some(id@ as int),
            forall|i: int|
                0 <= i < old(self).len() && old(self).model().work.len() == 0 && kids_known(
                    old(self).model(),
                    expr.model(),
                ) && #[trigger] ck(old(self).model(), i) == node_key(old(self).model(), expr.model())
                    ==> id@ == old(self).model().roots[i] && final(self).model() == old(self).model(),
    {
        let ghost m0 = self.model();
        let ghost e = expr.model();
        proof {
            if m0.work.len() == 0 && kids_known(m0, e) {
                assert forall|i: int|
                    0 <= i < m0.roots.len() && #[trigger] ck(m0, i) == node_key(m0, e) implies lookup(m0, e)
                    == Some(m0.roots[i]) by {
                    assert(!pending(m0, i));
                    assert(settled(m0, i));
                }
            }
            self.lemma_model_wf();
        }
        let id = self.lower_ref(&expr);
        proof {
            let m1 = self.model();
            self.lemma_model_wf();
            lemma_lookup_root(m1, e);
            assert forall|i: int| 0 <= i < m0.roots.len() implies #[trigger] extract(m1, i) == extract(m0, i) by {
                lemma_extract_extends(m0, m1, i);
            }
            if forall|i: int| 0 <= i < m0.roots.len() ==> #[trigger] m0.roots[i] == i {
                assert forall|i: int| 0 <= i < m1.roots.len() implies #[trigger] m1.roots[i] == i by {
                    if i < m0.roots.len() {
                        assert(m0.roots[i] == i);
                    }
                }
                self.law_read_back(e);
            }
        }
        id
    }

    /// Instantiate an expression from IR.
    pub fn inst(&self, cur_id: HirId) -> (e: Expr)
        requires
            self.wf(),
            cur_id@ < self.len(),
        ensures
            e.model() == extract(self.model(), cur_id@ as int),
        decreases cur_id@,
    {
        let ghost m = self.model();
        let term = &self.ty_map[cur_id.0];
        let mut args: Vec<Expr> = Vec::new();
        let mut k: usize = 0;
        while k < term.args.len()
            invariant
                self.wf(),
                m == self.model(),
                cur_id@ < self.len(),
                *term == self.ty_map@[cur_id@ as int],
                k <= term.args@.len(),
                args@.len() == k,
                forall|j: int|
                    0 <= j < k ==> #[trigger] args@[j].model() == extract(m, term.args@[j]@ as int),
            decreases term.args@.len() - k,
        {
            assert(term.args@[k as int]@ < cur_id@);
            let sub = self.inst(term.args[k]);
            args.push(sub);
            k = k + 1;
        }
        let e = Type::inst(Term { op: term.op, args });
        proof {
            let x = extract(m, cur_id@ as int);
            assert(m.terms[cur_id@ as int] == term_key(*term));
            assert forall|j: int| 0 <= j < e.args@.len() implies #[trigger] e.model().args[j] == x.args[j] by {
                assert(term.args@[j]@ < cur_id@);
                assert(m.terms[cur_id@ as int].1[j] == term.args@[j]@);
                assert(e.args@[j] == args@[j]);
                assert(e.model().args[j] == args@[j].model());
            }
            assert(e.model().args =~= x.args);
        }
        e
    }

    /// Restore invariants: revisit every pending parent, merging it with the
    /// class that already holds its canonical form, or recording that form
    /// under the parent, then drop the merged parents from the nodes of their
    /// classes. Afterwards terms with the same operator and equivalent
    /// children are equivalent.
    #[verifier::spinoff_prover]
    pub fn update(&mut self)
        requires
            old(self).wf(),
        ensures
            final(self).wf(),
            final(self).wf_core(),
            final(self).len() == old(self).len(),
            final(self).model() == update_model(old(self).model()),
            final(self).model().work.len() == 0,
            final(self).model().terms == old(self).model().terms,
            forall|key: TermKey| #[trigger]
                old(self).model().entries.contains_key(key) ==> final(self).model().entries.contains_key(key)
                    && final(self).model().entries[key] == old(self).model().entries[key],
            congruent(final(self).model()),
            forall|i: int, j: int|
                0 <= i < old(self).len() && 0 <= j < old(self).len() ==> (#[trigger] final(self).model().roots[i]
                    == #[trigger] final(self).model().roots[j] <==> cc_equiv(old(self).model(), i, j)),
            forall|x: int, y: int|
                0 <= x < old(self).len() && 0 <= y < old(self).len() && old(self).model().roots[x]
                    == old(self).model().roots[y] ==> #[trigger] final(self).model().roots[x]
                    == #[trigger] final(self).model().roots[y],
    {
        let ghost m0 = self.model();
        proof {
            self.lemma_model_wf();
        }
        let ghost target = rebuild(m0, Set::<usize>::empty());
        let n = self.ty_map.len();
        // The congruence tracker: the parents merged by this rebuild.
        let mut cong = id_set_new();
        while self.work.len() > 0
            invariant
                self.wf(),
                self.len() == n,
                rebuild(self.model(), id_set_entries(cong)) == target,
                self.model().terms == m0.terms,
                forall|key: TermKey| #[trigger]
                    m0.entries.contains_key(key) ==> self.model().entries.contains_key(key)
                        && self.model().entries[key] == m0.entries[key],
                m0.roots.len() == n,
                forall|x: int, y: int|
                    0 <= x < n && 0 <= y < n && m0.roots[x] == m0.roots[y] ==> #[trigger] self.model().roots[x]
                        == #[trigger] self.model().roots[y],
                forall|r: spec_fn(int) -> int| #[trigger] closed_under(m0, r) ==> finer(self.model(), r),
            decreases num_classes(self.model()), self.work@.len(),
        {
            let ghost mb = self.model();
            let ghost cb = id_set_entries(cong);
            proof {
                self.lemma_model_wf();
                lemma_rebuild_step_decreases(mb, cb);
                lemma_rebuild_step_inv(mb, cb);
                assert forall|r: spec_fn(int) -> int| #[trigger] closed_under(m0, r) implies finer(
                    rebuild_step(mb, cb).0,
                    r,
                ) by {
                    lemma_rebuild_step_finer(mb, cb, r);
                }
            }
            let dep_id = self.work.pop().unwrap();
            proof {
                assert(dep_id@ < n);
                assert(self.model() == GraphModel { work: mb.work.drop_last(), ..mb });
            }
            let ty = self.ty_map[dep_id.0].duplicate();
            proof {
                assert(term_key(ty) == self.model().terms[dep_id@ as int]);
                assert forall|k: int| 0 <= k < ty.args@.len() implies #[trigger] ty.args@[k]@ < self.len() by {
                    assert(ty.args@[k] == self.ty_map@[dep_id@ as int].args@[k]);
                }
            }
            let ghost m1 = self.model();
            let ty = self.canonalize(ty);
            match id_map_get(&self.id_map, &ty) {
                Some(class_id) => {
                    if class_id != dep_id {
                        id_set_insert(&mut cong, dep_id);
                        self.union(class_id, dep_id);
                        proof {
                            lemma_union_coarsens(m1, class_id@ as int, dep_id@ as int);
                        }
                    }
                },
                None => {
                    proof {
                        lemma_record_model_wf(m1, dep_id@ as int);
                    }
                    id_map_insert(&mut self.id_map, ty, dep_id);
                },
            }
            proof {
                assert(self.model() == rebuild_step(mb, cb).0);
                assert(id_set_entries(cong) == rebuild_step(mb, cb).1);
            }
        }
        let ghost marked = id_set_entries(cong);
        proof {
            self.lemma_model_wf();
            assert(rebuild_ok(self.model()));
            assert(self.model() == target.0);
            assert(marked == target.1);
        }
        let ghost m1 = self.model();
        let mut i: usize = 0;
        while i < n
            invariant
                self.wf(),
                self.len() == n,
                i <= n,
                marked == id_set_entries(cong),
                self.model().roots == m1.roots,
                self.model().terms == m1.terms,
                self.model().work == m1.work,
                self.model().entries == m1.entries,
                m1.classes.len() == n,
                congruence_inv(m1),
                model_wf(m1),
                forall|j: int| 0 <= j < n ==> pdeps_of(#[trigger] self.model().classes[j]) == pdeps_of(m1.classes[j]),
                forall|j: int| 0 <= j < i ==> #[trigger] self.model().classes[j] == strip_classes(m1.classes, marked)[j],
                forall|j: int| i <= j < n ==> #[trigger] self.model().classes[j] == m1.classes[j],
            decreases n - i,
        {
            let ghost q0 = self.qs();
            let ghost t0 = class_entries(self.qspace);
            assert(q0 == self.model().classes);
            assert forall|j: int| 0 <= j < i implies #[trigger] q0[j] == strip_classes(m1.classes, marked)[j] by {}
            assert forall|j: int| i <= j < n implies #[trigger] q0[j] == m1.classes[j] by {}
            let ghost ci = q0[i as int];
            assert(ci == m1.classes[i as int]);
            let id = HirId(i);
            let taken = class_table_remove(&mut self.qspace, id);
            match taken {
                Some(class) => {
                    let nodes = keep_unmarked(&class.nodes, &cong);
                    assert(ci == Some((class.nodes@, class.pdeps@)));
                    let ghost cv = (nodes@, class.pdeps@);
                    class_table_insert(&mut self.qspace, id, HirClass { nodes, pdeps: class.pdeps });
                    proof {
                        lemma_table_remove(t0, n as nat, i);
                        lemma_table_insert(t0.remove(i), n as nat, i, cv);
                        assert(self.qs() == q0.update(i as int, Some(cv)));
                        assert forall|k: int| 0 <= k < nodes@.len() implies #[trigger] nodes@[k]@ < n
                            && root_in(self.parent@, nodes@[k]@ as int) == i by {
                            let x = nodes@[k];
                            assert(class.nodes@.contains(x));
                            let kk = choose|kk: int| 0 <= kk < class.nodes@.len() && class.nodes@[kk] == x;
                            assert(nodes_of(q0[i as int])[kk] == x);
                        }
                        assert(class_bounded(q0[i as int], self.parent@, i as int));
                        assert(class_bounded(self.qs()[i as int], self.parent@, i as int));
                    }
                },
                None => {
                    proof {
                        lemma_table_remove(t0, n as nat, i);
                        assert(self.qs() == q0);
                    }
                },
            }
            proof {
                assert forall|j: int| 0 <= j < n && j != i implies #[trigger] self.qs()[j] == q0[j] by {}
                assert(self.model().classes[i as int] == strip_classes(m1.classes, marked)[i as int]);
                assert forall|j: int| 0 <= j < i + 1 implies #[trigger] self.model().classes[j]
                    == strip_classes(m1.classes, marked)[j] by {
                    if j < i {
                        assert(self.qs()[j] == q0[j]);
                    }
                }
                assert forall|j: int| i + 1 <= j < n implies #[trigger] self.model().classes[j]
                    == m1.classes[j] by {
                    assert(self.qs()[j] == q0[j]);
                }
                lemma_classes_bounded(q0, self.parent@, self.qs(), self.parent@);
                assert forall|j: int| 0 <= j < n implies pdeps_of(#[trigger] self.model().classes[j]) == pdeps_of(
                    m1.classes[j],
                ) by {
                    if j != i {
                        assert(self.qs()[j] == q0[j]);
                    }
                }
                lemma_nodes_only(m1, self.model());
            }
            i = i + 1;
        }
        proof {
            assert(self.model().classes =~= strip_classes(m1.classes, marked));
            lemma_congruent(self.model());
            self.lemma_model_wf();
            assert forall|r: spec_fn(int) -> int| #[trigger] closed_under(m0, r) implies finer(self.model(), r) by {
                assert(finer(m1, r));
            }
            lemma_closure_exact(m0, self.model());
        }
    }

    /// The term stored at an Id.
    pub fn index(&self, id: HirId) -> (t: &Term<HirId>)
        requires
            self.wf(),
            id@ < self.len(),
        ensures
            term_key(*t) == self.model().terms[id@ as int],
    {
        &self.ty_map[id.0]
    }

    /// The number of Ids (expressions) in the graph.
    pub fn size(&self) -> (n: usize)
        ensures
            n == self.len(),
    {
        self.parent.len()
    }

    /// Every class in order of its representative, with the other nodes known
    /// to belong to it.
    pub fn classes(&self) -> (r: Vec<(HirId, Vec<HirId>)>)
        requires
            self.wf(),
        ensures
            r@.len() == class_listing(self.model(), self.len() as int).len(),
            forall|j: int|
                0 <= j < r@.len() ==> (#[trigger] r@[j]).0@ == class_listing(
                    self.model(),
                    self.len() as int,
                )[j].0 && r@[j].1@ == class_listing(self.model(), self.len() as int)[j].1,
    {
        let ghost m = self.model();
        let mut r: Vec<(HirId, Vec<HirId>)> = Vec::new();
        let mut i: usize = 0;
        while i < self.parent.len()
            invariant
                self.wf(),
                m == self.model(),
                i <= self.len(),
                r@.len() == class_listing(m, i as int).len(),
                forall|j: int|
                    0 <= j < r@.len() ==> (#[trigger] r@[j]).0@ == class_listing(m, i as int)[j].0
                        && r@[j].1@ == class_listing(m, i as int)[j].1,
            decreases self.len() - i,
        {
            assert(m.classes[i as int] == self.qs()[i as int]);
            match class_table_get(&self.qspace, HirId(i)) {
                Some(class) => {
                    let mut others: Vec<HirId> = Vec::new();
                    let mut k: usize = 0;
                    while k < class.nodes.len()
                        invariant
                            k <= class.nodes@.len(),
                            others@ == class.nodes@.take(k as int).filter(|h: HirId| h@ != i),
                        decreases class.nodes@.len() - k,
                    {
                        proof {
                            reveal_with_fuel(Seq::filter, 1);
                            assert(class.nodes@.take(k + 1).drop_last() =~= class.nodes@.take(k as int));
                        }
                        if class.nodes[k].0 != i {
                            others.push(class.nodes[k]);
                        }
                        k = k + 1;
                    }
                    assert(class.nodes@.take(k as int) =~= class.nodes@);
                    r.push((HirId(i), others));
                },
                None => {},
            }
            i = i + 1;
        }
        r
    }

    /// Merge two expressions by their union: the class with the larger
    /// representative joins the other, which takes over its nodes and
    /// dependent parents; those parents wait on the worklist for `update`.
    #[verifier::spinoff_prover]
    pub fn union(&mut self, lhs_id: HirId, rhs_id: HirId) -> (r: Option<HirId>)
        requires
            old(self).wf_core(),
            lhs_id@ < old(self).len(),
            rhs_id@ < old(self).len(),
        ensures
            final(self).wf_core(),
            old(self).wf() ==> final(self).wf(),
            final(self).len() == old(self).len(),
            final(self).model() == union_model(old(self).model(), lhs_id@ as int, rhs_id@ as int),
            match r {
                Some(id) => union_result(old(self).model(), lhs_id@ as int, rhs_id@ as int) == Some(
                    id@ as int,
                ),
                None => union_result(old(self).model(), lhs_id@ as int, rhs_id@ as int) is None,
            },
            r is None <==> old(self).model().roots[lhs_id@ as int] == old(self).model().roots[rhs_id@ as int],
    {
        let ghost m0 = self.model();
        let lhs_root = self.find(lhs_id);
        let rhs_root = self.find(rhs_id);
        let ghost before = self.parent@;
        proof {
            assert(self.model() == m0);
            assert forall|i: int| 0 <= i < before.len() implies root_in(before, i) == m0.roots[i] by {
                assert(self.model().roots[i] == m0.roots[i]);
            }
            lemma_root_in(before, lhs_id@ as int);
            lemma_root_in(before, rhs_id@ as int);
        }
        if lhs_root != rhs_root {
            let (lo, hi) = if lhs_root.0 > rhs_root.0 {
                (rhs_root, lhs_root)
            } else {
                (lhs_root, rhs_root)
            };
            proof {
                assert forall|i: int| 0 <= i < before.len() implies root_in(
                    before.update(hi@ as int, lo),
                    i,
                ) == (if root_in(before, i) == hi@ {
                    lo@ as int
                } else {
                    root_in(before, i)
                }) by {
                    lemma_link(before, lo@ as int, hi@ as int, i);
                }
                lemma_link(before, lo@ as int, hi@ as int, 0);
            }
            let ghost qb = self.qs();
            let ghost tb = class_entries(self.qspace);
            let ghost n = before.len();
            proof {
                assert(qb[hi@ as int] is Some);
                assert(qb[lo@ as int] is Some);
                assert(tb.contains_key(hi@));
                assert(tb.contains_key(lo@));
            }
            self.parent.set(hi.0, lo);
            let rhs_class = class_table_remove(&mut self.qspace, hi);
            let lhs_class = class_table_remove(&mut self.qspace, lo);
            match (rhs_class, lhs_class) {
                (Some(mut rhs_class), Some(mut lhs_class)) => {
                    append_ids(&mut self.work, &rhs_class.pdeps);
                    lhs_class.nodes.append(&mut rhs_class.nodes);
                    lhs_class.pdeps.append(&mut rhs_class.pdeps);
                    let ghost cv = lhs_class@;
                    class_table_insert(&mut self.qspace, lo, lhs_class);
                    proof {
                        lemma_table_remove(tb, n, hi@);
                        lemma_table_remove(tb.remove(hi@), n, lo@);
                        lemma_table_insert(tb.remove(hi@).remove(lo@), n, lo@, cv);
                        assert(cv == (nodes_of(qb[lo@ as int]) + nodes_of(qb[hi@ as int]), pdeps_of(
                            qb[lo@ as int],
                        ) + pdeps_of(qb[hi@ as int])));
                        assert(self.qs() == qb.update(hi@ as int, None).update(lo@ as int, Some(cv)));
                    }
                },
                _ => {
                    assert(false);
                },
            }
            proof {
                let n = before.len() as int;
                let c = self.qs()[lo@ as int];
                assert(class_bounded(qb[lo@ as int], before, lo@ as int));
                assert(class_bounded(qb[hi@ as int], before, hi@ as int));
                let ln = nodes_of(qb[lo@ as int]).len();
                let lp = pdeps_of(qb[lo@ as int]).len();
                assert forall|k: int| 0 <= k < nodes_of(c).len() implies #[trigger] nodes_of(c)[k]@ < n && root_in(
                    self.parent@,
                    nodes_of(c)[k]@ as int,
                ) == lo@ by {
                    if k < ln {
                        assert(nodes_of(c)[k] == nodes_of(qb[lo@ as int])[k]);
                    } else {
                        assert(nodes_of(c)[k] == nodes_of(qb[hi@ as int])[k - ln]);
                    }
                    lemma_link(before, lo@ as int, hi@ as int, nodes_of(c)[k]@ as int);
                }
                assert forall|k: int| 0 <= k < pdeps_of(c).len() implies #[trigger] pdeps_of(c)[k]@ < n by {
                    if k < lp {
                        assert(pdeps_of(c)[k] == pdeps_of(qb[lo@ as int])[k]);
                    } else {
                        assert(pdeps_of(c)[k] == pdeps_of(qb[hi@ as int])[k - lp]);
                    }
                }
                assert(class_bounded(c, self.parent@, lo@ as int));
                assert(class_bounded(self.qs()[hi@ as int], self.parent@, hi@ as int));
                lemma_classes_bounded(qb, before, self.qs(), self.parent@);
                assert(lhs_root@ == m0.roots[lhs_id@ as int]);
                assert(rhs_root@ == m0.roots[rhs_id@ as int]);
                let m1 = self.model();
                let mu = union_model(m0, lhs_id@ as int, rhs_id@ as int);
                assert forall|i: int| 0 <= i < before.len() implies m1.roots[i] == mu.roots[i] by {
                    lemma_link(before, lo@ as int, hi@ as int, i);
                }
                assert(m1.roots =~= mu.roots);
                assert(m1.classes =~= mu.classes);
                assert(m1.work =~= mu.work);
                assert(m1 == mu);
                lemma_union_model_wf(m0, lhs_id@ as int, rhs_id@ as int);
                if congruence_inv(m0) {
                    lemma_union_congruence(m0, lhs_id@ as int, rhs_id@ as int);
                }
                assert(self.wf_core());
            }
            Some(lo)
        } else {
            None
        }
    }
}

impl Default for Graph {
    /// An empty graph.
    fn default() -> (g: Self)
        ensures
            g.wf(),
            g.wf_core(),
            g.len() == 0,
            g.model() == empty_model(),
    {
        Graph::new()
    }
}

impl Graph {
    /// The representative of an Id is the least Id of its class, and is its
    /// own representative.
    pub proof fn law_representative_is_least(&self, x: int, y: int)
        requires
            self.wf(),
            0 <= x < self.len(),
            0 <= y < self.len(),
            self.model().roots[x] == self.model().roots[y],
        ensures
            self.model().roots[x] <= x,
            self.model().roots[x] <= y,
            self.model().roots[self.model().roots[x]] == self.model().roots[x],
    {
        self.lemma_model_wf();
    }

    /// A class is stored exactly at each representative, and every node
    /// recorded in a class has that class's Id as its representative.
    pub proof fn law_class_members(&self)
        requires
            self.wf(),
        ensures
            forall|i: int|
                0 <= i < self.len() ==> (#[trigger] self.model().classes[i] is Some <==> self.model().roots[i]
                    == i),
            forall|i: int, k: int|
                0 <= i < self.len() && self.model().classes[i] is Some && 0 <= k < nodes_at(
                    self.model(),
                    i,
                ).len() ==> #[trigger] nodes_at(self.model(), i)[k]@ < self.len() && self.model().roots[nodes_at(
                    self.model(),
                    i,
                )[k]@ as int] == i,
    {
        let m = self.model();
        assert forall|i: int| 0 <= i < self.len() implies (#[trigger] m.classes[i] is Some <==> m.roots[i]
            == i) by {
            lemma_root_in(self.parent@, i);
        }
        assert forall|i: int, k: int|
            0 <= i < self.len() && m.classes[i] is Some && 0 <= k < nodes_at(m, i).len() implies #[trigger] nodes_at(
            m,
            i,
        )[k]@ < self.len() && m.roots[nodes_at(m, i)[k]@ as int] == i by {
            assert(nodes_at(m, i)[k] == nodes_of(self.qs()[i])[k]);
        }
    }

    /// `union(a, b)` and `union(b, a)` answer the same and leave the same graph.
    pub proof fn law_union_symmetric(&self, a: int, b: int)
        requires
            self.wf(),
            0 <= a < self.len(),
            0 <= b < self.len(),
        ensures
            union_model(self.model(), a, b) == union_model(self.model(), b, a),
            union_result(self.model(), a, b) == union_result(self.model(), b, a),
    {
    }

    /// After `union(a, b)`, two Ids share a class exactly when they did before,
    /// or each was in the class of `a` or of `b`; the answered Id, if any, is
    /// the new representative of both.
    pub proof fn law_union_joins(&self, a: int, b: int)
        requires
            self.wf(),
            0 <= a < self.len(),
            0 <= b < self.len(),
        ensures
            ({
                let m = self.model();
                let m2 = union_model(m, a, b);
                &&& m2.roots[a] == m2.roots[b]
                &&& union_result(m, a, b) matches Some(r) ==> m2.roots[a] == r
                &&& forall|x: int, y: int|
                    0 <= x < m.roots.len() && 0 <= y < m.roots.len() ==> (#[trigger] m2.roots[x]
                        == #[trigger] m2.roots[y] <==> (m.roots[x] == m.roots[y] || ((m.roots[x]
                        == m.roots[a] || m.roots[x] == m.roots[b]) && (m.roots[y] == m.roots[a]
                        || m.roots[y] == m.roots[b]))))
            }),
    {
        self.lemma_model_wf();
    }

    /// `union(a, b)` answers nothing exactly when `a` and `b` already share a
    /// class; otherwise it answers the smaller of their two representatives,
    /// which becomes the representative of both.
    pub proof fn law_union_answer(&self, a: int, b: int)
        requires
            self.wf(),
            0 <= a < self.len(),
            0 <= b < self.len(),
        ensures
            ({
                let m = self.model();
                &&& (union_result(m, a, b) is None <==> m.roots[a] == m.roots[b])
                &&& union_result(m, a, b) matches Some(r) ==> (r == m.roots[a] || r == m.roots[b]) && r
                    <= m.roots[a] && r <= m.roots[b] && union_model(m, a, b).roots[a] == r && union_model(
                    m,
                    a,
                    b,
                ).roots[b] == r
            }),
    {
        self.lemma_model_wf();
    }

    /// What an Id reads back is its stored term, each child read back at its
    /// own position, whatever the classes: a union changes no read-back.
    pub proof fn law_read_back_ignores_classes(&self, a: int, b: int)
        requires
            self.wf(),
            0 <= a < self.len(),
            0 <= b < self.len(),
        ensures
            ({
                let m = self.model();
                &&& forall|i: int|
                    0 <= i < m.roots.len() ==> #[trigger] extract(union_model(m, a, b), i) == extract(m, i)
                &&& forall|i: int, k: int|
                    0 <= i < m.roots.len() && 0 <= k < m.terms[i].1.len() ==> extract(m, i).op == m.terms[i].0
                        && extract(m, i).args.len() == m.terms[i].1.len() && #[trigger] extract(m, i).args[k]
                        == extract(m, m.terms[i].1[k] as int)
            }),
    {
        self.lemma_model_wf();
        let m = self.model();
        assert forall|i: int| 0 <= i < m.roots.len() implies #[trigger] extract(union_model(m, a, b), i) == extract(
            m,
            i,
        ) by {
            lemma_extract_same_terms(m, union_model(m, a, b), i);
        }
        assert forall|i: int, k: int|
            0 <= i < m.roots.len() && 0 <= k < m.terms[i].1.len() implies extract(m, i).op == m.terms[i].0
                && extract(m, i).args.len() == m.terms[i].1.len() && #[trigger] extract(m, i).args[k]
                == extract(m, m.terms[i].1[k] as int) by {
            assert(m.terms[i].1[k] < i);
        }
    }

    /// The class listing that `classes` answers has one entry for each
    /// representative, in increasing order, with the other nodes of its class,
    /// and as many entries as the graph has classes.
    pub proof fn law_class_listing(&self)
        requires
            self.wf(),
        ensures
            ({
                let m = self.model();
                let l = class_listing(m, self.len() as int);
                &&& l.len() == num_classes(m)
                &&& forall|j: int|
                    0 <= j < l.len() ==> 0 <= (#[trigger] l[j]).0 < self.len() && m.roots[l[j].0 as int]
                        == l[j].0 && l[j].1 == nodes_at(m, l[j].0 as int).filter(|h: HirId| h@ != l[j].0 as int)
                &&& forall|j1: int, j2: int| 0 <= j1 < j2 < l.len() ==> (#[trigger] l[j1]).0 < (#[trigger] l[j2]).0
                &&& forall|i: int|
                    0 <= i < self.len() && #[trigger] m.roots[i] == i ==> exists|j: int|
                        0 <= j < l.len() && #[trigger] l[j].0 == i
            }),
    {
        self.lemma_model_wf();
        lemma_class_listing(self.model(), self.len() as int);
    }

    /// `update` drops an Id from the nodes of its class only when another Id
    /// of the same class holds the same canonical form: every other listed Id
    /// stays listed. It changes no read-back.
    pub proof fn law_update_keeps_nodes(&self)
        requires
            self.wf(),
        ensures
            ({
                let m = self.model();
                let mf = update_model(m);
                &&& forall|x: int|
                    0 <= x < m.roots.len() && #[trigger] listed(m, x) ==> listed(mf, x) || has_twin(mf, x)
                &&& forall|i: int| 0 <= i < m.roots.len() ==> #[trigger] extract(mf, i) == extract(m, i)
            }),
    {
        self.lemma_model_wf();
        let m = self.model();
        let n = m.roots.len();
        assert forall|i: int, k: int| 0 <= i < n && 0 <= k < pdeps_at(m, i).len() implies #[trigger] pdeps_at(
            m,
            i,
        )[k]@ < n by {
            assert(class_bounded(self.qs()[i], self.parent@, i));
        }
        assert(rebuild_nodes_ok(m, Set::<usize>::empty()));
        lemma_rebuild_nodes(m, Set::<usize>::empty());
        let r = rebuild(m, Set::<usize>::empty());
        let mf = update_model(m);
        assert forall|x: int| 0 <= x < n && #[trigger] listed(m, x) implies listed(mf, x) || has_twin(mf, x) by {
            assert(listed(r.0, x));
            if r.1.contains(x as usize) {
                assert(has_twin(r.0, x));
                let w = choose|w: int|
                    0 <= w < n && w != x && r.0.roots[w] == r.0.roots[x] && #[trigger] ck(r.0, w) == ck(r.0, x);
                assert(ck(mf, w) == ck(r.0, w));
                assert(ck(mf, x) == ck(r.0, x));
            } else {
                let rt = r.0.roots[x];
                assert(0 <= rt <= x);
                assert(r.0.roots[rt] == rt);
                let s0 = nodes_at(r.0, rt);
                let p = choose|p: int| 0 <= p < s0.len() && #[trigger] s0[p]@ == x;
                assert(r.0.classes[rt] is Some);
                assert(nodes_at(mf, rt) == s0.filter(unmarked(r.1)));
                s0.filter_lemma(unmarked(r.1));
                assert(unmarked(r.1)(s0[p]));
                assert(s0.filter(unmarked(r.1)).contains(s0[p]));
                let q = choose|q: int| 0 <= q < s0.filter(unmarked(r.1)).len() && s0.filter(unmarked(r.1))[q] == s0[p];
                assert(nodes_at(mf, rt)[q]@ == x);
            }
        }
        assert forall|i: int| 0 <= i < n implies #[trigger] extract(mf, i) == extract(m, i) by {
            lemma_extract_same_terms(m, mf, i);
        }
    }

    /// Lowering an expression leaves the same graph, and answers the same Id,
    /// as lowering its children one after another, left to right, and then
    /// the expression itself: Ids are handed out in post-order.
    pub proof fn law_lower_order(&self, e: ExprModel)
        requires
            self.wf(),
            self.len() + expr_size(e) <= usize::MAX,
        ensures
            lower_model(self.model(), e) == lower_model(lower_each(self.model(), e.args), e),
    {
        self.lemma_model_wf();
        law_lower_children_first(self.model(), e);
    }

    /// A second `union(a, b)` answers nothing and changes nothing.
    pub proof fn law_union_idempotent(&self, a: int, b: int)
        requires
            self.wf(),
            0 <= a < self.len(),
            0 <= b < self.len(),
        ensures
            union_result(union_model(self.model(), a, b), a, b) is None,
            union_model(union_model(self.model(), a, b), a, b) == union_model(self.model(), a, b),
    {
        self.lemma_model_wf();
    }

    /// While no two Ids have been merged, reading back the class that
    /// represents an expression gives that expression.
    pub proof fn law_read_back(&self, e: ExprModel)
        requires
            self.wf(),
            forall|i: int| 0 <= i < self.len() ==> #[trigger] self.model().roots[i] == i,
            lookup(self.model(), e) is Some,
        ensures
            extract(self.model(), lookup(self.model(), e)->0) == e,
        decreases e,
    {
        self.lemma_model_wf();
        let m = self.model();
        let kids = lookup_kids(m, e);
        let key = (e.op, Seq::new(kids.len(), |k: int| kids[k]->0 as usize));
        assert(m.entries.contains_key(key));
        let c = m.entries[key] as int;
        assert(m.roots[c] == c);
        assert(m.terms[c] == key);
        let x = extract(m, c);
        assert forall|k: int| 0 <= k < e.args.len() implies #[trigger] x.args[k] == e.args[k] by {
            assert(kids[k] == lookup(m, e.args[k]));
            assert(kids[k] is Some);
            lemma_lookup_root(m, e.args[k]);
            assert(key.1[k] == kids[k]->0);
            assert(m.terms[c].1[k] < c);
            self.law_read_back(e.args[k]);
        }
        assert(x.args =~= e.args);
    }

    /// Every expression is stored under one Id only: two Ids that read back
    /// the same expression are the same Id.
    pub proof fn law_ids_distinct(&self, i: int, j: int)
        requires
            self.wf(),
            0 <= i < self.len(),
            0 <= j < self.len(),
            extract(self.model(), i) == extract(self.model(), j),
        ensures
            i == j,
        decreases i + j,
    {
        self.lemma_model_wf();
        let m = self.model();
        let ti = m.terms[i];
        let tj = m.terms[j];
        assert(extract(m, i).args.len() == ti.1.len());
        assert(extract(m, j).args.len() == tj.1.len());
        assert forall|k: int| 0 <= k < ti.1.len() implies #[trigger] ti.1[k] == tj.1[k] by {
            assert(ti.1[k] < i);
            assert(tj.1[k] < j);
            assert(extract(m, i).args[k] == extract(m, ti.1[k] as int));
            assert(extract(m, j).args[k] == extract(m, tj.1[k] as int));
            self.law_ids_distinct(ti.1[k] as int, tj.1[k] as int);
        }
        assert(ti.1 =~= tj.1);
        assert(m.entries[m.terms[i]] == i);
        assert(m.entries[m.terms[j]] == j);
    }

    /// Once the worklist is empty, `update` changes nothing: restoring the
    /// invariants twice is the same as once.
    pub proof fn law_update_idempotent(&self)
        requires
            self.wf(),
            self.model().work.len() == 0,
        ensures
            update_model(self.model()) == self.model(),
    {
        self.lemma_model_wf();
        let m = self.model();
        assert(rebuild_ok(m));
        assert(rebuild(m, Set::<usize>::empty()) == (m, Set::<usize>::empty()));
        assert forall|i: int| 0 <= i < m.classes.len() implies #[trigger] strip_classes(
            m.classes,
            Set::<usize>::empty(),
        )[i] == m.classes[i] by {
            match m.classes[i] {
                Some(c) => {
                    lemma_unmarked_empty(c.0);
                },
                None => {},
            }
        }
        assert(strip_classes(m.classes, Set::<usize>::empty()) =~= m.classes);
    }
}

} // verus!
