//! The mathematical model of a graph and of the operations on it.
use vstd::prelude::*;

use crate::eq_graph::{fresh_id, HirId, TermKey};
use crate::ty::ExprModel;

verus! {

/// The mathematical state of a graph.
pub struct GraphModel {
    /// The representative of each id.
    pub roots: Seq<int>,
    /// The key of the term stored at each id.
    pub terms: Seq<TermKey>,
    /// The class stored at each id (present exactly at representatives).
    pub classes: Seq<Option<(Seq<HirId>, Seq<HirId>)>>,
    /// The pending parents to revisit.
    pub work: Seq<HirId>,
    /// The hash-consing table.
    pub entries: Map<TermKey, usize>,
}

/// The model of a graph with no Id.
pub open spec fn empty_model() -> GraphModel {
    GraphModel {
        roots: Seq::empty(),
        terms: Seq::empty(),
        classes: Seq::empty(),
        work: Seq::empty(),
        entries: Map::empty(),
    }
}

/// The nodes of the class stored at `i`.
pub open spec fn nodes_at(m: GraphModel, i: int) -> Seq<HirId> {
    nodes_of(m.classes[i])
}

/// The dependent parents of the class stored at `i`.
pub open spec fn pdeps_at(m: GraphModel, i: int) -> Seq<HirId> {
    pdeps_of(m.classes[i])
}

/// The model after linking representative `hi` under representative `lo`:
/// the class of `hi` joins that of `lo`, its nodes and dependent parents after
/// those of `lo`, and its dependent parents also go to the worklist.
pub open spec fn link_model(m: GraphModel, lo: int, hi: int) -> GraphModel {
    GraphModel {
        roots: Seq::new(m.roots.len(), |i: int| if m.roots[i] == hi { lo } else { m.roots[i] }),
        terms: m.terms,
        classes: m.classes.update(hi, None).update(
            lo,
            Some((nodes_at(m, lo) + nodes_at(m, hi), pdeps_at(m, lo) + pdeps_at(m, hi))),
        ),
        work: m.work + pdeps_at(m, hi),
        entries: m.entries,
    }
}

/// The representative `union(a, b)` answers, if the classes of `a` and `b` differ:
/// the smaller of their two representatives.
pub open spec fn union_result(m: GraphModel, a: int, b: int) -> Option<int> {
    let ra = m.roots[a];
    let rb = m.roots[b];
    if ra == rb {
        None
    } else if ra < rb {
        Some(ra)
    } else {
        Some(rb)
    }
}

/// The model after `union(a, b)`.
pub open spec fn union_model(m: GraphModel, a: int, b: int) -> GraphModel {
    let ra = m.roots[a];
    let rb = m.roots[b];
    if ra == rb {
        m
    } else if ra < rb {
        link_model(m, ra, rb)
    } else {
        link_model(m, rb, ra)
    }
}

/// The key of `t` once each child is replaced by its representative.
pub open spec fn canon_key(m: GraphModel, t: TermKey) -> TermKey {
    (t.0, Seq::new(t.1.len(), |k: int| m.roots[t.1[k] as int] as usize))
}

/// How many children in `args` have the representative `r`.
pub open spec fn dep_count(m: GraphModel, args: Seq<usize>, r: int) -> nat
    decreases args.len(),
{
    if args.len() == 0 {
        0
    } else {
        dep_count(m, args.drop_last(), r) + if m.roots[args.last() as int] == r {
            1nat
        } else {
            0nat
        }
    }
}

/// The model after adding the term `t` under the fresh id `fresh`, with `fresh`
/// recorded as a dependent parent for the first `upto` children of `t` only.
pub open spec fn add_model_upto(m: GraphModel, t: TermKey, fresh: HirId, upto: int) -> GraphModel {
    let n = m.roots.len() as int;
    GraphModel {
        roots: m.roots.push(n),
        terms: m.terms.push(t),
        classes: Seq::new(
            (n + 1) as nat,
            |i: int|
                if i == n {
                    Some((seq![fresh], Seq::<HirId>::empty()))
                } else {
                    match m.classes[i] {
                        Some(c) => Some(
                            (c.0, c.1 + Seq::new(dep_count(m, t.1.take(upto), i), |j: int| fresh)),
                        ),
                        None => None,
                    }
                },
        ),
        work: m.work,
        entries: m.entries.insert(t, n as usize),
    }
}

/// The model after adding the term `t` under the fresh id `fresh`: a new
/// singleton class, and `fresh` recorded once per child as a dependent parent
/// of the child's class.
pub open spec fn add_model(m: GraphModel, t: TermKey, fresh: HirId) -> GraphModel {
    add_model_upto(m, t, fresh, t.1.len() as int)
}

/// The Id that `insert` gives the term `t`: the representative of the Id that
/// already holds its canonical form, else the next fresh Id.
pub open spec fn insert_result(m: GraphModel, t: TermKey) -> int {
    let key = canon_key(m, t);
    if m.entries.contains_key(key) {
        m.roots[m.entries[key] as int]
    } else {
        m.roots.len() as int
    }
}

/// The model after `insert(t)`: unchanged when the canonical form of `t` is
/// already held, else extended by that canonical form under a fresh Id.
pub open spec fn insert_model(m: GraphModel, t: TermKey, fresh: HirId) -> GraphModel {
    let key = canon_key(m, t);
    if m.entries.contains_key(key) {
        m
    } else {
        add_model(m, key, fresh)
    }
}

/// The model and the answered Id after lowering `e`: its children are
/// lowered in order, then the node is inserted over their Ids.
pub open spec fn lower_model(m: GraphModel, e: ExprModel) -> (GraphModel, int)
    decreases e, e.args.len() + 1,
{
    let r = lower_args_model(m, e, e.args.len() as int);
    let key = (e.op, Seq::new(r.1.len(), |k: int| r.1[k] as usize));
    (insert_model(r.0, key, fresh_id(r.0.roots.len())), insert_result(r.0, key))
}

/// The model and the answered Ids after lowering the first `k` children of `e`.
pub open spec fn lower_args_model(m: GraphModel, e: ExprModel, k: int) -> (GraphModel, Seq<int>)
    decreases e, k,
{
    if k <= 0 || k > e.args.len() {
        (m, Seq::empty())
    } else {
        let r = lower_args_model(m, e, k - 1);
        let c = lower_model(r.0, e.args[k - 1]);
        (c.0, r.1.push(c.1))
    }
}

/// `key` is a form of the term at Id `c`: same operator, and children
/// equivalent to those of the term.
pub open spec fn key_of(m: GraphModel, key: TermKey, c: int) -> bool {
    &&& 0 <= c < m.roots.len()
    &&& key.0 == m.terms[c].0
    &&& key.1.len() == m.terms[c].1.len()
    &&& forall|k: int|
        0 <= k < key.1.len() ==> #[trigger] key.1[k] < m.roots.len() && m.roots[key.1[k] as int]
            == m.roots[m.terms[c].1[k] as int]
}

/// The canonical key of the term at Id `i`.
pub open spec fn ck(m: GraphModel, i: int) -> TermKey {
    canon_key(m, m.terms[i])
}

/// `s` holds the Id `i`.
pub open spec fn has_id(s: Seq<HirId>, i: int) -> bool {
    exists|p: int| 0 <= p < s.len() && #[trigger] s[p]@ == i
}

/// The Id `i` waits on the worklist.
pub open spec fn pending(m: GraphModel, i: int) -> bool {
    has_id(m.work, i)
}

/// The table holds the canonical key of the term at `i`, under an Id of the
/// class of `i`.
pub open spec fn settled(m: GraphModel, i: int) -> bool {
    m.entries.contains_key(ck(m, i)) && m.roots[m.entries[ck(m, i)] as int] == m.roots[i]
}

/// Every term is recorded as a dependent parent of the class of each child.
pub open spec fn pdeps_complete(m: GraphModel) -> bool {
    forall|i: int, k: int|
        0 <= i < m.roots.len() && 0 <= k < m.terms[i].1.len() ==> has_id(
            pdeps_at(m, m.roots[#[trigger] m.terms[i].1[k] as int]),
            i,
        )
}

/// The congruence invariant: every Id is settled or waits on the worklist,
/// and dependent parents are complete.
pub open spec fn congruence_inv(m: GraphModel) -> bool {
    &&& pdeps_complete(m)
    &&& forall|i: int| 0 <= i < m.roots.len() ==> pending(m, i) || #[trigger] settled(m, i)
}

/// Terms with the same operator and equivalent children are equivalent.
pub open spec fn congruent(m: GraphModel) -> bool {
    forall|i: int, j: int|
        0 <= i < m.roots.len() && 0 <= j < m.roots.len() && #[trigger] ck(m, i) == #[trigger] ck(m, j)
            ==> m.roots[i] == m.roots[j]
}

/// The facts about a graph model that its invariant guarantees.
pub open spec fn model_wf(m: GraphModel) -> bool {
    let n = m.roots.len();
    &&& m.terms.len() == n
    &&& m.classes.len() == n
    &&& forall|i: int| 0 <= i < n ==> 0 <= #[trigger] m.roots[i] <= i && m.roots[m.roots[i]] == m.roots[i]
    &&& forall|key: TermKey| #[trigger] m.entries.contains_key(key) ==> key_of(m, key, m.entries[key] as int)
    &&& forall|i: int| 0 <= i < n ==> (#[trigger] m.classes[i] is Some) == (m.roots[i] == i)
    &&& forall|i: int|
        0 <= i < n ==> m.entries.contains_key(#[trigger] m.terms[i]) && m.entries[m.terms[i]] == i
    &&& forall|i: int, k: int| 0 <= i < n && 0 <= k < m.terms[i].1.len() ==> #[trigger] m.terms[i].1[k] < i
}

/// The representative of the class that already holds a node with operator
/// `op` and children in the classes `kids`, if every child class is known.
pub open spec fn lookup_node(m: GraphModel, op: u64, kids: Seq<Option<int>>) -> Option<int> {
    if forall|k: int| 0 <= k < kids.len() ==> #[trigger] kids[k] is Some {
        let key = (op, Seq::new(kids.len(), |k: int| kids[k]->0 as usize));
        if m.entries.contains_key(key) {
            Some(m.roots[m.entries[key] as int])
        } else {
            None
        }
    } else {
        None
    }
}

/// The representative of the class that already represents `e`, if any:
/// the graph holds a node for `e` whose children represent the children of `e`.
pub open spec fn lookup(m: GraphModel, e: ExprModel) -> Option<int>
    decreases e, 1nat,
{
    lookup_node(m, e.op, lookup_kids(m, e))
}

/// The classes that represent the children of `e`.
pub open spec fn lookup_kids(m: GraphModel, e: ExprModel) -> Seq<Option<int>>
    decreases e, 0nat,
{
    Seq::new(
        e.args.len(),
        |k: int|
            if 0 <= k < e.args.len() {
                lookup(m, e.args[k])
            } else {
                None
            },
    )
}

/// Every child of `e` is already represented.
pub open spec fn kids_known(m: GraphModel, e: ExprModel) -> bool {
    forall|k: int| 0 <= k < e.args.len() ==> #[trigger] lookup_kids(m, e)[k] is Some
}

/// The key of a node for `e` over the classes that represent its children.
pub open spec fn node_key(m: GraphModel, e: ExprModel) -> TermKey {
    let kids = lookup_kids(m, e);
    (e.op, Seq::new(kids.len(), |k: int| kids[k]->0 as usize))
}

/// `m2` keeps every Id, representative, term and table entry of `m1`.
pub open spec fn extends(m2: GraphModel, m1: GraphModel) -> bool {
    &&& m1.roots.len() <= m2.roots.len()
    &&& forall|i: int|
        0 <= i < m1.roots.len() ==> #[trigger] m2.roots[i] == m1.roots[i] && m2.terms[i] == m1.terms[i]
    &&& forall|key: TermKey| #[trigger]
        m1.entries.contains_key(key) ==> m2.entries.contains_key(key) && m2.entries[key]
            == m1.entries[key]
    &&& m2.work == m1.work
}

/// The expression read back from Id `i`: its term, with each child read back in turn.
pub open spec fn extract(m: GraphModel, i: int) -> ExprModel
    decreases i,
{
    let t = m.terms[i];
    ExprModel {
        op: t.0,
        args: Seq::new(
            t.1.len(),
            |k: int|
                if 0 <= k < t.1.len() && 0 <= t.1[k] < i {
                    extract(m, t.1[k] as int)
                } else {
                    ExprModel { op: 0, args: Seq::empty() }
                },
        ),
    }
}

/// A found class is a representative Id of the graph.
pub proof fn lemma_lookup_root(m: GraphModel, e: ExprModel)
    requires
        model_wf(m),
        lookup(m, e) is Some,
    ensures
        0 <= lookup(m, e)->0 < m.roots.len(),
        m.roots[lookup(m, e)->0] == lookup(m, e)->0,
{
    let kids = lookup_kids(m, e);
    let key = (e.op, Seq::new(kids.len(), |k: int| kids[k]->0 as usize));
    assert(m.entries.contains_key(key));
    let v = m.entries[key] as int;
    assert(0 <= v < m.roots.len());
    assert(m.roots[v] <= v);
}

/// What a graph already represents it still represents once extended.
pub proof fn lemma_lookup_extends(m1: GraphModel, m2: GraphModel, e: ExprModel)
    requires
        model_wf(m1),
        extends(m2, m1),
        lookup(m1, e) is Some,
    ensures
        lookup(m2, e) == lookup(m1, e),
    decreases e,
{
    let kids1 = lookup_kids(m1, e);
    let kids2 = lookup_kids(m2, e);
    assert forall|k: int| 0 <= k < e.args.len() implies kids2[k] == kids1[k] by {
        assert(kids1[k] is Some);
        lemma_lookup_extends(m1, m2, e.args[k]);
    }
    assert(kids2 =~= kids1);
    let key = (e.op, Seq::new(kids1.len(), |k: int| kids1[k]->0 as usize));
    assert(m1.entries.contains_key(key));
}

/// Adding a term that the table does not hold extends the graph.
pub proof fn lemma_add_extends(m: GraphModel, t: TermKey, fresh: HirId)
    requires
        model_wf(m),
        !m.entries.contains_key(t),
    ensures
        extends(add_model(m, t, fresh), m),
{
}

/// How many of the first `k` Ids are their own representative.
pub open spec fn root_count(roots: Seq<int>, k: int) -> nat
    decreases k,
{
    if k <= 0 {
        0
    } else {
        root_count(roots, k - 1) + if roots[k - 1] == k - 1 {
            1nat
        } else {
            0nat
        }
    }
}

/// The number of classes of a graph.
pub open spec fn num_classes(m: GraphModel) -> nat {
    root_count(m.roots, m.roots.len() as int)
}

/// Linking two distinct representatives leaves one class fewer.
pub proof fn lemma_link_count(m: GraphModel, lo: int, hi: int, k: int)
    requires
        model_wf(m),
        0 <= lo < m.roots.len(),
        0 <= hi < m.roots.len(),
        lo != hi,
        m.roots[lo] == lo,
        m.roots[hi] == hi,
        0 <= k <= m.roots.len(),
    ensures
        root_count(link_model(m, lo, hi).roots, k) + (if hi < k {
            1nat
        } else {
            0nat
        }) == root_count(m.roots, k),
    decreases k,
{
    if k > 0 {
        lemma_link_count(m, lo, hi, k - 1);
    }
}

/// The state on which a rebuild is well defined.
pub open spec fn rebuild_ok(m: GraphModel) -> bool {
    &&& model_wf(m)
    &&& forall|k: int| 0 <= k < m.work.len() ==> #[trigger] m.work[k]@ < m.roots.len()
}

/// One step of a rebuild: take the last pending parent; if the canonical
/// form of its term is held by another Id, mark the parent and merge its class
/// with the class of that Id; if it is held by the parent itself, go on; else
/// record the canonical form under the parent.
pub open spec fn rebuild_step(m: GraphModel, cong: Set<usize>) -> (GraphModel, Set<usize>) {
    let d = m.work.last()@ as int;
    let m1 = GraphModel { work: m.work.drop_last(), ..m };
    let key = canon_key(m1, m1.terms[d]);
    if m1.entries.contains_key(key) {
        if m1.entries[key] as int == d {
            (m1, cong)
        } else {
            (union_model(m1, m1.entries[key] as int, d), cong.insert(m.work.last()@))
        }
    } else {
        (GraphModel { entries: m1.entries.insert(key, m.work.last()@), ..m1 }, cong)
    }
}

/// Each step of a rebuild merges two classes, or else shortens the worklist.
pub proof fn lemma_rebuild_step_decreases(m: GraphModel, cong: Set<usize>)
    requires
        rebuild_ok(m),
        m.work.len() > 0,
    ensures
        num_classes(rebuild_step(m, cong).0) < num_classes(m) || (num_classes(rebuild_step(m, cong).0)
            == num_classes(m) && rebuild_step(m, cong).0.work.len() < m.work.len()),
{
    let d = m.work.last()@ as int;
    let m1 = GraphModel { work: m.work.drop_last(), ..m };
    let key = canon_key(m1, m1.terms[d]);
    assert(0 <= d < m.roots.len());
    if m1.entries.contains_key(key) {
        let c = m1.entries[key] as int;
        let ra = m1.roots[c];
        let rb = m1.roots[d];
        if ra != rb {
            assert(model_wf(m1));
            if ra < rb {
                lemma_link_count(m1, ra, rb, m1.roots.len() as int);
            } else {
                lemma_link_count(m1, rb, ra, m1.roots.len() as int);
            }
        }
    }
}

/// Run rebuild steps until the worklist is empty; also answers the set of
/// marked parents.
pub open spec fn rebuild(m: GraphModel, cong: Set<usize>) -> (GraphModel, Set<usize>)
    decreases num_classes(m), m.work.len(),
    when rebuild_ok(m)
{
    if m.work.len() == 0 {
        (m, cong)
    } else {
        let next = rebuild_step(m, cong);
        proof {
            lemma_rebuild_step_decreases(m, cong);
        }
        rebuild(next.0, next.1)
    }
}

/// Whether an Id is outside the marked set.
pub open spec fn unmarked(cong: Set<usize>) -> spec_fn(HirId) -> bool {
    |h: HirId| !cong.contains(h@)
}

/// Drop the marked parents from the nodes of every class.
pub open spec fn strip_classes(
    classes: Seq<Option<(Seq<HirId>, Seq<HirId>)>>,
    cong: Set<usize>,
) -> Seq<Option<(Seq<HirId>, Seq<HirId>)>> {
    classes.map_values(
        |c: Option<(Seq<HirId>, Seq<HirId>)>|
            match c {
                Some(c) => Some((c.0.filter(unmarked(cong)), c.1)),
                None => None,
            },
    )
}

/// The model after `update`: the rebuild, then the marked parents stripped.
pub open spec fn update_model(m: GraphModel) -> GraphModel {
    let r = rebuild(m, Set::<usize>::empty());
    GraphModel { classes: strip_classes(r.0.classes, r.1), ..r.0 }
}

/// A union keeps together every pair of Ids that was together, and puts the
/// two given Ids together.
pub proof fn lemma_union_coarsens(m: GraphModel, a: int, b: int)
    requires
        model_wf(m),
        0 <= a < m.roots.len(),
        0 <= b < m.roots.len(),
    ensures
        union_model(m, a, b).roots.len() == m.roots.len(),
        union_model(m, a, b).roots[a] == union_model(m, a, b).roots[b],
        forall|x: int, y: int|
            0 <= x < m.roots.len() && 0 <= y < m.roots.len() && m.roots[x] == m.roots[y]
                ==> #[trigger] union_model(m, a, b).roots[x] == #[trigger] union_model(m, a, b).roots[y],
{
}

/// Filtering out the members of the empty set keeps every Id.
pub proof fn lemma_unmarked_empty(s: Seq<HirId>)
    ensures
        s.filter(unmarked(Set::<usize>::empty())) == s,
    decreases s.len(),
{
    reveal_with_fuel(Seq::filter, 1);
    if s.len() > 0 {
        lemma_unmarked_empty(s.drop_last());
        assert(s.drop_last().push(s.last()) =~= s);
    }
}

/// A union keeps the invariant facts of a model.
pub proof fn lemma_union_model_wf(m: GraphModel, a: int, b: int)
    requires
        model_wf(m),
        0 <= a < m.roots.len(),
        0 <= b < m.roots.len(),
    ensures
        model_wf(union_model(m, a, b)),
{
    lemma_union_coarsens(m, a, b);
    let m2 = union_model(m, a, b);
    let n = m.roots.len();
    assert forall|key: TermKey| #[trigger] m2.entries.contains_key(key) implies key_of(
        m2,
        key,
        m2.entries[key] as int,
    ) by {
        let c = m.entries[key] as int;
        assert(key_of(m, key, c));
        assert forall|k: int| 0 <= k < key.1.len() implies #[trigger] key.1[k] < m2.roots.len()
            && m2.roots[key.1[k] as int] == m2.roots[m2.terms[c].1[k] as int] by {
            assert(m.terms[c].1[k] < c);
        }
    }
    assert forall|i: int| 0 <= i < n implies 0 <= #[trigger] m2.roots[i] <= i && m2.roots[m2.roots[i]]
        == m2.roots[i] by {
        assert(m.roots[m.roots[i]] == m.roots[i]);
    }
}

/// Recording a fresh canonical term keeps the invariant facts of a model.
pub proof fn lemma_add_model_wf(m: GraphModel, key: TermKey, fresh: HirId, upto: int)
    requires
        model_wf(m),
        m.roots.len() < usize::MAX,
        !m.entries.contains_key(key),
        forall|k: int| 0 <= k < key.1.len() ==> #[trigger] key.1[k] < m.roots.len(),
    ensures
        model_wf(add_model_upto(m, key, fresh, upto)),
{
    let m2 = add_model_upto(m, key, fresh, upto);
    let n = m.roots.len() as int;
    assert forall|k: TermKey| #[trigger] m2.entries.contains_key(k) implies key_of(
        m2,
        k,
        m2.entries[k] as int,
    ) by {
        if k != key {
            let c = m.entries[k] as int;
            assert(key_of(m, k, c));
            assert(m2.terms[c] == m.terms[c]);
            assert forall|j: int| 0 <= j < k.1.len() implies #[trigger] k.1[j] < m2.roots.len()
                && m2.roots[k.1[j] as int] == m2.roots[m2.terms[c].1[j] as int] by {
                assert(m.terms[c].1[j] < c);
            }
        } else {
            assert(m2.terms[n] == key);
            assert(m2.entries[k] == n);
        }
    }
    assert forall|i: int| 0 <= i < n implies m2.entries.contains_key(#[trigger] m2.terms[i])
        && m2.entries[m2.terms[i]] == i by {
        assert(m.entries.contains_key(m.terms[i]));
        assert(m2.terms[i] == m.terms[i]);
    }
    assert forall|i: int, k: int| 0 <= i < n + 1 && 0 <= k < m2.terms[i].1.len() implies #[trigger] m2.terms[i].1[k]
        < i by {
        if i < n {
            assert(m2.terms[i] == m.terms[i]);
        }
    }
    assert forall|i: int| 0 <= i < n + 1 implies 0 <= #[trigger] m2.roots[i] <= i && m2.roots[m2.roots[i]]
        == m2.roots[i] by {
        if i < n {
            assert(m.roots[m.roots[i]] == m.roots[i]);
        }
    }
    assert forall|i: int| 0 <= i < n + 1 implies (#[trigger] m2.classes[i] is Some) == (m2.roots[i] == i) by {
        if i < n {
            assert(m.classes[i] is Some == (m.roots[i] == i));
        }
    }
}

/// Recording the canonical key of the term at `d` under `d` keeps the
/// invariant facts of a model.
pub proof fn lemma_record_model_wf(m: GraphModel, d: int)
    requires
        model_wf(m),
        0 <= d < m.roots.len(),
        !m.entries.contains_key(ck(m, d)),
    ensures
        model_wf(GraphModel { entries: m.entries.insert(ck(m, d), d as usize), ..m }),
{
    let m2 = GraphModel { entries: m.entries.insert(ck(m, d), d as usize), ..m };
    let n = m.roots.len() as int;
    assert forall|k: TermKey| #[trigger] m2.entries.contains_key(k) implies key_of(
        m2,
        k,
        m2.entries[k] as int,
    ) by {
        if k == ck(m, d) {
            assert forall|j: int| 0 <= j < k.1.len() implies #[trigger] k.1[j] < m2.roots.len()
                && m2.roots[k.1[j] as int] == m2.roots[m2.terms[d].1[j] as int] by {
                assert(m.terms[d].1[j] < d);
                let x = m.terms[d].1[j] as int;
                assert(m.roots[m.roots[x]] == m.roots[x]);
            }
        } else {
            assert(key_of(m, k, m.entries[k] as int));
        }
    }
    assert forall|i: int| 0 <= i < n implies m2.entries.contains_key(#[trigger] m2.terms[i])
        && m2.entries[m2.terms[i]] == i by {
        assert(m.entries.contains_key(m.terms[i]));
    }
}

/// A union keeps dependent parents complete, keeps every settled or pending
/// Id so, and puts on the worklist every Id whose canonical key it changes.
pub proof fn lemma_union_congruence(m: GraphModel, a: int, b: int)
    requires
        model_wf(m),
        pdeps_complete(m),
        0 <= a < m.roots.len(),
        0 <= b < m.roots.len(),
    ensures
        pdeps_complete(union_model(m, a, b)),
        forall|i: int|
            0 <= i < m.roots.len() ==> #[trigger] ck(union_model(m, a, b), i) == ck(m, i) || pending(
                union_model(m, a, b),
                i,
            ),
        forall|i: int|
            0 <= i < m.roots.len() && (pending(m, i) || settled(m, i)) ==> pending(union_model(m, a, b), i)
                || #[trigger] settled(union_model(m, a, b), i),
{
    lemma_union_coarsens(m, a, b);
    let ra = m.roots[a];
    let rb = m.roots[b];
    if ra == rb {
        return;
    }
    let lo = if ra < rb { ra } else { rb };
    let hi = if ra < rb { rb } else { ra };
    let m2 = union_model(m, a, b);
    let n = m.roots.len();
    assert(m2 == link_model(m, lo, hi));
    assert(m.roots[lo] == lo && m.roots[hi] == hi);
    assert forall|i: int| 0 <= i < n && pending(m, i) implies pending(m2, i) by {
        let p = choose|p: int| 0 <= p < m.work.len() && #[trigger] m.work[p]@ == i;
        assert(m2.work[p] == m.work[p]);
    }
    assert forall|i: int| 0 <= i < n && has_id(pdeps_at(m, hi), i) implies pending(m2, i) by {
        let p = choose|p: int| 0 <= p < pdeps_at(m, hi).len() && #[trigger] pdeps_at(m, hi)[p]@ == i;
        assert(m2.work[m.work.len() + p] == pdeps_at(m, hi)[p]);
    }
    assert forall|i: int| 0 <= i < n implies #[trigger] ck(m2, i) == ck(m, i) || pending(m2, i) by {
        let t = m.terms[i];
        if exists|k: int| 0 <= k < t.1.len() && m.roots[#[trigger] t.1[k] as int] == hi {
            let k = choose|k: int| 0 <= k < t.1.len() && m.roots[#[trigger] t.1[k] as int] == hi;
            assert(has_id(pdeps_at(m, m.roots[m.terms[i].1[k] as int]), i));
        } else {
            assert forall|k: int| 0 <= k < t.1.len() implies #[trigger] ck(m2, i).1[k] == ck(m, i).1[k] by {
                assert(t.1[k] < i);
                assert(m.roots[t.1[k] as int] != hi);
            }
            assert(ck(m2, i).1 =~= ck(m, i).1);
        }
    }
    assert forall|i: int|
        0 <= i < n && (pending(m, i) || settled(m, i)) implies pending(m2, i) || #[trigger] settled(m2, i) by {
        if !pending(m2, i) {
            assert(ck(m2, i) == ck(m, i));
            assert(settled(m, i));
            let c = m.entries[ck(m, i)] as int;
            assert(key_of(m, ck(m, i), c));
        }
    }
    assert forall|i: int, k: int| 0 <= i < n && 0 <= k < m2.terms[i].1.len() implies has_id(
        pdeps_at(m2, m2.roots[#[trigger] m2.terms[i].1[k] as int]),
        i,
    ) by {
        let x = m.terms[i].1[k] as int;
        assert(x < i);
        let r = m.roots[x];
        assert(has_id(pdeps_at(m, r), i));
        let p = choose|p: int| 0 <= p < pdeps_at(m, r).len() && #[trigger] pdeps_at(m, r)[p]@ == i;
        if r == hi {
            assert(pdeps_at(m2, lo)[pdeps_at(m, lo).len() + p] == pdeps_at(m, hi)[p]);
        } else if r == lo {
            assert(pdeps_at(m2, lo)[p] == pdeps_at(m, lo)[p]);
        } else {
            assert(m.roots[r] == r);
            assert(pdeps_at(m2, r) == pdeps_at(m, r));
        }
    }
}

/// A child whose class is `r` counts towards the dependent parents of `r`.
pub proof fn lemma_dep_count_pos(m: GraphModel, args: Seq<usize>, r: int, k: int)
    requires
        0 <= k < args.len(),
        m.roots[args[k] as int] == r,
    ensures
        dep_count(m, args, r) > 0,
    decreases args.len(),
{
    if k < args.len() - 1 {
        lemma_dep_count_pos(m, args.drop_last(), r, k);
    }
}

/// Adding a canonical term that the table does not hold keeps the congruence
/// invariant.
pub proof fn lemma_add_congruence(m: GraphModel, key: TermKey, fresh: HirId)
    requires
        model_wf(m),
        congruence_inv(m),
        m.roots.len() < usize::MAX,
        fresh@ == m.roots.len(),
        !m.entries.contains_key(key),
        forall|k: int|
            0 <= k < key.1.len() ==> #[trigger] key.1[k] < m.roots.len() && m.roots[key.1[k] as int]
                == key.1[k],
    ensures
        congruence_inv(add_model(m, key, fresh)),
{
    let m2 = add_model(m, key, fresh);
    let n = m.roots.len() as int;
    assert(key.1.take(key.1.len() as int) =~= key.1);
    assert forall|i: int, k: int| 0 <= i < n + 1 && 0 <= k < m2.terms[i].1.len() implies has_id(
        pdeps_at(m2, m2.roots[#[trigger] m2.terms[i].1[k] as int]),
        i,
    ) by {
        if i < n {
            assert(m2.terms[i] == m.terms[i]);
            let x = m.terms[i].1[k] as int;
            assert(x < i);
            let r = m.roots[x];
            assert(m.roots[r] == r);
            assert(m.classes[r] is Some);
            assert(has_id(pdeps_at(m, r), i));
            let p = choose|p: int| 0 <= p < pdeps_at(m, r).len() && #[trigger] pdeps_at(m, r)[p]@ == i;
            assert(pdeps_at(m2, r)[p] == pdeps_at(m, r)[p]);
        } else {
            let x = key.1[k] as int;
            assert(m2.terms[n] == key);
            assert(m.classes[x] is Some);
            lemma_dep_count_pos(m, key.1, x, k);
            assert(pdeps_at(m2, x)[pdeps_at(m, x).len() as int] == fresh);
        }
    }
    assert forall|i: int| 0 <= i < n + 1 implies pending(m2, i) || #[trigger] settled(m2, i) by {
        if i < n {
            if !pending(m, i) {
                assert(settled(m, i));
                assert forall|k: int| 0 <= k < m.terms[i].1.len() implies #[trigger] ck(m2, i).1[k] == ck(
                    m,
                    i,
                ).1[k] by {
                    assert(m.terms[i].1[k] < i);
                }
                assert(ck(m2, i).1 =~= ck(m, i).1);
                assert(m2.terms[i] == m.terms[i]);
                let v = m.entries[ck(m, i)] as int;
                assert(key_of(m, ck(m, i), v));
            } else {
                let p = choose|p: int| 0 <= p < m.work.len() && #[trigger] m.work[p]@ == i;
                assert(m2.work[p] == m.work[p]);
            }
        } else {
            assert(m2.terms[n] == key);
            assert(ck(m2, n).1 =~= key.1);
        }
    }
}

/// Recording the canonical key of the term at `d` under `d` settles `d` and
/// keeps every other Id settled or pending.
pub proof fn lemma_record_congruence(m: GraphModel, d: int)
    requires
        model_wf(m),
        pdeps_complete(m),
        0 <= d < m.roots.len(),
        !m.entries.contains_key(ck(m, d)),
    ensures
        pdeps_complete(GraphModel { entries: m.entries.insert(ck(m, d), d as usize), ..m }),
        settled(GraphModel { entries: m.entries.insert(ck(m, d), d as usize), ..m }, d),
        forall|i: int|
            0 <= i < m.roots.len() && (pending(m, i) || settled(m, i)) ==> pending(
                GraphModel { entries: m.entries.insert(ck(m, d), d as usize), ..m },
                i,
            ) || #[trigger] settled(GraphModel { entries: m.entries.insert(ck(m, d), d as usize), ..m }, i),
{
    let m2 = GraphModel { entries: m.entries.insert(ck(m, d), d as usize), ..m };
    assert forall|i: int| 0 <= i < m.roots.len() && (pending(m, i) || settled(m, i)) implies pending(m2, i)
        || #[trigger] settled(m2, i) by {
        assert(ck(m2, i) == ck(m, i));
        if !pending(m, i) {
            assert(m.entries.contains_key(ck(m, i)));
        }
    }
    assert(ck(m2, d) == ck(m, d));
}

/// One rebuild step keeps the invariant facts, keeps the congruence
/// invariant and keeps every entry of the table.
pub proof fn lemma_rebuild_step_inv(m: GraphModel, cong: Set<usize>)
    requires
        rebuild_ok(m),
        congruence_inv(m),
        m.work.len() > 0,
    ensures
        model_wf(rebuild_step(m, cong).0),
        congruence_inv(rebuild_step(m, cong).0),
        forall|key: TermKey| #[trigger]
            m.entries.contains_key(key) ==> rebuild_step(m, cong).0.entries.contains_key(key)
                && rebuild_step(m, cong).0.entries[key] == m.entries[key],
{
    let d = m.work.last()@ as int;
    let m1 = GraphModel { work: m.work.drop_last(), ..m };
    let n = m.roots.len();
    assert(0 <= d < n);
    assert(canon_key(m1, m1.terms[d]) == ck(m1, d));
    assert(model_wf(m1));
    assert(pdeps_complete(m1));
    assert forall|i: int| 0 <= i < n && i != d implies pending(m1, i) || #[trigger] settled(m1, i) by {
        if pending(m, i) {
            let p = choose|p: int| 0 <= p < m.work.len() && #[trigger] m.work[p]@ == i;
            assert(p != m.work.len() - 1);
            assert(m1.work[p] == m.work[p]);
        } else {
            assert(settled(m, i));
            assert(ck(m1, i) == ck(m, i));
        }
    }
    let key = ck(m1, d);
    if m1.entries.contains_key(key) {
        let c = m1.entries[key] as int;
        if c == d {
            assert(settled(m1, d));
            assert(congruence_inv(m1));
        } else {
            assert(key_of(m1, key, c));
            lemma_union_model_wf(m1, c, d);
            lemma_union_congruence(m1, c, d);
            lemma_union_coarsens(m1, c, d);
            let m2 = union_model(m1, c, d);
            assert forall|i: int| 0 <= i < n implies pending(m2, i) || #[trigger] settled(m2, i) by {
                if i == d && !pending(m2, d) {
                    assert(ck(m2, d) == ck(m1, d));
                    assert(m2.entries == m1.entries);
                }
            }
        }
    } else {
        lemma_record_model_wf(m1, d);
        lemma_record_congruence(m1, d);
    }
}

/// Changing only the nodes of classes keeps the congruence invariant.
pub proof fn lemma_nodes_only(m1: GraphModel, m2: GraphModel)
    requires
        congruence_inv(m1),
        m2.roots == m1.roots,
        m2.terms == m1.terms,
        m2.work == m1.work,
        m2.entries == m1.entries,
        m2.classes.len() == m1.classes.len(),
        forall|j: int| 0 <= j < m1.classes.len() ==> pdeps_of(#[trigger] m2.classes[j]) == pdeps_of(m1.classes[j]),
        model_wf(m1),
    ensures
        congruence_inv(m2),
{
    assert forall|i: int, k: int|
        0 <= i < m2.roots.len() && 0 <= k < m2.terms[i].1.len() implies has_id(
        pdeps_at(m2, m2.roots[#[trigger] m2.terms[i].1[k] as int]),
        i,
    ) by {
        let x = m1.terms[i].1[k] as int;
        assert(x < i);
        let r = m1.roots[x];
        assert(has_id(pdeps_at(m1, r), i));
        assert(pdeps_of(m2.classes[r]) == pdeps_of(m1.classes[r]));
    }
    assert forall|i: int| 0 <= i < m2.roots.len() implies pending(m2, i) || #[trigger] settled(m2, i) by {
        assert(pending(m1, i) || settled(m1, i));
    }
}

/// The labelling `r` gives one label to the Ids of each class of `m`.
pub open spec fn finer(m: GraphModel, r: spec_fn(int) -> int) -> bool {
    forall|i: int, j: int|
        0 <= i < m.roots.len() && 0 <= j < m.roots.len() && #[trigger] m.roots[i] == #[trigger] m.roots[j]
            ==> r(i) == r(j)
}

/// The labelling `r` gives one label to terms with the same operator and
/// children of equal labels.
pub open spec fn labels_congruent(terms: Seq<TermKey>, r: spec_fn(int) -> int) -> bool {
    forall|i: int, j: int|
        #![trigger terms[i], terms[j]]
        0 <= i < terms.len() && 0 <= j < terms.len() && terms[i].0 == terms[j].0 && terms[i].1.len()
            == terms[j].1.len() && (forall|k: int|
            0 <= k < terms[i].1.len() ==> r(#[trigger] terms[i].1[k] as int) == r(terms[j].1[k] as int))
            ==> r(i) == r(j)
}

/// The labelling `r` keeps the classes of `m` together and is closed under
/// congruence.
pub open spec fn closed_under(m: GraphModel, r: spec_fn(int) -> int) -> bool {
    finer(m, r) && labels_congruent(m.terms, r)
}

/// Ids `i` and `j` are equivalent in the congruence closure of the classes
/// of `m`: every labelling that keeps those classes together and is closed
/// under congruence gives them one label.
pub open spec fn cc_equiv(m: GraphModel, i: int, j: int) -> bool {
    forall|r: spec_fn(int) -> int| #[trigger] closed_under(m, r) ==> r(i) == r(j)
}

/// A rebuild step merges only classes that every labelling closed under
/// congruence already keeps together.
pub proof fn lemma_rebuild_step_finer(m: GraphModel, cong: Set<usize>, r: spec_fn(int) -> int)
    requires
        rebuild_ok(m),
        m.work.len() > 0,
        finer(m, r),
        labels_congruent(m.terms, r),
    ensures
        finer(rebuild_step(m, cong).0, r),
{
    let d = m.work.last()@ as int;
    let m1 = GraphModel { work: m.work.drop_last(), ..m };
    let n = m.roots.len();
    assert(0 <= d < n);
    assert(model_wf(m1));
    let key = ck(m1, d);
    assert(canon_key(m1, m1.terms[d]) == key);
    if m1.entries.contains_key(key) {
        let c = m1.entries[key] as int;
        if c != d {
            assert(key_of(m1, key, c));
            let tc = m.terms[c];
            let td = m.terms[d];
            assert forall|k: int| 0 <= k < tc.1.len() implies r(#[trigger] tc.1[k] as int) == r(td.1[k] as int) by {
                let y = td.1[k] as int;
                assert(y < d);
                assert(key.1[k] == m.roots[y] as usize);
                assert(m.roots[m.roots[y]] == m.roots[y]);
                assert(m.roots[key.1[k] as int] == m.roots[tc.1[k] as int]);
                assert(tc.1[k] < c);
            }
            assert(r(c) == r(d));
            let m2 = union_model(m1, c, d);
            let ra = m.roots[c];
            let rb = m.roots[d];
            assert(m.roots[ra] == ra);
            assert(m.roots[rb] == rb);
            assert forall|x: int, y: int|
                0 <= x < n && 0 <= y < n && #[trigger] m2.roots[x] == #[trigger] m2.roots[y] implies r(x) == r(y) by {
                if m.roots[x] != m.roots[y] {
                    assert(m.roots[x] == ra || m.roots[x] == rb);
                    assert(m.roots[y] == ra || m.roots[y] == rb);
                    if m.roots[x] == ra {
                        assert(r(x) == r(c));
                    } else {
                        assert(r(x) == r(d));
                    }
                    if m.roots[y] == ra {
                        assert(r(y) == r(c));
                    } else {
                        assert(r(y) == r(d));
                    }
                }
            }
        }
    }
}

/// A graph whose classes coarsen those of `m0`, that is closed under
/// congruence, and whose merges every labelling closed under congruence
/// already allows, has exactly the classes of the congruence closure of `m0`.
pub proof fn lemma_closure_exact(m0: GraphModel, m: GraphModel)
    requires
        model_wf(m),
        congruent(m),
        m.terms == m0.terms,
        m.roots.len() == m0.roots.len(),
        forall|x: int, y: int|
            0 <= x < m0.roots.len() && 0 <= y < m0.roots.len() && m0.roots[x] == m0.roots[y]
                ==> #[trigger] m.roots[x] == #[trigger] m.roots[y],
        forall|r: spec_fn(int) -> int| #[trigger] closed_under(m0, r) ==> finer(m, r),
    ensures
        forall|i: int, j: int|
            0 <= i < m0.roots.len() && 0 <= j < m0.roots.len() ==> (#[trigger] m.roots[i] == #[trigger] m.roots[j]
                <==> cc_equiv(m0, i, j)),
{
    let n = m0.roots.len();
    let r0 = |x: int| m.roots[x];
    assert forall|i: int, j: int|
        0 <= i < n && 0 <= j < n && #[trigger] m0.roots[i] == #[trigger] m0.roots[j] implies r0(i) == r0(j) by {
        assert(m.roots[i] == m.roots[j]);
    }
    assert(finer(m0, r0));
    assert forall|i: int, j: int|
        #![trigger m0.terms[i], m0.terms[j]]
        0 <= i < n && 0 <= j < n && m0.terms[i].0 == m0.terms[j].0 && m0.terms[i].1.len()
            == m0.terms[j].1.len() && (forall|k: int|
            0 <= k < m0.terms[i].1.len() ==> r0(#[trigger] m0.terms[i].1[k] as int) == r0(
                m0.terms[j].1[k] as int,
            )) implies r0(i) == r0(j) by {
        assert forall|k: int| 0 <= k < m.terms[i].1.len() implies #[trigger] ck(m, i).1[k] == ck(m, j).1[k] by {
            assert(r0(m0.terms[i].1[k] as int) == r0(m0.terms[j].1[k] as int));
        }
        assert(ck(m, i).1 =~= ck(m, j).1);
        assert(ck(m, i) == ck(m, j));
    }
    assert(labels_congruent(m0.terms, r0));
    assert(closed_under(m0, r0));
    assert forall|i: int, j: int|
        0 <= i < n && 0 <= j < n implies (#[trigger] m.roots[i] == #[trigger] m.roots[j] <==> cc_equiv(m0, i, j)) by {
        if m.roots[i] == m.roots[j] {
            assert forall|r: spec_fn(int) -> int| #[trigger] closed_under(m0, r) implies r(i) == r(j) by {
                assert(finer(m, r));
            }
        }
        if cc_equiv(m0, i, j) {
            assert(r0(i) == r0(j));
        }
    }
}

/// With the congruence invariant and an empty worklist, congruence holds.
pub proof fn lemma_congruent(m: GraphModel)
    requires
        congruence_inv(m),
        m.work.len() == 0,
    ensures
        congruent(m),
{
    assert forall|i: int, j: int|
        0 <= i < m.roots.len() && 0 <= j < m.roots.len() && #[trigger] ck(m, i) == #[trigger] ck(m, j)
            implies m.roots[i] == m.roots[j] by {
        assert(!pending(m, i));
        assert(!pending(m, j));
        assert(settled(m, i));
        assert(settled(m, j));
    }
}

/// Extending a graph does not change what any of its Ids reads back.
pub proof fn lemma_extract_extends(m1: GraphModel, m2: GraphModel, i: int)
    requires
        model_wf(m1),
        extends(m2, m1),
        0 <= i < m1.roots.len(),
    ensures
        extract(m2, i) == extract(m1, i),
    decreases i,
{
    let t = m1.terms[i];
    assert(m2.roots[i] == m1.roots[i]);
    assert(m2.terms[i] == t);
    assert forall|k: int| 0 <= k < t.1.len() implies #[trigger] extract(m2, i).args[k] == extract(m1, i).args[k] by {
        assert(t.1[k] < i);
        lemma_extract_extends(m1, m2, t.1[k] as int);
    }
    assert(extract(m2, i).args =~= extract(m1, i).args);
}

/// Two graphs that store the same terms under the first `i + 1` Ids read
/// back the same expression at Id `i`, whatever their classes.
pub proof fn lemma_extract_same_terms(m1: GraphModel, m2: GraphModel, i: int)
    requires
        0 <= i < m1.terms.len(),
        i < m2.terms.len(),
        forall|j: int| 0 <= j <= i ==> #[trigger] m2.terms[j] == m1.terms[j],
        forall|j: int, k: int|
            0 <= j <= i && 0 <= k < m1.terms[j].1.len() ==> #[trigger] m1.terms[j].1[k] < j,
    ensures
        extract(m2, i) == extract(m1, i),
    decreases i,
{
    let t = m1.terms[i];
    assert(m2.terms[i] == t);
    assert forall|k: int| 0 <= k < t.1.len() implies #[trigger] extract(m2, i).args[k] == extract(m1, i).args[k] by {
        assert(t.1[k] < i);
        lemma_extract_same_terms(m1, m2, t.1[k] as int);
    }
    assert(extract(m2, i).args =~= extract(m1, i).args);
}

/// The listing of the first `k` Ids has one entry for each representative
/// below `k`, in increasing order, with the other nodes of its class; its
/// length is the number of those representatives.
pub proof fn lemma_class_listing(m: GraphModel, k: int)
    requires
        model_wf(m),
        0 <= k <= m.roots.len(),
        m.roots.len() <= usize::MAX,
    ensures
        class_listing(m, k).len() == root_count(m.roots, k),
        forall|j: int|
            0 <= j < class_listing(m, k).len() ==> 0 <= (#[trigger] class_listing(m, k)[j]).0 < k
                && m.roots[class_listing(m, k)[j].0 as int] == class_listing(m, k)[j].0
                && class_listing(m, k)[j].1 == nodes_at(m, class_listing(m, k)[j].0 as int).filter(
                |h: HirId| h@ != class_listing(m, k)[j].0 as int,
            ),
        forall|j1: int, j2: int|
            0 <= j1 < j2 < class_listing(m, k).len() ==> (#[trigger] class_listing(m, k)[j1]).0
                < (#[trigger] class_listing(m, k)[j2]).0,
        forall|i: int|
            0 <= i < k && #[trigger] m.roots[i] == i ==> exists|j: int|
                0 <= j < class_listing(m, k).len() && #[trigger] class_listing(m, k)[j].0 == i,
    decreases k,
{
    if k > 0 {
        lemma_class_listing(m, k - 1);
        let before = class_listing(m, k - 1);
        let now = class_listing(m, k);
        assert(m.classes[k - 1] is Some == (m.roots[k - 1] == k - 1));
        if m.roots[k - 1] == k - 1 {
            let c = m.classes[k - 1]->0;
            assert(now == before.push(((k - 1) as usize, c.0.filter(|h: HirId| h@ != k - 1))));
            assert(now[before.len() as int].0 == k - 1);
            assert forall|i: int| 0 <= i < k && #[trigger] m.roots[i] == i implies exists|j: int|
                0 <= j < now.len() && #[trigger] now[j].0 == i by {
                if i < k - 1 {
                    let j = choose|j: int| 0 <= j < before.len() && #[trigger] before[j].0 == i;
                    assert(now[j] == before[j]);
                } else {
                    assert(now[before.len() as int].0 == i);
                }
            }
            assert forall|j: int| 0 <= j < now.len() implies 0 <= (#[trigger] now[j]).0 < k
                && m.roots[now[j].0 as int] == now[j].0 && now[j].1 == nodes_at(m, now[j].0 as int).filter(
                |h: HirId| h@ != now[j].0 as int,
            ) by {
                if j < before.len() {
                    assert(now[j] == before[j]);
                } else {
                    assert((|h: HirId| h@ != k - 1) =~= (|h: HirId| h@ != now[j].0 as int));
                }
            }
            assert forall|j1: int, j2: int| 0 <= j1 < j2 < now.len() implies (#[trigger] now[j1]).0
                < (#[trigger] now[j2]).0 by {
                assert(now[j1] == before[j1]);
                if j2 < before.len() {
                    assert(now[j2] == before[j2]);
                }
            }
        } else {
            assert(now == before);
            assert forall|i: int| 0 <= i < k && #[trigger] m.roots[i] == i implies exists|j: int|
                0 <= j < now.len() && #[trigger] now[j].0 == i by {
                let j = choose|j: int| 0 <= j < before.len() && #[trigger] before[j].0 == i;
            }
        }
    }
}

/// Another Id of the class of `x` holds the same canonical form as `x`.
pub open spec fn has_twin(m: GraphModel, x: int) -> bool {
    exists|c: int| 0 <= c < m.roots.len() && c != x && m.roots[c] == m.roots[x] && #[trigger] ck(m, c) == ck(m, x)
}

/// The Id `x` is listed among the nodes of its class.
pub open spec fn listed(m: GraphModel, x: int) -> bool {
    has_id(nodes_at(m, m.roots[x]), x)
}

/// Every recorded dependent parent is an Id of the graph.
pub open spec fn pdeps_bounded(m: GraphModel) -> bool {
    forall|i: int, k: int|
        0 <= i < m.roots.len() && 0 <= k < pdeps_at(m, i).len() ==> #[trigger] pdeps_at(m, i)[k]@ < m.roots.len()
}

/// The state on which the node-keeping facts of a rebuild are shown.
pub open spec fn rebuild_nodes_ok(m: GraphModel, cong: Set<usize>) -> bool {
    &&& rebuild_ok(m)
    &&& pdeps_bounded(m)
    &&& m.roots.len() <= usize::MAX
    &&& forall|x: usize| #[trigger] cong.contains(x) ==> x < m.roots.len() && has_twin(m, x as int)
}

/// Two Ids with one canonical form keep one canonical form when classes
/// only merge.
pub proof fn lemma_ck_coarsen(m1: GraphModel, m2: GraphModel, c: int, x: int)
    requires
        model_wf(m1),
        m1.roots.len() <= usize::MAX,
        m2.terms == m1.terms,
        m2.roots.len() == m1.roots.len(),
        forall|y: int, z: int|
            0 <= y < m1.roots.len() && 0 <= z < m1.roots.len() && m1.roots[y] == m1.roots[z]
                ==> #[trigger] m2.roots[y] == #[trigger] m2.roots[z],
        0 <= c < m1.roots.len(),
        0 <= x < m1.roots.len(),
        ck(m1, c) == ck(m1, x),
    ensures
        ck(m2, c) == ck(m2, x),
{
    let tc = m1.terms[c];
    let tx = m1.terms[x];
    assert(ck(m1, c).1.len() == tc.1.len());
    assert(ck(m1, x).1.len() == tx.1.len());
    assert forall|k: int| 0 <= k < tc.1.len() implies #[trigger] ck(m2, c).1[k] == ck(m2, x).1[k] by {
        assert(tc.1[k] < c);
        assert(tx.1[k] < x);
        assert(ck(m1, c).1[k] == ck(m1, x).1[k]);
        let yc = tc.1[k] as int;
        let yx = tx.1[k] as int;
        assert(0 <= m1.roots[yc] <= yc);
        assert(0 <= m1.roots[yx] <= yx);
        assert(ck(m1, c).1[k] == m1.roots[yc] as usize);
        assert(ck(m1, x).1[k] == m1.roots[yx] as usize);
        assert(m1.roots[yc] == m1.roots[yx]);
        assert(m2.roots[tc.1[k] as int] == m2.roots[tx.1[k] as int]);
    }
    assert(ck(m2, c).1 =~= ck(m2, x).1);
}

/// One rebuild step keeps every listed Id listed, keeps a twin for every
/// marked Id, and keeps the state on which these facts are shown.
pub proof fn lemma_rebuild_step_nodes(m: GraphModel, cong: Set<usize>)
    requires
        rebuild_nodes_ok(m, cong),
        m.work.len() > 0,
    ensures
        rebuild_nodes_ok(rebuild_step(m, cong).0, rebuild_step(m, cong).1),
        rebuild_step(m, cong).0.terms == m.terms,
        rebuild_step(m, cong).0.roots.len() == m.roots.len(),
        forall|x: int| 0 <= x < m.roots.len() && #[trigger] listed(m, x) ==> listed(rebuild_step(m, cong).0, x),
{
    let d = m.work.last()@ as int;
    let m1 = GraphModel { work: m.work.drop_last(), ..m };
    let n = m.roots.len();
    assert(0 <= d < n);
    assert(model_wf(m1));
    let key = ck(m1, d);
    assert(canon_key(m1, m1.terms[d]) == key);
    assert forall|x: usize| #[trigger] cong.contains(x) implies x < n && has_twin(m1, x as int) by {
        assert(has_twin(m, x as int));
        let c = choose|c: int| 0 <= c < n && c != x && m.roots[c] == m.roots[x as int] && #[trigger] ck(m, c) == ck(m, x as int);
        assert(ck(m1, c) == ck(m1, x as int));
    }
    assert forall|k: int| 0 <= k < m1.work.len() implies #[trigger] m1.work[k]@ < m1.roots.len() by {
        assert(m1.work[k] == m.work[k]);
    }
    assert forall|i: int, k: int| 0 <= i < n && 0 <= k < pdeps_at(m1, i).len() implies #[trigger] pdeps_at(m1, i)[k]@
        < n by {
        assert(pdeps_at(m1, i) == pdeps_at(m, i));
    }
    assert(rebuild_nodes_ok(m1, cong));
    if m1.entries.contains_key(key) {
        let c = m1.entries[key] as int;
        if c != d {
            assert(key_of(m1, key, c));
            let tc = m.terms[c];
            let td = m.terms[d];
            assert forall|k: int| 0 <= k < tc.1.len() implies #[trigger] ck(m1, c).1[k] == ck(m1, d).1[k] by {
                let y = td.1[k] as int;
                assert(y < d);
                assert(key.1[k] == m.roots[y] as usize);
                assert(m.roots[m.roots[y]] == m.roots[y]);
                assert(tc.1[k] < c);
            }
            assert(ck(m1, c).1 =~= ck(m1, d).1);
            lemma_union_model_wf(m1, c, d);
            lemma_union_coarsens(m1, c, d);
            let m2 = union_model(m1, c, d);
            let c2 = cong.insert(m.work.last()@);
            let ra = m.roots[c];
            let rb = m.roots[d];
            assert(m.roots[ra] == ra);
            assert(m.roots[rb] == rb);
            assert(ck(m2, c) == ck(m2, d)) by {
                lemma_ck_coarsen(m1, m2, c, d);
            }
            assert forall|x: usize| #[trigger] c2.contains(x) implies x < n && has_twin(m2, x as int) by {
                if x as int == d {
                    assert(ck(m2, c) == ck(m2, d));
                } else {
                    assert(has_twin(m1, x as int));
                    let w = choose|w: int|
                        0 <= w < n && w != x && m1.roots[w] == m1.roots[x as int] && #[trigger] ck(m1, w) == ck(
                            m1,
                            x as int,
                        );
                    lemma_ck_coarsen(m1, m2, w, x as int);
                    assert(ck(m2, w) == ck(m2, x as int));
                }
            }
            if ra != rb {
                let lo = if ra < rb { ra } else { rb };
                let hi = if ra < rb { rb } else { ra };
                assert(m2 == link_model(m1, lo, hi));
                assert forall|i: int, k: int|
                    0 <= i < n && 0 <= k < pdeps_at(m2, i).len() implies #[trigger] pdeps_at(m2, i)[k]@ < n by {
                    if i == lo {
                        let l = pdeps_at(m, lo).len();
                        assert(pdeps_at(m2, lo) == pdeps_at(m, lo) + pdeps_at(m, hi));
                        if k < l {
                            assert(pdeps_at(m2, i)[k] == pdeps_at(m, lo)[k]);
                        } else {
                            assert(pdeps_at(m2, i)[k] == pdeps_at(m, hi)[k - l]);
                        }
                    } else if i != hi {
                        assert(pdeps_at(m2, i) == pdeps_at(m, i));
                    }
                }
                assert forall|k: int| 0 <= k < m2.work.len() implies #[trigger] m2.work[k]@ < n by {
                    if k >= m1.work.len() {
                        assert(m2.work[k] == pdeps_at(m, hi)[k - m1.work.len()]);
                    } else {
                        assert(m2.work[k] == m1.work[k]);
                    }
                }
                assert forall|x: int| 0 <= x < n && #[trigger] listed(m, x) implies listed(m2, x) by {
                    let r = m.roots[x];
                    let p = choose|p: int| 0 <= p < nodes_at(m, r).len() && #[trigger] nodes_at(m, r)[p]@ == x;
                    if r == hi {
                        assert(nodes_at(m2, lo)[nodes_at(m1, lo).len() + p] == nodes_at(m1, hi)[p]);
                    } else if r == lo {
                        assert(nodes_at(m2, lo)[p] == nodes_at(m1, lo)[p]);
                    } else {
                        assert(m.roots[r] == r);
                        assert(nodes_at(m2, r) == nodes_at(m1, r));
                    }
                }
            }
            assert(rebuild_ok(m2));
            assert(pdeps_bounded(m2));
            assert(rebuild_nodes_ok(m2, c2));
            assert(rebuild_step(m, cong) == (m2, c2));
        }
    } else {
        lemma_record_model_wf(m1, d);
        let m2 = GraphModel { entries: m1.entries.insert(key, m.work.last()@), ..m1 };
        assert forall|x: usize| #[trigger] cong.contains(x) implies x < n && has_twin(m2, x as int) by {
            assert(has_twin(m1, x as int));
            let w = choose|w: int|
                0 <= w < n && w != x && m1.roots[w] == m1.roots[x as int] && #[trigger] ck(m1, w) == ck(m1, x as int);
            assert(ck(m2, w) == ck(m1, w));
            assert(ck(m2, x as int) == ck(m1, x as int));
        }
        assert(rebuild_ok(m2));
        assert forall|i: int, k: int| 0 <= i < n && 0 <= k < pdeps_at(m2, i).len() implies #[trigger] pdeps_at(
            m2,
            i,
        )[k]@ < n by {
            assert(pdeps_at(m2, i) == pdeps_at(m1, i));
        }
        assert(rebuild_nodes_ok(m2, cong));
    }
}

/// A rebuild keeps every listed Id listed and leaves a twin for every Id it
/// marks.
pub proof fn lemma_rebuild_nodes(m: GraphModel, cong: Set<usize>)
    requires
        rebuild_nodes_ok(m, cong),
    ensures
        rebuild_ok(rebuild(m, cong).0),
        rebuild(m, cong).0.terms == m.terms,
        rebuild(m, cong).0.roots.len() == m.roots.len(),
        forall|x: usize| #[trigger] rebuild(m, cong).1.contains(x) ==> x < m.roots.len() && has_twin(
            rebuild(m, cong).0,
            x as int,
        ),
        forall|x: int| 0 <= x < m.roots.len() && #[trigger] listed(m, x) ==> listed(rebuild(m, cong).0, x),
    decreases num_classes(m), m.work.len(),
{
    if m.work.len() > 0 {
        lemma_rebuild_step_decreases(m, cong);
        lemma_rebuild_step_nodes(m, cong);
        let next = rebuild_step(m, cong);
        lemma_rebuild_nodes(next.0, next.1);
        assert forall|x: int| 0 <= x < m.roots.len() && #[trigger] listed(m, x) implies listed(
            rebuild(m, cong).0,
            x,
        ) by {
            assert(listed(next.0, x));
        }
    }
}

/// The number of nodes of `e`.
pub open spec fn expr_size(e: ExprModel) -> nat
    decreases e, e.args.len() + 1,
{
    1 + args_size(e, e.args.len() as int)
}

/// The number of nodes of the first `k` children of `e`.
pub open spec fn args_size(e: ExprModel, k: int) -> nat
    decreases e, k,
{
    if k <= 0 || k > e.args.len() {
        0
    } else {
        args_size(e, k - 1) + expr_size(e.args[k - 1])
    }
}

/// The graph after lowering each expression of `s` in turn, left to right.
pub open spec fn lower_each(m: GraphModel, s: Seq<ExprModel>) -> GraphModel
    decreases s.len(),
{
    if s.len() == 0 {
        m
    } else {
        lower_model(lower_each(m, s.drop_last()), s.last()).0
    }
}

/// Lowering an expression that the graph already represents changes nothing
/// and answers its class.
pub proof fn lemma_lower_represented(m: GraphModel, e: ExprModel)
    requires
        model_wf(m),
        m.roots.len() <= usize::MAX,
        lookup(m, e) is Some,
    ensures
        lower_model(m, e) == (m, lookup(m, e)->0),
    decreases e, e.args.len() + 1,
{
    let kids = lookup_kids(m, e);
    let n = e.args.len() as int;
    assert forall|j: int| 0 <= j < n implies lookup(m, #[trigger] e.args[j]) is Some by {
        assert(kids[j] == lookup(m, e.args[j]));
        assert(kids[j] is Some);
    }
    lemma_args_represented(m, e, n);
    let r = lower_args_model(m, e, n);
    let key = (e.op, Seq::new(r.1.len(), |k: int| r.1[k] as usize));
    assert forall|k: int| 0 <= k < n implies #[trigger] key.1[k] == kids[k]->0 as usize && key.1[k] == kids[k]->0
        && m.roots[key.1[k] as int] == key.1[k] by {
        assert(kids[k] == lookup(m, e.args[k]));
        lemma_lookup_root(m, e.args[k]);
    }
    assert(key.1 =~= Seq::new(kids.len(), |k: int| kids[k]->0 as usize));
    assert(canon_key(m, key).1 =~= key.1);
    assert(m.entries.contains_key(key));
}

/// Lowering children that the graph already represents changes nothing and
/// answers their classes.
pub proof fn lemma_args_represented(m: GraphModel, e: ExprModel, k: int)
    requires
        model_wf(m),
        m.roots.len() <= usize::MAX,
        0 <= k <= e.args.len(),
        forall|j: int| 0 <= j < k ==> lookup(m, #[trigger] e.args[j]) is Some,
    ensures
        lower_args_model(m, e, k) == (m, Seq::new(k as nat, |j: int| lookup(m, e.args[j])->0)),
    decreases e, k,
{
    if k > 0 {
        lemma_args_represented(m, e, k - 1);
        lemma_lower_represented(m, e.args[k - 1]);
        assert(Seq::new((k - 1) as nat, |j: int| lookup(m, e.args[j])->0).push(lookup(m, e.args[k - 1])->0)
            =~= Seq::new(k as nat, |j: int| lookup(m, e.args[j])->0));
    } else {
        assert(Seq::new(0, |j: int| lookup(m, e.args[j])->0) =~= Seq::<int>::empty());
    }
}

/// Lowering keeps the invariant facts, extends the graph, adds at most one
/// Id per node, and leaves the expression represented by the answered class.
pub proof fn lemma_lower_model(m: GraphModel, e: ExprModel)
    requires
        model_wf(m),
        m.roots.len() + expr_size(e) <= usize::MAX,
    ensures
        model_wf(lower_model(m, e).0),
        extends(lower_model(m, e).0, m),
        lookup(lower_model(m, e).0, e) == Some(lower_model(m, e).1),
        lower_model(m, e).0.roots.len() <= m.roots.len() + expr_size(e),
    decreases e, e.args.len() + 1,
{
    let n = e.args.len() as int;
    lemma_lower_args(m, e, n);
    let a = lower_args_model(m, e, n);
    let mm = a.0;
    let ids = a.1;
    let key = (e.op, Seq::new(ids.len(), |k: int| ids[k] as usize));
    let kids = lookup_kids(mm, e);
    assert forall|k: int| 0 <= k < n implies #[trigger] kids[k] == Some(ids[k]) && 0 <= ids[k] < mm.roots.len()
        && mm.roots[ids[k]] == ids[k] && key.1[k] == ids[k] by {
        assert(kids[k] == lookup(mm, e.args[k]));
        lemma_lookup_root(mm, e.args[k]);
    }
    assert(key.1 =~= Seq::new(kids.len(), |k: int| kids[k]->0 as usize));
    assert(canon_key(mm, key).1 =~= key.1);
    assert(canon_key(mm, key) == key);
    assert(lookup(mm, e) == lookup_node(mm, e.op, kids));
    if !mm.entries.contains_key(key) {
        let fresh = fresh_id(mm.roots.len());
        crate::eq_graph::lemma_fresh_id(mm.roots.len());
        lemma_add_model_wf(mm, key, fresh, key.1.len() as int);
        lemma_add_extends(mm, key, fresh);
        let m2 = add_model(mm, key, fresh);
        assert forall|k: int| 0 <= k < n implies #[trigger] lookup_kids(m2, e)[k] == kids[k] by {
            assert(kids[k] == lookup(mm, e.args[k]));
            lemma_lookup_extends(mm, m2, e.args[k]);
        }
        assert(lookup_kids(m2, e) =~= kids);
        lemma_extends_trans(m, mm, m2);
    }
}

/// Lowering the first `k` children of `e` keeps the invariant facts, extends
/// the graph, adds at most one Id per node, and leaves each child
/// represented by its answered class.
pub proof fn lemma_lower_args(m: GraphModel, e: ExprModel, k: int)
    requires
        model_wf(m),
        0 <= k <= e.args.len(),
        m.roots.len() + args_size(e, k) <= usize::MAX,
    ensures
        model_wf(lower_args_model(m, e, k).0),
        extends(lower_args_model(m, e, k).0, m),
        lower_args_model(m, e, k).1.len() == k,
        forall|j: int|
            0 <= j < k ==> lookup(lower_args_model(m, e, k).0, #[trigger] e.args[j]) == Some(
                lower_args_model(m, e, k).1[j],
            ),
        lower_args_model(m, e, k).0.roots.len() <= m.roots.len() + args_size(e, k),
    decreases e, k,
{
    if k > 0 {
        lemma_lower_args(m, e, k - 1);
        let p = lower_args_model(m, e, k - 1);
        lemma_lower_model(p.0, e.args[k - 1]);
        let c = lower_model(p.0, e.args[k - 1]);
        assert forall|j: int| 0 <= j < k implies lookup(c.0, #[trigger] e.args[j]) == Some(
            lower_args_model(m, e, k).1[j],
        ) by {
            if j < k - 1 {
                lemma_lookup_extends(p.0, c.0, e.args[j]);
            }
        }
        lemma_extends_trans(m, p.0, c.0);
    }
}

/// Lowering an expression leaves the same graph, and answers the same Id, as
/// lowering its children one after another, left to right, and then the
/// expression itself.
pub proof fn law_lower_children_first(m: GraphModel, e: ExprModel)
    requires
        model_wf(m),
        m.roots.len() + expr_size(e) <= usize::MAX,
    ensures
        lower_model(m, e) == lower_model(lower_each(m, e.args), e),
{
    let n = e.args.len() as int;
    assert forall|k: int| 0 <= k <= n implies #[trigger] lower_args_model(m, e, k).0 == lower_each(m, e.args.take(k)) by {
        lemma_args_each(m, e, k);
    }
    assert(e.args.take(n) =~= e.args);
    lemma_lower_args(m, e, n);
    let a = lower_args_model(m, e, n);
    lemma_args_represented(a.0, e, n);
    assert(Seq::new(n as nat, |j: int| lookup(a.0, e.args[j])->0) =~= a.1);
}

/// Lowering the first `k` children of `e` is lowering them one after another.
pub proof fn lemma_args_each(m: GraphModel, e: ExprModel, k: int)
    requires
        0 <= k <= e.args.len(),
    ensures
        lower_args_model(m, e, k).0 == lower_each(m, e.args.take(k)),
    decreases k,
{
    if k > 0 {
        lemma_args_each(m, e, k - 1);
        assert(e.args.take(k).drop_last() =~= e.args.take(k - 1));
    } else {
        assert(e.args.take(0) =~= Seq::<ExprModel>::empty());
    }
}

/// Extension is transitive.
pub proof fn lemma_extends_trans(m1: GraphModel, m2: GraphModel, m3: GraphModel)
    requires
        extends(m2, m1),
        extends(m3, m2),
    ensures
        extends(m3, m1),
{
}

/// The nodes of a class, if any.
pub open spec fn nodes_of(c: Option<(Seq<HirId>, Seq<HirId>)>) -> Seq<HirId> {
    match c {
        Some(c) => c.0,
        None => Seq::empty(),
    }
}

/// The dependent parents of a class, if any.
pub open spec fn pdeps_of(c: Option<(Seq<HirId>, Seq<HirId>)>) -> Seq<HirId> {
    match c {
        Some(c) => c.1,
        None => Seq::empty(),
    }
}

/// The classes of the first `k` Ids, in order of their representative: each
/// representative with the other nodes of its class.
pub open spec fn class_listing(m: GraphModel, k: int) -> Seq<(usize, Seq<HirId>)>
    decreases k,
{
    if k <= 0 {
        Seq::empty()
    } else {
        let before = class_listing(m, k - 1);
        match m.classes[k - 1] {
            Some(c) => before.push(((k - 1) as usize, c.0.filter(|h: HirId| h@ != k - 1))),
            None => before,
        }
    }
}

} // verus!
