use given::{Expr, Graph, HirId, Term, Type};

const VAR_X: u64 = 10;
const VAR_Y: u64 = 11;
const LIT_TRUE: u64 = 1;
const NOT: u64 = 3;
const AND: u64 = 4;
const OR: u64 = 5;

fn leaf(op: u64) -> Expr {
    Expr { op, args: vec![] }
}

fn not(a: Expr) -> Expr {
    Expr { op: NOT, args: vec![a] }
}

fn and(a: Expr, b: Expr) -> Expr {
    Expr { op: AND, args: vec![a, b] }
}

fn or(a: Expr, b: Expr) -> Expr {
    Expr { op: OR, args: vec![a, b] }
}

fn ids(v: &[HirId]) -> Vec<usize> {
    v.iter().map(|h| h.index()).collect()
}

#[test]
fn new_graph_is_empty() {
    let g = Graph::new();
    assert_eq!(g.size(), 0);
    assert!(g.classes().is_empty());
}

#[test]
fn lower_shares_equal_subterms() {
    let mut g = Graph::new();
    let x = g.lower(leaf(VAR_X));
    assert_eq!(x.index(), 0);
    let e = g.lower(and(leaf(VAR_X), leaf(VAR_X)));
    assert_eq!(e.index(), 1);
    assert_eq!(g.size(), 2);
    let t: &Term<HirId> = g.index(e);
    assert_eq!(t.op, AND);
    assert_eq!(ids(&t.args), vec![0, 0]);
}

#[test]
fn lower_twice_returns_same_id_and_adds_nothing() {
    let mut g = Graph::new();
    let a = g.lower(or(leaf(VAR_X), not(leaf(VAR_X))));
    let n = g.size();
    let b = g.lower(or(leaf(VAR_X), not(leaf(VAR_X))));
    assert_eq!(a, b);
    assert_eq!(g.size(), n);
    assert_eq!(n, 3);
}

#[test]
fn inst_reads_back_lowered_expression() {
    let mut g = Graph::new();
    let id = g.lower(and(not(leaf(VAR_X)), leaf(VAR_Y)));
    let e = g.inst(id);
    assert_eq!(e, and(not(leaf(VAR_X)), leaf(VAR_Y)));
}

#[test]
fn find_of_fresh_id_is_itself() {
    let mut g = Graph::new();
    let x = g.lower(leaf(VAR_X));
    let y = g.lower(leaf(VAR_Y));
    assert_eq!(g.find(x), x);
    assert_eq!(g.find(y), y);
}

#[test]
fn union_keeps_smallest_representative() {
    let mut g = Graph::new();
    let x = g.lower(leaf(VAR_X));
    let y = g.lower(leaf(VAR_Y));
    assert_eq!(g.union(y, x), Some(x));
    assert_eq!(g.find(y), x);
    assert_eq!(g.find(x), x);
}

#[test]
fn union_is_idempotent() {
    let mut g = Graph::new();
    let x = g.lower(leaf(VAR_X));
    let y = g.lower(leaf(VAR_Y));
    assert_eq!(g.union(x, y), Some(x));
    assert_eq!(g.union(x, y), None);
    assert_eq!(g.union(y, x), None);
    assert_eq!(g.union(x, x), None);
}

#[test]
fn union_is_symmetric() {
    let mut g1 = Graph::new();
    let mut g2 = Graph::new();
    for g in [&mut g1, &mut g2] {
        g.lower(leaf(VAR_X));
        g.lower(leaf(VAR_Y));
        g.lower(leaf(LIT_TRUE));
    }
    let (a, b) = (g1.lower(leaf(VAR_Y)), g1.lower(leaf(LIT_TRUE)));
    assert_eq!(g1.union(a, b), g2.union(b, a));
    let l1: Vec<(usize, Vec<usize>)> = g1.classes().iter().map(|(r, o)| (r.index(), ids(o))).collect();
    let l2: Vec<(usize, Vec<usize>)> = g2.classes().iter().map(|(r, o)| (r.index(), ids(o))).collect();
    assert_eq!(l1, l2);
    assert_eq!(l1, vec![(0, vec![]), (1, vec![2])]);
}

#[test]
fn union_chain_merges_transitively() {
    let mut g = Graph::new();
    let a = g.lower(leaf(20));
    let b = g.lower(leaf(21));
    let c = g.lower(leaf(22));
    let d = g.lower(leaf(23));
    assert_eq!(g.union(c, d), Some(c));
    assert_eq!(g.union(b, d), Some(b));
    assert_eq!(g.find(d), b);
    assert_eq!(g.union(d, a), Some(a));
    assert_eq!(g.find(b), a);
    assert_eq!(g.find(c), a);
    assert_eq!(g.find(d), a);
    let l: Vec<(usize, Vec<usize>)> = g.classes().iter().map(|(r, o)| (r.index(), ids(o))).collect();
    assert_eq!(l, vec![(0, vec![1, 2, 3])]);
}

#[test]
fn update_merges_congruent_parents() {
    let mut g = Graph::new();
    let a = g.lower(leaf(VAR_X));
    let b = g.lower(leaf(VAR_Y));
    let na = g.lower(not(leaf(VAR_X)));
    let nb = g.lower(not(leaf(VAR_Y)));
    assert_ne!(g.find(na), g.find(nb));
    assert_eq!(g.union(a, b), Some(a));
    g.update();
    assert_eq!(g.find(na), g.find(nb));
    assert_eq!(g.find(nb), na);
    // the merged parent is dropped from the nodes of its class
    let l: Vec<(usize, Vec<usize>)> = g.classes().iter().map(|(r, o)| (r.index(), ids(o))).collect();
    assert_eq!(l, vec![(0, vec![1]), (2, vec![])]);
}

#[test]
fn update_without_pending_work_changes_nothing() {
    let mut g = Graph::new();
    let x = g.lower(leaf(VAR_X));
    let y = g.lower(leaf(VAR_Y));
    g.union(x, y);
    g.update();
    let l: Vec<(usize, Vec<usize>)> = g.classes().iter().map(|(r, o)| (r.index(), ids(o))).collect();
    assert_eq!(l, vec![(0, vec![1])]);
}

#[test]
fn boolean_tautology_walkthrough() {
    let x = || leaf(VAR_X);
    let e1 = || or(x(), not(x()));
    let e2 = || not(and(not(e1()), not(e1())));
    let e3 = || leaf(LIT_TRUE);
    let mut g = Graph::new();
    let id_e1 = g.lower(e1());
    let id_e2 = g.lower(e2());
    let id_e3 = g.lower(e3());
    assert_eq!((id_e1.index(), id_e2.index(), id_e3.index()), (2, 5, 6));
    assert!(g.find(id_e2) != g.find(id_e3));

    // pass 1
    assert_eq!(g.union(id_e1, id_e3), Some(id_e1));
    let id_e4 = g.lower(or(e1(), e1()));
    assert_eq!(id_e4.index(), 7);
    assert_eq!(g.union(id_e2, id_e4), Some(id_e2));
    g.update();
    assert!(g.find(id_e2) != g.find(id_e3));

    // pass 2
    assert_eq!(g.union(id_e2, id_e1), Some(id_e1));
    g.update();
    assert!(g.find(id_e2) == g.find(id_e3));

    assert_eq!(g.inst(id_e4), or(e1(), e1()));
    assert_eq!(g.size(), 8);
    let l: Vec<(usize, Vec<usize>)> = g.classes().iter().map(|(r, o)| (r.index(), ids(o))).collect();
    assert_eq!(
        l,
        vec![(0, vec![]), (1, vec![]), (2, vec![6, 5, 7]), (3, vec![]), (4, vec![])]
    );
}

#[test]
fn expr_type_round_trip() {
    let e = and(leaf(VAR_X), leaf(VAR_Y));
    assert!(!e.is_leaf());
    assert!(leaf(VAR_X).is_leaf());
    let t = e.lower();
    assert_eq!(t.op, AND);
    assert_eq!(t.args.len(), 2);
    let back = Expr::inst(t);
    assert_eq!(back, and(leaf(VAR_X), leaf(VAR_Y)));
}

#[test]
fn find_keeps_classes_while_compressing_paths() {
    let mut g = Graph::new();
    let a = g.lower(leaf(20));
    let b = g.lower(leaf(21));
    let c = g.lower(leaf(22));
    let d = g.lower(leaf(23));
    g.union(c, d);
    g.union(b, c);
    g.union(a, b);
    let before: Vec<(usize, Vec<usize>)> = g.classes().iter().map(|(r, o)| (r.index(), ids(o))).collect();
    assert_eq!(g.find(d), a);
    assert_eq!(g.find(d), a);
    assert_eq!(g.find(c), a);
    let after: Vec<(usize, Vec<usize>)> = g.classes().iter().map(|(r, o)| (r.index(), ids(o))).collect();
    assert_eq!(before, after);
}

#[test]
fn update_closes_congruence_across_unions() {
    // Ids: c = 0, a = 1, b = 2, g(b) = 3, g(c) = 4.
    let g_of = |e: Expr| Expr { op: 30, args: vec![e] };
    let mut g = Graph::new();
    let c = g.lower(leaf(22));
    let a = g.lower(leaf(20));
    let b = g.lower(leaf(21));
    let gb = g.lower(g_of(leaf(21)));
    let gc = g.lower(g_of(leaf(22)));
    assert_eq!(g.union(a, b), Some(a));
    g.update();
    assert_ne!(g.find(gb), g.find(gc));
    assert_eq!(g.union(c, a), Some(c));
    g.update();
    // `b` is now equivalent to `c`, so `g(b)` and `g(c)` are too.
    assert_eq!(g.find(b), c);
    assert_eq!(g.find(gb), g.find(gc));
    assert_eq!(g.find(gc), gb);
}

#[test]
fn lower_after_update_finds_equivalent_term() {
    // Ids: w = 0, x = 1, not x = 2.
    let mut g = Graph::new();
    let w = g.lower(leaf(VAR_Y));
    let x = g.lower(leaf(VAR_X));
    let nx = g.lower(not(leaf(VAR_X)));
    assert_eq!(g.union(w, x), Some(w));
    g.update();
    let nw = g.lower(not(leaf(VAR_Y)));
    assert_eq!(nw, nx);
    assert_eq!(g.size(), 3);
}

#[test]
fn default_graph_is_empty() {
    let g = Graph::default();
    assert_eq!(g.size(), 0);
    assert!(g.classes().is_empty());
}

#[test]
fn clones_are_equal_and_independent() {
    let e = and(not(leaf(VAR_X)), leaf(VAR_Y));
    assert_eq!(e.clone(), e);
    let mut g = Graph::new();
    let id = g.lower(e.clone());
    let mut h = g.clone();
    assert_eq!(h.size(), g.size());
    assert_eq!(h.inst(id), e);
    h.lower(leaf(LIT_TRUE));
    assert_eq!(h.size(), g.size() + 1);
}

#[test]
fn update_twice_is_update_once() {
    let mut g = Graph::new();
    let a = g.lower(leaf(VAR_X));
    let b = g.lower(leaf(VAR_Y));
    g.lower(not(leaf(VAR_X)));
    g.lower(not(leaf(VAR_Y)));
    g.union(a, b);
    g.update();
    let once: Vec<(usize, Vec<usize>)> = g.classes().iter().map(|(r, o)| (r.index(), ids(o))).collect();
    g.update();
    let twice: Vec<(usize, Vec<usize>)> = g.classes().iter().map(|(r, o)| (r.index(), ids(o))).collect();
    assert_eq!(once, twice);
    assert_eq!(g.size(), 4);
}

#[test]
fn hir_id_text_is_index_in_backquotes() {
    let mut g = Graph::new();
    let ids: Vec<HirId> = (0..13).map(|k| g.lower(leaf(100 + k))).collect();
    assert_eq!(ids[0].to_text(), "`0`");
    assert_eq!(ids[3].to_text(), "`3`");
    assert_eq!(ids[12].to_text(), "`12`");
}

#[test]
fn update_merges_only_forced_classes() {
    let mut g = Graph::new();
    let x = g.lower(leaf(VAR_X));
    let y = g.lower(leaf(VAR_Y));
    let nx = g.lower(not(leaf(VAR_X)));
    let ny = g.lower(not(leaf(VAR_Y)));
    let a = g.lower(not(not(leaf(VAR_X))));
    let b = g.lower(not(not(leaf(VAR_Y))));
    assert_eq!(g.union(x, y), Some(x));
    g.update();
    assert_eq!(g.find(ny), nx);
    assert_eq!(g.find(b), a);
    assert_ne!(g.find(a), g.find(nx));
    assert_ne!(g.find(x), g.find(nx));
    assert_eq!(g.find(y), x);
    assert_eq!(g.size(), 6);
}

#[test]
fn distinct_expressions_get_distinct_ids() {
    let mut g = Graph::new();
    let e1 = and(leaf(VAR_X), not(leaf(VAR_Y)));
    let e2 = and(not(leaf(VAR_Y)), leaf(VAR_X));
    let r1 = g.lower(e1.clone());
    let r2 = g.lower(e2.clone());
    let r3 = g.lower(e1.clone());
    assert_ne!(r1, r2);
    assert_eq!(r1, r3);
    assert_eq!(g.inst(r1), e1);
    assert_eq!(g.inst(r2), e2);
    assert_eq!(g.size(), 5);
}
