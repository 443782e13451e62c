//! Reachability in undirected graphs given by a list of edges, and the set of
//! connected components that such a list induces on the vertices `0..n`.
use vstd::prelude::*;
use vstd::set_lib::*;

verus! {

/// `p` is a walk in which consecutive vertices are related by `adj`.
pub open spec fn is_path(adj: spec_fn(int, int) -> bool, p: Seq<int>) -> bool {
    &&& p.len() >= 1
    &&& forall|i: int| 0 <= i < p.len() - 1 ==> #[trigger] adj(p[i], p[i + 1])
}

/// Some walk along `adj` leads from `a` to `b`.
pub open spec fn reachable(adj: spec_fn(int, int) -> bool, a: int, b: int) -> bool {
    exists|p: Seq<int>| #[trigger] is_path(adj, p) && p[0] == a && p.last() == b
}

pub proof fn lemma_reach_refl(adj: spec_fn(int, int) -> bool, a: int)
    ensures
        reachable(adj, a, a),
{
    let p = seq![a];
    assert(is_path(adj, p));
}

pub proof fn lemma_reach_step(adj: spec_fn(int, int) -> bool, a: int, b: int, c: int)
    requires
        reachable(adj, a, b),
        adj(b, c),
    ensures
        reachable(adj, a, c),
{
    let p = choose|p: Seq<int>| #[trigger] is_path(adj, p) && p[0] == a && p.last() == b;
    let q = p.push(c);
    assert forall|i: int| 0 <= i < q.len() - 1 implies #[trigger] adj(q[i], q[i + 1]) by {
        if i < p.len() - 1 {
            assert(q[i] == p[i] && q[i + 1] == p[i + 1]);
        }
    }
    assert(is_path(adj, q));
}

/// Whatever contains `a` and is closed under `adj` contains every vertex that
/// `a` reaches.
pub proof fn lemma_reach_closed(
    adj: spec_fn(int, int) -> bool,
    s: spec_fn(int) -> bool,
    a: int,
    b: int,
)
    requires
        reachable(adj, a, b),
        s(a),
        forall|x: int, y: int| #[trigger] s(x) && #[trigger] adj(x, y) ==> s(y),
    ensures
        s(b),
{
    let p = choose|p: Seq<int>| #[trigger] is_path(adj, p) && p[0] == a && p.last() == b;
    lemma_path_stays(adj, s, p, p.len() - 1);
}

proof fn lemma_path_stays(adj: spec_fn(int, int) -> bool, s: spec_fn(int) -> bool, p: Seq<int>, k: int)
    requires
        is_path(adj, p),
        0 <= k < p.len(),
        s(p[0]),
        forall|x: int, y: int| #[trigger] s(x) && #[trigger] adj(x, y) ==> s(y),
    ensures
        s(p[k]),
    decreases k,
{
    if k > 0 {
        lemma_path_stays(adj, s, p, k - 1);
        assert(adj(p[k - 1], p[(k - 1) + 1]));
    }
}

pub proof fn lemma_reach_trans(adj: spec_fn(int, int) -> bool, a: int, b: int, c: int)
    requires
        reachable(adj, a, b),
        reachable(adj, b, c),
    ensures
        reachable(adj, a, c),
{
    let s = |z: int| reachable(adj, a, z);
    assert forall|x: int, y: int| #[trigger] s(x) && #[trigger] adj(x, y) implies s(y) by {
        lemma_reach_step(adj, a, x, y);
    }
    lemma_reach_closed(adj, s, b, c);
}

/// A walk from `a` to `b` can be shortened to one that visits no vertex twice.
pub proof fn lemma_simple_path(adj: spec_fn(int, int) -> bool, a: int, b: int)
    requires
        reachable(adj, a, b),
    ensures
        exists|p: Seq<int>| #[trigger] is_path(adj, p) && p[0] == a && p.last() == b && p.no_duplicates(),
{
    let p = choose|p: Seq<int>| #[trigger] is_path(adj, p) && p[0] == a && p.last() == b;
    lemma_shorten(adj, p);
}

proof fn lemma_shorten(adj: spec_fn(int, int) -> bool, p: Seq<int>)
    requires
        is_path(adj, p),
    ensures
        exists|q: Seq<int>| #[trigger] is_path(adj, q) && q[0] == p[0] && q.last() == p.last() && q.no_duplicates(),
    decreases p.len(),
{
    if p.no_duplicates() {
        assert(is_path(adj, p));
    } else {
        let (i, j) = choose|i: int, j: int| 0 <= i < p.len() && 0 <= j < p.len() && i != j && p[i] == p[j];
        let (i, j) = if i < j {
            (i, j)
        } else {
            (j, i)
        };
        let q = p.subrange(0, i) + p.subrange(j, p.len() as int);
        assert forall|k: int| 0 <= k < q.len() - 1 implies #[trigger] adj(q[k], q[k + 1]) by {
            if k < i - 1 {
                assert(q[k] == p[k] && q[k + 1] == p[k + 1]);
            } else if k == i - 1 {
                assert(q[k] == p[i - 1] && q[k + 1] == p[j]);
                assert(adj(p[i - 1], p[(i - 1) + 1]));
            } else {
                assert(q[k] == p[k - i + j] && q[k + 1] == p[k - i + j + 1]);
                assert(adj(p[k - i + j], p[(k - i + j) + 1]));
            }
        }
        assert(q.len() >= 1);
        assert(q[0] == p[0]) by {
            if i == 0 {
                assert(q[0] == p[j]);
            }
        }
        assert(q.last() == p.last());
        lemma_shorten(adj, q);
    }
}

pub open spec fn symmetric(adj: spec_fn(int, int) -> bool) -> bool {
    forall|x: int, y: int| #[trigger] adj(x, y) ==> adj(y, x)
}

pub proof fn lemma_reach_sym(adj: spec_fn(int, int) -> bool, a: int, b: int)
    requires
        symmetric(adj),
        reachable(adj, a, b),
    ensures
        reachable(adj, b, a),
{
    let s = |z: int| reachable(adj, z, a);
    lemma_reach_refl(adj, a);
    assert forall|x: int, y: int| #[trigger] s(x) && #[trigger] adj(x, y) implies s(y) by {
        assert(adj(y, x));
        lemma_reach_refl(adj, y);
        lemma_reach_step(adj, y, y, x);
        lemma_reach_trans(adj, y, x, a);
    }
    lemma_reach_closed(adj, s, a, b);
}

/// Every walk along `adj1` is a walk along `adj2` when `adj1` implies `adj2`.
pub proof fn lemma_reach_mono(
    adj1: spec_fn(int, int) -> bool,
    adj2: spec_fn(int, int) -> bool,
    a: int,
    b: int,
)
    requires
        reachable(adj1, a, b),
        forall|x: int, y: int| #[trigger] adj1(x, y) ==> adj2(x, y),
    ensures
        reachable(adj2, a, b),
{
    let p = choose|p: Seq<int>| #[trigger] is_path(adj1, p) && p[0] == a && p.last() == b;
    assert forall|i: int| 0 <= i < p.len() - 1 implies #[trigger] adj2(p[i], p[i + 1]) by {
        assert(adj1(p[i], p[i + 1]));
    }
    assert(is_path(adj2, p));
}

/// A walk of more than one vertex starts with a step along `adj`.
pub proof fn lemma_reach_first_step(adj: spec_fn(int, int) -> bool, a: int, b: int)
    requires
        reachable(adj, a, b),
        a != b,
    ensures
        exists|c: int| #[trigger] adj(a, c),
{
    let p = choose|p: Seq<int>| #[trigger] is_path(adj, p) && p[0] == a && p.last() == b;
    assert(p.len() >= 2);
    let z: int = 0;
    assert(adj(p[z], p[z + 1]));
}

// ---------------------------------------------------------------------------
// Graphs given by a list of undirected edges
// ---------------------------------------------------------------------------

/// `u` and `v` are joined by one of the listed edges, in either direction.
pub open spec fn edge_adj(edges: Seq<(int, int)>, u: int, v: int) -> bool {
    exists|i: int| 0 <= i < edges.len() && (#[trigger] edges[i] == (u, v) || edges[i] == (v, u))
}

pub open spec fn adj_of(edges: Seq<(int, int)>) -> spec_fn(int, int) -> bool {
    |u: int, v: int| edge_adj(edges, u, v)
}

/// `a` and `b` are joined by a walk along the listed edges.
pub open spec fn connected(edges: Seq<(int, int)>, a: int, b: int) -> bool {
    reachable(adj_of(edges), a, b)
}

/// The vertices among `0..n` connected to `x`.
pub open spec fn class_of(n: int, edges: Seq<(int, int)>, x: int) -> Set<int> {
    Set::new(|y: int| 0 <= y < n && connected(edges, x, y))
}

/// Some other vertex among `0..n` is connected to `x`.
pub open spec fn has_partner(n: int, edges: Seq<(int, int)>, x: int) -> bool {
    exists|y: int| 0 <= y < n && y != x && #[trigger] connected(edges, x, y)
}

/// The connected components over `0..n` that hold at least two vertices.
pub open spec fn components(n: int, edges: Seq<(int, int)>) -> Set<Set<int>> {
    Set::new(
        |c: Set<int>|
            exists|x: int| 0 <= x < n && has_partner(n, edges, x) && c == #[trigger] class_of(n, edges, x),
    )
}

/// Every listed edge joins two vertices of `0..n`.
pub open spec fn edges_within(n: int, edges: Seq<(int, int)>) -> bool {
    forall|i: int|
        0 <= i < edges.len() ==> 0 <= (#[trigger] edges[i]).0 < n && 0 <= edges[i].1 < n
}

pub proof fn lemma_adj_symmetric(edges: Seq<(int, int)>)
    ensures
        symmetric(adj_of(edges)),
{
    assert forall|x: int, y: int| #[trigger] adj_of(edges)(x, y) implies adj_of(edges)(y, x) by {
        let i = choose|i: int|
            0 <= i < edges.len() && (#[trigger] edges[i] == (x, y) || edges[i] == (y, x));
        assert(edges[i] == (y, x) || edges[i] == (x, y));
    }
}

pub proof fn lemma_conn_refl(edges: Seq<(int, int)>, a: int)
    ensures
        connected(edges, a, a),
{
    lemma_reach_refl(adj_of(edges), a);
}

pub proof fn lemma_conn_sym(edges: Seq<(int, int)>, a: int, b: int)
    requires
        connected(edges, a, b),
    ensures
        connected(edges, b, a),
{
    lemma_adj_symmetric(edges);
    lemma_reach_sym(adj_of(edges), a, b);
}

pub proof fn lemma_conn_trans(edges: Seq<(int, int)>, a: int, b: int, c: int)
    requires
        connected(edges, a, b),
        connected(edges, b, c),
    ensures
        connected(edges, a, c),
{
    lemma_reach_trans(adj_of(edges), a, b, c);
}

/// With no edges, a vertex is connected only to itself.
pub proof fn lemma_conn_empty(a: int, b: int)
    ensures
        connected(Seq::<(int, int)>::empty(), a, b) <==> a == b,
{
    let e = Seq::<(int, int)>::empty();
    if a == b {
        lemma_conn_refl(e, a);
    }
    if connected(e, a, b) && a != b {
        lemma_reach_first_step(adj_of(e), a, b);
        let c = choose|c: int| #[trigger] adj_of(e)(a, c);
        assert(edge_adj(e, a, c));
    }
}

/// After the edges `before`, the edges `after` connect two vertices iff
/// `before` does, or one is connected to `a` and the other to `b`.
#[verifier::opaque]
pub open spec fn joins(before: Seq<(int, int)>, a: int, b: int, after: Seq<(int, int)>) -> bool {
    forall|x: int, y: int|
        #[trigger] connected(after, x, y) <==> (connected(before, x, y) || (connected(before, x, a) && connected(
            before,
            b,
            y,
        )) || (connected(before, x, b) && connected(before, a, y)))
}

/// Adding the edge (a, b) to a list joins `a` with `b` in this sense.
pub proof fn lemma_push_joins(edges: Seq<(int, int)>, a: int, b: int)
    ensures
        joins(edges, a, b, edges.push((a, b))),
{
    reveal(joins);
    assert forall|x: int, y: int|
        #[trigger] connected(edges.push((a, b)), x, y) <==> (connected(edges, x, y) || (connected(edges, x, a)
            && connected(edges, b, y)) || (connected(edges, x, b) && connected(edges, a, y))) by {
        lemma_conn_push(edges, a, b, x, y);
    }
}

/// Adding the edge (a, b) joins the component of `a` with that of `b` and
/// leaves every other pair as it was.
pub proof fn lemma_conn_push(edges: Seq<(int, int)>, a: int, b: int, x: int, y: int)
    ensures
        connected(edges.push((a, b)), x, y) <==> (connected(edges, x, y) || (connected(edges, x, a)
            && connected(edges, b, y)) || (connected(edges, x, b) && connected(edges, a, y))),
{
    let e2 = edges.push((a, b));
    let adj1 = adj_of(edges);
    let adj2 = adj_of(e2);
    assert forall|u: int, v: int| #[trigger] adj1(u, v) implies adj2(u, v) by {
        let i = choose|i: int|
            0 <= i < edges.len() && (#[trigger] edges[i] == (u, v) || edges[i] == (v, u));
        assert(e2[i] == edges[i]);
    }
    assert(adj2(a, b)) by {
        assert(e2[edges.len() as int] == (a, b));
    }
    assert(adj2(b, a)) by {
        assert(e2[edges.len() as int] == (a, b));
    }
    // right to left
    if connected(edges, x, y) {
        lemma_reach_mono(adj1, adj2, x, y);
    }
    if connected(edges, x, a) && connected(edges, b, y) {
        lemma_reach_mono(adj1, adj2, x, a);
        lemma_reach_mono(adj1, adj2, b, y);
        lemma_reach_step(adj2, x, a, b);
        lemma_reach_trans(adj2, x, b, y);
    }
    if connected(edges, x, b) && connected(edges, a, y) {
        lemma_reach_mono(adj1, adj2, x, b);
        lemma_reach_mono(adj1, adj2, a, y);
        lemma_reach_step(adj2, x, b, a);
        lemma_reach_trans(adj2, x, a, y);
    }
    // left to right
    if connected(e2, x, y) {
        let s = |z: int|
            connected(edges, x, z) || (connected(edges, x, a) && connected(edges, b, z)) || (
            connected(edges, x, b) && connected(edges, a, z));
        lemma_conn_refl(edges, x);
        lemma_conn_refl(edges, a);
        lemma_conn_refl(edges, b);
        assert forall|u: int, v: int| #[trigger] s(u) && #[trigger] adj2(u, v) implies s(v) by {
            let i = choose|i: int|
                0 <= i < e2.len() && (#[trigger] e2[i] == (u, v) || e2[i] == (v, u));
            if i < edges.len() {
                assert(e2[i] == edges[i]);
                assert(adj1(u, v));
                lemma_reach_refl(adj1, u);
                lemma_reach_step(adj1, u, u, v);
                if connected(edges, x, u) {
                    lemma_conn_trans(edges, x, u, v);
                }
                if connected(edges, x, a) && connected(edges, b, u) {
                    lemma_conn_trans(edges, b, u, v);
                }
                if connected(edges, x, b) && connected(edges, a, u) {
                    lemma_conn_trans(edges, a, u, v);
                }
            } else {
                assert(e2[i] == (a, b));
                if u == a {
                    assert(v == b);
                    if connected(edges, x, a) {
                    } else if connected(edges, x, b) && connected(edges, a, u) {
                    } else {
                        assert(connected(edges, x, a) && connected(edges, b, a));
                        lemma_conn_sym(edges, b, a);
                    }
                } else {
                    assert(u == b && v == a);
                    if connected(edges, x, b) {
                    } else if connected(edges, x, a) && connected(edges, b, u) {
                    } else {
                        assert(connected(edges, x, b) && connected(edges, a, b));
                        lemma_conn_sym(edges, a, b);
                    }
                }
            }
        }
        lemma_reach_closed(adj2, s, x, y);
    }
}


/// Vertices connected to each other have the same component.
pub proof fn lemma_class_eq(n: int, edges: Seq<(int, int)>, x: int, y: int)
    requires
        connected(edges, x, y),
    ensures
        class_of(n, edges, x) == class_of(n, edges, y),
{
    assert forall|z: int| class_of(n, edges, x).contains(z) <==> class_of(n, edges, y).contains(z) by {
        if connected(edges, x, z) {
            lemma_conn_sym(edges, x, y);
            lemma_conn_trans(edges, y, x, z);
        }
        if connected(edges, y, z) {
            lemma_conn_trans(edges, x, y, z);
        }
    }
    assert(class_of(n, edges, x) =~= class_of(n, edges, y));
}

/// There are finitely many components, at most one per vertex.
pub proof fn lemma_components_finite(n: int, edges: Seq<(int, int)>)
    requires
        n >= 0,
    ensures
        components(n, edges).finite(),
        components(n, edges).len() <= n,
{
    let dom = set_int_range(0, n).filter(|x: int| has_partner(n, edges, x));
    let f = |x: int| class_of(n, edges, x);
    lemma_int_range(0, n);
    set_int_range(0, n).lemma_len_filter(|x: int| has_partner(n, edges, x));
    assert(dom.map(f) =~= components(n, edges)) by {
        assert forall|c: Set<int>| dom.map(f).contains(c) implies components(n, edges).contains(c) by {
            let x = choose|x: int| dom.contains(x) && c == f(x);
            assert(c == class_of(n, edges, x));
        }
        assert forall|c: Set<int>| components(n, edges).contains(c) implies dom.map(f).contains(c) by {
            let x = choose|x: int|
                0 <= x < n && has_partner(n, edges, x) && c == #[trigger] class_of(n, edges, x);
            assert(dom.contains(x) && c == f(x));
        }
    }
    lemma_map_size_bound(dom, components(n, edges), f);
}

/// Adding an edge between vertices that are already connected changes no
/// component.
pub proof fn lemma_components_push_connected(n: int, edges: Seq<(int, int)>, a: int, b: int)
    requires
        connected(edges, a, b),
    ensures
        forall|x: int, y: int|
            #[trigger] connected(edges.push((a, b)), x, y) <==> connected(edges, x, y),
        components(n, edges.push((a, b))) == components(n, edges),
{
    let e2 = edges.push((a, b));
    assert forall|x: int, y: int| connected(e2, x, y) <==> connected(edges, x, y) by {
        lemma_conn_push(edges, a, b, x, y);
        if connected(edges, x, a) && connected(edges, b, y) {
            lemma_conn_trans(edges, x, a, b);
            lemma_conn_trans(edges, x, b, y);
        }
        if connected(edges, x, b) && connected(edges, a, y) {
            lemma_conn_sym(edges, a, b);
            lemma_conn_trans(edges, x, b, a);
            lemma_conn_trans(edges, x, a, y);
        }
    }
    assert forall|x: int| #[trigger] class_of(n, e2, x) == class_of(n, edges, x) by {
        assert(class_of(n, e2, x) =~= class_of(n, edges, x));
    }
    assert forall|x: int| #[trigger] has_partner(n, e2, x) == has_partner(n, edges, x) by {
        if has_partner(n, e2, x) {
            let y = choose|y: int| 0 <= y < n && y != x && #[trigger] connected(e2, x, y);
            assert(connected(edges, x, y));
        }
        if has_partner(n, edges, x) {
            let y = choose|y: int| 0 <= y < n && y != x && #[trigger] connected(edges, x, y);
            assert(connected(e2, x, y));
        }
    }
    assert(components(n, e2) =~= components(n, edges)) by {
        assert forall|c: Set<int>| components(n, e2).contains(c) implies components(n, edges).contains(c) by {
            let x = choose|x: int|
                0 <= x < n && has_partner(n, e2, x) && c == #[trigger] class_of(n, e2, x);
            assert(has_partner(n, edges, x) && c == class_of(n, edges, x));
        }
        assert forall|c: Set<int>| components(n, edges).contains(c) implies components(n, e2).contains(c) by {
            let x = choose|x: int|
                0 <= x < n && has_partner(n, edges, x) && c == #[trigger] class_of(n, edges, x);
            assert(has_partner(n, e2, x) && c == class_of(n, e2, x));
        }
    }
}

/// The component of `a` counts among the components exactly when it holds a
/// second vertex.
pub proof fn lemma_class_in_components(n: int, edges: Seq<(int, int)>, a: int)
    requires
        0 <= a < n,
    ensures
        components(n, edges).contains(class_of(n, edges, a)) <==> has_partner(n, edges, a),
{
    if components(n, edges).contains(class_of(n, edges, a)) {
        let x = choose|x: int|
            0 <= x < n && has_partner(n, edges, x) && class_of(n, edges, a) == #[trigger] class_of(
                n,
                edges,
                x,
            );
        lemma_conn_refl(edges, a);
        assert(class_of(n, edges, x).contains(a));
        let y = choose|y: int| 0 <= y < n && y != x && #[trigger] connected(edges, x, y);
        assert(class_of(n, edges, x).contains(y));
        assert(connected(edges, a, y));
        assert(connected(edges, x, a));
        if y == a {
            lemma_conn_sym(edges, x, a);
            assert(connected(edges, a, x));
            assert(has_partner(n, edges, a));
        } else {
            assert(has_partner(n, edges, a));
        }
    }
}

/// Adding an edge between two components merges them into one: the two old
/// components leave the set (where they counted) and their union enters it.
pub proof fn lemma_components_push_merge(n: int, edges: Seq<(int, int)>, a: int, b: int)
    requires
        0 <= a < n,
        0 <= b < n,
        !connected(edges, a, b),
    ensures
        ({
            let c1 = components(n, edges);
            let c2 = components(n, edges.push((a, b)));
            let pa: int = if has_partner(n, edges, a) { 1 } else { 0 };
            let pb: int = if has_partner(n, edges, b) { 1 } else { 0 };
            &&& c2.finite()
            &&& c2.len() == c1.len() + 1 - pa - pb
        }),
        forall|x: int|
            #![trigger class_of(n, edges.push((a, b)), x)]
            0 <= x < n ==> class_of(n, edges.push((a, b)), x) == if connected(edges, x, a)
                || connected(edges, x, b) {
                class_of(n, edges, a) + class_of(n, edges, b)
            } else {
                class_of(n, edges, x)
            },
{
    let e2 = edges.push((a, b));
    let ca = class_of(n, edges, a);
    let cb = class_of(n, edges, b);
    let c1 = components(n, edges);
    let u = ca + cb;
    lemma_conn_refl(edges, a);
    lemma_conn_refl(edges, b);
    assert(a != b);
    if connected(edges, b, a) {
        lemma_conn_sym(edges, b, a);
    }
    assert(ca.contains(a) && cb.contains(b) && !ca.contains(b) && !cb.contains(a));
    // how classes change
    assert forall|x: int|
        #![trigger class_of(n, e2, x)]
        0 <= x < n implies class_of(n, e2, x) == if connected(edges, x, a) || connected(
            edges,
            x,
            b,
        ) {
            u
        } else {
            class_of(n, edges, x)
        } by {
        if connected(edges, x, a) || connected(edges, x, b) {
            assert forall|z: int| class_of(n, e2, x).contains(z) <==> u.contains(z) by {
                lemma_conn_push(edges, a, b, x, z);
                if connected(edges, x, a) {
                    lemma_conn_sym(edges, x, a);
                    if connected(edges, x, z) {
                        lemma_conn_trans(edges, a, x, z);
                    }
                    if connected(edges, a, z) {
                        lemma_conn_trans(edges, x, a, z);
                    }
                    if connected(edges, x, b) {
                        lemma_conn_trans(edges, a, x, b);
                    }
                } else {
                    lemma_conn_sym(edges, x, b);
                    if connected(edges, x, z) {
                        lemma_conn_trans(edges, b, x, z);
                    }
                    if connected(edges, b, z) {
                        lemma_conn_trans(edges, x, b, z);
                    }
                }
            }
            assert(class_of(n, e2, x) =~= u);
        } else {
            assert forall|z: int| class_of(n, e2, x).contains(z) <==> class_of(n, edges, x).contains(
                z,
            ) by {
                lemma_conn_push(edges, a, b, x, z);
            }
            assert(class_of(n, e2, x) =~= class_of(n, edges, x));
        }
    }
    // partners in the new graph
    assert forall|x: int|
        0 <= x < n && !(connected(edges, x, a) || connected(edges, x, b)) implies #[trigger] has_partner(
        n,
        e2,
        x,
    ) == has_partner(n, edges, x) by {
        if has_partner(n, e2, x) {
            let y = choose|y: int| 0 <= y < n && y != x && #[trigger] connected(e2, x, y);
            lemma_conn_push(edges, a, b, x, y);
        }
        if has_partner(n, edges, x) {
            let y = choose|y: int| 0 <= y < n && y != x && #[trigger] connected(edges, x, y);
            lemma_conn_push(edges, a, b, x, y);
        }
    }
    let rhs = c1.remove(ca).remove(cb).insert(u);
    assert(components(n, e2) =~= rhs) by {
        assert forall|c: Set<int>| components(n, e2).contains(c) implies rhs.contains(c) by {
            let x = choose|x: int|
                0 <= x < n && has_partner(n, e2, x) && c == #[trigger] class_of(n, e2, x);
            if connected(edges, x, a) || connected(edges, x, b) {
                assert(c == u);
            } else {
                assert(c == class_of(n, edges, x));
                assert(has_partner(n, edges, x));
                assert(c1.contains(c));
                assert(!c.contains(a)) by {
                    if c.contains(a) {
                        lemma_conn_sym(edges, x, a);
                    }
                }
                assert(!c.contains(b)) by {
                    if c.contains(b) {
                        lemma_conn_sym(edges, x, b);
                    }
                }
                assert(c != ca && c != cb);
            }
        }
        assert forall|c: Set<int>| rhs.contains(c) implies components(n, e2).contains(c) by {
            if c == u {
                lemma_conn_push(edges, a, b, a, b);
                assert(has_partner(n, e2, a));
                assert(class_of(n, e2, a) == u);
            } else {
                assert(c1.contains(c) && c != ca && c != cb);
                let x = choose|x: int|
                    0 <= x < n && has_partner(n, edges, x) && c == #[trigger] class_of(n, edges, x);
                if connected(edges, x, a) {
                    lemma_class_eq(n, edges, x, a);
                }
                if connected(edges, x, b) {
                    lemma_class_eq(n, edges, x, b);
                }
                assert(class_of(n, e2, x) == c);
            }
        }
    }
    lemma_components_finite(n, edges);
    lemma_class_in_components(n, edges, a);
    lemma_class_in_components(n, edges, b);
    assert(ca != cb);
    assert(!c1.contains(u)) by {
        if c1.contains(u) {
            let x = choose|x: int|
                0 <= x < n && has_partner(n, edges, x) && u == #[trigger] class_of(n, edges, x);
            assert(u.contains(a) && u.contains(b));
            lemma_conn_sym(edges, x, a);
            lemma_conn_trans(edges, a, x, b);
        }
    }
    assert(!c1.remove(ca).remove(cb).contains(u));
}


/// For a nonempty list of edges between distinct vertices, there is exactly one
/// component exactly when the first endpoints of all edges are connected.
pub proof fn lemma_single_component(n: int, edges: Seq<(int, int)>)
    requires
        n >= 0,
        edges_within(n, edges),
        forall|i: int| 0 <= i < edges.len() ==> (#[trigger] edges[i]).0 != edges[i].1,
        edges.len() > 0,
    ensures
        components(n, edges).len() == 1 <==> forall|i: int, j: int|
            0 <= i < edges.len() && 0 <= j < edges.len() ==> connected(
                edges,
                (#[trigger] edges[i]).0,
                (#[trigger] edges[j]).0,
            ),
{
    let c = components(n, edges);
    lemma_components_finite(n, edges);
    let a0 = edges[0].0;
    let k = class_of(n, edges, a0);
    // every listed edge joins its endpoints, and its first endpoint has a partner
    assert forall|i: int| 0 <= i < edges.len() implies connected(edges, (#[trigger] edges[i]).0, edges[i].1)
        && has_partner(n, edges, edges[i].0) by {
        assert(adj_of(edges)(edges[i].0, edges[i].1));
        lemma_reach_refl(adj_of(edges), edges[i].0);
        lemma_reach_step(adj_of(edges), edges[i].0, edges[i].0, edges[i].1);
    }
    lemma_class_in_components(n, edges, a0);
    assert(c.contains(k));
    if c.len() == 1 {
        assert forall|i: int, j: int|
            0 <= i < edges.len() && 0 <= j < edges.len() implies connected(
            edges,
            (#[trigger] edges[i]).0,
            (#[trigger] edges[j]).0,
        ) by {
            lemma_class_in_components(n, edges, edges[i].0);
            lemma_class_in_components(n, edges, edges[j].0);
            let ki = class_of(n, edges, edges[i].0);
            let kj = class_of(n, edges, edges[j].0);
            assert(c.remove(k).len() == 0);
            if ki != k {
                assert(c.remove(k).contains(ki));
            }
            if kj != k {
                assert(c.remove(k).contains(kj));
            }
            lemma_conn_refl(edges, edges[j].0);
            assert(kj.contains(edges[j].0));
            assert(ki.contains(edges[j].0));
        }
    }
    if forall|i: int, j: int|
        0 <= i < edges.len() && 0 <= j < edges.len() ==> connected(
            edges,
            (#[trigger] edges[i]).0,
            (#[trigger] edges[j]).0,
        ) {
        assert(c =~= set![k]) by {
            assert forall|x: Set<int>| c.contains(x) implies x == k by {
                let v = choose|v: int|
                    0 <= v < n && has_partner(n, edges, v) && x == #[trigger] class_of(n, edges, v);
                let y = choose|y: int| 0 <= y < n && y != v && #[trigger] connected(edges, v, y);
                lemma_reach_first_step(adj_of(edges), v, y);
                let cc = choose|cc: int| #[trigger] adj_of(edges)(v, cc);
                let i = choose|i: int|
                    0 <= i < edges.len() && (#[trigger] edges[i] == (v, cc) || edges[i] == (cc, v));
                assert(connected(edges, a0, edges[i].0));
                if edges[i] == (v, cc) {
                    lemma_class_eq(n, edges, a0, v);
                } else {
                    lemma_conn_trans(edges, a0, edges[i].0, edges[i].1);
                    lemma_class_eq(n, edges, a0, v);
                }
            }
        }
        assert(set![k].len() == 1);
    }
}

} // verus!
