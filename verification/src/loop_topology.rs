//! Incremental connectivity over the vertices of the loop subgraph.
use vstd::prelude::*;
use vstd::set_lib::*;

use crate::graph::{
    class_of, components, connected, edges_within, has_partner, joins, lemma_push_joins,
    lemma_class_in_components,
    lemma_components_finite, lemma_components_push_connected, lemma_components_push_merge,
    lemma_conn_empty, lemma_conn_push, lemma_conn_refl, lemma_conn_sym, lemma_conn_trans,
};

verus! {

/// Incremental connectivity over the loop subgraph's vertices, used by
/// [`SolverLines`](crate::SolverLines) to answer loop queries without rebuilding
/// components from scratch on every propagation pass.
///
/// Vertices are identified by flat index `y * (width + 1) + x`. The topology only
/// ever sees edge additions. Its abstract state is the number of vertices and the
/// list of edges added so far.
pub trait LoopTopology: Clone + Sized {
    /// Number of vertices the topology was created over.
    spec fn vertex_total(&self) -> nat;

    /// The loop edges added so far, in order.
    spec fn edge_log(&self) -> Seq<(int, int)>;

    /// The internal invariant of the representation.
    spec fn wf(&self) -> bool;

    /// Creates an empty topology over `vertex_count` vertices and no edges.
    fn new(vertex_count: usize) -> (t: Self)
        requires
            vertex_count <= u32::MAX,
        ensures
            t.wf(),
            t.vertex_total() == vertex_count,
            t.edge_log() == Seq::<(int, int)>::empty(),
    ;

    /// Records a loop edge between vertices `a` and `b`: the edge count grows
    /// by one (a redundant edge counts too), and two vertices are connected
    /// afterwards iff they were, or one was connected to `a` and the other
    /// to `b`.
    fn add_loop_edge(&mut self, a: usize, b: usize)
        requires
            old(self).wf(),
            a < old(self).vertex_total(),
            b < old(self).vertex_total(),
            old(self).edge_log().len() < usize::MAX,
        ensures
            final(self).wf(),
            final(self).vertex_total() == old(self).vertex_total(),
            final(self).edge_log() == old(self).edge_log().push((a as int, b as int)),
            joins(old(self).edge_log(), a as int, b as int, final(self).edge_log()),
    ;

    /// True iff `a` and `b` are in the same connected component of loop edges.
    fn connected(&self, a: usize, b: usize) -> (r: bool)
        requires
            self.wf(),
            a < self.vertex_total(),
            b < self.vertex_total(),
        ensures
            r == connected(self.edge_log(), a as int, b as int),
    ;

    /// Total number of loop edges added.
    fn loop_edge_count(&self) -> (r: usize)
        requires
            self.wf(),
        ensures
            r == self.edge_log().len(),
    ;

    /// Number of connected components that contain at least two vertices, which
    /// for edges between distinct vertices are the components holding a loop edge.
    fn component_count(&self) -> (r: usize)
        requires
            self.wf(),
        ensures
            r == components(self.vertex_total() as int, self.edge_log()).len(),
    ;
}

/// Disjoint-set (union-find) implementation of [`LoopTopology`].
///
/// Union by size without path compression, so `find` (and therefore every query)
/// takes `&self` while the trees stay shallow.
#[derive(Clone)]
pub struct DsuTopology {
    parent: Vec<u32>,
    size: Vec<u32>,
    edges: usize,
    /// Components with at least two vertices.
    components: usize,
    /// The edges added so far.
    log: Ghost<Seq<(int, int)>>,
    /// The root of each vertex's tree.
    rep: Ghost<Seq<int>>,
}

/// The vertices whose root is `r`.
pub open spec fn members(rep: Seq<int>, r: int) -> Set<int> {
    Set::new(|x: int| 0 <= x < rep.len() && rep[x] == r)
}

impl DsuTopology {
    spec fn well_formed(self) -> bool {
        let n = self.parent@.len();
        let rep = self.rep@;
        &&& self.size@.len() == n
        &&& rep.len() == n
        &&& n <= u32::MAX
        &&& self.edges == self.log@.len()
        &&& edges_within(n as int, self.log@)
        &&& forall|x: int|
            #![trigger self.parent@[x]]
            #![trigger rep[x]]
            0 <= x < n ==> {
                &&& self.parent@[x] < n
                &&& 0 <= rep[x] < n
                &&& self.parent@[rep[x]] == rep[x]
                &&& rep[self.parent@[x] as int] == rep[x]
                &&& (self.parent@[x] == x ==> rep[x] == x)
                &&& 1 <= self.size@[x] <= n
                &&& (self.parent@[x] != x ==> self.size@[self.parent@[x] as int] > self.size@[x])
            }
        &&& forall|r: int|
            0 <= r < n && #[trigger] self.parent@[r] == r ==> self.size@[r] == members(rep, r).len()
        &&& forall|x: int, y: int|
            0 <= x < n && 0 <= y < n ==> (rep[x] == rep[y] <==> #[trigger] connected(
                self.log@,
                x,
                y,
            ))
        &&& self.components == components(n as int, self.log@).len()
    }

    /// The number of vertices.
    pub closed spec fn n(self) -> nat {
        self.parent@.len()
    }

    fn find(&self, x: usize) -> (r: usize)
        requires
            self.well_formed(),
            x < self.n(),
        ensures
            r == self.rep@[x as int],
            r < self.n(),
    {
        let n = self.parent.len();
        let mut cur = x;
        while self.parent[cur] as usize != cur
            invariant
                n == self.n(),
                cur < n,
                self.rep@[cur as int] == self.rep@[x as int],
                self.well_formed(),
            decreases n - self.size@[cur as int],
        {
            assert(self.size@[self.parent@[cur as int] as int] <= n);
            cur = self.parent[cur] as usize;
        }
        cur
    }
}

proof fn lemma_members_finite(rep: Seq<int>, r: int)
    ensures
        members(rep, r).finite(),
        members(rep, r).len() <= rep.len(),
{
    lemma_int_range(0, rep.len() as int);
    assert(members(rep, r).subset_of(set_int_range(0, rep.len() as int)));
    lemma_len_subset(members(rep, r), set_int_range(0, rep.len() as int));
}

impl LoopTopology for DsuTopology {
    closed spec fn vertex_total(&self) -> nat {
        self.parent@.len()
    }

    closed spec fn edge_log(&self) -> Seq<(int, int)> {
        self.log@
    }

    closed spec fn wf(&self) -> bool {
        self.well_formed()
    }

    fn new(vertex_count: usize) -> (t: Self) {
        let mut parent: Vec<u32> = Vec::with_capacity(vertex_count);
        let mut size: Vec<u32> = Vec::with_capacity(vertex_count);
        let mut i: usize = 0;
        while i < vertex_count
            invariant
                i <= vertex_count <= u32::MAX,
                parent@.len() == i,
                size@.len() == i,
                forall|k: int| 0 <= k < i ==> parent@[k] == k,
                forall|k: int| 0 <= k < i ==> size@[k] == 1,
            decreases vertex_count - i,
        {
            parent.push(i as u32);
            size.push(1);
            i = i + 1;
        }
        let ghost n = vertex_count as int;
        let ghost rep = Seq::new(vertex_count as nat, |k: int| k);
        let ghost log = Seq::<(int, int)>::empty();
        proof {
            assert forall|r: int| 0 <= r < n implies members(rep, r) == set![r] by {
                assert(members(rep, r) =~= set![r]);
            }
            assert forall|x: int, y: int|
                0 <= x < n && 0 <= y < n implies (rep[x] == rep[y] <==> #[trigger] connected(
                log,
                x,
                y,
            )) by {
                lemma_conn_empty(x, y);
            }
            assert(components(n, log) =~= Set::<Set<int>>::empty()) by {
                assert forall|c: Set<int>| !components(n, log).contains(c) by {
                    if components(n, log).contains(c) {
                        let x = choose|x: int|
                            0 <= x < n && has_partner(n, log, x) && c == #[trigger] class_of(
                                n,
                                log,
                                x,
                            );
                        let y = choose|y: int| 0 <= y < n && y != x && #[trigger] connected(log, x, y);
                        lemma_conn_empty(x, y);
                    }
                }
            }
        }
        DsuTopology {
            parent,
            size,
            edges: 0,
            components: 0,
            log: Ghost(log),
            rep: Ghost(rep),
        }
    }

    #[verifier::spinoff_prover]
    #[verifier::rlimit(40)]
    fn add_loop_edge(&mut self, a: usize, b: usize) {
        let ghost n = self.n() as int;
        let ghost old_log = self.log@;
        let ghost new_log = old_log.push((a as int, b as int));
        let ghost old_rep = self.rep@;
        let ghost old_parent = self.parent@;
        let ghost old_size = self.size@;
        proof {
            lemma_push_joins(old_log, a as int, b as int);
        }
        let ra = self.find(a);
        let rb = self.find(b);
        if ra == rb {
            proof {
                assert(connected(old_log, a as int, b as int));
                lemma_components_push_connected(n, old_log, a as int, b as int);
                assert forall|x: int, y: int|
                    0 <= x < n && 0 <= y < n implies (old_rep[x] == old_rep[y]
                    <==> #[trigger] connected(new_log, x, y)) by {}
            }
            self.edges = self.edges + 1;
            self.log = Ghost(new_log);
            return;
        }
        proof {
            assert(!connected(old_log, a as int, b as int));
            lemma_components_push_merge(n, old_log, a as int, b as int);
            lemma_components_finite(n, old_log);
            lemma_components_finite(n, new_log);
        }
        let sa = self.size[ra];
        let sb = self.size[rb];
        let a_active = sa >= 2;
        let b_active = sb >= 2;
        let (big, small) = if sa >= sb {
            (ra, rb)
        } else {
            (rb, ra)
        };
        let ghost new_rep = Seq::new(
            n as nat,
            |x: int|
                if old_rep[x] == ra as int || old_rep[x] == rb as int {
                    big as int
                } else {
                    old_rep[x]
                },
        );
        proof {
            // class sizes in terms of membership
            lemma_members_finite(old_rep, ra as int);
            lemma_members_finite(old_rep, rb as int);
            let ma = members(old_rep, ra as int);
            let mb = members(old_rep, rb as int);
            assert(ma.disjoint(mb));
            vstd::set_lib::lemma_set_disjoint_lens(ma, mb);
            assert(members(new_rep, big as int) =~= ma + mb);
            lemma_members_finite(new_rep, big as int);
            // activity of a side is having a partner
            assert(ma =~= class_of(n, old_log, a as int)) by {
                assert forall|x: int| ma.contains(x) <==> class_of(n, old_log, a as int).contains(x) by {
                    if 0 <= x < n {
                        if connected(old_log, a as int, x) {
                            lemma_conn_sym(old_log, a as int, x);
                        }
                        if connected(old_log, x, a as int) {
                            lemma_conn_sym(old_log, x, a as int);
                        }
                    }
                }
            }
            assert(mb =~= class_of(n, old_log, b as int)) by {
                assert forall|x: int| mb.contains(x) <==> class_of(n, old_log, b as int).contains(x) by {
                    if 0 <= x < n {
                        if connected(old_log, b as int, x) {
                            lemma_conn_sym(old_log, b as int, x);
                        }
                        if connected(old_log, x, b as int) {
                            lemma_conn_sym(old_log, x, b as int);
                        }
                    }
                }
            }
            lemma_partner_iff_size(n, old_log, a as int, ma);
            lemma_partner_iff_size(n, old_log, b as int, mb);
            assert(a_active == has_partner(n, old_log, a as int));
            assert(b_active == has_partner(n, old_log, b as int));
        }
        let total = sa + sb;
        self.parent.set(small, big as u32);
        self.size.set(big, total);
        self.edges = self.edges + 1;
        if !a_active && !b_active {
            self.components = self.components + 1;
        } else if a_active && b_active {
            self.components = self.components - 1;
        }
        self.log = Ghost(new_log);
        self.rep = Ghost(new_rep);
        proof {
            let p = self.parent@;
            let s = self.size@;
            assert forall|x: int| 0 <= x < n implies {
                &&& p[x] < n
                &&& 0 <= new_rep[x] < n
                &&& p[new_rep[x]] == new_rep[x]
                &&& new_rep[p[x] as int] == new_rep[x]
                &&& (p[x] == x ==> new_rep[x] == x)
                &&& 1 <= s[x] <= n
                &&& (p[x] != x ==> s[p[x] as int] > s[x])
            } by {
                assert(old_parent[x] < n);
                assert(old_rep[old_parent[x] as int] == old_rep[x]);
            }
            assert forall|r: int| 0 <= r < n && #[trigger] p[r] == r implies s[r] == members(
                new_rep,
                r,
            ).len() by {
                if r != big {
                    assert(old_parent[r] == r);
                    assert(r != small);
                    assert(members(new_rep, r) =~= members(old_rep, r));
                }
            }
            assert forall|x: int, y: int|
                0 <= x < n && 0 <= y < n implies (new_rep[x] == new_rep[y]
                <==> #[trigger] connected(new_log, x, y)) by {
                lemma_conn_push(old_log, a as int, b as int, x, y);
                assert(connected(old_log, x, a as int) <==> old_rep[x] == ra);
                assert(connected(old_log, b as int, y) <==> old_rep[y] == rb);
                assert(connected(old_log, x, b as int) <==> old_rep[x] == rb);
                assert(connected(old_log, a as int, y) <==> old_rep[y] == ra);
            }
        }
    }

    fn connected(&self, a: usize, b: usize) -> (r: bool) {
        self.find(a) == self.find(b)
    }

    fn loop_edge_count(&self) -> (r: usize) {
        self.edges
    }

    fn component_count(&self) -> (r: usize) {
        self.components
    }
}

/// A component has a second vertex exactly when it has at least two members.
proof fn lemma_partner_iff_size(n: int, log: Seq<(int, int)>, a: int, m: Set<int>)
    requires
        0 <= a < n,
        m == class_of(n, log, a),
        m.finite(),
    ensures
        has_partner(n, log, a) <==> m.len() >= 2,
{
    lemma_conn_refl(log, a);
    assert(m.contains(a));
    if has_partner(n, log, a) {
        let y = choose|y: int| 0 <= y < n && y != a && #[trigger] connected(log, a, y);
        assert(m.contains(y));
        assert(m.remove(a).contains(y));
        assert(m.remove(a).len() >= 1);
    }
    if m.len() >= 2 {
        assert(m.remove(a).len() >= 1);
        let y = m.remove(a).choose();
        assert(m.remove(a).contains(y));
        assert(connected(log, a, y) && y != a);
    }
}

} // verus!
