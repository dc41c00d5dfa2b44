//! The order in which systems run: a graph of systems, with an edge from each system to the
//! systems that must run after it.
use vstd::prelude::*;

use std::collections::{HashMap, HashSet};

use crate::graph::{
    graph_add_edge, graph_add_node, graph_contains_edge, graph_edge_slots, graph_edges,
    graph_bfs, graph_inv, graph_neighbors, graph_new, graph_node_count, graph_node_indices,
    graph_node_slots, graph_nodes, graph_sources, has_edge, has_edge_dir, no_incoming,
    RelationGraph,
};
use crate::registry::DynamicId;

verus! {

broadcast use vstd::std_specs::hash::group_hash_axioms;

/// The component types a system reads and the ones it writes.
pub struct SystemAccess {
    pub components_read: Vec<DynamicId>,
    pub components_written: Vec<DynamicId>,
}

/// Systems and the dependencies between them: an edge from `a` to `b` makes `b` run after `a`.
pub struct SystemGraph {
    graph: RelationGraph,
    systems: HashMap<DynamicId, SystemAccess>,
}

/// The entries of `s` never go down.
pub open spec fn nondecreasing(s: Seq<DynamicId>) -> bool {
    forall|i: int, j: int| 0 <= i <= j < s.len() ==> s[i] <= s[j]
}

/// `m` lists, for each component `c` that some system of `g` lists (among the components it
/// writes when `written`, else among the ones it reads), those systems by increasing index;
/// `keys` holds each such component once.
#[verifier::opaque]
pub open spec fn index_ok(
    g: SystemGraph,
    m: Map<DynamicId, Vec<DynamicId>>,
    keys: Seq<DynamicId>,
    written: bool,
) -> bool {
    &&& keys.no_duplicates()
    &&& forall|c: DynamicId| #[trigger] m.contains_key(c) <==> keys.contains(c)
    &&& forall|c: DynamicId| #[trigger]
        m.contains_key(c) ==> nondecreasing(m[c]@) && forall|i: int|
            0 <= i < m[c]@.len() ==> g.lists(#[trigger] m[c]@[i] as nat, c, written)
    &&& forall|n: nat, c: DynamicId|
        #[trigger] g.lists(n, c, written) ==> m.contains_key(c) && m[c]@.contains(n as DynamicId)
}

/// The pairs of elements of `s`.
pub open spec fn pairs(s: Set<nat>) -> Set<(nat, nat)> {
    Set::new(|p: (nat, nat)| s.contains(p.0) && s.contains(p.1))
}

/// The pairs of elements of a finite set are finitely many.
pub proof fn lemma_pairs_finite(s: Set<nat>)
    requires
        s.finite(),
    ensures
        pairs(s).finite(),
    decreases s.len(),
{
    if s.len() == 0 {
        assert(pairs(s) =~= Set::<(nat, nat)>::empty());
    } else {
        let x = s.choose();
        let t = s.remove(x);
        lemma_pairs_finite(t);
        let left = s.map(|b: nat| (x, b));
        let right = s.map(|a: nat| (a, x));
        s.lemma_map_finite(|b: nat| (x, b));
        s.lemma_map_finite(|a: nat| (a, x));
        assert forall|p: (nat, nat)| #[trigger] pairs(s).contains(p) implies pairs(t).union(left).union(
            right,
        ).contains(p) by {
            if p.0 == x {
                assert(left.contains((x, p.1)));
            } else if p.1 == x {
                assert(right.contains((p.0, x)));
            } else {
                assert(pairs(t).contains(p));
            }
        }
        assert(pairs(s) =~= pairs(t).union(left).union(right));
    }
}

/// What an index built by `index_by_component` says of one component.
proof fn lemma_index_entry(g: SystemGraph, m: Map<DynamicId, Vec<DynamicId>>, keys: Seq<DynamicId>, written: bool, c: DynamicId)
    requires
        index_ok(g, m, keys, written),
    ensures
        m.contains_key(c) <==> keys.contains(c),
        m.contains_key(c) ==> forall|i: int|
            0 <= i < m[c]@.len() ==> g.lists(#[trigger] m[c]@[i] as nat, c, written),
        forall|n: nat| #[trigger] g.lists(n, c, written) ==> m.contains_key(c) && m[c]@.contains(n as DynamicId),
{
    reveal(index_ok);
}

/// In a sorted list of the systems that write `c` (each listed at least once), two
/// consecutive distinct entries are a writer and the next writer.
proof fn lemma_consecutive_next_writer(g: SystemGraph, m: Map<DynamicId, Vec<DynamicId>>, keys: Seq<DynamicId>, c: DynamicId, i: int)
    requires
        index_ok(g, m, keys, true),
        m.contains_key(c),
        0 <= i < m[c]@.len() - 1,
        m[c]@[i] != m[c]@[i + 1],
    ensures
        g.next_writer(c, m[c]@[i] as nat, m[c]@[i + 1] as nat),
{
    reveal(index_ok);
    let w = m[c]@;
    assert(g.lists(w[i] as nat, c, true));
    assert(g.lists(w[i + 1] as nat, c, true));
    assert(w[i] <= w[i + 1]);
    assert forall|x: nat| w[i] < x < w[i + 1] implies !g.lists(x, c, true) by {
        if g.lists(x, c, true) {
            assert(w.contains(x as DynamicId));
            let y = choose|y: int| 0 <= y < w.len() && w[y] == x as DynamicId;
            if y <= i {
                assert(w[y] <= w[i]);
            } else {
                assert(w[i + 1] <= w[y]);
            }
        }
    }
}

/// A writer and the next writer of `c` stand side by side in the sorted list of writers.
proof fn lemma_next_writer_consecutive(g: SystemGraph, m: Map<DynamicId, Vec<DynamicId>>, keys: Seq<DynamicId>, c: DynamicId, a: nat, b: nat)
    requires
        index_ok(g, m, keys, true),
        g.next_writer(c, a, b),
    ensures
        m.contains_key(c),
        exists|i: int| #![trigger m[c]@[i]] 0 <= i < m[c]@.len() - 1 && m[c]@[i] == a && m[c]@[i + 1] == b,
{
    reveal(index_ok);
    let w = m[c]@;
    assert(g.lists(a, c, true));
    assert(g.lists(b, c, true));
    assert(w.contains(a as DynamicId));
    assert(w.contains(b as DynamicId));
    let ib = choose|y: int| 0 <= y < w.len() && w[y] == b as DynamicId;
    // the last index that holds a
    let ia = choose|y: int| 0 <= y < w.len() && w[y] == a as DynamicId;
    assert(ia < ib) by {
        if ia >= ib {
            assert(w[ib] <= w[ia]);
        }
    }
    lemma_last_at_or_below(w, ia, ib, a as DynamicId);
    let i = choose|i: int| #![trigger w[i]] ia <= i < ib && w[i] == a as DynamicId && w[i + 1] != a as DynamicId;
    assert(w[i] <= w[i + 1]);
    assert(g.lists(w[i + 1] as nat, c, true));
    assert(w[i + 1] <= w[ib]) by {
        assert(i + 1 <= ib);
    }
    assert(w[i + 1] == b) by {
        if w[i + 1] < b {
            assert(!g.lists(w[i + 1] as nat, c, true));
        }
    }
}

/// In `w`, from an index holding `v` up to a later index holding something else, some index
/// holds `v` and the next one does not.
proof fn lemma_last_at_or_below(w: Seq<DynamicId>, lo: int, hi: int, v: DynamicId)
    requires
        0 <= lo < hi < w.len(),
        w[lo] == v,
        w[hi] != v,
    ensures
        exists|i: int| #![trigger w[i]] lo <= i < hi && w[i] == v && w[i + 1] != v,
    decreases hi - lo,
{
    if w[lo + 1] != v {
        assert(lo <= lo < hi && w[lo] == v && w[lo + 1] != v);
        assert(exists|i: int| #![trigger w[i]] lo <= i < hi && w[i] == v && w[i + 1] != v);
    } else {
        lemma_last_at_or_below(w, lo + 1, hi, v);
    }
}

/// `g` is `g0` with one new edge for each pair of `added`, none of which `g0` had, and no
/// other change.
#[verifier::opaque]
pub open spec fn grown(g: SystemGraph, g0: SystemGraph, added: Set<(nat, nat)>) -> bool {
    &&& g.wf()
    &&& g.systems() == g0.systems()
    &&& g.node_slots() == g0.node_slots()
    &&& forall|e: nat| #[trigger]
        g0.edges().contains_key(e) ==> g.edges().contains_key(e) && g.edges()[e] == g0.edges()[e]
    &&& forall|e: nat| #[trigger]
        g.edges().contains_key(e) && !g0.edges().contains_key(e) ==> added.contains(g.edges()[e])
    &&& forall|e1: nat, e2: nat|
        #![trigger g.edges().contains_key(e1), g.edges().contains_key(e2)]
        g.edges().contains_key(e1) && !g0.edges().contains_key(e1) && g.edges().contains_key(e2)
            && !g0.edges().contains_key(e2) && e1 != e2 ==> g.edges()[e1] != g.edges()[e2]
    &&& forall|p: (nat, nat)| #[trigger]
        added.contains(p) ==> g.dependencies().contains(p) && !g0.dependencies().contains(p)
            && g0.detected().contains(p)
    &&& forall|p: (nat, nat)| #[trigger]
        g.dependencies().contains(p) ==> g0.dependencies().contains(p) || added.contains(p)
    &&& forall|p: (nat, nat)| #[trigger] g0.dependencies().contains(p) ==> g.dependencies().contains(p)
    &&& added.finite()
    &&& g.edge_slots() <= g0.edge_slots() + added.len()
}

/// Each two consecutive distinct entries among the first `upto` + 1 writers of `c` are a
/// dependency of `g`.
pub open spec fn writers_linked(
    g: SystemGraph,
    wm: Map<DynamicId, Vec<DynamicId>>,
    c: DynamicId,
    upto: int,
) -> bool {
    forall|i: int, j: int|
        #![trigger wm[c]@[i], wm[c]@[j]]
        0 <= i && j == i + 1 && i < upto && wm[c]@[i] != wm[c]@[j] ==> g.dependencies().contains(
            (wm[c]@[i] as nat, wm[c]@[j] as nat),
        )
}

/// Each of the first `upto` writers of `c` has each reader of `c` other than itself as a
/// dependent in `g`.
pub open spec fn readers_linked(
    g: SystemGraph,
    wm: Map<DynamicId, Vec<DynamicId>>,
    rm: Map<DynamicId, Vec<DynamicId>>,
    c: DynamicId,
    upto: int,
) -> bool {
    rm.contains_key(c) ==> forall|x: int, y: int|
        #![trigger wm[c]@[x], rm[c]@[y]]
        0 <= x < upto && 0 <= y < rm[c]@.len() && wm[c]@[x] != rm[c]@[y]
            ==> g.dependencies().contains((wm[c]@[x] as nat, rm[c]@[y] as nat))
}

/// Adding a dependency for a detected pair that `g` lacks keeps `g` grown from `g0`.
proof fn lemma_grow(g: SystemGraph, g1: SystemGraph, g0: SystemGraph, added: Set<(nat, nat)>, p: (nat, nat))
    requires
        grown(g, g0, added),
        !g.dependencies().contains(p),
        g0.detected().contains(p),
        g1.wf(),
        g1.systems() == g.systems(),
        g1.node_slots() == g.node_slots(),
        g1.dependencies() == g.dependencies().insert(p),
        exists|e: nat| !g.edges().contains_key(e) && g1.edges() == g.edges().insert(e, p),
        g1.edge_slots() <= g.edge_slots() + 1,
    ensures
        grown(g1, g0, added.insert(p)),
        !added.contains(p),
{
    reveal(grown);
    let e = choose|e: nat| !g.edges().contains_key(e) && g1.edges() == g.edges().insert(e, p);
    assert(!added.contains(p));
    assert(added.insert(p).len() == added.len() + 1);
    assert forall|e1: nat, e2: nat|
        #![trigger g1.edges().contains_key(e1), g1.edges().contains_key(e2)]
        g1.edges().contains_key(e1) && !g0.edges().contains_key(e1) && g1.edges().contains_key(e2)
            && !g0.edges().contains_key(e2) && e1 != e2 implies g1.edges()[e1] != g1.edges()[e2] by {
        if e1 == e {
            assert(g.edges().contains_key(e2));
            assert(added.contains(g.edges()[e2]));
        } else if e2 == e {
            assert(g.edges().contains_key(e1));
            assert(added.contains(g.edges()[e1]));
        } else {
            assert(g.edges().contains_key(e1) && g.edges().contains_key(e2));
        }
    }
    assert forall|x: nat| #[trigger] g1.edges().contains_key(x) && !g0.edges().contains_key(x) implies added.insert(p).contains(g1.edges()[x]) by {
        if x != e {
            assert(g.edges().contains_key(x));
        }
    }
}

/// More dependencies keep the writers of `c` linked.
proof fn lemma_writers_linked_mono(g: SystemGraph, g1: SystemGraph, wm: Map<DynamicId, Vec<DynamicId>>, c: DynamicId, upto: int)
    requires
        writers_linked(g, wm, c, upto),
        forall|p: (nat, nat)| #[trigger] g.dependencies().contains(p) ==> g1.dependencies().contains(p),
    ensures
        writers_linked(g1, wm, c, upto),
{
    assert forall|i: int, j: int| #![trigger wm[c]@[i], wm[c]@[j]] 0 <= i && j == i + 1 && i < upto && wm[c]@[i] != wm[c]@[j] implies g1.dependencies().contains(
        (wm[c]@[i] as nat, wm[c]@[j] as nat),
    ) by {
        assert(g.dependencies().contains((wm[c]@[i] as nat, wm[c]@[j] as nat)));
    }
}

/// More dependencies keep the readers of `c` linked.
proof fn lemma_readers_linked_mono(g: SystemGraph, g1: SystemGraph, wm: Map<DynamicId, Vec<DynamicId>>, rm: Map<DynamicId, Vec<DynamicId>>, c: DynamicId, upto: int)
    requires
        readers_linked(g, wm, rm, c, upto),
        forall|p: (nat, nat)| #[trigger] g.dependencies().contains(p) ==> g1.dependencies().contains(p),
    ensures
        readers_linked(g1, wm, rm, c, upto),
{
    if rm.contains_key(c) {
        assert forall|x: int, y: int|
            #![trigger wm[c]@[x], rm[c]@[y]]
            0 <= x < upto && 0 <= y < rm[c]@.len() && wm[c]@[x] != rm[c]@[y]
                implies g1.dependencies().contains((wm[c]@[x] as nat, rm[c]@[y] as nat)) by {
            assert(g.dependencies().contains((wm[c]@[x] as nat, rm[c]@[y] as nat)));
        }
    }
}

/// The facts that `grown` packs.
proof fn lemma_grown_facts(g: SystemGraph, g0: SystemGraph, added: Set<(nat, nat)>)
    requires
        grown(g, g0, added),
    ensures
        g.wf(),
        g.systems() == g0.systems(),
        g.node_slots() == g0.node_slots(),
        forall|e: nat| #[trigger]
            g0.edges().contains_key(e) ==> g.edges().contains_key(e) && g.edges()[e] == g0.edges()[e],
        forall|e: nat| #[trigger]
            g.edges().contains_key(e) && !g0.edges().contains_key(e) ==> !g0.dependencies().contains(g.edges()[e]),
        forall|e1: nat, e2: nat|
            #![trigger g.edges().contains_key(e1), g.edges().contains_key(e2)]
            g.edges().contains_key(e1) && !g0.edges().contains_key(e1) && g.edges().contains_key(e2)
                && !g0.edges().contains_key(e2) && e1 != e2 ==> g.edges()[e1] != g.edges()[e2],
        forall|p: (nat, nat)| #[trigger]
            g.dependencies().contains(p) ==> g0.dependencies().contains(p) || g0.detected().contains(p),
        forall|p: (nat, nat)| #[trigger] g0.dependencies().contains(p) ==> g.dependencies().contains(p),
{
    reveal(grown);
    assert forall|e: nat| #[trigger]
        g.edges().contains_key(e) && !g0.edges().contains_key(e) implies !g0.dependencies().contains(g.edges()[e]) by {
        assert(added.contains(g.edges()[e]));
    }
}

/// A writer and the next writer of a component are a dependency once the writer lists are
/// linked.
proof fn lemma_writer_pair_covered(
    g: SystemGraph,
    g0: SystemGraph,
    after_writers: SystemGraph,
    wm: Map<DynamicId, Vec<DynamicId>>,
    wkeys: Seq<DynamicId>,
    p: (nat, nat),
)
    requires
        index_ok(g0, wm, wkeys, true),
        exists|c: DynamicId| #[trigger] g0.next_writer(c, p.0, p.1),
        forall|q: (nat, nat)| #[trigger] after_writers.dependencies().contains(q) ==> g.dependencies().contains(q),
        forall|u: int| 0 <= u < wkeys.len() ==> writers_linked(after_writers, wm, #[trigger] wkeys[u], wm[wkeys[u]]@.len() - 1),
    ensures
        g.dependencies().contains(p),
{
    let c = choose|c: DynamicId| #[trigger] g0.next_writer(c, p.0, p.1);
    lemma_next_writer_consecutive(g0, wm, wkeys, c, p.0, p.1);
    lemma_index_entry(g0, wm, wkeys, true, c);
    let i = choose|i: int| #![trigger wm[c]@[i]] 0 <= i < wm[c]@.len() - 1 && wm[c]@[i] == p.0 && wm[c]@[i + 1] == p.1;
    let u = choose|u: int| 0 <= u < wkeys.len() && wkeys[u] == c;
    assert(writers_linked(after_writers, wm, wkeys[u], wm[wkeys[u]]@.len() - 1));
    assert(wm[c]@[i] != wm[c]@[i + 1]);
    assert(after_writers.dependencies().contains((wm[c]@[i] as nat, wm[c]@[i + 1] as nat)));
}

/// A writer and a reader of a component are a dependency once the reader lists are linked.
proof fn lemma_reader_pair_covered(
    g: SystemGraph,
    g0: SystemGraph,
    wm: Map<DynamicId, Vec<DynamicId>>,
    rm: Map<DynamicId, Vec<DynamicId>>,
    wkeys: Seq<DynamicId>,
    rkeys: Seq<DynamicId>,
    p: (nat, nat),
)
    requires
        index_ok(g0, wm, wkeys, true),
        index_ok(g0, rm, rkeys, false),
        g0.reads_what_writes(p.0, p.1),
        forall|u: int| 0 <= u < wkeys.len() ==> readers_linked(g, wm, rm, #[trigger] wkeys[u], wm[wkeys[u]]@.len() as int),
    ensures
        g.dependencies().contains(p),
{
    let c = choose|c: DynamicId| #[trigger] g0.lists(p.0, c, true) && g0.lists(p.1, c, false) && p.0 != p.1;
    lemma_index_entry(g0, wm, wkeys, true, c);
    lemma_index_entry(g0, rm, rkeys, false, c);
    let x = choose|x: int| 0 <= x < wm[c]@.len() && wm[c]@[x] == p.0 as DynamicId;
    let y = choose|y: int| 0 <= y < rm[c]@.len() && rm[c]@[y] == p.1 as DynamicId;
    let u = choose|u: int| 0 <= u < wkeys.len() && wkeys[u] == c;
    assert(readers_linked(g, wm, rm, wkeys[u], wm[wkeys[u]]@.len() as int));
    assert(g0.systems().dom().contains(p.0) && g0.systems().dom().contains(p.1));
    assert(g.dependencies().contains((wm[c]@[x] as nat, rm[c]@[y] as nat)));
}

/// Each node of `path` has an edge to the next one.
pub open spec fn node_path(edges: Map<nat, (nat, nat)>, path: Seq<nat>) -> bool {
    forall|i: int, j: int|
        0 <= i && j == i + 1 && j < path.len() ==> #[trigger] has_edge(edges, path[i], path[j])
}

/// `b` is reached from `a` along one or more edges.
pub open spec fn node_reaches(edges: Map<nat, (nat, nat)>, a: nat, b: nat) -> bool {
    exists|path: Seq<nat>|
        #![trigger node_path(edges, path)]
        path.len() >= 2 && path[0] == a && path[path.len() - 1] == b && node_path(edges, path)
}

/// The nodes of `s`, as natural numbers.
pub open spec fn as_nats(s: Seq<DynamicId>) -> Seq<nat> {
    s.map_values(|x: DynamicId| x as nat)
}

/// Where every edge goes from a higher `rank` to a lower one among the nodes that carry a
/// rank, no path between such nodes comes back to where it started.
proof fn lemma_ranked_path(edges: Map<nat, (nat, nat)>, rank: Map<nat, nat>, path: Seq<nat>, k: int)
    requires
        node_path(edges, path),
        path.len() >= 2,
        rank.contains_key(path[0]),
        forall|u: nat, v: nat|
            #![trigger rank.contains_key(u), has_edge(edges, u, v)]
            rank.contains_key(u) && has_edge(edges, u, v) ==> rank.contains_key(v) && rank[v] < rank[u],
        1 <= k < path.len(),
    ensures
        rank.contains_key(path[k]),
        rank[path[k]] + k <= rank[path[0]],
    decreases k,
{
    assert(has_edge(edges, path[k - 1], path[k]));
    if k > 1 {
        lemma_ranked_path(edges, rank, path, k - 1);
    }
}

impl SystemGraph {
    /// The systems by node index.
    pub closed spec fn systems(self) -> Map<nat, SystemAccess> {
        Map::new(
            |n: nat| n < u32::MAX && self.systems@.contains_key(n as u32),
            |n: nat| self.systems@[n as u32],
        )
    }

    /// The pairs (a, b) such that `b` runs after `a`.
    pub closed spec fn dependencies(self) -> Set<(nat, nat)> {
        Set::new(|p: (nat, nat)| has_edge(graph_edges(self.graph), p.0, p.1))
    }

    /// The edges of the graph, by edge index.
    pub closed spec fn edges(self) -> Map<nat, (nat, nat)> {
        graph_edges(self.graph)
    }

    pub closed spec fn node_slots(self) -> nat {
        graph_node_slots(self.graph)
    }

    pub closed spec fn edge_slots(self) -> nat {
        graph_edge_slots(self.graph)
    }

    /// The graph's nodes are the systems.
    pub closed spec fn wf(self) -> bool {
        &&& graph_inv(self.graph)
        &&& forall|n: nat| #[trigger]
            graph_nodes(self.graph).contains_key(n) ==> n < u32::MAX && self.systems@.contains_key(
                n as u32,
            )
        &&& forall|n: u32| #[trigger]
            self.systems@.contains_key(n) ==> graph_nodes(self.graph).contains_key(n as nat)
    }

    /// System `n` lists component `c` among the ones it writes (`written`) or reads.
    pub open spec fn lists(self, n: nat, c: DynamicId, written: bool) -> bool {
        &&& self.systems().dom().contains(n)
        &&& if written {
            self.systems()[n].components_written@.contains(c)
        } else {
            self.systems()[n].components_read@.contains(c)
        }
    }

    /// `b` is the first system after `a`, by index, that writes `c`, and `a` writes it too.
    pub open spec fn next_writer(self, c: DynamicId, a: nat, b: nat) -> bool {
        &&& a < b
        &&& self.lists(a, c, true)
        &&& self.lists(b, c, true)
        &&& forall|m: nat| a < m < b ==> !self.lists(m, c, true)
    }

    /// `b` reads a component that `a` writes, and they are distinct systems.
    pub open spec fn reads_what_writes(self, a: nat, b: nat) -> bool {
        exists|c: DynamicId| #[trigger] self.lists(a, c, true) && self.lists(b, c, false) && a != b
    }

    /// The dependencies that the systems' accesses call for: each writer of a component runs
    /// after the previous writer of it, and each reader after every writer.
    pub open spec fn detected(self) -> Set<(nat, nat)> {
        Set::new(
            |p: (nat, nat)|
                (exists|c: DynamicId| #[trigger] self.next_writer(c, p.0, p.1))
                    || self.reads_what_writes(p.0, p.1),
        )
    }

    /// For each component that some system lists among the components it writes (`written`)
    /// or reads, the systems that list it, by increasing index.
    fn index_by_component(&self, written: bool) -> (r: (HashMap<DynamicId, Vec<DynamicId>>, Vec<DynamicId>))
        requires
            self.wf(),
        ensures
            index_ok(*self, r.0@, r.1@, written),
    {
        let ids = graph_node_indices(&self.graph);
        let mut m: HashMap<DynamicId, Vec<DynamicId>> = HashMap::new();
        let mut keys: Vec<DynamicId> = Vec::new();
        let mut k: usize = 0;
        while k < ids.len()
            invariant
                self.wf(),
                0 <= k <= ids.len(),
                forall|a: int, b: int| 0 <= a < b < ids.len() ==> ids[a] < ids[b],
                forall|a: int| 0 <= a < ids.len() ==> graph_nodes(self.graph).contains_key(#[trigger] ids[a] as nat),
                keys@.no_duplicates(),
                forall|c: DynamicId| #[trigger] m@.contains_key(c) <==> keys@.contains(c),
                forall|c: DynamicId| #[trigger]
                    m@.contains_key(c) ==> nondecreasing(m@[c]@) && forall|i: int|
                        0 <= i < m@[c]@.len() ==> self.lists(#[trigger] m@[c]@[i] as nat, c, written)
                            && (k < ids.len() ==> m@[c]@[i] < ids[k as int]),
                forall|a: int, c: DynamicId|
                    0 <= a < k && #[trigger] self.lists(ids[a] as nat, c, written) ==> m@.contains_key(c)
                        && m@[c]@.contains(ids[a]),
            decreases ids.len() - k,
        {
            let node = ids[k];
            assert(self.systems@.contains_key(node));
            let access = self.systems.get(&node).unwrap();
            let list = if written {
                &access.components_written
            } else {
                &access.components_read
            };
            let mut j: usize = 0;
            while j < list.len()
                invariant
                    self.wf(),
                    0 <= k < ids.len(),
                    node == ids[k as int],
                    self.systems@[node] == *access,
                    *list == if written { access.components_written } else { access.components_read },
                    0 <= j <= list.len(),
                    forall|a: int, b: int| 0 <= a < b < ids.len() ==> ids[a] < ids[b],
                    forall|a: int| 0 <= a < ids.len() ==> graph_nodes(self.graph).contains_key(#[trigger] ids[a] as nat),
                    keys@.no_duplicates(),
                    forall|c: DynamicId| #[trigger] m@.contains_key(c) <==> keys@.contains(c),
                    forall|c: DynamicId| #[trigger]
                        m@.contains_key(c) ==> nondecreasing(m@[c]@) && forall|i: int|
                            0 <= i < m@[c]@.len() ==> self.lists(#[trigger] m@[c]@[i] as nat, c, written)
                                && m@[c]@[i] <= node,
                    forall|a: int, c: DynamicId|
                        0 <= a < k && #[trigger] self.lists(ids[a] as nat, c, written) ==> m@.contains_key(c)
                            && m@[c]@.contains(ids[a]),
                    forall|i: int| 0 <= i < j ==> m@.contains_key(#[trigger] list@[i]) && m@[list@[i]]@.contains(node),
                decreases list.len() - j,
            {
                let c = list[j];
                assert(self.lists(node as nat, c, written)) by {
                    assert(list@.contains(c));
                }
                let ghost m0 = m@;
                let ghost k0 = keys@;
                let mut v = match m.remove(&c) {
                    Some(v) => v,
                    None => {
                        keys.push(c);
                        Vec::new()
                    },
                };
                let ghost v0 = v@;
                v.push(node);
                m.insert(c, v);
                proof {
                    assert(m@ == m0.insert(c, v));
                    assert(v@ == v0.push(node));
                    assert(m0.contains_key(c) ==> v0 == m0[c]@);
                    assert(m0.contains_key(c) ==> keys@ == k0);
                    assert(!m0.contains_key(c) ==> keys@ == k0.push(c));
                    assert forall|c2: DynamicId| #[trigger] m@.contains_key(c2) <==> keys@.contains(c2) by {
                        if c2 != c {
                            assert(m@.contains_key(c2) == m0.contains_key(c2));
                            if !m0.contains_key(c) {
                                assert(keys@.contains(c2) ==> k0.contains(c2)) by {
                                    if keys@.contains(c2) {
                                        let x = choose|x: int| 0 <= x < keys@.len() && keys@[x] == c2;
                                        assert(k0[x] == c2);
                                    }
                                }
                                assert(k0.contains(c2) ==> keys@.contains(c2)) by {
                                    if k0.contains(c2) {
                                        let x = choose|x: int| 0 <= x < k0.len() && k0[x] == c2;
                                        assert(keys@[x] == c2);
                                    }
                                }
                            }
                        } else {
                            if !m0.contains_key(c) {
                                assert(keys@[keys@.len() - 1] == c);
                            }
                        }
                    }
                    assert forall|c2: DynamicId| #[trigger] m@.contains_key(c2) implies nondecreasing(m@[c2]@) && forall|i: int|
                        0 <= i < m@[c2]@.len() ==> self.lists(#[trigger] m@[c2]@[i] as nat, c2, written)
                            && m@[c2]@[i] <= node by {
                        if c2 == c {
                            assert forall|i: int| 0 <= i < m@[c2]@.len() implies self.lists(#[trigger] m@[c2]@[i] as nat, c2, written)
                                && m@[c2]@[i] <= node by {
                                if i < v0.len() {
                                    assert(m@[c2]@[i] == m0[c]@[i]);
                                }
                            }
                            assert forall|i: int, i2: int| 0 <= i <= i2 < m@[c2]@.len() implies m@[c2]@[i] <= m@[c2]@[i2] by {
                                if i2 < v0.len() {
                                    assert(m@[c2]@[i] == m0[c]@[i]);
                                    assert(m@[c2]@[i2] == m0[c]@[i2]);
                                } else if i < v0.len() {
                                    assert(m@[c2]@[i] == m0[c]@[i]);
                                }
                            }
                        }
                    }
                    assert forall|a: int, c2: DynamicId|
                        0 <= a < k && #[trigger] self.lists(ids[a] as nat, c2, written) implies m@.contains_key(c2)
                            && m@[c2]@.contains(ids[a]) by {
                        if c2 == c {
                            let x = choose|x: int| 0 <= x < m0[c]@.len() && m0[c]@[x] == ids[a];
                            assert(m@[c2]@[x] == ids[a]);
                        }
                    }
                    assert forall|i: int| 0 <= i < j + 1 implies m@.contains_key(#[trigger] list@[i]) && m@[list@[i]]@.contains(node) by {
                        if list@[i] == c {
                            assert(m@[c]@[m@[c]@.len() - 1] == node);
                        } else {
                            let x = choose|x: int| 0 <= x < m0[list@[i]]@.len() && m0[list@[i]]@[x] == node;
                            assert(m@[list@[i]]@[x] == node);
                        }
                    }
                }
                j = j + 1;
            }
            proof {
                assert forall|a: int, c: DynamicId|
                    0 <= a < k + 1 && #[trigger] self.lists(ids[a] as nat, c, written) implies m@.contains_key(c)
                        && m@[c]@.contains(ids[a]) by {
                    if a == k {
                        assert(list@.contains(c));
                        let i = choose|i: int| 0 <= i < list@.len() && list@[i] == c;
                    }
                }
                if k + 1 < ids.len() {
                    assert(ids[k as int] < ids[k + 1]);
                }
            }
            k = k + 1;
        }
        proof {
            reveal(index_ok);
            assert forall|n: nat, c: DynamicId| #[trigger] self.lists(n, c, written) implies m@.contains_key(c)
                && m@[c]@.contains(n as DynamicId) by {
                assert(graph_nodes(self.graph).contains_key(n));
                let a = choose|a: int| 0 <= a < ids.len() && ids[a] == n;
                assert(self.lists(ids[a] as nat, c, written));
            }
        }
        (m, keys)
    }

    /// The detected dependencies are finitely many.
    proof fn lemma_detected_finite(self)
        requires
            self.wf(),
        ensures
            self.detected().finite(),
    {
        let nodes = self.systems().dom();
        assert(nodes.subset_of(graph_nodes(self.graph).dom()));
        vstd::set_lib::lemma_set_subset_finite(graph_nodes(self.graph).dom(), nodes);
        lemma_pairs_finite(nodes);
        assert(self.detected().subset_of(pairs(nodes)));
        vstd::set_lib::lemma_set_subset_finite(pairs(nodes), self.detected());
    }

    /// Adds the dependency from `a` to `b`, unless they are the same system or the graph has
    /// it already.
    fn link(
        &mut self,
        a: DynamicId,
        b: DynamicId,
        Ghost(g0): Ghost<SystemGraph>,
        Ghost(added): Ghost<Set<(nat, nat)>>,
    ) -> (r: Ghost<Set<(nat, nat)>>)
        requires
            grown(*old(self), g0, added),
            a != b ==> g0.detected().contains((a as nat, b as nat)),
            g0.systems().dom().contains(a as nat),
            g0.systems().dom().contains(b as nat),
            g0.detected().finite(),
            g0.edge_slots() + g0.detected().len() <= u32::MAX,
        ensures
            grown(*final(self), g0, r@),
            a != b ==> final(self).dependencies().contains((a as nat, b as nat)),
            forall|p: (nat, nat)| #[trigger] old(self).dependencies().contains(p) ==> final(self).dependencies().contains(p),
    {
        proof {
            reveal(grown);
        }
        if a == b {
            return Ghost(added);
        }
        if graph_contains_edge(&self.graph, a, b) {
            assert(self.dependencies().contains((a as nat, b as nat)));
            return Ghost(added);
        }
        let ghost p = (a as nat, b as nat);
        let ghost before = *self;
        proof {
            assert(!self.dependencies().contains(p));
            assert(!added.contains(p));
            assert(added.insert(p).subset_of(g0.detected()));
            vstd::set_lib::lemma_len_subset(added.insert(p), g0.detected());
        }
        self.add_dependency(a, b);
        proof {
            lemma_grow(before, *self, g0, added, p);
        }
        Ghost(added.insert(p))
    }

    /// Makes each writer of `c` depend on the previous one, where they differ.
    fn link_writers(
        &mut self,
        c: DynamicId,
        writers: &Vec<DynamicId>,
        Ghost(g0): Ghost<SystemGraph>,
        Ghost(added): Ghost<Set<(nat, nat)>>,
        Ghost(wm): Ghost<Map<DynamicId, Vec<DynamicId>>>,
        Ghost(keys): Ghost<Seq<DynamicId>>,
    ) -> (r: Ghost<Set<(nat, nat)>>)
        requires
            grown(*old(self), g0, added),
            g0.detected().finite(),
            g0.edge_slots() + g0.detected().len() <= u32::MAX,
            index_ok(g0, wm, keys, true),
            wm.contains_key(c),
            *writers == wm[c],
        ensures
            grown(*final(self), g0, r@),
            writers_linked(*final(self), wm, c, wm[c]@.len() - 1),
            forall|p: (nat, nat)| #[trigger] old(self).dependencies().contains(p) ==> final(self).dependencies().contains(p),
    {
        let ghost mut added = added;
        if writers.len() > 1 {
            let mut i: usize = 0;
            while i < writers.len() - 1
                invariant
                    grown(*self, g0, added),
                    g0.detected().finite(),
                    g0.edge_slots() + g0.detected().len() <= u32::MAX,
                    index_ok(g0, wm, keys, true),
                    wm.contains_key(c),
                    *writers == wm[c],
                    writers.len() > 1,
                    0 <= i <= writers.len() - 1,
                    writers_linked(*self, wm, c, i as int),
                    forall|p: (nat, nat)| #[trigger] old(self).dependencies().contains(p) ==> self.dependencies().contains(p),
                decreases writers.len() - 1 - i,
            {
                let ghost before = *self;
                let a = writers[i];
                let b = writers[i + 1];
                proof {
                    if a != b {
                        lemma_consecutive_next_writer(g0, wm, keys, c, i as int);
                        assert(g0.detected().contains((a as nat, b as nat)));
                    }
                    lemma_index_entry(g0, wm, keys, true, c);
                    assert(g0.lists(wm[c]@[i as int] as nat, c, true));
                    assert(g0.lists(wm[c]@[i + 1] as nat, c, true));
                }
                let Ghost(next) = self.link(a, b, Ghost(g0), Ghost(added));
                proof {
                    added = next;
                    assert forall|j: int, k: int| #![trigger wm[c]@[j], wm[c]@[k]] 0 <= j && k == j + 1 && j < i + 1 && wm[c]@[j] != wm[c]@[k] implies self.dependencies().contains(
                        (wm[c]@[j] as nat, wm[c]@[k] as nat),
                    ) by {
                        if j < i {
                            assert(before.dependencies().contains((wm[c]@[j] as nat, wm[c]@[k] as nat)));
                        }
                    }
                }
                i = i + 1;
            }
        }
        Ghost(added)
    }

    /// Makes each reader of `c` other than `writer` depend on `writer`.
    fn link_readers(
        &mut self,
        c: DynamicId,
        writer: DynamicId,
        readers: &Vec<DynamicId>,
        Ghost(g0): Ghost<SystemGraph>,
        Ghost(added): Ghost<Set<(nat, nat)>>,
        Ghost(rm): Ghost<Map<DynamicId, Vec<DynamicId>>>,
        Ghost(keys): Ghost<Seq<DynamicId>>,
    ) -> (r: Ghost<Set<(nat, nat)>>)
        requires
            grown(*old(self), g0, added),
            g0.detected().finite(),
            g0.edge_slots() + g0.detected().len() <= u32::MAX,
            index_ok(g0, rm, keys, false),
            rm.contains_key(c),
            *readers == rm[c],
            g0.lists(writer as nat, c, true),
        ensures
            grown(*final(self), g0, r@),
            forall|z: int| 0 <= z < rm[c]@.len() && writer != #[trigger] rm[c]@[z] ==> final(self).dependencies().contains((writer as nat, rm[c]@[z] as nat)),
            forall|p: (nat, nat)| #[trigger] old(self).dependencies().contains(p) ==> final(self).dependencies().contains(p),
    {
        let ghost mut added = added;
        let mut y: usize = 0;
        while y < readers.len()
            invariant
                grown(*self, g0, added),
                g0.detected().finite(),
                g0.edge_slots() + g0.detected().len() <= u32::MAX,
                index_ok(g0, rm, keys, false),
                rm.contains_key(c),
                *readers == rm[c],
                g0.lists(writer as nat, c, true),
                0 <= y <= readers.len(),
                forall|z: int| 0 <= z < y && writer != #[trigger] rm[c]@[z] ==> self.dependencies().contains((writer as nat, rm[c]@[z] as nat)),
                forall|p: (nat, nat)| #[trigger] old(self).dependencies().contains(p) ==> self.dependencies().contains(p),
            decreases readers.len() - y,
        {
            let reader = readers[y];
            let ghost before = *self;
            proof {
                lemma_index_entry(g0, rm, keys, false, c);
                assert(g0.lists(rm[c]@[y as int] as nat, c, false));
                if writer != reader {
                    assert(g0.reads_what_writes(writer as nat, reader as nat));
                    assert(g0.detected().contains((writer as nat, reader as nat)));
                }
                assert(g0.systems().dom().contains(writer as nat));
                assert(g0.systems().dom().contains(reader as nat));
            }
            let Ghost(next) = self.link(writer, reader, Ghost(g0), Ghost(added));
            proof {
                added = next;
                assert forall|z: int| 0 <= z < y + 1 && writer != #[trigger] rm[c]@[z] implies self.dependencies().contains((writer as nat, rm[c]@[z] as nat)) by {
                    if z < y {
                        assert(before.dependencies().contains((writer as nat, rm[c]@[z] as nat)));
                    }
                }
            }
            y = y + 1;
        }
        Ghost(added)
    }

    /// Adds the dependencies that the systems' accesses call for: each system that writes a
    /// component runs after the previous system (by index) that writes it, and each system
    /// that reads a component runs after every other system that writes it. A dependency the
    /// graph has already is not added again.
    pub fn autodetect_dependencies(&mut self)
        requires
            old(self).wf(),
            old(self).edge_slots() + old(self).detected().len() <= u32::MAX,
        ensures
            final(self).wf(),
            final(self).systems() == old(self).systems(),
            final(self).dependencies() == old(self).dependencies().union(old(self).detected()),
            forall|e: nat| #[trigger]
                old(self).edges().contains_key(e) ==> final(self).edges().contains_key(e)
                    && final(self).edges()[e] == old(self).edges()[e],
            forall|e: nat| #[trigger]
                final(self).edges().contains_key(e) && !old(self).edges().contains_key(e)
                    ==> !old(self).dependencies().contains(final(self).edges()[e]),
            forall|e1: nat, e2: nat|
                #![trigger final(self).edges().contains_key(e1), final(self).edges().contains_key(e2)]
                final(self).edges().contains_key(e1) && !old(self).edges().contains_key(e1)
                    && final(self).edges().contains_key(e2) && !old(self).edges().contains_key(e2)
                    && e1 != e2 ==> final(self).edges()[e1] != final(self).edges()[e2],
            final(self).node_slots() == old(self).node_slots(),
    {
        proof {
            self.lemma_detected_finite();
        }
        let (components_read, read_keys) = self.index_by_component(false);
        let (components_written, written_keys) = self.index_by_component(true);
        let ghost g0 = *self;
        let ghost rm = components_read@;
        let ghost wm = components_written@;
        let ghost mut added: Set<(nat, nat)> = Set::empty();
        proof {
            reveal(grown);
            assert(added.len() == 0);
        }
        let mut t: usize = 0;
        while t < written_keys.len()
            invariant
                grown(*self, g0, added),
                g0.detected().finite(),
                g0.edge_slots() + g0.detected().len() <= u32::MAX,
                index_ok(g0, wm, written_keys@, true),
                wm == components_written@,
                0 <= t <= written_keys.len(),
                forall|u: int| 0 <= u < t ==> writers_linked(*self, wm, #[trigger] written_keys@[u], wm[written_keys@[u]]@.len() - 1),
            decreases written_keys.len() - t,
        {
            let c = written_keys[t];
            assert(written_keys@.contains(c));
            proof {
                lemma_index_entry(g0, wm, written_keys@, true, c);
            }
            let writers = components_written.get(&c).unwrap();
            let ghost before = *self;
            let Ghost(next) = self.link_writers(c, writers, Ghost(g0), Ghost(added), Ghost(wm), Ghost(written_keys@));
            proof {
                added = next;
                assert forall|u: int| 0 <= u < t + 1 implies writers_linked(*self, wm, #[trigger] written_keys@[u], wm[written_keys@[u]]@.len() - 1) by {
                    if u < t {
                        lemma_writers_linked_mono(before, *self, wm, written_keys@[u], wm[written_keys@[u]]@.len() - 1);
                    }
                }
            }
            t = t + 1;
        }
        let ghost after_writers = *self;
        let mut t: usize = 0;
        while t < written_keys.len()
            invariant
                grown(*self, g0, added),
                g0.detected().finite(),
                g0.edge_slots() + g0.detected().len() <= u32::MAX,
                index_ok(g0, wm, written_keys@, true),
                index_ok(g0, rm, read_keys@, false),
                wm == components_written@,
                rm == components_read@,
                0 <= t <= written_keys.len(),
                forall|p: (nat, nat)| #[trigger] after_writers.dependencies().contains(p) ==> self.dependencies().contains(p),
                forall|u: int| 0 <= u < t ==> readers_linked(*self, wm, rm, #[trigger] written_keys@[u], wm[written_keys@[u]]@.len() as int),
            decreases written_keys.len() - t,
        {
            let c = written_keys[t];
            assert(written_keys@.contains(c));
            proof {
                lemma_index_entry(g0, wm, written_keys@, true, c);
            }
            let writers = components_written.get(&c).unwrap();
            let mut x: usize = 0;
            while x < writers.len()
                invariant
                    grown(*self, g0, added),
                    g0.detected().finite(),
                    g0.edge_slots() + g0.detected().len() <= u32::MAX,
                    index_ok(g0, wm, written_keys@, true),
                    index_ok(g0, rm, read_keys@, false),
                    rm == components_read@,
                    wm.contains_key(c),
                    *writers == wm[c],
                    0 <= x <= writers.len(),
                    readers_linked(*self, wm, rm, c, x as int),
                    forall|p: (nat, nat)| #[trigger] after_writers.dependencies().contains(p) ==> self.dependencies().contains(p),
                    forall|u: int| 0 <= u < t ==> readers_linked(*self, wm, rm, #[trigger] written_keys@[u], wm[written_keys@[u]]@.len() as int),
                decreases writers.len() - x,
            {
                let writer = writers[x];
                proof {
                    lemma_index_entry(g0, wm, written_keys@, true, c);
                    assert(g0.lists(wm[c]@[x as int] as nat, c, true));
                }
                let ghost before = *self;
                if let Some(readers) = components_read.get(&c) {
                    let Ghost(next) = self.link_readers(c, writer, readers, Ghost(g0), Ghost(added), Ghost(rm), Ghost(read_keys@));
                    proof {
                        added = next;
                        lemma_readers_linked_mono(before, *self, wm, rm, c, x as int);
                        assert forall|x2: int, y2: int|
                            #![trigger wm[c]@[x2], rm[c]@[y2]]
                            0 <= x2 < x + 1 && 0 <= y2 < rm[c]@.len() && wm[c]@[x2] != rm[c]@[y2]
                                implies self.dependencies().contains((wm[c]@[x2] as nat, rm[c]@[y2] as nat)) by {
                            if x2 < x {
                                assert(readers_linked(*self, wm, rm, c, x as int));
                            }
                        }
                        assert forall|u: int| 0 <= u < t implies readers_linked(*self, wm, rm, #[trigger] written_keys@[u], wm[written_keys@[u]]@.len() as int) by {
                            lemma_readers_linked_mono(before, *self, wm, rm, written_keys@[u], wm[written_keys@[u]]@.len() as int);
                        }
                    }
                }
                x = x + 1;
            }
            t = t + 1;
        }
        proof {
            self.lemma_detected_covered(g0, after_writers, added, wm, rm, written_keys@, read_keys@);
        }
    }

    /// Once every writer list is linked and every reader list too, the graph holds exactly
    /// the dependencies it had and the detected ones.
    proof fn lemma_detected_covered(
        self,
        g0: SystemGraph,
        after_writers: SystemGraph,
        added: Set<(nat, nat)>,
        wm: Map<DynamicId, Vec<DynamicId>>,
        rm: Map<DynamicId, Vec<DynamicId>>,
        wkeys: Seq<DynamicId>,
        rkeys: Seq<DynamicId>,
    )
        requires
            grown(self, g0, added),
            index_ok(g0, wm, wkeys, true),
            index_ok(g0, rm, rkeys, false),
            forall|p: (nat, nat)| #[trigger] after_writers.dependencies().contains(p) ==> self.dependencies().contains(p),
            forall|u: int| 0 <= u < wkeys.len() ==> writers_linked(after_writers, wm, #[trigger] wkeys[u], wm[wkeys[u]]@.len() - 1),
            forall|u: int| 0 <= u < wkeys.len() ==> readers_linked(self, wm, rm, #[trigger] wkeys[u], wm[wkeys[u]]@.len() as int),
        ensures
            self.wf(),
            self.systems() == g0.systems(),
            self.dependencies() == g0.dependencies().union(g0.detected()),
            forall|e: nat| #[trigger]
                g0.edges().contains_key(e) ==> self.edges().contains_key(e)
                    && self.edges()[e] == g0.edges()[e],
            forall|e: nat| #[trigger]
                self.edges().contains_key(e) && !g0.edges().contains_key(e)
                    ==> !g0.dependencies().contains(self.edges()[e]),
            forall|e1: nat, e2: nat|
                #![trigger self.edges().contains_key(e1), self.edges().contains_key(e2)]
                self.edges().contains_key(e1) && !g0.edges().contains_key(e1)
                    && self.edges().contains_key(e2) && !g0.edges().contains_key(e2)
                    && e1 != e2 ==> self.edges()[e1] != self.edges()[e2],
            self.node_slots() == g0.node_slots(),
    {
        lemma_grown_facts(self, g0, added);
        let deps = self.dependencies();
        assert forall|p: (nat, nat)| g0.detected().contains(p) implies deps.contains(p) by {
            if exists|c: DynamicId| #[trigger] g0.next_writer(c, p.0, p.1) {
                lemma_writer_pair_covered(self, g0, after_writers, wm, wkeys, p);
            } else {
                lemma_reader_pair_covered(self, g0, wm, rm, wkeys, rkeys, p);
            }
        }
        assert(deps =~= g0.dependencies().union(g0.detected()));
    }

    /// Some node lies on a cycle of dependencies.
    pub open spec fn has_cycle(self) -> bool {
        exists|n: nat| #[trigger] node_reaches(self.edges(), n, n)
    }

    /// The nodes of the graph not in `visited`.
    spec fn unvisited(self, visited: Set<DynamicId>) -> Set<nat> {
        Set::new(|n: nat| graph_nodes(self.graph).contains_key(n) && !visited.contains(n as DynamicId))
    }

    /// The state of a depth-first search: `stack` is the path being explored, each visited
    /// node off the stack is finished and carries a finishing time in `fin`, and every edge
    /// from a finished node goes to a node finished earlier.
    spec fn dfs_inv(self, visited: Set<DynamicId>, stack: Seq<DynamicId>, fin: Map<nat, nat>, clock: nat) -> bool {
        let edges = graph_edges(self.graph);
        &&& forall|v: DynamicId| #[trigger] visited.contains(v) ==> graph_nodes(self.graph).contains_key(v as nat)
        &&& stack.no_duplicates()
        &&& forall|i: int| 0 <= i < stack.len() ==> visited.contains(#[trigger] stack[i])
        &&& node_path(edges, as_nats(stack))
        &&& forall|n: nat| #[trigger] fin.contains_key(n) <==> n < u32::MAX && visited.contains(n as DynamicId) && !stack.contains(n as DynamicId)
        &&& forall|u: nat, v: nat|
            #![trigger fin.contains_key(u), has_edge(edges, u, v)]
            fin.contains_key(u) && has_edge(edges, u, v) ==> fin.contains_key(v) && fin[v] < fin[u]
        &&& forall|u: nat| #[trigger] fin.contains_key(u) ==> fin[u] < clock
    }

    proof fn lemma_unvisited_shrinks(self, v0: Set<DynamicId>, v1: Set<DynamicId>, node: DynamicId)
        requires
            graph_inv(self.graph),
            v0.subset_of(v1),
            v1.contains(node),
            !v0.contains(node),
            graph_nodes(self.graph).contains_key(node as nat),
        ensures
            self.unvisited(v1).len() < self.unvisited(v0).len(),
    {
        let u0 = self.unvisited(v0);
        let u1 = self.unvisited(v1);
        assert(u0.subset_of(graph_nodes(self.graph).dom()));
        vstd::set_lib::lemma_set_subset_finite(graph_nodes(self.graph).dom(), u0);
        assert(u0.contains(node as nat));
        assert(u1.subset_of(u0.remove(node as nat)));
        vstd::set_lib::lemma_len_subset(u1, u0.remove(node as nat));
    }

    /// The position of `x` in `stack`, if it is there.
    fn position_in(stack: &Vec<DynamicId>, x: DynamicId) -> (r: Option<usize>)
        ensures
            r is None <==> !stack@.contains(x),
            r matches Some(k) ==> k < stack.len() && stack@[k as int] == x,
    {
        let mut k: usize = 0;
        while k < stack.len()
            invariant
                0 <= k <= stack.len(),
                forall|i: int| 0 <= i < k ==> stack@[i] != x,
            decreases stack.len() - k,
        {
            if stack[k] == x {
                return Some(k);
            }
            k = k + 1;
        }
        None
    }

    /// Depth-first search from `node`: true when it finds an edge back to a node on the
    /// stack, having pushed that node onto `path`.
    fn detect_cycles_helper(
        &self,
        node: DynamicId,
        visited: &mut HashSet<DynamicId>,
        stack: &mut Vec<DynamicId>,
        path: &mut Vec<DynamicId>,
        Ghost(fin): Ghost<Map<nat, nat>>,
        Ghost(clock): Ghost<nat>,
    ) -> (r: (bool, Ghost<Map<nat, nat>>, Ghost<nat>))
        requires
            self.wf(),
            self.dfs_inv(old(visited)@, old(stack)@, fin, clock),
            graph_nodes(self.graph).contains_key(node as nat),
            !old(visited)@.contains(node),
            old(stack)@.len() > 0 ==> has_edge(graph_edges(self.graph), old(stack)@.last() as nat, node as nat),
            forall|i: int| 0 <= i < old(path)@.len() ==> graph_nodes(self.graph).contains_key(#[trigger] old(path)@[i] as nat),
            forall|i: int| 0 <= i < old(stack)@.len() ==> old(path)@.contains(#[trigger] old(stack)@[i]),
        ensures
            forall|i: int| 0 <= i < final(path)@.len() ==> graph_nodes(self.graph).contains_key(#[trigger] final(path)@[i] as nat),
            r.0 ==> final(path)@.len() > 0 && node_reaches(
                graph_edges(self.graph),
                final(path)@.last() as nat,
                final(path)@.last() as nat,
            ),
            r.0 ==> exists|i: int| 0 <= i < final(path)@.len() - 1 && final(path)@[i] == final(path)@.last(),
            old(path)@.len() <= final(path)@.len(),
            forall|i: int| 0 <= i < old(path)@.len() ==> #[trigger] final(path)@[i] == old(path)@[i],
            !r.0 ==> {
                &&& self.dfs_inv(final(visited)@, final(stack)@, r.1@, r.2@)
                &&& final(stack)@ == old(stack)@
                &&& old(visited)@.subset_of(final(visited)@)
                &&& final(visited)@.contains(node)
                &&& forall|n: nat| #[trigger] fin.contains_key(n) ==> r.1@.contains_key(n) && r.1@[n] == fin[n]
                &&& r.1@.contains_key(node as nat)
                &&& clock <= r.2@
            },
        decreases self.unvisited(old(visited)@).len(),
    {
        let ghost v0 = visited@;
        let ghost s0 = stack@;
        let ghost p0 = path@;
        let ghost edges = graph_edges(self.graph);
        visited.insert(node);
        stack.push(node);
        path.push(node);
        proof {
            assert forall|i: int| 0 <= i < stack@.len() implies path@.contains(#[trigger] stack@[i]) by {
                if i < s0.len() {
                    assert(p0.contains(s0[i]));
                    let q = choose|q: int| 0 <= q < p0.len() && p0[q] == s0[i];
                    assert(path@[q] == s0[i]);
                } else {
                    assert(path@[p0.len() as int] == node);
                }
            }
        }
        let ghost mut fin = fin;
        let ghost mut clock = clock;
        proof {
            assert(as_nats(stack@) == as_nats(s0).push(node as nat));
            assert forall|i: int, j: int| 0 <= i && j == i + 1 && j < as_nats(stack@).len() implies #[trigger] has_edge(
                edges,
                as_nats(stack@)[i],
                as_nats(stack@)[j],
            ) by {
                if j < s0.len() {
                    assert(has_edge(edges, as_nats(s0)[i], as_nats(s0)[j]));
                }
            }
            assert forall|n: nat| #[trigger] fin.contains_key(n) <==> n < u32::MAX && visited@.contains(n as DynamicId) && !stack@.contains(n as DynamicId) by {
                if n < u32::MAX && n as DynamicId == node {
                    assert(stack@[stack@.len() - 1] == node);
                }
                if fin.contains_key(n) {
                    assert(!stack@.contains(n as DynamicId)) by {
                        if stack@.contains(n as DynamicId) {
                            let i = choose|i: int| 0 <= i < stack@.len() && stack@[i] == n as DynamicId;
                            if i < s0.len() {
                                assert(s0[i] == n as DynamicId);
                            }
                        }
                    }
                }
                if n < u32::MAX && visited@.contains(n as DynamicId) && !stack@.contains(n as DynamicId) {
                    assert(!s0.contains(n as DynamicId)) by {
                        if s0.contains(n as DynamicId) {
                            let i = choose|i: int| 0 <= i < s0.len() && s0[i] == n as DynamicId;
                            assert(stack@[i] == n as DynamicId);
                        }
                    }
                }
            }
            assert(stack@.no_duplicates()) by {
                assert forall|i: int, j: int| 0 <= i < j < stack@.len() implies stack@[i] != stack@[j] by {
                    if j == s0.len() {
                        assert(v0.contains(s0[i]));
                    }
                }
            }
        }
        let ghost fin_in = fin;
        let ghost clock_in = clock;
        let neighbors = graph_neighbors(&self.graph, node, true);
        let mut j: usize = 0;
        while j < neighbors.len()
            invariant
                self.wf(),
                edges == graph_edges(self.graph),
                graph_nodes(self.graph).contains_key(node as nat),
                self.dfs_inv(visited@, stack@, fin, clock),
                stack@ == s0.push(node),
                v0 == old(visited)@,
                v0.subset_of(visited@),
                visited@.contains(node),
                !v0.contains(node),
                forall|n: nat| #[trigger] fin_in.contains_key(n) ==> fin.contains_key(n) && fin[n] == fin_in[n],
                clock_in <= clock,
                forall|i: int| 0 <= i < path@.len() ==> graph_nodes(self.graph).contains_key(#[trigger] path@[i] as nat),
                forall|i: int| 0 <= i < stack@.len() ==> path@.contains(#[trigger] stack@[i]),
                p0 == old(path)@,
                p0.len() < path@.len(),
                forall|i: int| 0 <= i < p0.len() ==> #[trigger] path@[i] == p0[i],
                forall|i: int|
                    #![trigger neighbors@[i]]
                    0 <= i < neighbors.len() ==> has_edge(edges, node as nat, neighbors@[i] as nat),
                forall|i: int| 0 <= i < j ==> fin.contains_key(#[trigger] neighbors@[i] as nat),
                0 <= j <= neighbors.len(),
            decreases neighbors.len() - j,
        {
            let next = neighbors[j];
            proof {
                assert(has_edge(edges, node as nat, next as nat));
                let x = choose|x: nat| #[trigger] edges.contains_key(x) && edges[x] == (node as nat, next as nat);
                assert(edges.contains_key(x));
            }
            if !visited.contains(&next) {
                proof {
                    self.lemma_unvisited_shrinks(v0, visited@, node);
                    assert(self.unvisited(visited@).len() < self.unvisited(v0).len());
                    assert(stack@.last() == node);
                }
                let ghost p1 = path@;
                let (found, Ghost(fin2), Ghost(clock2)) = self.detect_cycles_helper(next, visited, stack, path, Ghost(fin), Ghost(clock));
                if found {
                    proof {
                        assert forall|i: int| 0 <= i < p0.len() implies #[trigger] path@[i] == p0[i] by {
                            assert(path@[i] == p1[i]);
                        }
                    }
                    return (true, Ghost(fin2), Ghost(clock2));
                }
                proof {
                    fin = fin2;
                    clock = clock2;
                    assert forall|i: int| 0 <= i < stack@.len() implies path@.contains(#[trigger] stack@[i]) by {
                        assert(p1.contains(stack@[i]));
                        let q = choose|q: int| 0 <= q < p1.len() && p1[q] == stack@[i];
                        assert(path@[q] == p1[q]);
                    }
                    assert forall|i: int| 0 <= i < p0.len() implies #[trigger] path@[i] == p0[i] by {
                        assert(path@[i] == p1[i]);
                    }
                }
            } else {
                match Self::position_in(stack, next) {
                    Some(k) => {
                        let ghost s = stack@;
                        let ghost p1 = path@;
                        proof {
                            assert(p1.contains(s[k as int]));
                        }
                        path.push(next);
                        proof {
                            let cyc = as_nats(s.subrange(k as int, s.len() as int)).push(next as nat);
                            assert forall|a: int, b: int| 0 <= a && b == a + 1 && b < cyc.len() implies #[trigger] has_edge(
                                edges,
                                cyc[a],
                                cyc[b],
                            ) by {
                                if b < cyc.len() - 1 {
                                    assert(cyc[a] == as_nats(s)[k + a]);
                                    assert(cyc[b] == as_nats(s)[k + b]);
                                    assert(has_edge(edges, as_nats(s)[k + a], as_nats(s)[k + b]));
                                } else {
                                    assert(cyc[a] == node as nat);
                                }
                            }
                            assert(node_path(edges, cyc));
                            assert(cyc[0] == next as nat);
                            assert(node_reaches(edges, next as nat, next as nat));
                            assert(path@.last() == next);
                            let q = choose|q: int| 0 <= q < p1.len() && p1[q] == s[k as int];
                            assert(path@[q] == path@.last());
                        }
                        return (true, Ghost(fin), Ghost(clock));
                    },
                    None => {
                        assert(fin.contains_key(next as nat));
                    },
                }
            }
            j = j + 1;
        }
        stack.pop();
        proof {
            assert(stack@ == s0);
            let fin_out = fin.insert(node as nat, clock);
            assert forall|v: nat| has_edge(edges, node as nat, v) implies fin.contains_key(v) && fin[v] < clock by {
                assert(has_edge_dir(graph_edges(self.graph), node as nat, v, true));
                let i = choose|i: int| #![trigger neighbors@[i]] 0 <= i < neighbors.len() && neighbors@[i] as nat == v;
                assert(fin.contains_key(neighbors@[i] as nat));
            }
            assert(!fin.contains_key(node as nat)) by {
                assert(stack@.push(node)[s0.len() as int] == node);
            }
            assert forall|n: nat| #[trigger] fin_out.contains_key(n) <==> n < u32::MAX && visited@.contains(n as DynamicId) && !stack@.contains(n as DynamicId) by {
                let full = s0.push(node);
                if n < u32::MAX && n as DynamicId != node {
                    assert(stack@.contains(n as DynamicId) <==> full.contains(n as DynamicId)) by {
                        if full.contains(n as DynamicId) {
                            let i = choose|i: int| 0 <= i < full.len() && full[i] == n as DynamicId;
                            assert(i < s0.len());
                            assert(s0[i] == n as DynamicId);
                        }
                        if s0.contains(n as DynamicId) {
                            let i = choose|i: int| 0 <= i < s0.len() && s0[i] == n as DynamicId;
                            assert(full[i] == n as DynamicId);
                        }
                    }
                }
                if n == node as nat {
                    assert(!s0.contains(node)) by {
                        if s0.contains(node) {
                            let i = choose|i: int| 0 <= i < s0.len() && s0[i] == node;
                            assert(v0.contains(s0[i]));
                        }
                    }
                }
            }
            assert forall|u: nat, v: nat|
                #![trigger fin_out.contains_key(u), has_edge(edges, u, v)]
                fin_out.contains_key(u) && has_edge(edges, u, v) implies fin_out.contains_key(v) && fin_out[v] < fin_out[u] by {
                if u == node as nat {
                    assert(fin.contains_key(v) && fin[v] < clock);
                } else {
                    assert(fin.contains_key(u));
                    assert(fin.contains_key(v) && fin[v] < fin[u]);
                    if v == node as nat {
                        assert(false);
                    }
                }
            }
            assert forall|i: int, k: int| 0 <= i && k == i + 1 && k < as_nats(s0).len() implies #[trigger] has_edge(
                edges,
                as_nats(s0)[i],
                as_nats(s0)[k],
            ) by {
                assert(has_edge(edges, as_nats(s0.push(node))[i], as_nats(s0.push(node))[k]));
            }
            fin = fin_out;
            clock = clock + 1;
        }
        (false, Ghost(fin), Ghost(clock))
    }

    /// Looks for a cycle of dependencies by a depth-first search from each system in turn,
    /// by increasing index. Returns `None` when there is no cycle; otherwise the nodes the
    /// search went through, ending with the node on the search's path that an edge led back
    /// to: that node lies on a cycle and occurs earlier in the list.
    pub fn detect_cycles(&self) -> (r: Option<Vec<DynamicId>>)
        requires
            self.wf(),
        ensures
            r is None <==> !self.has_cycle(),
            r matches Some(path) ==> {
                &&& path.len() > 0
                &&& node_reaches(self.edges(), path@.last() as nat, path@.last() as nat)
                &&& exists|i: int| 0 <= i < path.len() - 1 && path@[i] == path@.last()
                &&& forall|i: int| 0 <= i < path.len() ==> self.systems().dom().contains(#[trigger] path@[i] as nat)
            },
    {
        let mut visited: HashSet<DynamicId> = HashSet::new();
        let mut stack: Vec<DynamicId> = Vec::new();
        let mut path: Vec<DynamicId> = Vec::new();
        let ghost mut fin: Map<nat, nat> = Map::empty();
        let ghost mut clock: nat = 0;
        let ghost edges = graph_edges(self.graph);
        proof {
            assert(as_nats(stack@) =~= Seq::<nat>::empty());
        }
        let ids = graph_node_indices(&self.graph);
        let mut k: usize = 0;
        while k < ids.len()
            invariant
                self.wf(),
                edges == graph_edges(self.graph),
                self.dfs_inv(visited@, stack@, fin, clock),
                stack@.len() == 0,
                0 <= k <= ids.len(),
                forall|a: int| 0 <= a < ids.len() ==> graph_nodes(self.graph).contains_key(#[trigger] ids[a] as nat),
                forall|a: int| 0 <= a < k ==> visited@.contains(#[trigger] ids[a]),
                forall|i: int| 0 <= i < path@.len() ==> graph_nodes(self.graph).contains_key(#[trigger] path@[i] as nat),
            decreases ids.len() - k,
        {
            let node = ids[k];
            if !visited.contains(&node) {
                let ghost v_before = visited@;
                let (found, Ghost(f2), Ghost(c2)) = self.detect_cycles_helper(
                    node,
                    &mut visited,
                    &mut stack,
                    &mut path,
                    Ghost(fin),
                    Ghost(clock),
                );
                if found {
                    proof {
                        assert forall|i: int| 0 <= i < path.len() implies self.systems().dom().contains(#[trigger] path@[i] as nat) by {
                            assert(graph_nodes(self.graph).contains_key(path@[i] as nat));
                        }
                        assert(self.edges() == graph_edges(self.graph));
                        assert(node_reaches(self.edges(), path@.last() as nat, path@.last() as nat));
                        assert(self.has_cycle());
                    }
                    return Some(path);
                }
                proof {
                    fin = f2;
                    clock = c2;
                    assert forall|a: int| 0 <= a < k + 1 implies visited@.contains(#[trigger] ids[a]) by {
                        if a < k {
                            assert(v_before.contains(ids[a]));
                        }
                    }
                }
            }
            k = k + 1;
        }
        proof {
            assert forall|n: nat| !node_reaches(edges, n, n) by {
                if node_reaches(edges, n, n) {
                    let p = choose|p: Seq<nat>|
                        #![trigger node_path(edges, p)]
                        p.len() >= 2 && p[0] == n && p[p.len() - 1] == n && node_path(edges, p);
                    assert(has_edge(edges, p[0], p[1]));
                    let x = choose|x: nat| #[trigger] edges.contains_key(x) && edges[x] == (p[0], p[1]);
                    assert(edges.contains_key(x));
                    assert(graph_nodes(self.graph).contains_key(n));
                    let a = choose|a: int| 0 <= a < ids.len() && ids[a] == n;
                    assert(visited@.contains(ids[a]));
                    assert(!stack@.contains(n as DynamicId));
                    assert(fin.contains_key(n));
                    lemma_ranked_path(edges, fin, p, p.len() - 1);
                }
            }
        }
        None
    }

    /// A graph without systems.
    pub fn new() -> (r: Self)
        ensures
            r.wf(),
            r.systems() == Map::<nat, SystemAccess>::empty(),
            r.dependencies() == Set::<(nat, nat)>::empty(),
            r.node_slots() == 0,
            r.edge_slots() == 0,
    {
        let r = SystemGraph { graph: graph_new(), systems: HashMap::new() };
        proof {
            assert(r.systems() =~= Map::<nat, SystemAccess>::empty());
            assert(r.dependencies() =~= Set::<(nat, nat)>::empty());
        }
        r
    }

    /// Whether the graph holds a system at the node.
    pub fn has_system(&self, id: DynamicId) -> (r: bool)
        requires
            self.wf(),
        ensures
            r == self.systems().dom().contains(id as nat),
    {
        self.systems.contains_key(&id)
    }

    /// Adds a system with no dependencies; returns its node.
    pub fn add_dynamic_system(&mut self, system: SystemAccess) -> (id: DynamicId)
        requires
            old(self).wf(),
            old(self).node_slots() < u32::MAX,
        ensures
            final(self).wf(),
            !old(self).systems().dom().contains(id as nat),
            final(self).systems() == old(self).systems().insert(id as nat, system),
            final(self).dependencies() == old(self).dependencies(),
            final(self).edges() == old(self).edges(),
            final(self).node_slots() <= old(self).node_slots() + 1,
            final(self).edge_slots() == old(self).edge_slots(),
    {
        let ghost g0 = self.graph;
        let id = graph_add_node(&mut self.graph, 0);
        assert(!self.systems@.contains_key(id));
        self.systems.insert(id, system);
        proof {
            assert forall|n: nat| #[trigger] graph_nodes(self.graph).contains_key(n) implies n
                < u32::MAX && self.systems@.contains_key(n as u32) by {
                if n != id as nat {
                    assert(graph_nodes(g0).contains_key(n));
                }
            }
            assert(self.systems() =~= old(self).systems().insert(id as nat, system));
            assert(self.dependencies() =~= old(self).dependencies());
        }
        id
    }

    /// Adds a dependency: `dependent` runs after `dependency`. Both must be systems of the
    /// graph; the graph panics otherwise.
    pub fn add_dependency(&mut self, dependency: DynamicId, dependent: DynamicId)
        requires
            old(self).wf(),
            old(self).systems().dom().contains(dependency as nat),
            old(self).systems().dom().contains(dependent as nat),
            old(self).edge_slots() < u32::MAX,
        ensures
            final(self).wf(),
            final(self).systems() == old(self).systems(),
            final(self).dependencies() == old(self).dependencies().insert(
                (dependency as nat, dependent as nat),
            ),
            exists|e: nat|
                !old(self).edges().contains_key(e) && final(self).edges() == old(self).edges().insert(
                    e,
                    (dependency as nat, dependent as nat),
                ),
            final(self).node_slots() == old(self).node_slots(),
            final(self).edge_slots() <= old(self).edge_slots() + 1,
    {
        let e = graph_add_edge(&mut self.graph, dependency, dependent);
        proof {
            let edges = graph_edges(self.graph);
            let edges0 = graph_edges(old(self).graph);
            assert forall|p: (nat, nat)| self.dependencies().contains(p) <==> old(self).dependencies().insert((dependency as nat, dependent as nat)).contains(p) by {
                if has_edge(edges, p.0, p.1) && p != (dependency as nat, dependent as nat) {
                    let x = choose|x: nat| #[trigger] edges.contains_key(x) && edges[x] == (p.0, p.1);
                    assert(edges0.contains_key(x));
                }
                if has_edge(edges0, p.0, p.1) {
                    let x = choose|x: nat| #[trigger] edges0.contains_key(x) && edges0[x] == (p.0, p.1);
                    assert(edges.contains_key(x));
                }
                if p == (dependency as nat, dependent as nat) {
                    assert(edges.contains_key(e as nat));
                }
            }
            assert(self.dependencies() =~= old(self).dependencies().insert(
                (dependency as nat, dependent as nat),
            ));
            assert(!old(self).edges().contains_key(e as nat) && self.edges() == old(self).edges().insert(
                e as nat,
                (dependency as nat, dependent as nat),
            ));
        }
    }

    /// Adds a system that runs after `after`.
    pub fn add_system_after(&mut self, system: SystemAccess, after: DynamicId) -> (id: DynamicId)
        requires
            old(self).wf(),
            old(self).systems().dom().contains(after as nat),
            old(self).node_slots() < u32::MAX,
            old(self).edge_slots() < u32::MAX,
        ensures
            final(self).wf(),
            !old(self).systems().dom().contains(id as nat),
            final(self).systems() == old(self).systems().insert(id as nat, system),
            final(self).dependencies() == old(self).dependencies().insert((after as nat, id as nat)),
            final(self).node_slots() <= old(self).node_slots() + 1,
            final(self).edge_slots() <= old(self).edge_slots() + 1,
    {
        let id = self.add_dynamic_system(system);
        self.add_dependency(after, id);
        id
    }

    /// Adds a system that runs before `before`.
    pub fn add_system_before(&mut self, system: SystemAccess, before: DynamicId) -> (id: DynamicId)
        requires
            old(self).wf(),
            old(self).systems().dom().contains(before as nat),
            old(self).node_slots() < u32::MAX,
            old(self).edge_slots() < u32::MAX,
        ensures
            final(self).wf(),
            !old(self).systems().dom().contains(id as nat),
            final(self).systems() == old(self).systems().insert(id as nat, system),
            final(self).dependencies() == old(self).dependencies().insert((id as nat, before as nat)),
            final(self).node_slots() <= old(self).node_slots() + 1,
            final(self).edge_slots() <= old(self).edge_slots() + 1,
    {
        let id = self.add_dynamic_system(system);
        self.add_dependency(id, before);
        id
    }
}

/// Why the systems of a graph cannot be run.
#[derive(Debug, Clone, Copy, PartialEq, Eq, Structural)]
pub enum SystemGraphError {
    /// The dependencies form a cycle.
    DependencyCycle,
}

/// An edge is a path of one step.
proof fn lemma_edge_reaches(edges: Map<nat, (nat, nat)>, a: nat, b: nat)
    requires
        has_edge(edges, a, b),
    ensures
        node_reaches(edges, a, b),
{
    let path = seq![a, b];
    assert(node_path(edges, path));
}

/// A path extended by one edge is a path.
proof fn lemma_reaches_extend(edges: Map<nat, (nat, nat)>, a: nat, b: nat, c: nat)
    requires
        node_reaches(edges, a, b),
        has_edge(edges, b, c),
    ensures
        node_reaches(edges, a, c),
{
    let path = choose|path: Seq<nat>|
        #![trigger node_path(edges, path)]
        path.len() >= 2 && path[0] == a && path[path.len() - 1] == b && node_path(edges, path);
    let longer = path.push(c);
    assert forall|i: int, j: int| 0 <= i && j == i + 1 && j < longer.len() implies #[trigger] has_edge(
        edges,
        longer[i],
        longer[j],
    ) by {
        if j < path.len() {
            assert(has_edge(edges, path[i], path[j]));
        }
    }
    assert(node_path(edges, longer));
}

impl SystemGraph {
    /// The systems that reach `v` along one or more dependencies.
    spec fn ancestors(self, v: nat) -> Set<nat> {
        graph_nodes(self.graph).dom().filter(|u: nat| node_reaches(self.edges(), u, v))
    }

    /// Without a cycle, every system is a source, one that depends on nothing, or is reached
    /// from one.
    proof fn lemma_reached_from_source(self, v: nat)
        requires
            self.wf(),
            !self.has_cycle(),
            graph_nodes(self.graph).contains_key(v),
        ensures
            exists|s: nat|
                #![trigger no_incoming(self.edges(), s)]
                graph_nodes(self.graph).contains_key(s) && no_incoming(self.edges(), s) && (s == v
                    || node_reaches(self.edges(), s, v)),
        decreases self.ancestors(v).len(),
    {
        let edges = self.edges();
        if no_incoming(edges, v) {
            assert(graph_nodes(self.graph).contains_key(v) && no_incoming(edges, v));
        } else {
            let u = choose|u: nat| has_edge(edges, u, v);
            let e = choose|e: nat| #[trigger] edges.contains_key(e) && edges[e] == (u, v);
            assert(graph_edges(self.graph).contains_key(e));
            assert(graph_nodes(self.graph).contains_key(u));
            lemma_edge_reaches(edges, u, v);
            assert(!node_reaches(edges, u, u));
            assert(self.ancestors(u).subset_of(self.ancestors(v).remove(u))) by {
                assert forall|x: nat| self.ancestors(u).contains(x) implies self.ancestors(v).remove(u).contains(x) by {
                    lemma_reaches_extend(edges, x, u, v);
                }
            }
            vstd::set_lib::lemma_len_subset(self.ancestors(u), self.ancestors(v).remove(u));
            assert(self.ancestors(v).contains(u));
            self.lemma_reached_from_source(u);
            let s = choose|s: nat|
                #![trigger no_incoming(self.edges(), s)]
                graph_nodes(self.graph).contains_key(s) && no_incoming(self.edges(), s) && (s == u
                    || node_reaches(self.edges(), s, u));
            if s == u {
                assert(node_reaches(edges, s, v));
            } else {
                lemma_reaches_extend(edges, s, u, v);
            }
        }
    }

    /// Whatever a walk that is closed under the dependencies holds, it holds everything
    /// reached from there.
    proof fn lemma_closed_walk_holds_path(self, order: Seq<DynamicId>, path: Seq<nat>, k: int)
        requires
            self.wf(),
            node_path(self.edges(), path),
            0 <= k < path.len(),
            order.contains(path[0] as DynamicId),
            forall|i: int, b: nat|
                #![trigger order[i], has_edge(self.edges(), order[i] as nat, b)]
                0 <= i < order.len() && has_edge(self.edges(), order[i] as nat, b) ==> exists|m: int|
                    0 <= m < order.len() && order[m] as nat == b,
        ensures
            order.contains(path[k] as DynamicId),
        decreases k,
    {
        if k > 0 {
            self.lemma_closed_walk_holds_path(order, path, k - 1);
            let i = choose|i: int| 0 <= i < order.len() && order[i] == path[k - 1] as DynamicId;
            assert(has_edge(self.edges(), path[k - 1], path[k]));
            let e = choose|e: nat| #[trigger] self.edges().contains_key(e) && self.edges()[e] == (path[k - 1], path[k]);
            assert(graph_edges(self.graph).contains_key(e));
            assert(graph_nodes(self.graph).contains_key(path[k - 1]));
            assert(order[i] as nat == path[k - 1]);
            let m = choose|m: int| 0 <= m < order.len() && order[m] as nat == path[k];
            assert(order[m] == path[k] as DynamicId);
        }
    }

    /// The order in which `run` takes the systems. An error when the dependencies form a
    /// cycle; else a breadth-first walk along the dependencies from the systems that depend on
    /// nothing, taken by increasing index: every system once, the sources first, and every
    /// other system after some system it depends on.
    pub fn run_order(&self) -> (r: Result<Vec<DynamicId>, SystemGraphError>)
        requires
            self.wf(),
        ensures
            r is Err <==> self.has_cycle(),
            r matches Ok(order) ==> {
                &&& order@.no_duplicates()
                &&& forall|i: int| 0 <= i < order.len() ==> self.systems().dom().contains(#[trigger] order[i] as nat)
                &&& forall|n: nat| #[trigger] self.systems().dom().contains(n) ==> order@.contains(n as DynamicId)
                &&& forall|i: int, j: int|
                    #![trigger order[i], order[j]]
                    0 <= i < j < order.len() && no_incoming(self.edges(), order[j] as nat) ==> no_incoming(
                        self.edges(),
                        order[i] as nat,
                    ) && order[i] < order[j]
                &&& forall|i: int|
                    0 <= i < order.len() && !no_incoming(self.edges(), #[trigger] order[i] as nat) ==> exists|j: int|
                        0 <= j < i && has_edge(self.edges(), order[j] as nat, order[i] as nat)
            },
    {
        let edges = Ghost(self.edges());
        if graph_node_count(&self.graph) == 0 {
            proof {
                graph_nodes(self.graph).dom().lemma_len0_is_empty();
                assert forall|n: nat| !node_reaches(edges@, n, n) by {
                    if node_reaches(edges@, n, n) {
                        let path = choose|path: Seq<nat>|
                            #![trigger node_path(edges@, path)]
                            path.len() >= 2 && path[0] == n && path[path.len() - 1] == n && node_path(edges@, path);
                        assert(has_edge(edges@, path[0], path[1]));
                        let e = choose|e: nat| #[trigger] edges@.contains_key(e) && edges@[e] == (path[0], path[1]);
                        assert(graph_edges(self.graph).contains_key(e));
                        assert(graph_nodes(self.graph).contains_key(path[0]));
                    }
                }
            }
            return Ok(Vec::new());
        }
        if self.detect_cycles().is_some() {
            return Err(SystemGraphError::DependencyCycle);
        }
        let starts = graph_sources(&self.graph);
        proof {
            let v = graph_nodes(self.graph).dom().choose();
            assert(graph_nodes(self.graph).contains_key(v));
            self.lemma_reached_from_source(v);
            let s = choose|s: nat|
                #![trigger no_incoming(self.edges(), s)]
                graph_nodes(self.graph).contains_key(s) && no_incoming(self.edges(), s) && (s == v
                    || node_reaches(self.edges(), s, v));
            assert(graph_nodes(self.graph).contains_key(s) && no_incoming(graph_edges(self.graph), s));
        }
        let order = graph_bfs(&self.graph, &starts);
        proof {
            let k = starts.len() as int;
            assert forall|i: int| 0 <= i < k implies order[i] == #[trigger] starts[i] by {
                assert(order@.take(k)[i] == starts@[i]);
            }
            // every entry is a system
            assert forall|i: int| 0 <= i < order.len() implies self.systems().dom().contains(#[trigger] order[i] as nat) by {
                if i < k {
                    assert(order[i] == starts[i]);
                } else {
                    let j = choose|j: int| 0 <= j < i && has_edge(graph_edges(self.graph), order[j] as nat, order[i] as nat);
                    let e = choose|e: nat| #[trigger] edges@.contains_key(e) && edges@[e] == (order[j] as nat, order[i] as nat);
                    assert(graph_edges(self.graph).contains_key(e));
                }
            }
            // entries past the sources have an edge into them
            assert forall|i: int| k <= i < order.len() implies !no_incoming(edges@, #[trigger] order[i] as nat) by {
                let j = choose|j: int| 0 <= j < i && has_edge(graph_edges(self.graph), order[j] as nat, order[i] as nat);
                assert(has_edge(edges@, order[j] as nat, order[i] as nat));
            }
            // no entry twice
            assert forall|i: int, j: int| 0 <= i < order.len() && 0 <= j < order.len() && i != j implies order[i] != order[j] by {
                if i < k && j < k {
                    assert(order[i] == starts[i] && order[j] == starts[j]);
                } else if i < k {
                    assert(order[i] == starts[i]);
                    assert(no_incoming(edges@, starts[i] as nat));
                    assert(!no_incoming(edges@, order[j] as nat));
                } else if j < k {
                    assert(order[j] == starts[j]);
                    assert(no_incoming(edges@, starts[j] as nat));
                    assert(!no_incoming(edges@, order[i] as nat));
                } else if i < j {
                    assert(order[i] != order[j]);
                } else {
                    assert(order[j] != order[i]);
                }
            }
            assert(order@.no_duplicates());
            // every system is there
            assert forall|n: nat| #[trigger] self.systems().dom().contains(n) implies order@.contains(n as DynamicId) by {
                assert(graph_nodes(self.graph).contains_key(n));
                self.lemma_reached_from_source(n);
                let s = choose|s: nat|
                    #![trigger no_incoming(self.edges(), s)]
                    graph_nodes(self.graph).contains_key(s) && no_incoming(self.edges(), s) && (s == n
                        || node_reaches(self.edges(), s, n));
                let si = choose|i: int| 0 <= i < starts.len() && starts[i] == s;
                assert(order[si] == starts[si]);
                assert(order@.contains(s as DynamicId));
                if s != n {
                    let path = choose|path: Seq<nat>|
                        #![trigger node_path(edges@, path)]
                        path.len() >= 2 && path[0] == s && path[path.len() - 1] == n && node_path(edges@, path);
                    self.lemma_closed_walk_holds_path(order@, path, path.len() - 1);
                }
            }
            // the sources come first, by increasing index
            assert forall|i: int, j: int|
                #![trigger order[i], order[j]]
                0 <= i < j < order.len() && no_incoming(self.edges(), order[j] as nat) implies no_incoming(
                    self.edges(),
                    order[i] as nat,
                ) && order[i] < order[j] by {
                assert(j < k);
                assert(order[i] == starts[i] && order[j] == starts[j]);
            }
            // the others follow one of their dependencies
            assert forall|i: int|
                0 <= i < order.len() && !no_incoming(self.edges(), #[trigger] order[i] as nat) implies exists|j: int|
                    0 <= j < i && has_edge(self.edges(), order[j] as nat, order[i] as nat) by {
                if i < k {
                    assert(order[i] == starts[i]);
                }
            }
        }
        Ok(order)
    }
}

} // verus!

verus! {

/// The detected dependencies depend on the systems' accesses alone, so detecting again after
/// `autodetect_dependencies` adds nothing: what it added is all there already.
pub proof fn law_autodetect_stable(first: SystemGraph, second: SystemGraph)
    requires
        second.systems() == first.systems(),
        second.dependencies() == first.dependencies().union(first.detected()),
    ensures
        second.detected() == first.detected(),
        second.dependencies().union(second.detected()) == second.dependencies(),
{
    assert forall|n: nat, c: DynamicId, w: bool| #[trigger] second.lists(n, c, w) == first.lists(n, c, w) by {}
    assert forall|c: DynamicId, a: nat, b: nat| #[trigger] second.next_writer(c, a, b) == first.next_writer(c, a, b) by {
        assert forall|m: nat| second.lists(m, c, true) == first.lists(m, c, true) by {}
    }
    assert forall|p: (nat, nat)| second.detected().contains(p) == first.detected().contains(p) by {
        if first.reads_what_writes(p.0, p.1) {
            let c = choose|c: DynamicId| #[trigger] first.lists(p.0, c, true) && first.lists(p.1, c, false) && p.0 != p.1;
            assert(second.lists(p.0, c, true));
        }
        if second.reads_what_writes(p.0, p.1) {
            let c = choose|c: DynamicId| #[trigger] second.lists(p.0, c, true) && second.lists(p.1, c, false) && p.0 != p.1;
            assert(first.lists(p.0, c, true));
        }
        if exists|c: DynamicId| #[trigger] first.next_writer(c, p.0, p.1) {
            let c = choose|c: DynamicId| #[trigger] first.next_writer(c, p.0, p.1);
            assert(second.next_writer(c, p.0, p.1));
        }
        if exists|c: DynamicId| #[trigger] second.next_writer(c, p.0, p.1) {
            let c = choose|c: DynamicId| #[trigger] second.next_writer(c, p.0, p.1);
            assert(first.next_writer(c, p.0, p.1));
        }
    }
    assert(second.detected() =~= first.detected());
    assert(second.dependencies().union(second.detected()) =~= second.dependencies());
}

/// A dependency of a system on itself is a cycle, so `detect_cycles` reports one and
/// `run_order` refuses the graph.
pub proof fn law_self_dependency_is_a_cycle(g: SystemGraph, n: nat)
    requires
        g.dependencies().contains((n, n)),
    ensures
        g.has_cycle(),
{
    let edges = g.edges();
    assert(has_edge(edges, n, n));
    let path = seq![n, n];
    assert(node_path(edges, path));
    assert(node_reaches(edges, n, n));
}

} // verus!
