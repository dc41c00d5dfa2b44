//! Parent-child relations between entities.
use vstd::prelude::*;

use std::collections::HashMap;

use crate::entity::{entity_of_packed, law_u64_roundtrip, lemma_entity_of_packed, pack_spec, Entity};
use vstd::arithmetic::power::{lemma_pow_increases, lemma_pow_positive, pow};

use crate::graph::{
    graph_add_edge, graph_add_node, graph_clone, graph_contains_edge,
    graph_edge_slots, graph_edges, graph_edges_connecting, graph_edges_from, graph_inv,
    graph_neighbors, graph_new, graph_node_indices, graph_node_slots, graph_nodes,
    graph_remove_edge, graph_remove_node, has_edge, has_edge_dir, no_incoming, parallel_edges, RelationGraph,
};

verus! {

broadcast use vstd::std_specs::hash::group_hash_axioms;

impl Entity {
    /// The entity in its 64-bit form.
    pub open spec fn packed(self) -> u64 {
        pack_spec(self.spec_id(), self.spec_generation())
    }
}

/// Entities with the same 64-bit form are the same entity.
pub proof fn lemma_packed_injective()
    ensures
        forall|a: Entity, b: Entity| #[trigger] a.packed() == #[trigger] b.packed() ==> a == b,
{
    assert forall|a: Entity, b: Entity| #[trigger] a.packed() == #[trigger] b.packed() implies a
        == b by {
        law_u64_roundtrip(a, b);
    }
}

/// The relations of `rel` with parent and child swapped.
pub open spec fn flipped(rel: Set<(Entity, Entity)>) -> Set<(Entity, Entity)> {
    Set::new(|pc: (Entity, Entity)| rel.contains((pc.1, pc.0)))
}

/// `rel` followed from parent to child (`outgoing`) or from child to parent.
pub open spec fn oriented(rel: Set<(Entity, Entity)>, outgoing: bool) -> Set<(Entity, Entity)> {
    if outgoing {
        rel
    } else {
        flipped(rel)
    }
}

/// Each entity of `path` is related by `rel` to the next one.
pub open spec fn is_path(rel: Set<(Entity, Entity)>, path: Seq<Entity>) -> bool {
    forall|i: int, j: int|
        0 <= i && j == i + 1 && j < path.len() ==> #[trigger] rel.contains((path[i], path[j]))
}

/// `d` is reached from `a` by following one or more relations of `rel`.
pub open spec fn descends(rel: Set<(Entity, Entity)>, a: Entity, d: Entity) -> bool {
    exists|path: Seq<Entity>|
        #![trigger is_path(rel, path)]
        path.len() >= 2 && path[0] == a && path[path.len() - 1] == d && is_path(rel, path)
}

/// `rank` drops along every relation that leaves `start` or an entity reached from it.
pub open spec fn ranked_from(
    rel: Set<(Entity, Entity)>,
    start: Entity,
    rank: spec_fn(Entity) -> nat,
) -> bool {
    forall|p: Entity, c: Entity|
        #[trigger] rel.contains((p, c)) && (p == start || descends(rel, start, p)) ==> rank(p)
            > rank(c)
}

/// No cycle of `rel` can be reached from `start`.
pub open spec fn acyclic_from(rel: Set<(Entity, Entity)>, start: Entity) -> bool {
    exists|rank: spec_fn(Entity) -> nat| #[trigger] ranked_from(rel, start, rank)
}

/// A relation is a path of one step.
pub proof fn lemma_descends_step(rel: Set<(Entity, Entity)>, a: Entity, c: Entity)
    requires
        rel.contains((a, c)),
    ensures
        descends(rel, a, c),
{
    let path = seq![a, c];
    assert(is_path(rel, path));
}

/// A path extends by one relation at its end.
pub proof fn lemma_descends_extend(rel: Set<(Entity, Entity)>, a: Entity, x: Entity, c: Entity)
    requires
        descends(rel, a, x),
        rel.contains((x, c)),
    ensures
        descends(rel, a, c),
{
    let path = choose|path: Seq<Entity>|
        #![trigger is_path(rel, path)]
        path.len() >= 2 && path[0] == a && path[path.len() - 1] == x && is_path(rel, path);
    let longer = path.push(c);
    assert forall|i: int, j: int| 0 <= i && j == i + 1 && j < longer.len() implies #[trigger] rel.contains(
        (longer[i], longer[j]),
    ) by {
        if j < path.len() {
            assert(rel.contains((path[i], path[j])));
        }
    }
    assert(is_path(rel, longer));
}

/// A path starts with a relation, then either stops or goes on from the entity it reached.
pub proof fn lemma_descends_split(rel: Set<(Entity, Entity)>, x: Entity, d: Entity)
    requires
        descends(rel, x, d),
    ensures
        rel.contains((x, d)) || exists|c: Entity| #[trigger]
            rel.contains((x, c)) && descends(rel, c, d),
{
    let path = choose|path: Seq<Entity>|
        #![trigger is_path(rel, path)]
        path.len() >= 2 && path[0] == x && path[path.len() - 1] == d && is_path(rel, path);
    assert(rel.contains((path[0], path[1])));
    if path.len() > 2 {
        let rest = path.subrange(1, path.len() as int);
        assert forall|i: int, j: int| 0 <= i && j == i + 1 && j < rest.len() implies #[trigger] rel.contains(
            (rest[i], rest[j]),
        ) by {
            assert(rel.contains((path[i + 1], path[j + 1])));
        }
        assert(is_path(rel, rest));
        assert(descends(rel, path[1], d));
    }
}

/// Following the swapped relations from `a` to `d` is following the relations from `d` to `a`.
pub proof fn lemma_descends_flipped(rel: Set<(Entity, Entity)>, a: Entity, d: Entity)
    ensures
        descends(flipped(rel), a, d) <==> descends(rel, d, a),
{
    if descends(flipped(rel), a, d) {
        let path = choose|path: Seq<Entity>|
            #![trigger is_path(flipped(rel), path)]
            path.len() >= 2 && path[0] == a && path[path.len() - 1] == d && is_path(
                flipped(rel),
                path,
            );
        let rev = path.reverse();
        assert forall|i: int, j: int| 0 <= i && j == i + 1 && j < rev.len() implies #[trigger] rel.contains(
            (rev[i], rev[j]),
        ) by {
            let k = path.len() - 2 - i;
            assert(flipped(rel).contains((path[k], path[k + 1])));
        }
        assert(is_path(rel, rev));
    }
    if descends(rel, d, a) {
        let path = choose|path: Seq<Entity>|
            #![trigger is_path(rel, path)]
            path.len() >= 2 && path[0] == d && path[path.len() - 1] == a && is_path(rel, path);
        let rev = path.reverse();
        assert forall|i: int, j: int| 0 <= i && j == i + 1 && j < rev.len() implies #[trigger] flipped(rel).contains(
            (rev[i], rev[j]),
        ) by {
            let k = path.len() - 2 - i;
            assert(rel.contains((path[k], path[k + 1])));
        }
        assert(is_path(flipped(rel), rev));
    }
}

/// Whatever `a` reaches through `b` it reaches itself: being below another entity is
/// transitive, so the entities below a child are among the entities below its parent.
pub proof fn law_descends_transitive(rel: Set<(Entity, Entity)>, a: Entity, b: Entity, c: Entity)
    requires
        descends(rel, a, b),
        descends(rel, b, c),
    ensures
        descends(rel, a, c),
{
    let p = choose|path: Seq<Entity>|
        #![trigger is_path(rel, path)]
        path.len() >= 2 && path[0] == a && path[path.len() - 1] == b && is_path(rel, path);
    let q = choose|path: Seq<Entity>|
        #![trigger is_path(rel, path)]
        path.len() >= 2 && path[0] == b && path[path.len() - 1] == c && is_path(rel, path);
    let joined = p + q.subrange(1, q.len() as int);
    assert forall|i: int, j: int| 0 <= i && j == i + 1 && j < joined.len() implies #[trigger] rel.contains(
        (joined[i], joined[j]),
    ) by {
        if j < p.len() {
            assert(rel.contains((p[i], p[j])));
        } else if i == p.len() - 1 {
            assert(joined[i] == b && joined[j] == q[1]);
            assert(rel.contains((q[0], q[1])));
        } else {
            let k = i - p.len() + 1;
            assert(joined[i] == q[k] && joined[j] == q[k + 1]);
            assert(rel.contains((q[k], q[k + 1])));
        }
    }
    assert(joined[joined.len() - 1] == c);
    assert(is_path(rel, joined));
}

/// An entity that is the parent of nothing has nothing below it.
pub proof fn law_leaf_has_no_descendants(rel: Set<(Entity, Entity)>, leaf: Entity, d: Entity)
    requires
        forall|x: Entity| !rel.contains((leaf, x)),
    ensures
        !descends(rel, leaf, d),
{
    if descends(rel, leaf, d) {
        lemma_descends_split(rel, leaf, d);
        if !rel.contains((leaf, d)) {
            let c = choose|c: Entity| #[trigger] rel.contains((leaf, c)) && descends(rel, c, d);
            assert(rel.contains((leaf, c)));
        }
    }
}

/// Where no cycle can be reached from `a`, `a` is not below itself: a walk from `a` never
/// lists `a`.
pub proof fn law_acyclic_start_not_below_itself(rel: Set<(Entity, Entity)>, a: Entity)
    requires
        acyclic_from(rel, a),
    ensures
        !descends(rel, a, a),
{
    if descends(rel, a, a) {
        let rank = choose|rank: spec_fn(Entity) -> nat| #[trigger] ranked_from(rel, a, rank);
        let path = choose|path: Seq<Entity>|
            #![trigger is_path(rel, path)]
            path.len() >= 2 && path[0] == a && path[path.len() - 1] == a && is_path(rel, path);
        lemma_rank_drops_along(rel, a, rank, path, (path.len() - 1) as nat);
    }
}

/// Along a path from `a`, the rank of the `k`-th entity is at most the rank of `a` minus `k`.
proof fn lemma_rank_drops_along(
    rel: Set<(Entity, Entity)>,
    a: Entity,
    rank: spec_fn(Entity) -> nat,
    path: Seq<Entity>,
    k: nat,
)
    requires
        ranked_from(rel, a, rank),
        is_path(rel, path),
        path.len() >= 2,
        path[0] == a,
        1 <= k < path.len(),
    ensures
        rank(path[k as int]) + k <= rank(a),
        descends(rel, a, path[k as int]),
    decreases k,
{
    let i = k - 1;
    assert(rel.contains((path[i], path[k as int])));
    if k == 1 {
        lemma_descends_step(rel, a, path[1]);
    } else {
        lemma_rank_drops_along(rel, a, rank, path, (k - 1) as nat);
        lemma_descends_extend(rel, a, path[i], path[k as int]);
    }
}

/// Removing a relation undoes adding it, when it was not there before.
pub proof fn law_remove_relation_undoes_add(before: EntityGraph, parent: Entity, child: Entity)
    requires
        !before.relation_set().contains((parent, child)),
    ensures
        before.relation_set().insert((parent, child)).remove((parent, child))
            == before.relation_set(),
{
    assert(before.relation_set().insert((parent, child)).remove((parent, child))
        =~= before.relation_set());
}

/// The base of the weights that bound a walk: more than any vector can hold.
spec fn walk_base() -> int {
    0x1_0000_0000_0000_0000
}

/// The sum, over the entities of `s`, of `walk_base` to the power of their rank.
spec fn stack_weight(s: Seq<Entity>, rank: spec_fn(Entity) -> nat) -> nat
    decreases s.len(),
{
    if s.len() == 0 {
        0
    } else {
        stack_weight(s.drop_last(), rank) + pow(walk_base(), rank(s.last())) as nat
    }
}

proof fn lemma_stack_weight_append(a: Seq<Entity>, b: Seq<Entity>, rank: spec_fn(Entity) -> nat)
    ensures
        stack_weight(a + b, rank) == stack_weight(a, rank) + stack_weight(b, rank),
    decreases b.len(),
{
    if b.len() > 0 {
        assert((a + b).drop_last() =~= a + b.drop_last());
        lemma_stack_weight_append(a, b.drop_last(), rank);
    } else {
        assert(a + b =~= a);
    }
}

/// Entities of rank below `r`, fewer than `walk_base` of them, weigh less than one entity of
/// rank `r`.
proof fn lemma_stack_weight_below(s: Seq<Entity>, rank: spec_fn(Entity) -> nat, r: nat)
    requires
        s.len() < walk_base(),
        forall|i: int| 0 <= i < s.len() ==> rank(#[trigger] s[i]) < r,
    ensures
        stack_weight(s, rank) < pow(walk_base(), r),
{
    lemma_pow_positive(walk_base(), r);
    if s.len() > 0 {
        let r1 = (r - 1) as nat;
        lemma_stack_weight_bounded(s, rank, r1);
        reveal(pow);
        assert(pow(walk_base(), r) == walk_base() * pow(walk_base(), r1));
        lemma_pow_positive(walk_base(), r1);
        let p = pow(walk_base(), r1);
        assert(s.len() * p < walk_base() * p) by (nonlinear_arith)
            requires
                s.len() < walk_base(),
                p > 0,
        ;
    }
}

proof fn lemma_stack_weight_bounded(s: Seq<Entity>, rank: spec_fn(Entity) -> nat, r: nat)
    requires
        forall|i: int| 0 <= i < s.len() ==> rank(#[trigger] s[i]) <= r,
    ensures
        stack_weight(s, rank) <= s.len() * pow(walk_base(), r),
    decreases s.len(),
{
    if s.len() > 0 {
        let t = s.drop_last();
        assert forall|i: int| 0 <= i < t.len() implies rank(#[trigger] t[i]) <= r by {
            assert(t[i] == s[i]);
        }
        lemma_stack_weight_bounded(t, rank, r);
        assert(rank(s[s.len() - 1]) <= r);
        lemma_pow_increases(walk_base() as nat, rank(s.last()), r);
        lemma_pow_positive(walk_base(), rank(s.last()));
        let p = pow(walk_base(), r);
        assert(pow(walk_base(), rank(s.last())) <= p);
        assert(t.len() * p + p == s.len() * p) by (nonlinear_arith)
            requires
                t.len() + 1 == s.len(),
        ;
    }
}

/// Each of the edges `ids` goes from `a` to `b`.
spec fn all_join(edges: Map<nat, (nat, nat)>, ids: Seq<u32>, a: nat, b: nat) -> bool {
    forall|j: int|
        0 <= j < ids.len() ==> {
            &&& #[trigger] edges.contains_key(ids[j] as nat)
            &&& edges[ids[j] as nat] == (a, b)
        }
}

/// A directed graph of entities: an edge goes from a parent to each of its children.
pub struct EntityGraph {
    graph: RelationGraph,
    indices_to_entities: HashMap<u32, u64>,
    entities_to_indices: HashMap<u64, u32>,
}

impl EntityGraph {
    /// The node that holds the entity whose 64-bit form is `k`.
    pub closed spec fn node_of(self, k: u64) -> nat {
        self.entities_to_indices@[k] as nat
    }

    /// The graph's nodes and the two lookup maps agree, and no two edges join the same pair.
    pub closed spec fn wf(self) -> bool {
        let nodes = graph_nodes(self.graph);
        let edges = graph_edges(self.graph);
        let e2i = self.entities_to_indices@;
        let i2e = self.indices_to_entities@;
        &&& graph_inv(self.graph)
        &&& forall|n: nat|
            #[trigger] nodes.contains_key(n) ==> n < u32::MAX && i2e.contains_key(n as u32)
                && nodes[n] == i2e[n as u32]
        &&& forall|n: u32|
            #[trigger] i2e.contains_key(n) ==> nodes.contains_key(n as nat) && e2i.contains_key(
                i2e[n],
            ) && e2i[i2e[n]] == n
        &&& forall|k: u64|
            #[trigger] e2i.contains_key(k) ==> i2e.contains_key(e2i[k]) && i2e[e2i[k]] == k
        &&& forall|e1: nat, e2: nat|
            #![trigger edges.contains_key(e1), edges.contains_key(e2)]
            edges.contains_key(e1) && edges.contains_key(e2) && e1 != e2 ==> edges[e1]
                != edges[e2]
    }

    /// The entities the graph holds.
    pub closed spec fn entity_set(self) -> Set<Entity> {
        Set::new(|e: Entity| self.entities_to_indices@.contains_key(e.packed()))
    }

    /// The pairs (parent, child) that an edge joins.
    pub closed spec fn relation_set(self) -> Set<(Entity, Entity)> {
        Set::new(
            |pc: (Entity, Entity)|
                {
                    &&& self.entities_to_indices@.contains_key(pc.0.packed())
                    &&& self.entities_to_indices@.contains_key(pc.1.packed())
                    &&& has_edge(
                        graph_edges(self.graph),
                        self.node_of(pc.0.packed()),
                        self.node_of(pc.1.packed()),
                    )
                },
        )
    }

    /// How many node slots the graph has used; a new entity takes at most one more.
    pub closed spec fn node_slots(self) -> nat {
        graph_node_slots(self.graph)
    }

    /// How many edge slots the graph has used; a new relation takes at most one more.
    pub closed spec fn edge_slots(self) -> nat {
        graph_edge_slots(self.graph)
    }

    /// The number of entities among `a` and `b` that the graph does not hold yet.
    pub open spec fn missing(self, a: Entity, b: Entity) -> nat {
        if self.entity_set().contains(a) {
            if self.entity_set().contains(b) {
                0
            } else {
                1
            }
        } else if self.entity_set().contains(b) || a == b {
            1
        } else {
            2
        }
    }

    /// Adds the entity to the graph, with no relations, if the graph does not hold it yet.
    pub fn add_entity(&mut self, entity: Entity)
        requires
            old(self).wf(),
            !old(self).entity_set().contains(entity) ==> old(self).node_slots() < u32::MAX,
        ensures
            final(self).wf(),
            final(self).entity_set() == old(self).entity_set().insert(entity),
            final(self).relation_set() == old(self).relation_set(),
            final(self).node_slots() <= old(self).node_slots() + 1,
            final(self).edge_slots() == old(self).edge_slots(),
    {
        let _ = self.index_or_add(entity);
    }

    /// Makes `child` a child of `parent`, adding either entity to the graph if it is missing.
    /// Returns false, and changes no relation, when the relation was already there.
    pub fn add_relation(&mut self, parent: Entity, child: Entity) -> (added: bool)
        requires
            old(self).wf(),
            old(self).node_slots() + old(self).missing(parent, child) <= u32::MAX,
            !old(self).relation_set().contains((parent, child)) ==> old(self).edge_slots()
                < u32::MAX,
        ensures
            final(self).wf(),
            added == !old(self).relation_set().contains((parent, child)),
            final(self).entity_set() == old(self).entity_set().insert(parent).insert(child),
            final(self).relation_set() == old(self).relation_set().insert((parent, child)),
            final(self).node_slots() <= old(self).node_slots() + old(self).missing(parent, child),
            final(self).edge_slots() <= old(self).edge_slots() + 1,
    {
        let parent_id = self.index_or_add(parent);
        let child_id = self.index_or_add(child);
        if graph_contains_edge(&self.graph, parent_id, child_id) {
            false
        } else {
            let ghost mid = *self;
            let e = graph_add_edge(&mut self.graph, parent_id, child_id);
            proof {
                lemma_packed_injective();
                let edges = graph_edges(self.graph);
                let e2i = self.entities_to_indices@;
                assert forall|e1: nat, e2: nat|
                    #![trigger edges.contains_key(e1), edges.contains_key(e2)]
                    edges.contains_key(e1) && edges.contains_key(e2) && e1 != e2 implies edges[e1]
                        != edges[e2] by {
                    if e1 == e as nat {
                        assert(graph_edges(mid.graph).contains_key(e2));
                    } else if e2 == e as nat {
                        assert(graph_edges(mid.graph).contains_key(e1));
                    } else {
                        assert(graph_edges(mid.graph).contains_key(e1));
                        assert(graph_edges(mid.graph).contains_key(e2));
                    }
                }
                assert(self.wf());
                assert forall|pc: (Entity, Entity)|
                    self.relation_set().contains(pc) <==> mid.relation_set().insert(
                        (parent, child),
                    ).contains(pc) by {
                    if e2i.contains_key(pc.0.packed()) && e2i.contains_key(pc.1.packed()) {
                        let a = self.node_of(pc.0.packed());
                        let b = self.node_of(pc.1.packed());
                        if pc == (parent, child) {
                            assert(edges.contains_key(e as nat));
                        } else if has_edge(edges, a, b) {
                            let x = choose|x: nat| #[trigger]
                                edges.contains_key(x) && edges[x] == (a, b);
                            if x == e as nat {
                                assert(self.indices_to_entities@[a as u32] == pc.0.packed());
                                assert(self.indices_to_entities@[b as u32] == pc.1.packed());
                                assert(pc.0 == parent && pc.1 == child);
                            } else {
                                assert(graph_edges(mid.graph).contains_key(x));
                            }
                        } else if mid.relation_set().contains(pc) {
                            let x = choose|x: nat| #[trigger]
                                graph_edges(mid.graph).contains_key(x) && graph_edges(
                                    mid.graph,
                                )[x] == (a, b);
                            assert(edges.contains_key(x));
                        }
                    }
                }
                assert(self.relation_set() =~= mid.relation_set().insert((parent, child)));
            }
            true
        }
    }

    /// The entities held in the nodes `ids`, in that order.
    fn entities_at(&self, ids: &Vec<u32>) -> (r: Vec<Entity>)
        requires
            self.wf(),
            forall|i: int| 0 <= i < ids.len() ==> graph_nodes(self.graph).contains_key(#[trigger] ids[i] as nat),
        ensures
            r.len() == ids.len(),
            forall|i: int|
                #![trigger r[i]]
                0 <= i < r.len() ==> {
                    &&& self.entities_to_indices@.contains_key(r[i].packed())
                    &&& self.node_of(r[i].packed()) == ids[i] as nat
                },
    {
        let mut r: Vec<Entity> = Vec::new();
        let mut i: usize = 0;
        while i < ids.len()
            invariant
                self.wf(),
                0 <= i <= ids.len(),
                r.len() == i,
                forall|j: int| 0 <= j < ids.len() ==> graph_nodes(self.graph).contains_key(#[trigger] ids[j] as nat),
                forall|j: int|
                    #![trigger r[j]]
                    0 <= j < i ==> {
                        &&& self.entities_to_indices@.contains_key(r[j].packed())
                        &&& self.node_of(r[j].packed()) == ids[j] as nat
                    },
            decreases ids.len() - i,
        {
            let n = ids[i];
            assert(graph_nodes(self.graph).contains_key(n as nat));
            let k = *self.indices_to_entities.get(&n).unwrap();
            let e = Entity::from_u64(k);
            assert(e.packed() == k);
            r.push(e);
            i = i + 1;
        }
        r
    }

    /// The children of `parent`, each once; none when the graph does not hold `parent`.
    pub fn get_children(&self, parent: Entity) -> (children: Vec<Entity>)
        requires
            self.wf(),
        ensures
            children@.no_duplicates(),
            forall|i: int|
                0 <= i < children.len() ==> self.relation_set().contains(
                    (parent, #[trigger] children[i]),
                ),
            forall|c: Entity| #[trigger]
                self.relation_set().contains((parent, c)) ==> children@.contains(c),
    {
        self.neighbors_of(parent, true)
    }

    /// The parents of `child` (`outgoing` false) or the children of it, each once.
    fn neighbors_of(&self, entity: Entity, outgoing: bool) -> (r: Vec<Entity>)
        requires
            self.wf(),
        ensures
            r@.no_duplicates(),
            forall|i: int|
                0 <= i < r.len() ==> (if outgoing {
                    self.relation_set().contains((entity, #[trigger] r[i]))
                } else {
                    self.relation_set().contains((r[i], entity))
                }),
            forall|c: Entity|
                (if outgoing {
                    self.relation_set().contains((entity, c))
                } else {
                    self.relation_set().contains((c, entity))
                }) ==> #[trigger] r@.contains(c),
    {
        let key = entity.as_u64();
        assert(key == entity.packed());
        match self.entities_to_indices.get(&key) {
            Some(id) => {
                let id = *id;
                let ns = graph_neighbors(&self.graph, id, outgoing);
                proof {
                    let edges = graph_edges(self.graph);
                    assert forall|i: int| 0 <= i < ns.len() implies graph_nodes(
                        self.graph,
                    ).contains_key(#[trigger] ns[i] as nat) by {
                        assert(has_edge_dir(edges, id as nat, ns[i] as nat, outgoing));
                        let x = if outgoing {
                            choose|x: nat| #[trigger]
                                edges.contains_key(x) && edges[x] == (id as nat, ns[i] as nat)
                        } else {
                            choose|x: nat| #[trigger]
                                edges.contains_key(x) && edges[x] == (ns[i] as nat, id as nat)
                        };
                        assert(edges.contains_key(x));
                    }
                }
                let r = self.entities_at(&ns);
                proof {
                    lemma_packed_injective();
                    let edges = graph_edges(self.graph);
                    let e2i = self.entities_to_indices@;
                    let i2e = self.indices_to_entities@;
                    assert forall|i: int, j: int| 0 <= i < j < r.len() implies r[i] != r[j] by {
                        if r[i] == r[j] {
                            assert(ns[i] == ns[j]);
                            assert(parallel_edges(edges, id as nat, ns[i] as nat, outgoing));
                            let pair = if outgoing {
                                (id as nat, ns[i] as nat)
                            } else {
                                (ns[i] as nat, id as nat)
                            };
                            let (e1, e2) = choose|e1: nat, e2: nat|
                                #![trigger edges.contains_key(e1), edges.contains_key(e2)]
                                e1 != e2 && edges.contains_key(e1) && edges.contains_key(e2)
                                    && edges[e1] == pair && edges[e2] == pair;
                            assert(edges[e1] != edges[e2]);
                        }
                    }
                    assert forall|c: Entity|
                        (if outgoing {
                            self.relation_set().contains((entity, c))
                        } else {
                            self.relation_set().contains((c, entity))
                        }) implies #[trigger] r@.contains(c) by {
                        let n = self.node_of(c.packed());
                        assert(has_edge_dir(edges, id as nat, n, outgoing));
                        let i = choose|i: int| #![trigger ns[i]] 0 <= i < ns.len() && ns[i] as nat == n;
                        assert(i2e[n as u32] == c.packed());
                        assert(r[i] == c);
                    }
                }
                r
            },
            None => {
                proof {
                    assert forall|c: Entity|
                        !(if outgoing {
                            self.relation_set().contains((entity, c))
                        } else {
                            self.relation_set().contains((c, entity))
                        }) by {}
                }
                Vec::new()
            },
        }
    }

    /// The first parent of `child` in the graph's incoming list of it; `None` when it has none.
    pub fn get_parent(&self, child: Entity) -> (parent: Option<Entity>)
        requires
            self.wf(),
        ensures
            parent is None <==> forall|p: Entity| !self.relation_set().contains((p, child)),
            parent matches Some(p) ==> self.relation_set().contains((p, child)),
    {
        let parents = self.neighbors_of(child, false);
        if parents.len() == 0 {
            proof {
                assert forall|p: Entity| !self.relation_set().contains((p, child)) by {
                    if self.relation_set().contains((p, child)) {
                        assert(parents@.contains(p));
                    }
                }
            }
            None
        } else {
            Some(parents[0])
        }
    }

    /// Removes every edge from `parent` to `child`; the entities stay.
    pub fn remove_relation(&mut self, parent: Entity, child: Entity)
        requires
            old(self).wf(),
        ensures
            final(self).wf(),
            final(self).entity_set() == old(self).entity_set(),
            final(self).relation_set() == old(self).relation_set().remove((parent, child)),
            final(self).node_slots() == old(self).node_slots(),
            final(self).edge_slots() == old(self).edge_slots(),
    {
        let pk = parent.as_u64();
        let ck = child.as_u64();
        assert(pk == parent.packed() && ck == child.packed());
        if let Some(pid) = self.entities_to_indices.get(&pk) {
            let pid = *pid;
            if let Some(cid) = self.entities_to_indices.get(&ck) {
                let cid = *cid;
                let ghost g0 = self.graph;
                let edge_ids = graph_edges_connecting(&self.graph, pid, cid);
                assert(all_join(graph_edges(g0), edge_ids@, pid as nat, cid as nat));
                let mut i: usize = 0;
                while i < edge_ids.len()
                    invariant
                        0 <= i <= edge_ids.len(),
                        self.entities_to_indices == old(self).entities_to_indices,
                        self.indices_to_entities == old(self).indices_to_entities,
                        g0 == old(self).graph,
                        graph_nodes(self.graph) == graph_nodes(g0),
                        graph_node_slots(self.graph) == graph_node_slots(g0),
                        graph_edge_slots(self.graph) == graph_edge_slots(g0),
                        forall|e: nat| #[trigger]
                            graph_edges(self.graph).contains_key(e) ==> graph_edges(g0).contains_key(e)
                                && graph_edges(self.graph)[e] == graph_edges(g0)[e],
                        forall|e: nat| #[trigger]
                            graph_edges(g0).contains_key(e) && graph_edges(g0)[e] != (
                                pid as nat,
                                cid as nat,
                            ) ==> graph_edges(self.graph).contains_key(e),
                        forall|j: int|
                            0 <= j < i ==> !graph_edges(self.graph).contains_key(
                                #[trigger] edge_ids[j] as nat,
                            ),
                        all_join(graph_edges(g0), edge_ids@, pid as nat, cid as nat),
                        forall|e: nat|
                            #[trigger] graph_edges(g0).contains_key(e) && graph_edges(g0)[e] == (
                                pid as nat,
                                cid as nat,
                            ) ==> exists|j: int| 0 <= j < edge_ids.len() && edge_ids[j] == e,
                    decreases edge_ids.len() - i,
                {
                    graph_remove_edge(&mut self.graph, edge_ids[i]);
                    i = i + 1;
                }
                proof {
                    lemma_packed_injective();
                    let edges = graph_edges(self.graph);
                    let edges0 = graph_edges(g0);
                    assert forall|e: nat| #[trigger] edges.contains_key(e) implies edges[e] != (
                        pid as nat,
                        cid as nat,
                    ) by {
                        if edges[e] == (pid as nat, cid as nat) {
                            let j = choose|j: int| 0 <= j < edge_ids.len() && edge_ids[j] == e;
                            assert(!edges.contains_key(edge_ids[j] as nat));
                        }
                    }
                    assert(edges.dom().subset_of(edges0.dom()));
                    vstd::set_lib::lemma_set_subset_finite(edges0.dom(), edges.dom());
                    assert(graph_inv(self.graph));
                    assert forall|e1: nat, e2: nat|
                        #![trigger edges.contains_key(e1), edges.contains_key(e2)]
                        edges.contains_key(e1) && edges.contains_key(e2) && e1 != e2 implies edges[e1]
                            != edges[e2] by {
                        assert(edges0.contains_key(e1) && edges0.contains_key(e2));
                    }
                    assert(self.wf());
                    assert(self.entity_set() =~= old(self).entity_set());
                    assert forall|pc: (Entity, Entity)|
                        self.relation_set().contains(pc) <==> old(self).relation_set().remove(
                            (parent, child),
                        ).contains(pc) by {
                        let e2i = self.entities_to_indices@;
                        if e2i.contains_key(pc.0.packed()) && e2i.contains_key(pc.1.packed()) {
                            let a = self.node_of(pc.0.packed());
                            let b = self.node_of(pc.1.packed());
                            if has_edge(edges, a, b) {
                                let x = choose|x: nat| #[trigger]
                                    edges.contains_key(x) && edges[x] == (a, b);
                                assert(edges0.contains_key(x));
                                if pc == (parent, child) {
                                    assert(edges[x] == (pid as nat, cid as nat));
                                }
                            }
                            if old(self).relation_set().contains(pc) && pc != (parent, child) {
                                let x = choose|x: nat| #[trigger]
                                    edges0.contains_key(x) && edges0[x] == (a, b);
                                if edges0[x] == (pid as nat, cid as nat) {
                                    assert(self.indices_to_entities@[pid] == parent.packed());
                                    assert(self.indices_to_entities@[a as u32] == pc.0.packed());
                                    assert(self.indices_to_entities@[b as u32] == pc.1.packed());
                                    assert(false);
                                }
                                assert(edges.contains_key(x));
                            }
                        }
                    }
                    assert(self.relation_set() =~= old(self).relation_set().remove(
                        (parent, child),
                    ));
                }
                return;
            }
        }
        proof {
            assert(!old(self).relation_set().contains((parent, child)));
            assert(old(self).relation_set().remove((parent, child)) =~= old(self).relation_set());
        }
    }

    /// Removes the entity from the graph, with every relation it takes part in.
    pub fn remove_entity(&mut self, entity: Entity)
        requires
            old(self).wf(),
        ensures
            final(self).wf(),
            final(self).entity_set() == old(self).entity_set().remove(entity),
            final(self).relation_set() == old(self).relation_set().filter(
                |pc: (Entity, Entity)| pc.0 != entity && pc.1 != entity,
            ),
            final(self).node_slots() == old(self).node_slots(),
            final(self).edge_slots() == old(self).edge_slots(),
    {
        let key = entity.as_u64();
        assert(key == entity.packed());
        if let Some(eid) = self.entities_to_indices.remove(&key) {
            let ghost g0 = self.graph;
            let edge_ids = graph_edges_from(&self.graph, eid);
            assert forall|j: int| 0 <= j < edge_ids.len() implies {
                &&& #[trigger] graph_edges(g0).contains_key(edge_ids[j] as nat)
                &&& graph_edges(g0)[edge_ids[j] as nat].0 == eid
            } by {
                assert(graph_edges(self.graph).contains_key(edge_ids[j] as nat));
            }
            let mut i: usize = 0;
            while i < edge_ids.len()
                invariant
                    0 <= i <= edge_ids.len(),
                    g0 == old(self).graph,
                    self.indices_to_entities == old(self).indices_to_entities,
                    self.entities_to_indices@ == old(self).entities_to_indices@.remove(key),
                    graph_nodes(self.graph) == graph_nodes(g0),
                    graph_node_slots(self.graph) == graph_node_slots(g0),
                    graph_edge_slots(self.graph) == graph_edge_slots(g0),
                    forall|e: nat| #[trigger]
                        graph_edges(self.graph).contains_key(e) ==> graph_edges(g0).contains_key(e)
                            && graph_edges(self.graph)[e] == graph_edges(g0)[e],
                    forall|e: nat| #[trigger]
                        graph_edges(g0).contains_key(e) && graph_edges(g0)[e].0 != eid
                            ==> graph_edges(self.graph).contains_key(e),
                    forall|j: int|
                        0 <= j < edge_ids.len() ==> {
                            &&& #[trigger] graph_edges(g0).contains_key(edge_ids[j] as nat)
                            &&& graph_edges(g0)[edge_ids[j] as nat].0 == eid
                        },
                decreases edge_ids.len() - i,
            {
                graph_remove_edge(&mut self.graph, edge_ids[i]);
                i = i + 1;
            }
            let ghost g1 = self.graph;
            graph_remove_node(&mut self.graph, eid);
            let ghost i2e_before = self.indices_to_entities@;
            self.indices_to_entities.remove(&eid);
            assert(self.indices_to_entities@ == i2e_before.remove(eid));
            proof {
                lemma_packed_injective();
                let edges = graph_edges(self.graph);
                let edges0 = graph_edges(g0);
                let nodes = graph_nodes(self.graph);
                let e2i = self.entities_to_indices@;
                let i2e = self.indices_to_entities@;
                assert forall|e: nat| #[trigger] edges.contains_key(e) implies edges0.contains_key(e)
                    && edges[e] == edges0[e] && edges[e].0 != eid as nat && edges[e].1 != eid as nat by {
                    assert(graph_edges(g1).contains_key(e));
                }
                assert forall|e: nat| #[trigger] edges0.contains_key(e) && edges0[e].0 != eid as nat
                    && edges0[e].1 != eid as nat implies edges.contains_key(e) by {
                    assert(graph_edges(g1).contains_key(e));
                }
                assert(edges.dom().subset_of(edges0.dom()));
                vstd::set_lib::lemma_set_subset_finite(edges0.dom(), edges.dom());
                assert(graph_nodes(g1) == graph_nodes(g0));
                assert(nodes == graph_nodes(g0).remove(eid as nat));
                assert(i2e == old(self).indices_to_entities@.remove(eid));
                assert(graph_inv(self.graph));
                assert forall|n: nat| #[trigger] nodes.contains_key(n) implies n < u32::MAX
                    && i2e.contains_key(n as u32) && nodes[n] == i2e[n as u32] by {
                    assert(graph_nodes(g0).contains_key(n));
                    assert(n != eid as nat);
                    assert(old(self).indices_to_entities@.contains_key(n as u32));
                }
                assert forall|n: u32| #[trigger] i2e.contains_key(n) implies nodes.contains_key(
                    n as nat,
                ) && e2i.contains_key(i2e[n]) && e2i[i2e[n]] == n by {
                    assert(old(self).indices_to_entities@.contains_key(n));
                }
                assert forall|k: u64| #[trigger] e2i.contains_key(k) implies i2e.contains_key(
                    e2i[k],
                ) && i2e[e2i[k]] == k by {
                    assert(old(self).entities_to_indices@.contains_key(k));
                }
                assert forall|e1: nat, e2: nat|
                    #![trigger edges.contains_key(e1), edges.contains_key(e2)]
                    edges.contains_key(e1) && edges.contains_key(e2) && e1 != e2 implies edges[e1]
                        != edges[e2] by {
                    assert(edges0.contains_key(e1) && edges0.contains_key(e2));
                }
                assert(self.wf());
                assert(self.entity_set() =~= old(self).entity_set().remove(entity));
                assert forall|pc: (Entity, Entity)|
                    self.relation_set().contains(pc) <==> old(self).relation_set().filter(
                        |pc: (Entity, Entity)| pc.0 != entity && pc.1 != entity,
                    ).contains(pc) by {
                    if e2i.contains_key(pc.0.packed()) && e2i.contains_key(pc.1.packed()) {
                        let a = self.node_of(pc.0.packed());
                        let b = self.node_of(pc.1.packed());
                        assert(old(self).entities_to_indices@.contains_key(pc.0.packed()));
                        assert(old(self).entities_to_indices@.contains_key(pc.1.packed()));
                        assert(a != eid as nat);
                        assert(b != eid as nat);
                        if has_edge(edges, a, b) {
                            let x = choose|x: nat| #[trigger] edges.contains_key(x) && edges[x] == (a, b);
                            assert(edges0.contains_key(x));
                        }
                        if has_edge(edges0, a, b) {
                            let x = choose|x: nat| #[trigger] edges0.contains_key(x) && edges0[x] == (a, b);
                            assert(edges.contains_key(x));
                        }
                    }
                }
                assert(self.relation_set() =~= old(self).relation_set().filter(
                    |pc: (Entity, Entity)| pc.0 != entity && pc.1 != entity,
                ));
            }
        } else {
            proof {
                assert(old(self).entity_set().remove(entity) =~= old(self).entity_set());
                assert(old(self).relation_set().filter(
                    |pc: (Entity, Entity)| pc.0 != entity && pc.1 != entity,
                ) =~= old(self).relation_set());
            }
        }
    }

    /// The entities that have no parent, in the order of their nodes.
    #[verifier::spinoff_prover]
    #[verifier::rlimit(30)]
    pub fn roots(&self) -> (roots: Vec<Entity>)
        requires
            self.wf(),
        ensures
            roots@.no_duplicates(),
            forall|e: Entity|
                #[trigger] roots@.contains(e) <==> self.entity_set().contains(e) && forall|p: Entity|
                    !self.relation_set().contains((p, e)),
    {
        let ids = graph_node_indices(&self.graph);
        let mut root_ids: Vec<u32> = Vec::new();
        let mut i: usize = 0;
        while i < ids.len()
            invariant
                0 <= i <= ids.len(),
                forall|a: int, b: int| 0 <= a < b < ids.len() ==> ids[a] < ids[b],
                forall|j: int| 0 <= j < ids.len() ==> graph_nodes(self.graph).contains_key(#[trigger] ids[j] as nat),
                forall|a: int, b: int| 0 <= a < b < root_ids.len() ==> root_ids[a] < root_ids[b],
                forall|j: int|
                    0 <= j < root_ids.len() ==> exists|a: int| 0 <= a < i && ids[a] == #[trigger] root_ids[j],
                forall|j: int|
                    0 <= j < root_ids.len() ==> graph_nodes(self.graph).contains_key(#[trigger] root_ids[j] as nat)
                        && no_incoming(graph_edges(self.graph), root_ids[j] as nat),
                forall|a: int|
                    0 <= a < i && (no_incoming(graph_edges(self.graph), #[trigger] ids[a] as nat))
                        ==> exists|j: int| 0 <= j < root_ids.len() && root_ids[j] == ids[a],
            decreases ids.len() - i,
        {
            let parents = graph_neighbors(&self.graph, ids[i], false);
            let ghost prev = root_ids@;
            if parents.len() == 0 {
                proof {
                    assert forall|x: nat| !has_edge(graph_edges(self.graph), x, ids[i as int] as nat) by {
                        if has_edge(graph_edges(self.graph), x, ids[i as int] as nat) {
                            assert(has_edge_dir(graph_edges(self.graph), ids[i as int] as nat, x, false));
                        }
                    }
                }
                root_ids.push(ids[i]);
                assert(root_ids[root_ids.len() - 1] == ids[i as int]);
            } else {
                proof {
                    assert(has_edge_dir(graph_edges(self.graph), ids[i as int] as nat, parents[0] as nat, false));
                    assert(!no_incoming(graph_edges(self.graph), ids[i as int] as nat));
                }
            }
            proof {
                assert forall|a: int|
                    0 <= a < i + 1 && no_incoming(graph_edges(self.graph), #[trigger] ids[a] as nat)
                        implies exists|j: int| 0 <= j < root_ids.len() && root_ids[j] == ids[a] by {
                    if a < i {
                        let j = choose|j: int| 0 <= j < prev.len() && prev[j] == ids[a];
                        assert(root_ids[j] == ids[a]);
                    }
                }
            }
            i = i + 1;
        }
        let roots = self.entities_at(&root_ids);
        proof {
            lemma_packed_injective();
            let e2i = self.entities_to_indices@;
            let i2e = self.indices_to_entities@;
            let edges = graph_edges(self.graph);
            assert forall|a: int, b: int| 0 <= a < b < roots.len() implies roots[a] != roots[b] by {
                assert(root_ids[a] < root_ids[b]);
            }
            assert forall|e: Entity|
                #[trigger] roots@.contains(e) <==> self.entity_set().contains(e) && forall|p: Entity|
                    !self.relation_set().contains((p, e)) by {
                if roots@.contains(e) {
                    let j = choose|j: int| 0 <= j < roots.len() && roots[j] == e;
                    assert(roots[j] == e);
                    assert forall|p: Entity| !self.relation_set().contains((p, e)) by {
                        if self.relation_set().contains((p, e)) {
                            assert(has_edge(edges, self.node_of(p.packed()), root_ids[j] as nat));
                        }
                    }
                }
                if self.entity_set().contains(e) && forall|p: Entity| !self.relation_set().contains((p, e)) {
                    let n = self.node_of(e.packed());
                    assert(graph_nodes(self.graph).contains_key(n));
                    let a = choose|a: int| 0 <= a < ids.len() && ids[a] == n;
                    assert forall|x: nat| !has_edge(edges, x, ids[a] as nat) by {
                        if has_edge(edges, x, ids[a] as nat) {
                            let y = choose|y: nat| #[trigger] edges.contains_key(y) && edges[y] == (x, ids[a] as nat);
                            assert(edges.contains_key(y));
                            assert(graph_nodes(self.graph).contains_key(x));
                            let k = i2e[x as u32];
                            lemma_entity_of_packed(k);
                            let p = entity_of_packed(k);
                            assert(p.packed() == k);
                            assert(self.relation_set().contains((p, e)));
                        }
                    }
                    let j = choose|j: int| 0 <= j < root_ids.len() && root_ids[j] == ids[a];
                    assert(roots[j] == e);
                }
            }
        }
        roots
    }

    /// The entities reached from `start` by following relations forward (`outgoing`) or
    /// backward, depth first; an entity is listed once for each path that reaches it.
    fn walk(&self, start: Entity, outgoing: bool) -> (found: Vec<Entity>)
        requires
            self.wf(),
            acyclic_from(oriented(self.relation_set(), outgoing), start),
        ensures
            forall|i: int|
                0 <= i < found.len() ==> descends(
                    oriented(self.relation_set(), outgoing),
                    start,
                    #[trigger] found[i],
                ),
            forall|d: Entity|
                descends(oriented(self.relation_set(), outgoing), start, d)
                    ==> #[trigger] found@.contains(d),
    {
        let ghost rel = oriented(self.relation_set(), outgoing);
        let ghost rank = choose|rank: spec_fn(Entity) -> nat| #[trigger] ranked_from(rel, start, rank);
        let key = start.as_u64();
        assert(key == start.packed());
        if !self.entities_to_indices.contains_key(&key) {
            let none: Vec<Entity> = Vec::new();
            proof {
                assert forall|d: Entity| descends(rel, start, d) implies #[trigger] none@.contains(d) by {
                    lemma_descends_split(rel, start, d);
                    if rel.contains((start, d)) {
                        assert(self.relation_set().contains((start, d)) || self.relation_set().contains((d, start)));
                    } else {
                        let c = choose|c: Entity| #[trigger] rel.contains((start, c)) && descends(rel, c, d);
                        assert(self.relation_set().contains((start, c)) || self.relation_set().contains((c, start)));
                    }
                }
            }
            return none;
        }
        let mut found: Vec<Entity> = Vec::new();
        let mut stack: Vec<Entity> = Vec::new();
        stack.push(start);
        proof {
            assert forall|d: Entity| descends(rel, start, d) implies #[trigger] found@.contains(d)
                || exists|i: int| 0 <= i < stack.len() && descends(rel, #[trigger] stack[i], d) by {
                assert(stack[0] == start);
            }
        }
        while stack.len() > 0
            invariant
                self.wf(),
                rel == oriented(self.relation_set(), outgoing),
                ranked_from(rel, start, rank),
                forall|i: int| 0 <= i < found.len() ==> descends(rel, start, #[trigger] found[i]),
                forall|i: int|
                    0 <= i < stack.len() ==> #[trigger] stack[i] == start || descends(
                        rel,
                        start,
                        stack[i],
                    ),
                forall|d: Entity|
                    descends(rel, start, d) ==> #[trigger] found@.contains(d) || exists|i: int|
                        0 <= i < stack.len() && descends(rel, #[trigger] stack[i], d),
            decreases stack_weight(stack@, rank),
        {
            let ghost before = stack@;
            let x = stack.pop().unwrap();
            let ghost base = stack@;
            let ghost found0 = found@;
            let ns = self.neighbors_of(x, outgoing);
            proof {
                assert(before == base.push(x));
                assert(before[before.len() - 1] == x);
                assert(x == start || descends(rel, start, x));
                assert forall|j: int| 0 <= j < ns.len() implies rank(#[trigger] ns[j]) < rank(x) by {
                    assert(rel.contains((x, ns[j])));
                }
                lemma_stack_weight_below(ns@, rank, rank(x));
                lemma_stack_weight_append(base, ns@, rank);
                assert(before.drop_last() =~= base);
                assert(stack_weight(before, rank) == stack_weight(base, rank) + pow(walk_base(), rank(x)) as nat);
            }
            let mut j: usize = 0;
            while j < ns.len()
                invariant
                    0 <= j <= ns.len(),
                    stack@ == base + ns@.subrange(0, j as int),
                    found@ == found0 + ns@.subrange(0, j as int),
                decreases ns.len() - j,
            {
                stack.push(ns[j]);
                found.push(ns[j]);
                proof {
                    assert(ns@.subrange(0, j + 1) =~= ns@.subrange(0, j as int).push(ns[j as int]));
                }
                j = j + 1;
            }
            proof {
                assert(ns@.subrange(0, ns.len() as int) =~= ns@);
                assert(stack@ == base + ns@);
                assert(found@ == found0 + ns@);
                assert forall|k: int| 0 <= k < ns.len() implies descends(rel, start, #[trigger] ns[k]) by {
                    assert(rel.contains((x, ns[k])));
                    if x == start {
                        lemma_descends_step(rel, start, ns[k]);
                    } else {
                        lemma_descends_extend(rel, start, x, ns[k]);
                    }
                }
                assert forall|i: int| 0 <= i < found.len() implies descends(rel, start, #[trigger] found[i]) by {
                    if i >= found0.len() {
                        assert(found[i] == ns[i - found0.len()]);
                    } else {
                        assert(found[i] == found0[i]);
                    }
                }
                assert forall|i: int| 0 <= i < stack.len() implies #[trigger] stack[i] == start
                    || descends(rel, start, stack[i]) by {
                    if i >= base.len() {
                        assert(stack[i] == ns[i - base.len()]);
                    } else {
                        assert(stack[i] == before[i]);
                    }
                }
                assert forall|d: Entity| descends(rel, start, d) implies #[trigger] found@.contains(d)
                    || exists|i: int| 0 <= i < stack.len() && descends(rel, #[trigger] stack[i], d) by {
                    if found0.contains(d) {
                        let i = choose|i: int| 0 <= i < found0.len() && found0[i] == d;
                        assert(found[i] == d);
                    } else {
                        let i = choose|i: int| 0 <= i < before.len() && descends(rel, #[trigger] before[i], d);
                        if i < base.len() {
                            assert(stack[i] == before[i]);
                        } else {
                            assert(before[i] == x);
                            lemma_descends_split(rel, x, d);
                            if rel.contains((x, d)) {
                                assert(ns@.contains(d));
                                let k = choose|k: int| 0 <= k < ns@.len() && ns@[k] == d;
                                assert((found0 + ns@)[found0.len() + k] == ns@[k]);
                                assert(found@[found0.len() + k] == d);
                            } else {
                                let c = choose|c: Entity| #[trigger] rel.contains((x, c)) && descends(rel, c, d);
                                assert(ns@.contains(c));
                                let k = choose|k: int| 0 <= k < ns@.len() && ns@[k] == c;
                                assert((base + ns@)[base.len() + k] == ns@[k]);
                                assert(stack@[base.len() + k] == c);
                            }
                        }
                    }
                }
            }
        }
        proof {
            assert forall|d: Entity| descends(rel, start, d) implies #[trigger] found@.contains(d) by {
                if !found@.contains(d) {
                    let i = choose|i: int| 0 <= i < stack.len() && descends(rel, #[trigger] stack[i], d);
                }
            }
        }
        found
    }

    /// Every entity below `parent`: its children, their children, and so on. An entity reached
    /// along several paths is listed once for each. The walk does not end when a cycle can be
    /// reached from `parent`; `requires` leaves that out.
    pub fn get_all_children(&self, parent: Entity) -> (children: Vec<Entity>)
        requires
            self.wf(),
            acyclic_from(self.relation_set(), parent),
        ensures
            forall|i: int|
                0 <= i < children.len() ==> descends(
                    self.relation_set(),
                    parent,
                    #[trigger] children[i],
                ),
            forall|d: Entity|
                descends(self.relation_set(), parent, d) ==> #[trigger] children@.contains(d),
    {
        self.walk(parent, true)
    }

    /// Every entity above `child`: its parents, their parents, and so on. An entity reached
    /// along several paths is listed once for each. The walk does not end when a cycle can be
    /// reached from `child` going up; `requires` leaves that out.
    pub fn get_all_parents(&self, child: Entity) -> (parents: Vec<Entity>)
        requires
            self.wf(),
            acyclic_from(flipped(self.relation_set()), child),
        ensures
            forall|i: int|
                0 <= i < parents.len() ==> descends(
                    self.relation_set(),
                    #[trigger] parents[i],
                    child,
                ),
            forall|a: Entity|
                descends(self.relation_set(), a, child) ==> #[trigger] parents@.contains(a),
    {
        let parents = self.walk(child, false);
        proof {
            let rel = self.relation_set();
            assert forall|i: int| 0 <= i < parents.len() implies descends(
                rel,
                #[trigger] parents[i],
                child,
            ) by {
                lemma_descends_flipped(rel, child, parents[i]);
            }
            assert forall|a: Entity| descends(rel, a, child) implies #[trigger] parents@.contains(
                a,
            ) by {
                lemma_descends_flipped(rel, child, a);
            }
        }
        parents
    }

    /// Every entity related to `entity`, walking relations both ways. The walk comes back to
    /// `entity` through any relation it has and never ends; `requires` leaves such an entity
    /// out, and the walk of an entity without relations finds nothing.
    pub fn get_all_relations(&self, entity: Entity) -> (relations: Vec<Entity>)
        requires
            self.wf(),
            forall|x: Entity|
                !self.relation_set().contains((entity, x)) && !self.relation_set().contains(
                    (x, entity),
                ),
        ensures
            relations.len() == 0,
    {
        let key = entity.as_u64();
        if !self.entities_to_indices.contains_key(&key) {
            return Vec::new();
        }
        let mut relations: Vec<Entity> = Vec::new();
        let mut stack: Vec<Entity> = Vec::new();
        stack.push(entity);
        while stack.len() > 0
            invariant
                self.wf(),
                relations.len() == 0,
                stack.len() <= 1,
                stack.len() == 1 ==> stack[0] == entity,
                forall|x: Entity|
                    !self.relation_set().contains((entity, x)) && !self.relation_set().contains(
                        (x, entity),
                    ),
            decreases stack.len(),
        {
            let x = stack.pop().unwrap();
            let below = self.neighbors_of(x, true);
            let above = self.neighbors_of(x, false);
            proof {
                if below.len() > 0 {
                    assert(self.relation_set().contains((entity, below[0])));
                }
                if above.len() > 0 {
                    assert(self.relation_set().contains((above[0], entity)));
                }
            }
            let mut j: usize = 0;
            while j < below.len()
                invariant
                    below.len() == 0,
                    stack.len() == 0,
                    relations.len() == 0,
                decreases below.len() - j,
            {
                stack.push(below[j]);
                relations.push(below[j]);
                j = j + 1;
            }
            let mut j: usize = 0;
            while j < above.len()
                invariant
                    above.len() == 0,
                    stack.len() == 0,
                    relations.len() == 0,
                decreases above.len() - j,
            {
                stack.push(above[j]);
                relations.push(above[j]);
                j = j + 1;
            }
        }
        relations
    }

    /// The entities the graph holds, each once, in the order of their nodes.
    pub fn entities(&self) -> (r: Vec<Entity>)
        requires
            self.wf(),
        ensures
            r@.no_duplicates(),
            forall|e: Entity| #[trigger] r@.contains(e) <==> self.entity_set().contains(e),
    {
        let ids = graph_node_indices(&self.graph);
        let r = self.entities_at(&ids);
        proof {
            lemma_packed_injective();
            assert forall|a: int, b: int| 0 <= a < b < r.len() implies r[a] != r[b] by {
                assert(ids[a] < ids[b]);
            }
            assert forall|e: Entity| #[trigger] r@.contains(e) <==> self.entity_set().contains(e) by {
                if self.entity_set().contains(e) {
                    let n = self.node_of(e.packed());
                    assert(graph_nodes(self.graph).contains_key(n));
                    let i = choose|i: int| 0 <= i < ids.len() && ids[i] == n;
                    assert(r[i] == e);
                }
            }
        }
        r
    }

    /// A copy of the graph, with the same entities, relations and slot counts.
    pub fn duplicate(&self) -> (r: Self)
        requires
            self.wf(),
        ensures
            r.wf(),
            r.entity_set() == self.entity_set(),
            r.relation_set() == self.relation_set(),
            r.node_slots() == self.node_slots(),
            r.edge_slots() == self.edge_slots(),
    {
        let r = EntityGraph {
            graph: graph_clone(&self.graph),
            indices_to_entities: self.indices_to_entities.clone(),
            entities_to_indices: self.entities_to_indices.clone(),
        };
        proof {
            assert(r.entity_set() =~= self.entity_set());
            assert(r.relation_set() =~= self.relation_set());
        }
        r
    }

    /// The graph's node index for `entity`, adding a node for it if it has none.
    fn index_or_add(&mut self, entity: Entity) -> (id: u32)
        requires
            old(self).wf(),
            !old(self).entity_set().contains(entity) ==> old(self).node_slots() < u32::MAX,
        ensures
            final(self).wf(),
            final(self).entity_set() == old(self).entity_set().insert(entity),
            final(self).relation_set() == old(self).relation_set(),
            final(self).entities_to_indices@.contains_key(entity.packed()),
            final(self).node_of(entity.packed()) == id as nat,
            forall|k: u64|
                #[trigger] old(self).entities_to_indices@.contains_key(k) ==> final(self).entities_to_indices@.contains_key(k) && final(self).node_of(k) == old(self).node_of(k),
            graph_edges(final(self).graph) == graph_edges(old(self).graph),
            old(self).entity_set().contains(entity) ==> final(self).node_slots() == old(self).node_slots(),
            final(self).node_slots() <= old(self).node_slots() + 1,
            final(self).edge_slots() == old(self).edge_slots(),
    {
        let key = entity.as_u64();
        assert(key == entity.packed());
        match self.entities_to_indices.get(&key) {
            Some(id) => {
                let id = *id;
                proof {
                    assert(self.entity_set() =~= old(self).entity_set().insert(entity));
                }
                id
            },
            None => {
                let ghost old_g = self.graph;
                let id = graph_add_node(&mut self.graph, key);
                self.entities_to_indices.insert(key, id);
                self.indices_to_entities.insert(id, key);
                proof {
                    lemma_packed_injective();
                    let nodes = graph_nodes(self.graph);
                    let edges = graph_edges(self.graph);
                    assert(graph_inv(self.graph));
                    assert forall|n: nat| #[trigger] nodes.contains_key(n) implies n < u32::MAX
                        && self.indices_to_entities@.contains_key(n as u32) && nodes[n]
                        == self.indices_to_entities@[n as u32] by {
                        if n != id as nat {
                            assert(graph_nodes(old_g).contains_key(n));
                        }
                    }
                    assert forall|n: u32| #[trigger]
                        self.indices_to_entities@.contains_key(n) implies nodes.contains_key(
                        n as nat,
                    ) && self.entities_to_indices@.contains_key(self.indices_to_entities@[n])
                        && self.entities_to_indices@[self.indices_to_entities@[n]] == n by {
                        if n != id {
                            assert(old(self).indices_to_entities@.contains_key(n));
                            assert(old(self).indices_to_entities@[n] != key);
                        }
                    }
                    assert forall|k: u64| #[trigger]
                        self.entities_to_indices@.contains_key(k) implies self.indices_to_entities@.contains_key(
                        self.entities_to_indices@[k],
                    ) && self.indices_to_entities@[self.entities_to_indices@[k]] == k by {
                        if k != key {
                            assert(old(self).entities_to_indices@.contains_key(k));
                            let n = old(self).entities_to_indices@[k];
                            assert(graph_nodes(old_g).contains_key(n as nat));
                            assert(n != id);
                        }
                    }
                    assert(self.entity_set() =~= old(self).entity_set().insert(entity));
                    assert forall|pc: (Entity, Entity)|
                        self.relation_set().contains(pc) <==> old(self).relation_set().contains(
                            pc,
                        ) by {
                        if pc.0.packed() == key || pc.1.packed() == key {
                            if has_edge(
                                edges,
                                self.node_of(pc.0.packed()),
                                self.node_of(pc.1.packed()),
                            ) {
                                let e = choose|e: nat| #[trigger]
                                    edges.contains_key(e) && edges[e] == (
                                        self.node_of(pc.0.packed()),
                                        self.node_of(pc.1.packed()),
                                    );
                                assert(graph_edges(old_g).contains_key(e));
                            }
                        }
                    }
                    assert(self.relation_set() =~= old(self).relation_set());
                }
                id
            },
        }
    }
}

impl Default for EntityGraph {
    /// An empty graph.
    fn default() -> (g: Self)
        ensures
            g.wf(),
            g.entity_set() == Set::<Entity>::empty(),
            g.relation_set() == Set::<(Entity, Entity)>::empty(),
            g.node_slots() == 0,
            g.edge_slots() == 0,
    {
        let g = EntityGraph {
            graph: graph_new(),
            indices_to_entities: HashMap::new(),
            entities_to_indices: HashMap::new(),
        };
        proof {
            assert(g.entity_set() =~= Set::<Entity>::empty());
            assert(g.relation_set() =~= Set::<(Entity, Entity)>::empty());
        }
        g
    }
}

} // verus!
