//! A scene: a directed graph of entities, each edge carrying a relationship value.
use vstd::prelude::*;

use crate::entity::{entity_of_packed, lemma_entity_of_packed, Entity};
use crate::entity_graph::lemma_packed_injective;
use crate::graph::{
    graph_add_edge, graph_add_node, graph_edge_slots, graph_edges, graph_edges_directed,
    graph_find_edge, graph_inv, graph_neighbors, graph_new, graph_node_indices, graph_node_slots,
    graph_node_weight, graph_nodes, graph_remove_edge, graph_remove_node, has_edge, has_edge_dir,
    edges_without, parallel_edges, RelationGraph,
};
use crate::storage::SparseSet;

verus! {

/// An entity placed in a scene, with its position in the scene's graph.
#[derive(Debug, Clone, Copy, PartialEq, Eq, Structural, PartialOrd, Ord, Hash)]
pub struct Node {
    pub entity: Entity,
    pub scene_index: u32,
}

/// Entities joined by relationships of type `R`: an edge from a node to another carries the
/// relationship between them.
pub struct Scene<R> {
    root_entity: Entity,
    root: u32,
    graph: RelationGraph,
    relationships: SparseSet<usize, R>,
}

impl<R> Scene<R> {
    /// The entity at each node.
    pub closed spec fn nodes(&self) -> Map<nat, Entity> {
        Map::new(
            |n: nat| graph_nodes(self.graph).contains_key(n),
            |n: nat| entity_of_packed(graph_nodes(self.graph)[n]),
        )
    }

    /// Each edge with the nodes it goes from and to.
    pub closed spec fn edges(&self) -> Map<nat, (nat, nat)> {
        graph_edges(self.graph)
    }

    /// The relationship that each edge carries.
    pub closed spec fn relationships(&self) -> Map<nat, R> {
        self.relationships@
    }

    pub closed spec fn spec_root(&self) -> nat {
        self.root as nat
    }

    pub closed spec fn spec_root_entity(&self) -> Entity {
        self.root_entity
    }

    pub closed spec fn node_slots(&self) -> nat {
        graph_node_slots(self.graph)
    }

    pub closed spec fn edge_slots(&self) -> nat {
        graph_edge_slots(self.graph)
    }

    /// `node` names a node of the scene, with the entity that node holds.
    pub open spec fn holds(&self, node: Node) -> bool {
        &&& self.nodes().dom().contains(node.scene_index as nat)
        &&& self.nodes()[node.scene_index as nat] == node.entity
    }

    /// Every edge carries a relationship, and node indices fit their type.
    pub closed spec fn wf(&self) -> bool {
        &&& graph_inv(self.graph)
        &&& self.relationships.wf()
        &&& forall|n: nat| #[trigger] graph_nodes(self.graph).contains_key(n) ==> n < u32::MAX
        &&& self.relationships@.dom() == graph_edges(self.graph).dom()
    }

    /// The edge indices listed in `ids`.
    spec fn listed(ids: Seq<u32>) -> Set<nat> {
        Set::new(|k: nat| exists|j: int| 0 <= j < ids.len() && ids[j] as nat == k)
    }

    /// Forgets the relationships kept under the edge indices in `ids`.
    fn drop_relationships(&mut self, ids: &Vec<u32>)
        requires
            old(self).relationships.wf(),
        ensures
            final(self).relationships.wf(),
            final(self).relationships@ == old(self).relationships@.remove_keys(Self::listed(ids@)),
            final(self).graph == old(self).graph,
            final(self).root == old(self).root,
            final(self).root_entity == old(self).root_entity,
    {
        let mut i: usize = 0;
        while i < ids.len()
            invariant
                0 <= i <= ids.len(),
                self.relationships.wf(),
                self.relationships@ == old(self).relationships@.remove_keys(Self::listed(ids@.take(i as int))),
                self.graph == old(self).graph,
                self.root == old(self).root,
                self.root_entity == old(self).root_entity,
            decreases ids.len() - i,
        {
            let ghost before = self.relationships@;
            self.relationships.remove(&(ids[i] as usize));
            proof {
                let done = ids@.take(i as int);
                let next = ids@.take(i + 1);
                assert(Self::listed(next) =~= Self::listed(done).insert(ids[i as int] as nat)) by {
                    assert forall|k: nat| Self::listed(next).contains(k) implies Self::listed(done).insert(ids[i as int] as nat).contains(k) by {
                        let j = choose|j: int| 0 <= j < next.len() && next[j] as nat == k;
                        if j < i {
                            assert(done[j] as nat == k);
                        }
                    }
                    assert forall|k: nat| Self::listed(done).insert(ids[i as int] as nat).contains(k) implies Self::listed(next).contains(k) by {
                        if k == ids[i as int] as nat {
                            assert(next[i as int] as nat == k);
                        } else {
                            let j = choose|j: int| 0 <= j < done.len() && done[j] as nat == k;
                            assert(next[j] as nat == k);
                        }
                    }
                }
                assert(self.relationships@ =~= old(self).relationships@.remove_keys(Self::listed(next)));
            }
            i = i + 1;
        }
        proof {
            assert(ids@.take(ids.len() as int) =~= ids@);
        }
    }

    /// The node value for a live node index.
    fn node_at(&self, index: u32) -> (node: Node)
        requires
            graph_nodes(self.graph).contains_key(index as nat),
        ensures
            node.scene_index == index,
            self.holds(node),
    {
        let packed = graph_node_weight(&self.graph, index);
        let entity = Entity::from_u64(packed);
        proof {
            lemma_packed_injective();
            lemma_entity_of_packed(packed);
            assert(entity_of_packed(packed).packed() == entity.packed());
        }
        Node { entity, scene_index: index }
    }

    /// A scene holding only its root, a node for `root_entity`.
    pub fn new(root_entity: Entity) -> (s: Self)
        ensures
            s.wf(),
            s.spec_root_entity() == root_entity,
            s.nodes() == Map::<nat, Entity>::empty().insert(s.spec_root(), root_entity),
            s.edges() == Map::<nat, (nat, nat)>::empty(),
    {
        let mut graph = graph_new();
        let root = graph_add_node(&mut graph, root_entity.as_u64());
        let s = Scene { root_entity, root, graph, relationships: SparseSet::new() };
        proof {
            lemma_packed_injective();
            lemma_entity_of_packed(root_entity.packed());
            assert(entity_of_packed(root_entity.packed()).packed() == root_entity.packed());
            assert(s.nodes() =~= Map::<nat, Entity>::empty().insert(s.spec_root(), root_entity));
            assert(s.edges() =~= Map::<nat, (nat, nat)>::empty());
        }
        s
    }

    /// The entity the scene was made with.
    pub fn root_entity(&self) -> (r: Entity)
        ensures
            r == self.spec_root_entity(),
    {
        self.root_entity
    }

    /// The root node. The graph panics when the root has been removed; `requires` leaves
    /// that out.
    pub fn root(&self) -> (node: Node)
        requires
            self.nodes().dom().contains(self.spec_root()),
        ensures
            node.scene_index == self.spec_root(),
            self.holds(node),
    {
        self.node_at(self.root)
    }

    /// Adds a node for the entity.
    pub fn add_node(&mut self, entity: Entity) -> (node: Node)
        requires
            old(self).wf(),
            old(self).node_slots() < u32::MAX,
        ensures
            final(self).wf(),
            node.entity == entity,
            !old(self).nodes().dom().contains(node.scene_index as nat),
            final(self).nodes() == old(self).nodes().insert(node.scene_index as nat, entity),
            final(self).edges() == old(self).edges(),
            final(self).relationships() == old(self).relationships(),
            final(self).spec_root() == old(self).spec_root(),
            final(self).node_slots() <= old(self).node_slots() + 1,
            final(self).edge_slots() == old(self).edge_slots(),
    {
        let ghost g0 = self.graph;
        let index = graph_add_node(&mut self.graph, entity.as_u64());
        let node = self.node_at(index);
        proof {
            lemma_packed_injective();
            lemma_entity_of_packed(entity.packed());
            assert(entity_of_packed(entity.packed()).packed() == entity.packed());
            assert forall|n: nat| #[trigger] graph_nodes(self.graph).contains_key(n) implies n < u32::MAX by {
                if n != index as nat {
                    assert(graph_nodes(g0).contains_key(n));
                }
            }
            assert(self.nodes() =~= old(self).nodes().insert(index as nat, entity));
        }
        node
    }

    /// Joins `from` to `to` by an edge carrying `weight`. Both must be nodes of the scene;
    /// the graph panics otherwise.
    pub fn add_relationship(&mut self, from: Node, to: Node, weight: R)
        requires
            old(self).wf(),
            old(self).nodes().dom().contains(from.scene_index as nat),
            old(self).nodes().dom().contains(to.scene_index as nat),
            old(self).edge_slots() < u32::MAX,
        ensures
            final(self).wf(),
            final(self).nodes() == old(self).nodes(),
            exists|e: nat| {
                &&& !old(self).edges().contains_key(e)
                &&& final(self).edges() == old(self).edges().insert(e, (from.scene_index as nat, to.scene_index as nat))
                &&& final(self).relationships() == old(self).relationships().insert(e, weight)
            },
            final(self).spec_root() == old(self).spec_root(),
            final(self).node_slots() == old(self).node_slots(),
            final(self).edge_slots() <= old(self).edge_slots() + 1,
    {
        let _from_node = self.node_at(from.scene_index);
        let _to_node = self.node_at(to.scene_index);
        let e = graph_add_edge(&mut self.graph, from.scene_index, to.scene_index);
        self.relationships.insert(e as usize, weight);
        proof {
            assert(self.nodes() =~= old(self).nodes());
            assert(!old(self).edges().contains_key(e as nat));
        }
    }

    /// Removes the node and every edge from or to it, with the relationships those edges carry.
    pub fn remove_node(&mut self, node: Node)
        requires
            old(self).wf(),
        ensures
            final(self).wf(),
            final(self).nodes() == old(self).nodes().remove(node.scene_index as nat),
            final(self).edges() == edges_without(old(self).edges(), node.scene_index as nat),
            final(self).relationships() == old(self).relationships().restrict(final(self).edges().dom()),
            final(self).spec_root() == old(self).spec_root(),
            final(self).node_slots() == old(self).node_slots(),
            final(self).edge_slots() == old(self).edge_slots(),
    {
        let outgoing = graph_edges_directed(&self.graph, node.scene_index, true);
        let incoming = graph_edges_directed(&self.graph, node.scene_index, false);
        self.drop_relationships(&outgoing);
        self.drop_relationships(&incoming);
        graph_remove_node(&mut self.graph, node.scene_index);
        proof {
            let a = node.scene_index as nat;
            let old_edges = graph_edges(old(self).graph);
            assert forall|k: nat| #[trigger] self.relationships@.contains_key(k) <==> graph_edges(self.graph).contains_key(k) by {
                if old_edges.contains_key(k) && (old_edges[k].0 == a || old_edges[k].1 == a) {
                    if old_edges[k].0 == a {
                        assert(Self::listed(outgoing@).contains(k));
                    } else {
                        assert(Self::listed(incoming@).contains(k));
                    }
                }
                if Self::listed(outgoing@).contains(k) {
                    let j = choose|j: int| 0 <= j < outgoing.len() && outgoing[j] as nat == k;
                    assert(old_edges.contains_key(outgoing[j] as nat));
                }
                if Self::listed(incoming@).contains(k) {
                    let j = choose|j: int| 0 <= j < incoming.len() && incoming[j] as nat == k;
                    assert(old_edges.contains_key(incoming[j] as nat));
                }
            }
            assert(self.relationships@.dom() =~= graph_edges(self.graph).dom());
            assert(self.relationships() =~= old(self).relationships().restrict(self.edges().dom()));
            assert(self.nodes() =~= old(self).nodes().remove(node.scene_index as nat));
            assert(graph_edges(self.graph).dom().subset_of(graph_edges(old(self).graph).dom()));
        }
    }

    /// Removes an edge from `from` to `to`, if there is one, and returns its relationship.
    pub fn remove_relationship(&mut self, from: Node, to: Node) -> (r: Option<R>)
        requires
            old(self).wf(),
        ensures
            final(self).wf(),
            r is None <==> !has_edge(old(self).edges(), from.scene_index as nat, to.scene_index as nat),
            r is None ==> final(self).edges() == old(self).edges(),
            r is None ==> final(self).relationships() == old(self).relationships(),
            r matches Some(w) ==> exists|e: nat| {
                &&& #[trigger] old(self).edges().contains_key(e)
                &&& old(self).edges()[e] == (from.scene_index as nat, to.scene_index as nat)
                &&& old(self).relationships()[e] == w
                &&& final(self).edges() == old(self).edges().remove(e)
                &&& final(self).relationships() == old(self).relationships().remove(e)
            },
            final(self).node_slots() == old(self).node_slots(),
            final(self).edge_slots() == old(self).edge_slots(),
            final(self).nodes() == old(self).nodes(),
            final(self).spec_root() == old(self).spec_root(),
    {
        match graph_find_edge(&self.graph, from.scene_index, to.scene_index) {
            Some(edge) => {
                graph_remove_edge(&mut self.graph, edge);
                let weight = self.relationships.remove(&(edge as usize));
                proof {
                    assert(self.nodes() =~= old(self).nodes());
                    assert(self.relationships@.dom() =~= graph_edges(self.graph).dom());
                    assert(graph_edges(old(self).graph).contains_key(edge as nat));
                }
                weight
            },
            None => None,
        }
    }

    /// The first node, by index, that holds the entity.
    pub fn find_node(&self, entity: Entity) -> (r: Option<Node>)
        requires
            self.wf(),
        ensures
            r is None <==> !exists|n: nat| #[trigger] self.nodes().dom().contains(n) && self.nodes()[n] == entity,
            r matches Some(node) ==> {
                &&& node.entity == entity
                &&& self.holds(node)
                &&& forall|n: nat| #[trigger] self.nodes().dom().contains(n) && n < node.scene_index ==> self.nodes()[n] != entity
            },
    {
        let key = entity.as_u64();
        let ids = graph_node_indices(&self.graph);
        let mut i: usize = 0;
        while i < ids.len()
            invariant
                0 <= i <= ids.len(),
                key == entity.packed(),
                forall|a: int, b: int| 0 <= a < b < ids.len() ==> ids[a] < ids[b],
                forall|a: int| 0 <= a < ids.len() ==> graph_nodes(self.graph).contains_key(#[trigger] ids[a] as nat),
                forall|n: nat| #[trigger] graph_nodes(self.graph).contains_key(n) ==> exists|a: int| 0 <= a < ids.len() && ids[a] == n,
                forall|a: int| 0 <= a < i ==> self.nodes()[#[trigger] ids[a] as nat] != entity,
            decreases ids.len() - i,
        {
            let weight = graph_node_weight(&self.graph, ids[i]);
            proof {
                lemma_entity_of_packed(weight);
                assert(entity_of_packed(weight).packed() == weight);
            }
            if weight == key {
                let node = self.node_at(ids[i]);
                proof {
                    lemma_packed_injective();
                    assert(node.entity.packed() == key);
                    assert forall|n: nat| #[trigger] self.nodes().dom().contains(n) && n < node.scene_index
                        implies self.nodes()[n] != entity by {
                        let a = choose|a: int| 0 <= a < ids.len() && ids[a] == n;
                        if a >= i {
                            assert(ids[i as int] <= ids[a]);
                        }
                    }
                }
                return Some(node);
            }
            i = i + 1;
        }
        proof {
            assert forall|n: nat| #[trigger] self.nodes().dom().contains(n) implies self.nodes()[n] != entity by {
                let a = choose|a: int| 0 <= a < ids.len() && ids[a] == n;
                assert(self.nodes()[ids[a] as nat] != entity);
            }
        }
        None
    }

    /// The nodes at the other end of the edges that leave `node` (`outgoing`) or reach it.
    fn neighbor_nodes(&self, node: Node, outgoing: bool) -> (r: Vec<Node>)
        requires
            self.wf(),
        ensures
            forall|i: int| 0 <= i < r.len() ==> self.holds(#[trigger] r[i])
                && has_edge_dir(self.edges(), node.scene_index as nat, r[i].scene_index as nat, outgoing),
            forall|b: nat| has_edge_dir(self.edges(), node.scene_index as nat, b, outgoing) ==> exists|i: int|
                0 <= i < r.len() && #[trigger] r[i].scene_index as nat == b,
            forall|i: int, j: int|
                #![trigger r[i], r[j]]
                0 <= i < j < r.len() && r[i].scene_index == r[j].scene_index ==> parallel_edges(
                    self.edges(),
                    node.scene_index as nat,
                    r[i].scene_index as nat,
                    outgoing,
                ),
    {
        let ids = graph_neighbors(&self.graph, node.scene_index, outgoing);
        let mut r: Vec<Node> = Vec::new();
        let mut i: usize = 0;
        while i < ids.len()
            invariant
                self.wf(),
                0 <= i <= ids.len(),
                r.len() == i,
                forall|j: int| #![trigger ids[j]] 0 <= j < ids.len() ==> has_edge_dir(graph_edges(self.graph), node.scene_index as nat, ids[j] as nat, outgoing),
                forall|j: int| 0 <= j < i ==> self.holds(#[trigger] r[j]) && r[j].scene_index == ids[j],
            decreases ids.len() - i,
        {
            let n = ids[i];
            proof {
                assert(has_edge_dir(graph_edges(self.graph), node.scene_index as nat, n as nat, outgoing));
                let edges = graph_edges(self.graph);
                let x = if outgoing {
                    choose|x: nat| #[trigger] edges.contains_key(x) && edges[x] == (node.scene_index as nat, n as nat)
                } else {
                    choose|x: nat| #[trigger] edges.contains_key(x) && edges[x] == (n as nat, node.scene_index as nat)
                };
                assert(edges.contains_key(x));
            }
            let m = self.node_at(n);
            r.push(m);
            i = i + 1;
        }
        proof {
            assert forall|b: nat| has_edge_dir(self.edges(), node.scene_index as nat, b, outgoing) implies exists|i: int|
                0 <= i < r.len() && #[trigger] r[i].scene_index as nat == b by {
                let j = choose|j: int| #![trigger ids[j]] 0 <= j < ids.len() && ids[j] as nat == b;
                assert(r[j].scene_index as nat == b);
            }
            assert forall|i: int, j: int|
                #![trigger r[i], r[j]]
                0 <= i < j < r.len() && r[i].scene_index == r[j].scene_index implies parallel_edges(
                    self.edges(),
                    node.scene_index as nat,
                    r[i].scene_index as nat,
                    outgoing,
                ) by {
                assert(ids[i] == ids[j]);
            }
        }
        r
    }

    /// The nodes that edges from `node` go to.
    pub fn children_of(&self, node: Node) -> (r: Vec<Node>)
        requires
            self.wf(),
        ensures
            forall|i: int| 0 <= i < r.len() ==> self.holds(#[trigger] r[i])
                && has_edge(self.edges(), node.scene_index as nat, r[i].scene_index as nat),
            forall|b: nat| has_edge(self.edges(), node.scene_index as nat, b) ==> exists|i: int|
                0 <= i < r.len() && #[trigger] r[i].scene_index as nat == b,
            forall|i: int, j: int|
                #![trigger r[i], r[j]]
                0 <= i < j < r.len() && r[i] == r[j] ==> parallel_edges(
                    self.edges(),
                    node.scene_index as nat,
                    r[i].scene_index as nat,
                    true,
                ),
    {
        let r = self.neighbor_nodes(node, true);
        proof {
            assert forall|b: nat| has_edge(self.edges(), node.scene_index as nat, b) implies exists|i: int|
                0 <= i < r.len() && #[trigger] r[i].scene_index as nat == b by {
                assert(has_edge_dir(self.edges(), node.scene_index as nat, b, true));
            }
        }
        r
    }

    /// The first node, in the graph's incoming list of `node`, with an edge to `node`.
    pub fn parent_of(&self, node: Node) -> (r: Option<Node>)
        requires
            self.wf(),
        ensures
            r is None <==> forall|a: nat| !has_edge(self.edges(), a, node.scene_index as nat),
            r matches Some(p) ==> self.holds(p) && has_edge(self.edges(), p.scene_index as nat, node.scene_index as nat),
    {
        let parents = self.neighbor_nodes(node, false);
        if parents.len() == 0 {
            proof {
                assert forall|a: nat| !has_edge(self.edges(), a, node.scene_index as nat) by {
                    if has_edge(self.edges(), a, node.scene_index as nat) {
                        assert(has_edge_dir(self.edges(), node.scene_index as nat, a, false));
                    }
                }
            }
            None
        } else {
            proof {
                assert(has_edge_dir(self.edges(), node.scene_index as nat, parents[0].scene_index as nat, false));
            }
            Some(parents[0])
        }
    }

    /// The other children of the parent of `node`; `None` when `node` has no parent.
    pub fn siblings_of(&self, node: Node) -> (r: Option<Vec<Node>>)
        requires
            self.wf(),
        ensures
            r is None <==> forall|a: nat| !has_edge(self.edges(), a, node.scene_index as nat),
            r matches Some(siblings) ==> exists|p: Node| {
                &&& #[trigger] self.holds(p)
                &&& has_edge(self.edges(), p.scene_index as nat, node.scene_index as nat)
                &&& forall|i: int| 0 <= i < siblings.len() ==> siblings[i] != node && self.holds(#[trigger] siblings[i])
                    && has_edge(self.edges(), p.scene_index as nat, siblings[i].scene_index as nat)
                &&& forall|c: Node| #[trigger] self.holds(c) && c != node
                    && has_edge(self.edges(), p.scene_index as nat, c.scene_index as nat) ==> siblings@.contains(c)
                &&& forall|i: int, j: int|
                    #![trigger siblings[i], siblings[j]]
                    0 <= i < j < siblings.len() && siblings[i] == siblings[j] ==> parallel_edges(
                        self.edges(),
                        p.scene_index as nat,
                        siblings[i].scene_index as nat,
                        true,
                    )
                &&& (forall|b: nat| !parallel_edges(self.edges(), p.scene_index as nat, b, true)) ==> siblings@.no_duplicates()
            },
    {
        let parent = match self.parent_of(node) {
            Some(p) => p,
            None => return None,
        };
        let children = self.children_of(parent);
        let mut siblings: Vec<Node> = Vec::new();
        let ghost mut idx: Seq<int> = Seq::empty();
        let mut i: usize = 0;
        while i < children.len()
            invariant
                0 <= i <= children.len(),
                idx.len() == siblings.len(),
                forall|k: int| 0 <= k < idx.len() ==> 0 <= #[trigger] idx[k] < i && siblings[k] == children[idx[k]],
                forall|k: int, l: int| 0 <= k < l < idx.len() ==> #[trigger] idx[k] < #[trigger] idx[l],
                forall|a: int, b: int|
                    #![trigger children[a], children[b]]
                    0 <= a < b < children.len() && children[a] == children[b] ==> parallel_edges(
                        self.edges(),
                        parent.scene_index as nat,
                        children[a].scene_index as nat,
                        true,
                    ),
                forall|j: int| 0 <= j < children.len() ==> self.holds(#[trigger] children[j])
                    && has_edge(self.edges(), parent.scene_index as nat, children[j].scene_index as nat),
                forall|j: int| 0 <= j < siblings.len() ==> siblings[j] != node && self.holds(#[trigger] siblings[j])
                    && has_edge(self.edges(), parent.scene_index as nat, siblings[j].scene_index as nat),
                forall|j: int| 0 <= j < i && children[j] != node ==> siblings@.contains(#[trigger] children[j]),
            decreases children.len() - i,
        {
            let child = children[i];
            if child != node {
                let ghost before = siblings@;
                siblings.push(child);
                proof {
                    idx = idx.push(i as int);
                    assert(siblings@ == before.push(child));
                    assert forall|j: int| 0 <= j < i + 1 && children[j] != node implies siblings@.contains(#[trigger] children[j]) by {
                        if j < i {
                            assert(before.contains(children[j]));
                            let k = choose|k: int| 0 <= k < before.len() && before[k] == children[j];
                            assert(siblings@[k] == children[j]);
                        } else {
                            assert(siblings@[before.len() as int] == children[j]);
                        }
                    }
                }
            }
            i = i + 1;
        }
        proof {
            assert forall|c: Node| #[trigger] self.holds(c) && c != node
                && has_edge(self.edges(), parent.scene_index as nat, c.scene_index as nat) implies siblings@.contains(c) by {
                let j = choose|j: int| 0 <= j < children.len() && #[trigger] children[j].scene_index as nat == c.scene_index as nat;
                assert(self.holds(children[j]));
                assert(children[j] == c);
            }
            assert forall|a: int, b: int|
                #![trigger siblings[a], siblings[b]]
                0 <= a < b < siblings.len() && siblings[a] == siblings[b] implies parallel_edges(
                    self.edges(),
                    parent.scene_index as nat,
                    siblings[a].scene_index as nat,
                    true,
                ) by {
                assert(idx[a] < idx[b]);
                assert(children[idx[a]] == children[idx[b]]);
            }
            if forall|b: nat| !parallel_edges(self.edges(), parent.scene_index as nat, b, true) {
                assert forall|a: int, b: int| 0 <= a < b < siblings.len() implies siblings[a] != siblings[b] by {
                    if siblings[a] == siblings[b] {
                        assert(parallel_edges(self.edges(), parent.scene_index as nat, siblings[a].scene_index as nat, true));
                    }
                }
            }
        }
        Some(siblings)
    }

    /// Some edge leaving node `from` carries `w`.
    pub open spec fn carries_from(&self, from: nat, w: R) -> bool {
        exists|e: nat| {
            &&& #[trigger] self.edges().contains_key(e)
            &&& self.edges()[e].0 == from
            &&& self.relationships()[e] == w
        }
    }

    /// The relationships on the edges that leave `node`.
    pub fn child_relationships_of(&self, node: Node) -> (r: Vec<&R>)
        requires
            self.wf(),
        ensures
            forall|i: int| 0 <= i < r.len() ==> self.carries_from(node.scene_index as nat, *#[trigger] r[i]),
            forall|e: nat| #[trigger] self.edges().contains_key(e) && self.edges()[e].0 == node.scene_index
                ==> exists|i: int| 0 <= i < r.len() && *r[i] == self.relationships()[e],
    {
        let edges = graph_edges_directed(&self.graph, node.scene_index, true);
        assert(forall|j: int| 0 <= j < edges.len() ==> graph_edges(self.graph).contains_key(#[trigger] edges[j] as nat));
        let mut r: Vec<&R> = Vec::new();
        let mut i: usize = 0;
        while i < edges.len()
            invariant
                self.wf(),
                0 <= i <= edges.len(),
                r.len() == i,
                forall|j: int| 0 <= j < edges.len() ==> {
                    &&& #[trigger] graph_edges(self.graph).contains_key(edges[j] as nat)
                    &&& graph_edges(self.graph)[edges[j] as nat].0 == node.scene_index
                },
                forall|j: int| 0 <= j < i ==> *r[j] == self.relationships@[#[trigger] edges[j] as nat],
            decreases edges.len() - i,
        {
            let e = edges[i];
            assert(graph_edges(self.graph).contains_key(e as nat));
            let w = self.relationships.get(&(e as usize)).unwrap();
            r.push(w);
            i = i + 1;
        }
        proof {
            assert forall|i: int| 0 <= i < r.len() implies self.carries_from(node.scene_index as nat, *#[trigger] r[i]) by {
                assert(self.edges().contains_key(edges[i] as nat));
                assert(*r[i] == self.relationships@[edges[i] as nat]);
                assert(self.edges()[edges[i] as nat].0 == node.scene_index);
            }
            assert forall|e: nat| #[trigger] self.edges().contains_key(e) && self.edges()[e].0 == node.scene_index
                implies exists|i: int| 0 <= i < r.len() && *r[i] == self.relationships()[e] by {
                let j = choose|j: int| 0 <= j < edges.len() && edges[j] == e;
                assert(*r[j] == self.relationships()[edges[j] as nat]);
            }
        }
        r
    }

    /// The relationship on the first edge, in the graph's incoming list of `node`, that
    /// reaches `node`; `None` when no edge does.
    pub fn parent_relationship_of(&self, node: Node) -> (r: Option<&R>)
        requires
            self.wf(),
        ensures
            r is None <==> forall|e: nat| #[trigger] self.edges().contains_key(e) ==> self.edges()[e].1 != node.scene_index,
            r matches Some(w) ==> exists|e: nat| {
                &&& #[trigger] self.edges().contains_key(e)
                &&& self.edges()[e].1 == node.scene_index
                &&& self.relationships()[e] == *w
            },
    {
        let edges = graph_edges_directed(&self.graph, node.scene_index, false);
        if edges.len() == 0 {
            proof {
                assert forall|e: nat| #[trigger] self.edges().contains_key(e) implies self.edges()[e].1 != node.scene_index by {
                    if self.edges()[e].1 == node.scene_index {
                        assert(graph_edges(self.graph).contains_key(e));
                        assert(exists|j: int| 0 <= j < edges.len() && edges[j] == e);
                    }
                }
            }
            None
        } else {
            let e = edges[0];
            assert(graph_edges(self.graph).contains_key(e as nat));
            let w = self.relationships.get(&(e as usize)).unwrap();
            proof {
                assert(self.edges().contains_key(e as nat));
                assert(self.edges()[e as nat].1 == node.scene_index);
                assert(self.relationships()[e as nat] == *w);
            }
            Some(w)
        }
    }
}

/// Adding a relationship between two nodes that no edge joined, then removing the relationship
/// between them: the removal finds the new edge and no other, gives back its weight, and
/// leaves the edges and relationships as they were before the addition.
pub proof fn law_remove_relationship_undoes_add<R>(
    before: Scene<R>,
    after: Scene<R>,
    from: nat,
    to: nat,
    e: nat,
    weight: R,
)
    requires
        before.wf(),
        !has_edge(before.edges(), from, to),
        !before.edges().contains_key(e),
        after.edges() == before.edges().insert(e, (from, to)),
        after.relationships() == before.relationships().insert(e, weight),
    ensures
        has_edge(after.edges(), from, to),
        forall|x: nat|
            #[trigger] after.edges().contains_key(x) && after.edges()[x] == (from, to) ==> {
                &&& x == e
                &&& after.relationships()[x] == weight
                &&& after.edges().remove(x) == before.edges()
                &&& after.relationships().remove(x) == before.relationships()
            },
{
    assert(after.edges().contains_key(e));
    assert forall|x: nat|
        #[trigger] after.edges().contains_key(x) && after.edges()[x] == (from, to) implies {
            &&& x == e
            &&& after.relationships()[x] == weight
            &&& after.edges().remove(x) == before.edges()
            &&& after.relationships().remove(x) == before.relationships()
        } by {
        if x != e {
            assert(before.edges().contains_key(x));
        }
        assert(!before.relationships().contains_key(e));
        assert(after.edges().remove(x) =~= before.edges());
        assert(after.relationships().remove(x) =~= before.relationships());
    }
}

} // verus!
