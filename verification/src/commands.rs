//! Changes to a world that a system records while it runs, to be carried out afterwards.
use vstd::prelude::*;

use std::collections::VecDeque;

use crate::component::Data;
use crate::entity::Entity;
use crate::entity_graph::{acyclic_from, descends, is_path, EntityGraph};
use crate::registry::DynamicId;
use crate::storage::{by_type, distinct_ids, Components};
use crate::world::{generations_bounded, ids_of, subtree, World};

verus! {

/// A change recorded for later.
#[derive(Debug, Clone, Copy, PartialEq, Eq, Structural)]
pub enum Command {
    Despawn(Entity),
    DespawnRecursive(Entity),
    AddChild(Entity, Entity),
    RemoveChild(Entity, Entity),
    AddSibling(Entity, Entity),
    RemoveSibling(Entity, Entity),
}

/// What the recorded changes act on in a world: its graph's entity set and relation set, the
/// ids of the entities that have components, and the living entities by id.
pub type WorldState = (Set<Entity>, Set<(Entity, Entity)>, Set<nat>, Map<nat, Entity>);

/// The entity and every entity below it in `rel`.
pub open spec fn below_and(rel: Set<(Entity, Entity)>, entity: Entity) -> Set<Entity> {
    Set::new(|x: Entity| x == entity || descends(rel, entity, x))
}

/// What a recorded change does to a world when it is carried out. The world's graph has no
/// operation on siblings, so a recorded change of siblings does nothing.
pub open spec fn state_after(state: WorldState, command: Command) -> WorldState {
    let ents = state.0;
    let rel = state.1;
    let placed = state.2;
    let living = state.3;
    match command {
        Command::Despawn(e) => (
            ents.remove(e),
            rel.filter(|pc: (Entity, Entity)| pc.0 != e && pc.1 != e),
            placed.remove(e.spec_id() as nat),
            if placed.contains(e.spec_id() as nat) { living.remove(e.spec_id() as nat) } else { living },
        ),
        Command::DespawnRecursive(e) => {
            let t = below_and(rel, e);
            (
                ents.difference(t),
                rel.filter(|pc: (Entity, Entity)| !t.contains(pc.0) && !t.contains(pc.1)),
                placed.difference(ids_of(t)),
                living.remove_keys(ids_of(t).intersect(placed)),
            )
        },
        Command::AddChild(p, c) => (ents.insert(p).insert(c), rel.insert((p, c)), placed, living),
        Command::RemoveChild(p, c) => (ents, rel.remove((p, c)), placed, living),
        Command::AddSibling(_, _) => state,
        Command::RemoveSibling(_, _) => state,
    }
}

/// The world after the changes of `tape`, in order.
pub open spec fn replayed(state: WorldState, tape: Seq<Command>) -> WorldState
    decreases tape.len(),
{
    if tape.len() == 0 {
        state
    } else {
        state_after(replayed(state, tape.drop_last()), tape.last())
    }
}

/// The changes of `tape` can be carried out from `state`: each recursive despawn starts where
/// no cycle can be reached, or it would walk around that cycle forever.
pub open spec fn replayable(state: WorldState, tape: Seq<Command>) -> bool {
    forall|i: int|
        0 <= i < tape.len() ==> match #[trigger] tape[i] {
            Command::DespawnRecursive(e) => acyclic_from(replayed(state, tape.take(i)).1, e),
            _ => true,
        }
}

/// No two entities of `t` share an id.
pub open spec fn ids_unique(t: Set<Entity>) -> bool {
    forall|x: Entity, y: Entity|
        #[trigger] t.contains(x) && #[trigger] t.contains(y) && x.spec_id() == y.spec_id() ==> x == y
}

/// Each entity of `t` whose id had components in `before` and has none in `after` has its
/// children's ids without components in `after` too.
pub open spec fn children_follow(rel: Set<(Entity, Entity)>, t: Set<Entity>, before: Set<nat>, after: Set<nat>) -> bool {
    forall|x: Entity, c: Entity|
        #[trigger] t.contains(x) && #[trigger] rel.contains((x, c)) && before.contains(x.spec_id() as nat)
            && !after.contains(x.spec_id() as nat) ==> !after.contains(c.spec_id() as nat)
}

/// Each child without components in `before` of an entity of `t` despawned between `before`
/// and `after` is recorded for a recursive despawn in `tape`, at position `from` or later.
pub open spec fn children_recorded(
    rel: Set<(Entity, Entity)>,
    t: Set<Entity>,
    before: Set<nat>,
    after: Set<nat>,
    tape: Seq<Command>,
    from: int,
) -> bool {
    forall|x: Entity, c: Entity|
        #[trigger] t.contains(x) && #[trigger] rel.contains((x, c)) && before.contains(x.spec_id() as nat)
            && !after.contains(x.spec_id() as nat) && !before.contains(c.spec_id() as nat) ==> exists|k: int|
            from <= k < tape.len() && tape[k] == Command::DespawnRecursive(c)
}

/// Every change in `tape` from position `from` on is a recursive despawn of an entity of `t`.
pub open spec fn records_within(tape: Seq<Command>, from: int, t: Set<Entity>) -> bool {
    forall|k: int| #![trigger tape[k]] from <= k < tape.len() ==> exists|x: Entity| #[trigger] t.contains(x) && tape[k] == Command::DespawnRecursive(x)
}

/// `x` is `entity`, or is reached from it along relations of `rel` through entities (all but
/// `x` itself) whose ids are in `placed`.
pub open spec fn reached_through(rel: Set<(Entity, Entity)>, placed: Set<nat>, entity: Entity, x: Entity) -> bool {
    x == entity || exists|path: Seq<Entity>|
        #![trigger is_path(rel, path)]
        path.len() >= 2 && path[0] == entity && path[path.len() - 1] == x && is_path(rel, path)
            && forall|i: int| 0 <= i < path.len() - 1 ==> placed.contains(#[trigger] path[i].spec_id() as nat)
}

/// Along a path from `entity` whose entities but the last had components in `before`, none has
/// components in `after`, when `entity` has none and each despawned entity's children follow.
proof fn lemma_reached_cleared(
    rel: Set<(Entity, Entity)>,
    entity: Entity,
    before: Set<nat>,
    after: Set<nat>,
    path: Seq<Entity>,
    k: int,
)
    requires
        !after.contains(entity.spec_id() as nat),
        children_follow(rel, below_and(rel, entity), before, after),
        path.len() >= 1,
        path[0] == entity,
        is_path(rel, path),
        forall|i: int| 0 <= i < path.len() - 1 ==> before.contains(#[trigger] path[i].spec_id() as nat),
        0 <= k < path.len(),
    ensures
        !after.contains(path[k].spec_id() as nat),
    decreases k,
{
    if k > 0 {
        lemma_reached_cleared(rel, entity, before, after, path, k - 1);
        let p = path[k - 1];
        assert(rel.contains((path[k - 1], path[k])));
        assert(before.contains(path[k - 1].spec_id() as nat));
        if k - 1 > 0 {
            let pre = path.take(k);
            assert(is_path(rel, pre)) by {
                assert forall|a: int, b: int| 0 <= a && b == a + 1 && b < pre.len() implies #[trigger] rel.contains((pre[a], pre[b])) by {
                    assert(rel.contains((path[a], path[b])));
                }
            }
            assert(pre[0] == entity && pre[pre.len() - 1] == p);
            assert(descends(rel, entity, p));
        }
        assert(below_and(rel, entity).contains(p));
    }
}

/// A system's own store of new entities and relations, and the changes to the world that it
/// could not make on its own.
pub struct Commands {
    components: Components,
    entity_graph: EntityGraph,
    tape: VecDeque<Command>,
}

impl Commands {
    pub closed spec fn spec_components(&self) -> Components {
        self.components
    }

    pub closed spec fn spec_entity_graph(&self) -> EntityGraph {
        self.entity_graph
    }

    /// The recorded changes, oldest first.
    pub closed spec fn tape(&self) -> Seq<Command> {
        self.tape@
    }

    pub open spec fn wf(&self) -> bool {
        &&& self.spec_components().wf()
        &&& self.spec_entity_graph().wf()
    }

    /// Commands for the world: an empty store with a copy of the world's registry, a copy of
    /// its entity graph, and no recorded changes.
    pub fn new(world: &World) -> (r: Self)
        requires
            world.wf(),
        ensures
            r.wf(),
            r.spec_components().living() == Map::<nat, Entity>::empty(),
            r.spec_components().placement() == Map::<nat, usize>::empty(),
            r.spec_components().spec_registry().next() == world.components.spec_registry().next(),
            r.spec_components().spec_registry().named() == world.components.spec_registry().named(),
            r.spec_entity_graph().entity_set() == world.entity_graph.entity_set(),
            r.spec_entity_graph().relation_set() == world.entity_graph.relation_set(),
            r.tape() == Seq::<Command>::empty(),
    {
        Commands {
            components: world.components.split(),
            entity_graph: world.entity_graph.duplicate(),
            tape: VecDeque::new(),
        }
    }

    /// A new entity in the store, with the given components (each type once), and in the
    /// store's entity graph.
    pub fn spawn_dynamic(&mut self, components: Vec<Data>, component_ids: Vec<DynamicId>) -> (e: Entity)
        requires
            old(self).wf(),
            old(self).spec_components().spec_registry().next() < u32::MAX,
            components@.len() == component_ids@.len(),
            forall|i: int| 0 <= i < components@.len() ==> (#[trigger] components@[i]).type_id == component_ids@[i],
            distinct_ids(component_ids@),
            forall|i: int| 0 <= i < component_ids@.len() ==> (#[trigger] component_ids@[i] as nat) < usize::MAX,
            old(self).spec_components().spec_archetypes().len() + 1 < usize::MAX,
            old(self).spec_entity_graph().node_slots() < u32::MAX,
        ensures
            final(self).wf(),
            e.spec_id() == old(self).spec_components().spec_registry().next(),
            e.spec_generation() == 0,
            final(self).spec_components().living() == old(self).spec_components().living().insert(e.spec_id() as nat, e),
            final(self).spec_components().placement().dom() == old(self).spec_components().placement().dom().insert(e.spec_id() as nat),
            final(self).spec_components().components_of(e.spec_id() as nat) == by_type(components@),
            forall|x: nat| #[trigger] old(self).spec_components().placement().dom().contains(x)
                ==> final(self).spec_components().components_of(x) == old(self).spec_components().components_of(x),
            final(self).spec_components().spec_registry().next() == old(self).spec_components().spec_registry().next() + 1,
            final(self).spec_components().spec_archetypes().len() <= old(self).spec_components().spec_archetypes().len() + 1,
            final(self).spec_entity_graph().entity_set() == old(self).spec_entity_graph().entity_set().insert(e),
            final(self).spec_entity_graph().relation_set() == old(self).spec_entity_graph().relation_set(),
            final(self).tape() == old(self).tape(),
    {
        let entity = self.components.build_with_components(components, component_ids);
        self.entity_graph.add_entity(entity);
        entity
    }

    /// Gives an entity of the store one more component.
    pub fn add_dynamic_component(&mut self, entity: Entity, component: Data)
        requires
            old(self).wf(),
            old(self).spec_components().generations().dom().contains(entity.spec_id() as nat),
            (component.type_id as nat) < usize::MAX,
            old(self).spec_components().placement().dom().contains(entity.spec_id() as nat)
                ==> !old(self).spec_components().components_of(entity.spec_id() as nat).dom().contains(component.type_id),
            old(self).spec_components().spec_archetypes().len() + 1 < usize::MAX,
        ensures
            final(self).wf(),
            final(self).spec_components().placement().dom() == old(self).spec_components().placement().dom().insert(entity.spec_id() as nat),
            final(self).spec_components().components_of(entity.spec_id() as nat) == (if old(self).spec_components().placement().dom().contains(
                entity.spec_id() as nat,
            ) {
                old(self).spec_components().components_of(entity.spec_id() as nat)
            } else {
                Map::empty()
            }).insert(component.type_id, component),
            forall|x: nat| x != entity.spec_id() && #[trigger] old(self).spec_components().placement().dom().contains(x)
                ==> final(self).spec_components().components_of(x) == old(self).spec_components().components_of(x),
            final(self).spec_components().spec_archetypes().len() <= old(self).spec_components().spec_archetypes().len() + 1,
            final(self).spec_entity_graph() == old(self).spec_entity_graph(),
            final(self).tape() == old(self).tape(),
    {
        self.components.add_dynamic_component(&entity, component);
    }

    /// Despawns an entity of the store; an entity the store does not hold is recorded to be
    /// despawned from the world later.
    pub fn despawn(&mut self, entity: Entity)
        requires
            old(self).wf(),
            old(self).spec_components().placement().dom().contains(entity.spec_id() as nat)
                ==> old(self).spec_components().generations()[entity.spec_id() as nat] < u32::MAX,
        ensures
            final(self).wf(),
            !old(self).spec_components().placement().dom().contains(entity.spec_id() as nat) ==> {
                &&& final(self).spec_components() == old(self).spec_components()
                &&& final(self).spec_entity_graph() == old(self).spec_entity_graph()
                &&& final(self).tape() == old(self).tape().push(Command::Despawn(entity))
            },
            old(self).spec_components().placement().dom().contains(entity.spec_id() as nat) ==> {
                &&& final(self).spec_components().placement() == old(self).spec_components().placement().remove(entity.spec_id() as nat)
                &&& final(self).spec_components().living() == old(self).spec_components().living().remove(entity.spec_id() as nat)
                &&& final(self).spec_entity_graph().entity_set() == old(self).spec_entity_graph().entity_set().remove(entity)
                &&& final(self).spec_entity_graph().relation_set() == old(self).spec_entity_graph().relation_set().filter(
                    |pc: (Entity, Entity)| pc.0 != entity && pc.1 != entity,
                )
                &&& final(self).tape() == old(self).tape()
            },
    {
        if !self.components.despawn(entity.id()) {
            self.tape.push_back(Command::Despawn(entity));
        } else {
            self.entity_graph.remove_entity(entity);
        }
    }

    /// Despawns the entity and, when it had components, its children in turn; an entity
    /// without components is recorded to be despawned from the world later, with what is
    /// below it, and its children are left. Returns whether the entity had components.
    fn despawn_recursive_inner(
        &mut self,
        entity: Entity,
        Ghost(start): Ghost<Entity>,
    ) -> (r: bool)
        requires
            old(self).wf(),
            entity == start || descends(old(self).spec_entity_graph().relation_set(), start, entity),
            forall|x: Entity| #[trigger] subtree(old(self).spec_entity_graph(), start).contains(x)
                && old(self).spec_components().placement().dom().contains(x.spec_id() as nat)
                ==> old(self).spec_components().generations()[x.spec_id() as nat] < u32::MAX,
        ensures
            final(self).wf(),
            r == old(self).spec_components().placement().dom().contains(entity.spec_id() as nat),
            r ==> !final(self).spec_components().placement().dom().contains(entity.spec_id() as nat),
            !r ==> final(self).spec_components() == old(self).spec_components()
                && final(self).tape() == old(self).tape().push(Command::DespawnRecursive(entity)),
            final(self).spec_entity_graph() == old(self).spec_entity_graph(),
            final(self).spec_components().placement().dom().subset_of(old(self).spec_components().placement().dom()),
            old(self).spec_components().placement().dom().difference(final(self).spec_components().placement().dom())
                .subset_of(ids_of(subtree(old(self).spec_entity_graph(), start))),
            forall|x: nat| #[trigger] final(self).spec_components().placement().dom().contains(x)
                ==> final(self).spec_components().components_of(x) == old(self).spec_components().components_of(x),
            forall|x: nat| #[trigger] final(self).spec_components().generations().dom().contains(x)
                && final(self).spec_components().placement().dom().contains(x)
                ==> old(self).spec_components().generations().dom().contains(x)
                    && final(self).spec_components().generations()[x] == old(self).spec_components().generations()[x],
            forall|i: int| 0 <= i < old(self).tape().len() ==> final(self).tape()[i] == #[trigger] old(self).tape()[i],
            old(self).tape().len() <= final(self).tape().len(),
            !final(self).spec_components().placement().dom().contains(entity.spec_id() as nat),
            records_within(final(self).tape(), old(self).tape().len() as int, subtree(old(self).spec_entity_graph(), start)),
            ids_unique(subtree(old(self).spec_entity_graph(), start)) ==> children_follow(old(self).spec_entity_graph().relation_set(), subtree(old(self).spec_entity_graph(), start), old(self).spec_components().placement().dom(), final(self).spec_components().placement().dom()),
            ids_unique(subtree(old(self).spec_entity_graph(), start)) ==> children_recorded(old(self).spec_entity_graph().relation_set(), subtree(old(self).spec_entity_graph(), start), old(self).spec_components().placement().dom(), final(self).spec_components().placement().dom(), final(self).tape(), old(self).tape().len() as int),
        decreases old(self).spec_components().placement().dom().len(),
    {
        let ghost c0 = self.components;
        proof {
            let t = subtree(self.entity_graph, start);
            if c0.placement().dom().contains(entity.spec_id() as nat) {
                assert(t.contains(entity));
                c0.lemma_placed(entity.spec_id() as nat);
            }
        }
        if !self.components.despawn(entity.id()) {
            self.tape.push_back(Command::DespawnRecursive(entity));
            proof {
                assert(subtree(self.entity_graph, start).contains(entity));
                assert(self.tape()[old(self).tape().len() as int] == Command::DespawnRecursive(entity));
            }
            return false;
        }
        proof {
            assert(ids_of(subtree(self.entity_graph, start)).contains(entity.spec_id() as nat)) by {
                assert(subtree(self.entity_graph, start).contains(entity));
            }
            let a = c0.placement()[entity.spec_id() as nat] as int;
            assert forall|x: nat| #[trigger] self.components.placement().dom().contains(x)
                implies self.components.components_of(x) == c0.components_of(x) by {
                c0.lemma_placed(x);
                let b = c0.placement()[x] as int;
                if b == a {
                    assert(self.components.components_of(x) =~= c0.components_of(x));
                } else {
                    assert(self.components.spec_archetypes()[b] == c0.spec_archetypes()[b]);
                    assert(self.components.components_of(x) =~= c0.components_of(x));
                }
            }
        }
        let children = self.entity_graph.get_children(entity);
        let mut i: usize = 0;
        while i < children.len()
            invariant
                self.wf(),
                0 <= i <= children@.len(),
                self.entity_graph == old(self).entity_graph,
                entity == start || descends(old(self).spec_entity_graph().relation_set(), start, entity),
                forall|j: int| 0 <= j < children@.len() ==> old(self).spec_entity_graph().relation_set().contains((entity, #[trigger] children@[j])),
                !self.components.placement().dom().contains(entity.spec_id() as nat),
                self.components.placement().dom().subset_of(c0.placement().dom()),
                c0 == old(self).components,
                c0.wf(),
                c0.placement().dom().contains(entity.spec_id() as nat),
                c0.placement().dom().difference(self.components.placement().dom())
                    .subset_of(ids_of(subtree(old(self).spec_entity_graph(), start))),
                forall|x: nat| #[trigger] self.components.placement().dom().contains(x)
                    ==> self.components.components_of(x) == c0.components_of(x),
                forall|x: nat| #[trigger] self.components.generations().dom().contains(x)
                    && self.components.placement().dom().contains(x)
                    ==> c0.generations().dom().contains(x) && self.components.generations()[x] == c0.generations()[x],
                forall|x: Entity| #[trigger] subtree(old(self).spec_entity_graph(), start).contains(x)
                    && self.components.placement().dom().contains(x.spec_id() as nat)
                    ==> self.components.generations()[x.spec_id() as nat] < u32::MAX,
                forall|j: int| 0 <= j < old(self).tape().len() ==> self.tape()[j] == #[trigger] old(self).tape()[j],
                old(self).tape().len() <= self.tape().len(),
                forall|j: int| 0 <= j < i ==> !self.components.placement().dom().contains(#[trigger] children@[j].spec_id() as nat),
                forall|j: int| 0 <= j < i && !c0.placement().dom().contains(#[trigger] children@[j].spec_id() as nat) ==> exists|k: int|
                    old(self).tape().len() <= k < self.tape().len() && self.tape()[k] == Command::DespawnRecursive(children@[j]),
                ids_unique(subtree(old(self).spec_entity_graph(), start)) ==> forall|x: Entity, c: Entity|
                    #[trigger] subtree(old(self).spec_entity_graph(), start).contains(x) && #[trigger] old(self).spec_entity_graph().relation_set().contains((x, c)) && x.spec_id() != entity.spec_id()
                        && c0.placement().dom().contains(x.spec_id() as nat) && !self.components.placement().dom().contains(x.spec_id() as nat)
                        ==> !self.components.placement().dom().contains(c.spec_id() as nat),
                ids_unique(subtree(old(self).spec_entity_graph(), start)) ==> forall|x: Entity, c: Entity|
                    #[trigger] subtree(old(self).spec_entity_graph(), start).contains(x) && #[trigger] old(self).spec_entity_graph().relation_set().contains((x, c)) && x.spec_id() != entity.spec_id()
                        && c0.placement().dom().contains(x.spec_id() as nat) && !self.components.placement().dom().contains(x.spec_id() as nat)
                        && !c0.placement().dom().contains(c.spec_id() as nat) ==> exists|k: int|
                        old(self).tape().len() <= k < self.tape().len() && self.tape()[k] == Command::DespawnRecursive(c),
                records_within(self.tape(), old(self).tape().len() as int, subtree(old(self).spec_entity_graph(), start)),
            decreases children@.len() - i,
        {
            let child = children[i];
            let ghost before = *self;
            proof {
                let rel = old(self).spec_entity_graph().relation_set();
                assert(rel.contains((entity, child)));
                c0.lemma_placement_finite();
                let eid = entity.spec_id() as nat;
                vstd::set_lib::lemma_len_subset(self.components.placement().dom(), c0.placement().dom().remove(eid));
                if entity == start {
                    crate::entity_graph::lemma_descends_step(rel, start, child);
                } else {
                    crate::entity_graph::lemma_descends_extend(rel, start, entity, child);
                }
                assert forall|x: Entity| #[trigger] subtree(self.entity_graph, start).contains(x)
                    && self.components.placement().dom().contains(x.spec_id() as nat)
                    implies self.components.generations()[x.spec_id() as nat] < u32::MAX by {
                    self.components.lemma_placed(x.spec_id() as nat);
                }
            }
            self.despawn_recursive_inner(child, Ghost(start));
            proof {
                assert forall|x: nat| #[trigger] self.components.placement().dom().contains(x)
                    implies self.components.components_of(x) == c0.components_of(x) by {
                    assert(before.components.placement().dom().contains(x));
                }
                assert forall|x: nat| #[trigger] self.components.generations().dom().contains(x)
                    && self.components.placement().dom().contains(x)
                    implies c0.generations().dom().contains(x) && self.components.generations()[x] == c0.generations()[x] by {
                    assert(before.components.placement().dom().contains(x));
                    before.components.lemma_placed(x);
                }
                assert forall|x: Entity| #[trigger] subtree(old(self).spec_entity_graph(), start).contains(x)
                    && self.components.placement().dom().contains(x.spec_id() as nat)
                    implies self.components.generations()[x.spec_id() as nat] < u32::MAX by {
                    let e = x.spec_id() as nat;
                    assert(before.components.placement().dom().contains(e));
                    before.components.lemma_placed(e);
                    self.components.lemma_placed(e);
                    assert(self.components.generations().dom().contains(e) && self.components.placement().dom().contains(e));
                    assert(self.components.generations()[e] == before.components.generations()[e]);
                }
                assert forall|j: int| 0 <= j < old(self).tape().len() implies self.tape()[j] == #[trigger] old(self).tape()[j] by {
                    assert(self.tape()[j] == before.tape()[j]);
                }
                let bp = before.components.placement().dom();
                let bl = before.tape().len() as int;
                assert forall|j: int| 0 <= j < i + 1 implies !self.components.placement().dom().contains(#[trigger] children@[j].spec_id() as nat) by {
                    if j < i {
                        assert(!bp.contains(children@[j].spec_id() as nat));
                    }
                }
                assert forall|j: int| 0 <= j < i + 1 && !c0.placement().dom().contains(#[trigger] children@[j].spec_id() as nat) implies exists|k: int|
                    old(self).tape().len() <= k < self.tape().len() && self.tape()[k] == Command::DespawnRecursive(children@[j]) by {
                    if j < i {
                        let k = choose|k: int| old(self).tape().len() <= k < before.tape().len() && before.tape()[k] == Command::DespawnRecursive(children@[j]);
                        assert(self.tape()[k] == before.tape()[k]);
                    } else {
                        assert(!bp.contains(child.spec_id() as nat));
                        assert(self.tape()[bl] == Command::DespawnRecursive(child));
                    }
                }
                if ids_unique(subtree(old(self).spec_entity_graph(), start)) {
                    assert forall|x: Entity, c: Entity|
                        #[trigger] subtree(old(self).spec_entity_graph(), start).contains(x) && #[trigger] old(self).spec_entity_graph().relation_set().contains((x, c)) && x.spec_id() != entity.spec_id()
                            && c0.placement().dom().contains(x.spec_id() as nat) && !self.components.placement().dom().contains(x.spec_id() as nat)
                            implies !self.components.placement().dom().contains(c.spec_id() as nat) by {
                        if !bp.contains(x.spec_id() as nat) {
                            assert(!bp.contains(c.spec_id() as nat));
                        }
                    }
                    assert forall|x: Entity, c: Entity|
                        #[trigger] subtree(old(self).spec_entity_graph(), start).contains(x) && #[trigger] old(self).spec_entity_graph().relation_set().contains((x, c)) && x.spec_id() != entity.spec_id()
                            && c0.placement().dom().contains(x.spec_id() as nat) && !self.components.placement().dom().contains(x.spec_id() as nat)
                            && !c0.placement().dom().contains(c.spec_id() as nat) implies exists|k: int|
                            old(self).tape().len() <= k < self.tape().len() && self.tape()[k] == Command::DespawnRecursive(c) by {
                        if !bp.contains(x.spec_id() as nat) {
                            let k = choose|k: int| old(self).tape().len() <= k < before.tape().len() && before.tape()[k] == Command::DespawnRecursive(c);
                            assert(self.tape()[k] == before.tape()[k]);
                        } else {
                            assert(!bp.contains(c.spec_id() as nat));
                        }
                    }
                }
                assert forall|k: int| #![trigger self.tape()[k]] old(self).tape().len() <= k < self.tape().len() implies exists|x: Entity|
                    #[trigger] subtree(old(self).spec_entity_graph(), start).contains(x) && self.tape()[k] == Command::DespawnRecursive(x) by {
                    if k < bl {
                        assert(self.tape()[k] == before.tape()[k]);
                        assert(before.tape()[k] == before.tape()[k]);
                    }
                }
            }
            i = i + 1;
        }
        proof {
            if ids_unique(subtree(old(self).spec_entity_graph(), start)) {
                assert forall|x: Entity, c: Entity|
                    #[trigger] subtree(old(self).spec_entity_graph(), start).contains(x) && #[trigger] old(self).spec_entity_graph().relation_set().contains((x, c)) && old(self).spec_components().placement().dom().contains(x.spec_id() as nat)
                        && !self.components.placement().dom().contains(x.spec_id() as nat) implies !self.components.placement().dom().contains(c.spec_id() as nat) by {
                    if x.spec_id() == entity.spec_id() {
                        assert(subtree(old(self).spec_entity_graph(), start).contains(entity));
                        assert(x == entity);
                        assert(children@.contains(c));
                        let j = choose|j: int| 0 <= j < children@.len() && children@[j] == c;
                        assert(!self.components.placement().dom().contains(children@[j].spec_id() as nat));
                    }
                }
                assert forall|x: Entity, c: Entity|
                    #[trigger] subtree(old(self).spec_entity_graph(), start).contains(x) && #[trigger] old(self).spec_entity_graph().relation_set().contains((x, c)) && old(self).spec_components().placement().dom().contains(x.spec_id() as nat)
                        && !self.components.placement().dom().contains(x.spec_id() as nat) && !old(self).spec_components().placement().dom().contains(c.spec_id() as nat) implies exists|k: int|
                        old(self).tape().len() <= k < self.tape().len() && self.tape()[k] == Command::DespawnRecursive(c) by {
                    if x.spec_id() == entity.spec_id() {
                        assert(subtree(old(self).spec_entity_graph(), start).contains(entity));
                        assert(x == entity);
                        assert(children@.contains(c));
                        let j = choose|j: int| 0 <= j < children@.len() && children@[j] == c;
                        assert(!c0.placement().dom().contains(children@[j].spec_id() as nat));
                    }
                }
            }
        }
        true
    }

    /// Despawns the entity and what is below it, as far as the store holds them (see
    /// `despawn_recursive_inner`); when the entity itself had no components here it is recorded
    /// to be despawned later. Otherwise it also leaves the entity graph. Every change recorded
    /// is a recursive despawn of an entity below or at `entity`. When no two entities below
    /// share an id, every entity reached from `entity` through entities with components loses
    /// its components, and each child without components of a despawned entity is recorded to
    /// be despawned later; the search works by id, so two entities sharing one can stop it.
    pub fn despawn_recursive(&mut self, entity: Entity)
        requires
            old(self).wf(),
            forall|x: Entity| #[trigger] subtree(old(self).spec_entity_graph(), entity).contains(x)
                && old(self).spec_components().placement().dom().contains(x.spec_id() as nat)
                ==> old(self).spec_components().generations()[x.spec_id() as nat] < u32::MAX,
        ensures
            final(self).wf(),
            !old(self).spec_components().placement().dom().contains(entity.spec_id() as nat) ==> {
                &&& final(self).spec_components() == old(self).spec_components()
                &&& final(self).spec_entity_graph() == old(self).spec_entity_graph()
                &&& final(self).tape() == old(self).tape().push(Command::DespawnRecursive(entity)).push(
                    Command::DespawnRecursive(entity),
                )
            },
            old(self).spec_components().placement().dom().contains(entity.spec_id() as nat) ==> {
                &&& !final(self).spec_components().placement().dom().contains(entity.spec_id() as nat)
                &&& final(self).spec_entity_graph().entity_set() == old(self).spec_entity_graph().entity_set().remove(entity)
                &&& final(self).spec_entity_graph().relation_set() == old(self).spec_entity_graph().relation_set().filter(
                    |pc: (Entity, Entity)| pc.0 != entity && pc.1 != entity,
                )
            },
            final(self).spec_components().placement().dom().subset_of(old(self).spec_components().placement().dom()),
            old(self).spec_components().placement().dom().difference(final(self).spec_components().placement().dom())
                .subset_of(ids_of(subtree(old(self).spec_entity_graph(), entity))),
            forall|x: nat| #[trigger] final(self).spec_components().placement().dom().contains(x)
                ==> final(self).spec_components().components_of(x) == old(self).spec_components().components_of(x),
            forall|i: int| 0 <= i < old(self).tape().len() ==> final(self).tape()[i] == #[trigger] old(self).tape()[i],
            records_within(final(self).tape(), old(self).tape().len() as int, subtree(old(self).spec_entity_graph(), entity)),
            ids_unique(subtree(old(self).spec_entity_graph(), entity)) ==> forall|x: Entity| #[trigger] reached_through(old(self).spec_entity_graph().relation_set(), old(self).spec_components().placement().dom(), entity, x)
                ==> !final(self).spec_components().placement().dom().contains(x.spec_id() as nat),
            ids_unique(subtree(old(self).spec_entity_graph(), entity)) ==> children_recorded(old(self).spec_entity_graph().relation_set(), subtree(old(self).spec_entity_graph(), entity), old(self).spec_components().placement().dom(), final(self).spec_components().placement().dom(), final(self).tape(), old(self).tape().len() as int),
    {
        let ghost rel = self.entity_graph.relation_set();
        if !self.despawn_recursive_inner(entity, Ghost(entity)) {
            let ghost mid = self.tape@;
            self.tape.push_back(Command::DespawnRecursive(entity));
            proof {
                assert forall|k: int| #![trigger self.tape()[k]] old(self).tape().len() <= k < self.tape().len() implies exists|x: Entity|
                    #[trigger] subtree(old(self).spec_entity_graph(), entity).contains(x) && self.tape()[k] == Command::DespawnRecursive(x) by {
                    if k < mid.len() {
                        assert(self.tape()[k] == mid[k]);
                    } else {
                        assert(subtree(old(self).spec_entity_graph(), entity).contains(entity));
                    }
                }
                assert(records_within(self.tape(), old(self).tape().len() as int, subtree(old(self).spec_entity_graph(), entity)));
                if ids_unique(subtree(old(self).spec_entity_graph(), entity)) {
                    assert forall|x: Entity, c: Entity|
                        #[trigger] subtree(old(self).spec_entity_graph(), entity).contains(x) && #[trigger] rel.contains((x, c)) && old(self).spec_components().placement().dom().contains(x.spec_id() as nat)
                            && !final(self).spec_components().placement().dom().contains(x.spec_id() as nat) && !old(self).spec_components().placement().dom().contains(c.spec_id() as nat) implies exists|k: int|
                            old(self).tape().len() <= k < self.tape().len() && self.tape()[k] == Command::DespawnRecursive(c) by {
                    }
                }
            }
        } else {
            let ghost mid = *self;
            self.entity_graph.remove_entity(entity);
            proof {
                assert(self.tape() == mid.tape());
                assert(records_within(mid.tape(), old(self).tape().len() as int, subtree(old(self).spec_entity_graph(), entity)));
                assert(records_within(self.tape(), old(self).tape().len() as int, subtree(old(self).spec_entity_graph(), entity)));
            }
        }
        proof {
            if ids_unique(subtree(old(self).spec_entity_graph(), entity)) {
                assert(subtree(old(self).spec_entity_graph(), entity) =~= below_and(rel, entity));
                assert forall|x: Entity| #[trigger] reached_through(rel, old(self).spec_components().placement().dom(), entity, x)
                    implies !final(self).spec_components().placement().dom().contains(x.spec_id() as nat) by {
                    if x != entity {
                        let path = choose|path: Seq<Entity>|
                            #![trigger is_path(rel, path)]
                            path.len() >= 2 && path[0] == entity && path[path.len() - 1] == x && is_path(rel, path)
                                && forall|i: int| 0 <= i < path.len() - 1 ==> old(self).spec_components().placement().dom().contains(#[trigger] path[i].spec_id() as nat);
                        lemma_reached_cleared(rel, entity, old(self).spec_components().placement().dom(), final(self).spec_components().placement().dom(), path, path.len() - 1);
                    }
                }
            }
        }
    }

    /// The entities and relations the world's graph starts from when the changes are carried
    /// out: the world's, with the store's entities added.
    pub open spec fn start_state(&self, world: World) -> WorldState {
        (
            world.entity_graph.entity_set().union(self.spec_entity_graph().entity_set()),
            world.entity_graph.relation_set(),
            world.components.placement().dom().union(
                self.spec_components().living().dom().difference(world.components.living().dom()),
            ),
            self.spec_components().living().union_prefer_right(world.components.living()),
        )
    }

    /// The components of entity `x` once the store's components have joined the world's: the
    /// world's for an entity the world had placed, the store's for one new to the world.
    pub open spec fn merged_components_of(&self, world: World, x: nat) -> Map<DynamicId, Data> {
        if world.components.placement().dom().contains(x) {
            world.components.components_of(x)
        } else {
            self.spec_components().components_of(x)
        }
    }

    /// Carries the recorded work over to the world: the store's entities and components join
    /// the world's, the store's entities join the world's graph, and then the recorded changes
    /// are carried out in the order they were recorded.
    pub fn finalize(self, world: &mut World)
        requires
            old(world).wf(),
            self.wf(),
            old(world).components.spec_registry().named().is_prefix_of(self.spec_components().spec_registry().named()),
            old(world).components.spec_registry().next() <= self.spec_components().spec_registry().next(),
            forall|e: nat| #[trigger] self.spec_components().living().dom().contains(e)
                && !old(world).components.living().dom().contains(e)
                ==> self.spec_components().placement().dom().contains(e) && !old(world).components.placement().dom().contains(e),
            old(world).components.spec_archetypes().len() + self.spec_components().living().dom().len() + 1 < usize::MAX,
            generations_bounded(old(world).components),
            generations_bounded(self.spec_components()),
            old(world).entity_graph.node_slots() + self.spec_entity_graph().entity_set().len() + 2 * self.tape().len() <= u32::MAX,
            old(world).entity_graph.edge_slots() + self.tape().len() <= u32::MAX,
            replayable(self.start_state(*old(world)), self.tape()),
        ensures
            final(world).wf(),
            final(world).entity_graph.entity_set() == replayed(self.start_state(*old(world)), self.tape()).0,
            final(world).entity_graph.relation_set() == replayed(self.start_state(*old(world)), self.tape()).1,
            final(world).components.placement().dom() == replayed(self.start_state(*old(world)), self.tape()).2,
            final(world).components.living() == replayed(self.start_state(*old(world)), self.tape()).3,
            forall|x: nat| #[trigger] final(world).components.placement().dom().contains(x)
                ==> final(world).components.components_of(x) == self.merged_components_of(*old(world), x),
            final(world).components.spec_registry().next() == self.spec_components().spec_registry().next(),
            final(world).resources == old(world).resources,
    {
        let ghost start = self.start_state(*old(world));
        let ghost w0 = *old(world);
        let ghost me = self;
        let Commands { components, entity_graph, tape } = self;
        world.components.merge(components);
        proof {
            let cm = world.components;
            assert(cm.placement().dom() =~= start.2);
            assert(cm.living() =~= start.3);
            assert forall|x: nat| #[trigger] cm.placement().dom().contains(x)
                implies cm.components_of(x) == me.merged_components_of(w0, x) by {
                if !w0.components.placement().dom().contains(x) {
                    assert(components.living().dom().contains(x) && !w0.components.living().dom().contains(x));
                }
            }
            assert forall|x: nat| #[trigger] cm.placement().dom().contains(x) implies cm.generations()[x] < u32::MAX by {
                let restricted = components.generations().restrict(
                    components.living().dom().difference(w0.components.living().dom()),
                );
                if w0.components.placement().dom().contains(x) {
                    assert(!(components.living().dom().contains(x) && !w0.components.living().dom().contains(x)));
                    w0.components.lemma_placed(x);
                    assert(!restricted.dom().contains(x));
                    assert(cm.generations()[x] == w0.components.generations()[x]);
                } else {
                    assert(components.placement().dom().contains(x));
                    components.lemma_placed(x);
                    assert(restricted.dom().contains(x));
                    assert(cm.generations()[x] == components.generations()[x]);
                }
            }
        }
        let ents = entity_graph.entities();
        let ghost k = entity_graph.entity_set().len();
        proof {
            ents@.unique_seq_to_set();
            assert(ents@.to_set() =~= entity_graph.entity_set());
        }
        let ghost n0 = w0.entity_graph.node_slots();
        let ghost e0 = w0.entity_graph.edge_slots();
        let mut j: usize = 0;
        while j < ents.len()
            invariant
                world.wf(),
                0 <= j <= ents.len(),
                ents.len() == k,
                world.entity_graph.relation_set() == w0.entity_graph.relation_set(),
                world.entity_graph.entity_set() == w0.entity_graph.entity_set().union(ents@.take(j as int).to_set()),
                world.entity_graph.node_slots() <= n0 + j,
                world.entity_graph.edge_slots() == e0,
                generations_bounded(world.components),
                world.components.placement().dom() == start.2,
                world.components.living() == start.3,
                forall|x: nat| #[trigger] world.components.placement().dom().contains(x)
                    ==> world.components.components_of(x) == me.merged_components_of(w0, x),
                world.components.spec_registry().next() == me.spec_components().spec_registry().next(),
                world.resources == w0.resources,
                n0 + k + 2 * tape@.len() <= u32::MAX,
            decreases ents.len() - j,
        {
            let e = ents[j];
            world.entity_graph.add_entity(e);
            proof {
                assert(ents@.take(j + 1).to_set() =~= ents@.take(j as int).to_set().insert(e)) by {
                    let a = ents@.take(j as int);
                    let b = ents@.take(j + 1);
                    assert(b =~= a.push(e));
                    assert forall|x: Entity| b.to_set().contains(x) <==> a.to_set().insert(e).contains(x) by {
                        if b.contains(x) {
                            let q = choose|q: int| 0 <= q < b.len() && b[q] == x;
                            if q < a.len() {
                                assert(a[q] == x);
                            }
                        }
                        if a.contains(x) {
                            let q = choose|q: int| 0 <= q < a.len() && a[q] == x;
                            assert(b[q] == x);
                        }
                        if x == e {
                            assert(b[j as int] == x);
                        }
                    }
                }
                assert(world.entity_graph.entity_set() =~= w0.entity_graph.entity_set().union(ents@.take(j + 1).to_set()));
            }
            j = j + 1;
        }
        proof {
            assert(ents@.take(ents.len() as int) =~= ents@);
            assert(world.entity_graph.entity_set() =~= start.0);
            assert(tape@.take(0) =~= Seq::<Command>::empty());
        }
        let n = tape.len();
        let mut i: usize = 0;
        while i < n
            invariant
                world.wf(),
                0 <= i <= n,
                n == tape@.len(),
                tape@ == me.tape(),
                replayable(start, tape@),
                world.entity_graph.entity_set() == replayed(start, tape@.take(i as int)).0,
                world.entity_graph.relation_set() == replayed(start, tape@.take(i as int)).1,
                world.components.placement().dom() == replayed(start, tape@.take(i as int)).2,
                world.components.living() == replayed(start, tape@.take(i as int)).3,
                forall|x: nat| #[trigger] world.components.placement().dom().contains(x)
                    ==> world.components.components_of(x) == me.merged_components_of(w0, x),
                world.entity_graph.node_slots() <= n0 + k + 2 * i,
                world.entity_graph.edge_slots() <= e0 + i,
                n0 + k + 2 * n <= u32::MAX,
                e0 + n <= u32::MAX,
                generations_bounded(world.components),
                world.components.spec_registry().next() == me.spec_components().spec_registry().next(),
                world.resources == w0.resources,
            decreases n - i,
        {
            let command = tape[i];
            let ghost before = *world;
            let ghost s0 = replayed(start, tape@.take(i as int));
            proof {
                assert(tape@.take(i + 1).drop_last() =~= tape@.take(i as int));
                assert(replayed(start, tape@.take(i + 1)) == state_after(s0, command));
            }
            match command {
                Command::Despawn(e) => {
                    world.despawn(e);
                    proof {
                        assert forall|x: nat| #[trigger] world.components.placement().dom().contains(x)
                            implies world.components.generations()[x] < u32::MAX by {
                            assert(before.components.placement().dom().contains(x));
                            before.components.lemma_placed(x);
                            assert(x != e.spec_id());
                            assert(world.components.generations().dom().contains(x)
                                == before.components.generations().dom().contains(x));
                        }
                    }
                },
                Command::DespawnRecursive(e) => {
                    proof {
                        assert(acyclic_from(s0.1, e)) by {
                            assert(replayable(start, tape@));
                            let c = tape@[i as int];
                        }
                        assert(subtree(world.entity_graph, e) =~= below_and(s0.1, e));
                    }
                    world.despawn_recursive(e);
                },
                Command::AddChild(p, c) => {
                    world.add_relation(&p, &c);
                },
                Command::RemoveChild(p, c) => {
                    world.entity_graph.remove_relation(p, c);
                },
                Command::AddSibling(_, _) => {},
                Command::RemoveSibling(_, _) => {},
            }
            proof {
                let s1 = state_after(s0, command);
                assert(world.entity_graph.entity_set() =~= s1.0);
                assert(world.entity_graph.relation_set() =~= s1.1);
                assert(world.components.placement().dom() =~= s1.2);
                assert(world.components.living() =~= s1.3);
                assert forall|x: nat| #[trigger] world.components.placement().dom().contains(x)
                    implies world.components.components_of(x) == me.merged_components_of(w0, x) by {
                    assert(before.components.placement().dom().contains(x));
                }
            }
            i = i + 1;
        }
        proof {
            assert(tape@.take(n as int) =~= tape@);
        }
    }

    /// Records that `child` is to become a child of `parent` in the world.
    pub fn add_child(&mut self, parent: Entity, child: Entity)
        ensures
            final(self).tape() == old(self).tape().push(Command::AddChild(parent, child)),
            final(self).spec_components() == old(self).spec_components(),
            final(self).spec_entity_graph() == old(self).spec_entity_graph(),
    {
        self.tape.push_back(Command::AddChild(parent, child));
    }

    /// Records that `child` is to stop being a child of `parent` in the world.
    pub fn remove_child(&mut self, parent: Entity, child: Entity)
        ensures
            final(self).tape() == old(self).tape().push(Command::RemoveChild(parent, child)),
            final(self).spec_components() == old(self).spec_components(),
            final(self).spec_entity_graph() == old(self).spec_entity_graph(),
    {
        self.tape.push_back(Command::RemoveChild(parent, child));
    }

    /// Records that `entity` is to become a sibling of `sibling` in the world.
    pub fn add_sibling(&mut self, sibling: Entity, entity: Entity)
        ensures
            final(self).tape() == old(self).tape().push(Command::AddSibling(sibling, entity)),
            final(self).spec_components() == old(self).spec_components(),
            final(self).spec_entity_graph() == old(self).spec_entity_graph(),
    {
        self.tape.push_back(Command::AddSibling(sibling, entity));
    }

    /// Records that `entity` is to stop being a sibling of `sibling` in the world.
    pub fn remove_sibling(&mut self, sibling: Entity, entity: Entity)
        ensures
            final(self).tape() == old(self).tape().push(Command::RemoveSibling(sibling, entity)),
            final(self).spec_components() == old(self).spec_components(),
            final(self).spec_entity_graph() == old(self).spec_entity_graph(),
    {
        self.tape.push_back(Command::RemoveSibling(sibling, entity));
    }
}

} // verus!
