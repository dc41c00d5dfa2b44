//! The world: entities with their components, the relations between entities, and the
//! resources, which are components that belong to no entity.
use vstd::prelude::*;

use crate::component::Data;
use crate::entity::Entity;
use crate::entity_graph::{acyclic_from, descends, EntityGraph};
use crate::registry::DynamicId;
use crate::storage::{Components, SparseSet};

verus! {

/// Why a resource request was refused.
#[derive(Debug, Clone, Copy, PartialEq, Eq, Structural)]
pub enum ResourceError {
    /// A resource of that type is there already.
    AlreadyExists,
    /// No resource of that type is there.
    Missing,
}

/// Entities, their relations and the resources, keyed by type id.
pub struct World {
    pub components: Components,
    pub entity_graph: EntityGraph,
    pub resources: SparseSet<DynamicId, Data>,
}

/// The entity and every entity below it.
pub open spec fn subtree(graph: EntityGraph, entity: Entity) -> Set<Entity> {
    Set::new(|x: Entity| x == entity || descends(graph.relation_set(), entity, x))
}

/// The first `k` entities of `list`.
pub open spec fn done_set(list: Seq<Entity>, k: int) -> Set<Entity> {
    Set::new(|x: Entity| exists|j: int| 0 <= j < k && list[j] == x)
}

/// Every entity with components can be despawned once more: its generation can advance.
pub open spec fn generations_bounded(c: Components) -> bool {
    forall|x: nat| #[trigger] c.placement().dom().contains(x) ==> c.generations()[x] < u32::MAX
}

/// The ids of a set of entities.
pub open spec fn ids_of(entities: Set<Entity>) -> Set<nat> {
    Set::new(|e: nat| exists|x: Entity| #[trigger] entities.contains(x) && x.spec_id() as nat == e)
}

impl World {
    pub open spec fn wf(&self) -> bool {
        &&& self.components.wf()
        &&& self.entity_graph.wf()
        &&& self.resources.wf()
    }

    /// A world without entities or resources, whose registry knows the builtin types.
    pub fn new() -> (w: Self)
        ensures
            w.wf(),
            w.components.living() == Map::<nat, Entity>::empty(),
            w.components.placement() == Map::<nat, usize>::empty(),
            w.entity_graph.entity_set() == Set::<Entity>::empty(),
            w.entity_graph.relation_set() == Set::<(Entity, Entity)>::empty(),
            w.resources@ == Map::<nat, Data>::empty(),
    {
        World {
            components: Components::new(),
            entity_graph: EntityGraph::default(),
            resources: SparseSet::new(),
        }
    }

    /// A new living entity, without components and without relations.
    pub fn create_entity(&mut self) -> (e: Entity)
        requires
            old(self).wf(),
            old(self).components.spec_registry().next() < u32::MAX,
            old(self).entity_graph.node_slots() < u32::MAX,
        ensures
            final(self).wf(),
            e.spec_id() == old(self).components.spec_registry().next(),
            e.spec_generation() == 0,
            final(self).components.living() == old(self).components.living().insert(e.spec_id() as nat, e),
            final(self).components.placement() == old(self).components.placement(),
            final(self).entity_graph.entity_set() == old(self).entity_graph.entity_set().insert(e),
            final(self).entity_graph.relation_set() == old(self).entity_graph.relation_set(),
            final(self).resources == old(self).resources,
    {
        let entity = self.components.create_entity();
        self.entity_graph.add_entity(entity);
        entity
    }

    /// Gives the entity one more component.
    pub fn add_dynamic_component(&mut self, entity: &Entity, component: Data)
        requires
            old(self).wf(),
            old(self).components.generations().dom().contains(entity.spec_id() as nat),
            (component.type_id as nat) < usize::MAX,
            old(self).components.placement().dom().contains(entity.spec_id() as nat)
                ==> !old(self).components.components_of(entity.spec_id() as nat).dom().contains(component.type_id),
            old(self).components.spec_archetypes().len() + 1 < usize::MAX,
        ensures
            final(self).wf(),
            final(self).components.placement().dom() == old(self).components.placement().dom().insert(entity.spec_id() as nat),
            final(self).components.components_of(entity.spec_id() as nat) == (if old(self).components.placement().dom().contains(
                entity.spec_id() as nat,
            ) {
                old(self).components.components_of(entity.spec_id() as nat)
            } else {
                Map::empty()
            }).insert(component.type_id, component),
            forall|x: nat| x != entity.spec_id() && #[trigger] old(self).components.placement().dom().contains(x)
                ==> final(self).components.components_of(x) == old(self).components.components_of(x),
            final(self).components.living() == old(self).components.living(),
            final(self).components.spec_archetypes().len() <= old(self).components.spec_archetypes().len() + 1,
            final(self).entity_graph == old(self).entity_graph,
            final(self).resources == old(self).resources,
    {
        self.components.add_dynamic_component(entity, component);
    }

    /// Makes `child` a child of `parent`; false when it was one already.
    pub fn add_relation(&mut self, parent: &Entity, child: &Entity) -> (added: bool)
        requires
            old(self).wf(),
            old(self).entity_graph.node_slots() + old(self).entity_graph.missing(*parent, *child) <= u32::MAX,
            !old(self).entity_graph.relation_set().contains((*parent, *child)) ==> old(self).entity_graph.edge_slots() < u32::MAX,
        ensures
            final(self).wf(),
            added == !old(self).entity_graph.relation_set().contains((*parent, *child)),
            final(self).entity_graph.entity_set() == old(self).entity_graph.entity_set().insert(*parent).insert(*child),
            final(self).entity_graph.relation_set() == old(self).entity_graph.relation_set().insert((*parent, *child)),
            final(self).entity_graph.node_slots() <= old(self).entity_graph.node_slots() + old(self).entity_graph.missing(*parent, *child),
            final(self).entity_graph.edge_slots() <= old(self).entity_graph.edge_slots() + 1,
            final(self).components == old(self).components,
            final(self).resources == old(self).resources,
    {
        self.entity_graph.add_relation(*parent, *child)
    }

    /// Removes the entity's components (when it has any; it then stops living and its
    /// generation advances) and the entity itself from the relations.
    pub fn despawn(&mut self, entity: Entity)
        requires
            old(self).wf(),
            old(self).components.placement().dom().contains(entity.spec_id() as nat)
                ==> old(self).components.generations()[entity.spec_id() as nat] < u32::MAX,
        ensures
            final(self).wf(),
            final(self).components.placement() == old(self).components.placement().remove(entity.spec_id() as nat),
            final(self).components.living() == (if old(self).components.placement().dom().contains(entity.spec_id() as nat) {
                old(self).components.living().remove(entity.spec_id() as nat)
            } else {
                old(self).components.living()
            }),
            forall|x: nat| x != entity.spec_id() ==> #[trigger] final(self).components.generations().dom().contains(x)
                == old(self).components.generations().dom().contains(x) && (old(self).components.generations().dom().contains(x)
                ==> final(self).components.generations()[x] == old(self).components.generations()[x]),
            final(self).components.generations().dom().contains(entity.spec_id() as nat)
                == old(self).components.generations().dom().contains(entity.spec_id() as nat),
            forall|x: nat| x != entity.spec_id() && #[trigger] old(self).components.placement().dom().contains(x)
                ==> final(self).components.components_of(x) == old(self).components.components_of(x),
            final(self).entity_graph.entity_set() == old(self).entity_graph.entity_set().remove(entity),
            final(self).entity_graph.relation_set() == old(self).entity_graph.relation_set().filter(
                |pc: (Entity, Entity)| pc.0 != entity && pc.1 != entity,
            ),
            final(self).entity_graph.node_slots() == old(self).entity_graph.node_slots(),
            final(self).entity_graph.edge_slots() == old(self).entity_graph.edge_slots(),
            final(self).components.spec_registry() == old(self).components.spec_registry(),
            final(self).resources == old(self).resources,
    {
        let ghost c0 = self.components;
        proof {
            if c0.placement().dom().contains(entity.spec_id() as nat) {
                c0.lemma_placed(entity.spec_id() as nat);
            }
        }
        let despawned = self.components.despawn(entity.id());
        proof {
            if despawned {
                assert(self.components.placement() =~= c0.placement().remove(entity.spec_id() as nat));
                assert forall|x: nat| x != entity.spec_id() && #[trigger] c0.placement().dom().contains(x)
                    implies self.components.components_of(x) == c0.components_of(x) by {
                    let b = c0.placement()[x] as int;
                    let a = c0.placement()[entity.spec_id() as nat] as int;
                    c0.lemma_placed(x);
                    if b == a {
                        assert(self.components.components_of(x) =~= c0.components_of(x));
                    } else {
                        assert(self.components.spec_archetypes()[b] == c0.spec_archetypes()[b]);
                        assert(self.components.components_of(x) =~= c0.components_of(x));
                    }
                }
            } else {
                assert(c0.placement().remove(entity.spec_id() as nat) =~= c0.placement());
            }
        }
        self.entity_graph.remove_entity(entity);
    }

    /// Despawns the entity and every entity below it, as `despawn` does each of them.
    pub fn despawn_recursive(&mut self, entity: Entity)
        requires
            old(self).wf(),
            acyclic_from(old(self).entity_graph.relation_set(), entity),
            forall|x: Entity| #[trigger] subtree(old(self).entity_graph, entity).contains(x)
                && old(self).components.placement().dom().contains(x.spec_id() as nat)
                ==> old(self).components.generations()[x.spec_id() as nat] < u32::MAX,
        ensures
            final(self).wf(),
            final(self).components.placement() == old(self).components.placement().remove_keys(
                ids_of(subtree(old(self).entity_graph, entity)),
            ),
            forall|x: nat| !ids_of(subtree(old(self).entity_graph, entity)).contains(x)
                && #[trigger] old(self).components.placement().dom().contains(x)
                ==> final(self).components.components_of(x) == old(self).components.components_of(x),
            final(self).entity_graph.entity_set() == old(self).entity_graph.entity_set().difference(
                subtree(old(self).entity_graph, entity),
            ),
            final(self).entity_graph.relation_set() == old(self).entity_graph.relation_set().filter(
                |pc: (Entity, Entity)|
                    !subtree(old(self).entity_graph, entity).contains(pc.0)
                        && !subtree(old(self).entity_graph, entity).contains(pc.1),
            ),
            final(self).resources == old(self).resources,
            generations_bounded(old(self).components) ==> generations_bounded(final(self).components),
            final(self).entity_graph.node_slots() == old(self).entity_graph.node_slots(),
            final(self).entity_graph.edge_slots() == old(self).entity_graph.edge_slots(),
            final(self).components.spec_registry() == old(self).components.spec_registry(),
            final(self).components.living() == old(self).components.living().remove_keys(
                ids_of(subtree(old(self).entity_graph, entity)).intersect(old(self).components.placement().dom()),
            ),
    {
        let ghost t = subtree(self.entity_graph, entity);
        let mut children = self.entity_graph.get_all_children(entity);
        let ghost below = children@;
        children.push(entity);
        proof {
            assert forall|x: Entity| #[trigger] t.contains(x) implies children@.contains(x) by {
                if x == entity {
                    assert(children@[children@.len() - 1] == entity);
                } else {
                    assert(below.contains(x));
                    let j = choose|j: int| 0 <= j < below.len() && below[j] == x;
                    assert(children@[j] == x);
                }
            }
            assert forall|j: int| 0 <= j < children@.len() implies t.contains(#[trigger] children@[j]) by {
                if j < children@.len() - 1 {
                    assert(descends(old(self).entity_graph.relation_set(), entity, children@[j]));
                }
            }
            assert(done_set(children@, 0) =~= Set::<Entity>::empty());
            assert(ids_of(Set::<Entity>::empty()) =~= Set::<nat>::empty());
            assert(old(self).components.placement().remove_keys(Set::<nat>::empty()) =~= old(self).components.placement());
            assert(old(self).components.living().remove_keys(
                Set::<nat>::empty().intersect(old(self).components.placement().dom()),
            ) =~= old(self).components.living());
            assert(old(self).entity_graph.entity_set().difference(Set::<Entity>::empty()) =~= old(self).entity_graph.entity_set());
            assert(old(self).entity_graph.relation_set().filter(
                |pc: (Entity, Entity)| !Set::<Entity>::empty().contains(pc.0) && !Set::<Entity>::empty().contains(pc.1),
            ) =~= old(self).entity_graph.relation_set());
        }
        let mut i: usize = 0;
        while i < children.len()
            invariant
                self.wf(),
                0 <= i <= children@.len(),
                t == subtree(old(self).entity_graph, entity),
                forall|x: Entity| #[trigger] t.contains(x) ==> children@.contains(x),
                forall|j: int| 0 <= j < children@.len() ==> t.contains(#[trigger] children@[j]),
                self.components.placement() == old(self).components.placement().remove_keys(
                    ids_of(done_set(children@, i as int)),
                ),
                forall|x: nat| !ids_of(done_set(children@, i as int)).contains(x)
                    && #[trigger] old(self).components.placement().dom().contains(x)
                    ==> self.components.components_of(x) == old(self).components.components_of(x),
                forall|x: Entity| #[trigger] t.contains(x) && self.components.placement().dom().contains(x.spec_id() as nat)
                    ==> self.components.generations()[x.spec_id() as nat] < u32::MAX,
                self.entity_graph.entity_set() == old(self).entity_graph.entity_set().difference(
                    done_set(children@, i as int),
                ),
                self.entity_graph.relation_set() == old(self).entity_graph.relation_set().filter(
                    |pc: (Entity, Entity)|
                        !done_set(children@, i as int).contains(pc.0) && !done_set(children@, i as int).contains(pc.1),
                ),
                self.resources == old(self).resources,
                generations_bounded(old(self).components) ==> generations_bounded(self.components),
                self.entity_graph.node_slots() == old(self).entity_graph.node_slots(),
                self.entity_graph.edge_slots() == old(self).entity_graph.edge_slots(),
                self.components.spec_registry() == old(self).components.spec_registry(),
                self.components.living() == old(self).components.living().remove_keys(
                    ids_of(done_set(children@, i as int)).intersect(old(self).components.placement().dom()),
                ),
            decreases children@.len() - i,
        {
            let child = children[i];
            let ghost before = *self;
            let ghost d0 = done_set(children@, i as int);
            let ghost d1 = done_set(children@, i + 1);
            proof {
                assert(t.contains(children@[i as int]));
                assert(d1 =~= d0.insert(child));
                assert(ids_of(d1) =~= ids_of(d0).insert(child.spec_id() as nat)) by {
                    assert forall|e: nat| ids_of(d1).contains(e) implies ids_of(d0).insert(child.spec_id() as nat).contains(e) by {
                        let x = choose|x: Entity| #[trigger] d1.contains(x) && x.spec_id() as nat == e;
                        if x != child {
                            assert(d0.contains(x));
                        }
                    }
                    assert forall|e: nat| ids_of(d0).insert(child.spec_id() as nat).contains(e) implies ids_of(d1).contains(e) by {
                        if e == child.spec_id() as nat {
                            assert(d1.contains(child));
                        } else {
                            let x = choose|x: Entity| #[trigger] d0.contains(x) && x.spec_id() as nat == e;
                            assert(d1.contains(x));
                        }
                    }
                }
            }
            self.despawn(child);
            self.entity_graph.remove_entity(child);
            proof {
                assert(self.components.placement() =~= old(self).components.placement().remove_keys(ids_of(d1)));
                assert(self.components.living() =~= old(self).components.living().remove_keys(
                    ids_of(d1).intersect(old(self).components.placement().dom()),
                ));
                assert forall|x: nat| !ids_of(d1).contains(x) && #[trigger] old(self).components.placement().dom().contains(x)
                    implies self.components.components_of(x) == old(self).components.components_of(x) by {
                    assert(!ids_of(d0).contains(x));
                    assert(before.components.placement().dom().contains(x));
                }
                assert forall|x: Entity| #[trigger] t.contains(x) && self.components.placement().dom().contains(x.spec_id() as nat)
                    implies self.components.generations()[x.spec_id() as nat] < u32::MAX by {
                    assert(x.spec_id() != child.spec_id());
                    assert(before.components.placement().dom().contains(x.spec_id() as nat));
                    before.components.lemma_placed(x.spec_id() as nat);
                    assert(self.components.generations().dom().contains(x.spec_id() as nat)
                        == before.components.generations().dom().contains(x.spec_id() as nat));
                    assert(self.components.generations()[x.spec_id() as nat] == before.components.generations()[x.spec_id() as nat]);
                }
                if generations_bounded(old(self).components) {
                    assert forall|x: nat| #[trigger] self.components.placement().dom().contains(x)
                        implies self.components.generations()[x] < u32::MAX by {
                        assert(before.components.placement().dom().contains(x));
                        before.components.lemma_placed(x);
                        assert(x != child.spec_id());
                        assert(self.components.generations().dom().contains(x)
                            == before.components.generations().dom().contains(x));
                    }
                }
                assert(self.entity_graph.entity_set() =~= old(self).entity_graph.entity_set().difference(d1));
                assert(self.entity_graph.relation_set() =~= old(self).entity_graph.relation_set().filter(
                    |pc: (Entity, Entity)| !d1.contains(pc.0) && !d1.contains(pc.1),
                ));
            }
            i = i + 1;
        }
        proof {
            let d = done_set(children@, children@.len() as int);
            assert(d =~= t) by {
                assert forall|x: Entity| t.contains(x) implies d.contains(x) by {
                    let j = choose|j: int| 0 <= j < children@.len() && children@[j] == x;
                    assert(children@[j] == x);
                }
            }
        }
    }

    /// Adds a resource, unless one of its type is there already.
    pub fn add_dynamic_resource(&mut self, resource: Data) -> (r: Result<(), ResourceError>)
        requires
            old(self).wf(),
            (resource.type_id as nat) < usize::MAX,
        ensures
            final(self).wf(),
            r is Err <==> old(self).resources@.dom().contains(resource.type_id as nat),
            r matches Err(e) ==> e == ResourceError::AlreadyExists && *final(self) == *old(self),
            r is Ok ==> final(self).resources@ == old(self).resources@.insert(resource.type_id as nat, resource),
            final(self).components == old(self).components,
            final(self).entity_graph == old(self).entity_graph,
    {
        let id = resource.type_id;
        if self.resources.contains(&id) {
            return Err(ResourceError::AlreadyExists);
        }
        self.resources.insert(id, resource);
        Ok(())
    }

    /// The resource of the type.
    pub fn dynamic_resource(&self, id: DynamicId) -> (r: Result<&Data, ResourceError>)
        requires
            self.wf(),
        ensures
            r is Ok <==> self.resources@.dom().contains(id as nat),
            r matches Ok(d) ==> *d == self.resources@[id as nat],
            r matches Err(e) ==> e == ResourceError::Missing,
    {
        match self.resources.get(&id) {
            Some(d) => Ok(d),
            None => Err(ResourceError::Missing),
        }
    }

    /// The resource of the type, to change in place.
    pub fn dynamic_resource_mut(&mut self, id: DynamicId) -> (r: Result<&mut Data, ResourceError>)
        requires
            old(self).wf(),
        ensures
            r is Ok <==> old(self).resources@.dom().contains(id as nat),
            r matches Ok(d) ==> {
                &&& *d == old(self).resources@[id as nat]
                &&& final(self).wf()
                &&& final(self).resources@ == old(self).resources@.insert(id as nat, *final(d))
                &&& final(self).components == old(self).components
                &&& final(self).entity_graph == old(self).entity_graph
            },
            r matches Err(e) ==> e == ResourceError::Missing && *final(self) == *old(self),
    {
        match self.resources.get_mut(&id) {
            Some(d) => Ok(d),
            None => Err(ResourceError::Missing),
        }
    }

    /// The id of a named type: the one it has, or a fresh one that it keeps from now on.
    pub fn named_id(&mut self, name: &str) -> (r: DynamicId)
        requires
            old(self).wf(),
            !old(self).components.spec_registry().has_name(name@) ==> old(self).components.spec_registry().next() < u32::MAX,
        ensures
            final(self).wf(),
            final(self).components.spec_registry().has_name(name@),
            final(self).components.spec_registry().id_of(name@) == r,
            old(self).components.spec_registry().has_name(name@) ==> r == old(self).components.spec_registry().id_of(name@),
            final(self).components.living() == old(self).components.living(),
            final(self).components.placement() == old(self).components.placement(),
            final(self).entity_graph == old(self).entity_graph,
            final(self).resources == old(self).resources,
    {
        self.components.get_named(name)
    }

    /// The id of the type named `name`: the one it was given by this call before, or a fresh
    /// one that the name takes from now on (see `Registry::get_static`).
    pub fn dynamic_id(&mut self, name: &str) -> (r: DynamicId)
        requires
            old(self).wf(),
            !(old(self).components.spec_registry().statics().contains(name@) && old(self).components.spec_registry().has_name(name@))
                ==> old(self).components.spec_registry().next() < u32::MAX,
        ensures
            final(self).wf(),
            final(self).components.spec_registry().has_name(name@),
            final(self).components.spec_registry().id_of(name@) == r,
            old(self).components.spec_registry().statics().contains(name@) && old(self).components.spec_registry().has_name(name@)
                ==> r == old(self).components.spec_registry().id_of(name@),
            !(old(self).components.spec_registry().statics().contains(name@) && old(self).components.spec_registry().has_name(name@))
                ==> r == old(self).components.spec_registry().next(),
            final(self).components.living() == old(self).components.living(),
            final(self).components.placement() == old(self).components.placement(),
            final(self).entity_graph == old(self).entity_graph,
            final(self).resources == old(self).resources,
    {
        self.components.get_static(name)
    }
}

/// A resource that was added is what a read of its type gives back, until it is changed.
pub proof fn law_resource_read_after_add(before: Map<nat, Data>, after: Map<nat, Data>, resource: Data, id: nat)
    requires
        after == before.insert(resource.type_id as nat, resource),
    ensures
        id == resource.type_id as nat ==> after.dom().contains(id) && after[id] == resource,
        id != resource.type_id as nat ==> after.dom().contains(id) == before.dom().contains(id)
            && (before.dom().contains(id) ==> after[id] == before[id]),
{
}

} // verus!
