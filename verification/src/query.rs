use vstd::prelude::*;

use crate::registry::DynamicId;
use crate::storage::{intersect_spec, Archetype, Index, SparseSet};

verus! {

/// The component types that a query reads, writes, requires and excludes.
pub struct QueryAccess {
    pub reads: SparseSet<DynamicId, ()>,
    pub writes: SparseSet<DynamicId, ()>,
    pub withs: SparseSet<DynamicId, ()>,
    pub withouts: SparseSet<DynamicId, ()>,
}

/// The keys of a sequence that a map holds, counted: all of them exactly when the count is
/// the length, and some of them exactly when it is positive.
pub proof fn lemma_intersect_len<I: Index, V>(keys: Seq<I>, m: Map<nat, V>)
    ensures
        intersect_spec(keys, m).len() <= keys.len(),
        intersect_spec(keys, m).len() == keys.len() <==> forall|j: int|
            0 <= j < keys.len() ==> m.dom().contains(#[trigger] keys[j].index_key()),
        intersect_spec(keys, m).len() > 0 <==> exists|j: int|
            0 <= j < keys.len() && m.dom().contains(#[trigger] keys[j].index_key()),
    decreases keys.len(),
{
    if keys.len() > 0 {
        let rest = keys.drop_last();
        lemma_intersect_len(rest, m);
        if intersect_spec(keys, m).len() == keys.len() {
            assert forall|j: int| 0 <= j < keys.len() implies m.dom().contains(#[trigger] keys[j].index_key()) by {
                if j < keys.len() - 1 {
                    assert(rest[j] == keys[j]);
                }
            }
        }
        if forall|j: int| 0 <= j < keys.len() ==> m.dom().contains(#[trigger] keys[j].index_key()) {
            assert forall|j: int| 0 <= j < rest.len() implies m.dom().contains(#[trigger] rest[j].index_key()) by {
                assert(rest[j] == keys[j]);
            }
            assert(m.dom().contains(keys[keys.len() - 1].index_key()));
        }
        if exists|j: int| 0 <= j < keys.len() && m.dom().contains(#[trigger] keys[j].index_key()) {
            let j = choose|j: int| 0 <= j < keys.len() && m.dom().contains(#[trigger] keys[j].index_key());
            if j < keys.len() - 1 {
                assert(rest[j] == keys[j]);
            }
        }
        if intersect_spec(rest, m).len() > 0 {
            let j = choose|j: int| 0 <= j < rest.len() && m.dom().contains(#[trigger] rest[j].index_key());
            assert(rest[j] == keys[j]);
        }
    }
}

impl QueryAccess {
    pub open spec fn wf(&self) -> bool {
        &&& self.reads.wf()
        &&& self.writes.wf()
        &&& self.withs.wf()
        &&& self.withouts.wf()
    }

    /// An access that reads, writes, requires and excludes nothing.
    pub fn new() -> (r: Self)
        ensures
            r.wf(),
            r.reads@ == Map::<nat, ()>::empty(),
            r.writes@ == Map::<nat, ()>::empty(),
            r.withs@ == Map::<nat, ()>::empty(),
            r.withouts@ == Map::<nat, ()>::empty(),
    {
        QueryAccess {
            reads: SparseSet::new(),
            writes: SparseSet::new(),
            withs: SparseSet::new(),
            withouts: SparseSet::new(),
        }
    }

    /// Whether the archetype has every component type that the access reads, writes or
    /// requires, and none that it excludes.
    pub fn matches_archetype(&self, archetype: &Archetype) -> (r: bool)
        requires
            self.wf(),
            archetype.wf(),
        ensures
            r == matches_spec(self, archetype.table().dom()),
            r <==> {
                &&& forall|c: DynamicId| #[trigger] self.withs@.dom().contains(c as nat) ==> archetype.table().dom().contains(c)
                &&& forall|c: DynamicId| #[trigger] self.reads@.dom().contains(c as nat) ==> archetype.table().dom().contains(c)
                &&& forall|c: DynamicId| #[trigger] self.writes@.dom().contains(c as nat) ==> archetype.table().dom().contains(c)
                &&& forall|c: DynamicId| #[trigger] self.withouts@.dom().contains(c as nat) ==> !archetype.table().dom().contains(c)
            },
    {
        proof {
            law_match_means(*self, archetype.table().dom());
        }
        let ids = archetype.component_ids();
        let ghost arch = Set::new(|k: nat| ids@.dom().contains(k));
        proof {
            assert forall|k: nat| ids@.dom().contains(k) <==> exists|c: DynamicId| c as nat == k && archetype.table().dom().contains(c) by {
                if ids@.dom().contains(k) {
                    assert(k <= u32::MAX);
                    let c = k as DynamicId;
                    assert(c as nat == k);
                }
            }
        }
        if !self.withouts.is_empty() && self.withouts.intersection(&ids).len() > 0 {
            proof {
                lemma_intersect_len(self.withouts.keys(), ids@);
                lemma_set_link(&self.withouts, &ids, archetype);
            }
            return false;
        }
        proof {
            lemma_intersect_len(self.withouts.keys(), ids@);
            lemma_set_link(&self.withouts, &ids, archetype);
        }
        if !self.withs.is_empty() && self.withs.intersection(&ids).len() != self.withs.len() {
            proof {
                lemma_intersect_len(self.withs.keys(), ids@);
                lemma_set_link(&self.withs, &ids, archetype);
            }
            return false;
        }
        proof {
            lemma_intersect_len(self.withs.keys(), ids@);
            lemma_set_link(&self.withs, &ids, archetype);
        }
        if !self.reads.is_empty() && self.reads.intersection(&ids).len() != self.reads.len() {
            proof {
                lemma_intersect_len(self.reads.keys(), ids@);
                lemma_set_link(&self.reads, &ids, archetype);
            }
            return false;
        }
        proof {
            lemma_intersect_len(self.reads.keys(), ids@);
            lemma_set_link(&self.reads, &ids, archetype);
        }
        if !self.writes.is_empty() && self.writes.intersection(&ids).len() != self.writes.len() {
            proof {
                lemma_intersect_len(self.writes.keys(), ids@);
                lemma_set_link(&self.writes, &ids, archetype);
            }
            return false;
        }
        proof {
            lemma_intersect_len(self.writes.keys(), ids@);
            lemma_set_link(&self.writes, &ids, archetype);
        }
        true
    }
}

/// The ids of a component set held as plain ids.
pub open spec fn id_set(s: &SparseSet<DynamicId, ()>) -> Set<DynamicId> {
    Set::new(|c: DynamicId| s@.dom().contains(c as nat))
}

/// What [`QueryAccess::matches_archetype`] decides for an archetype with the given component types.
pub open spec fn matches_spec(access: &QueryAccess, arch: Set<DynamicId>) -> bool {
    &&& id_set(&access.withouts).disjoint(arch)
    &&& id_set(&access.withs).subset_of(arch)
    &&& id_set(&access.reads).subset_of(arch)
    &&& id_set(&access.writes).subset_of(arch)
}

proof fn lemma_set_link(s: &SparseSet<DynamicId, ()>, ids: &SparseSet<DynamicId, ()>, archetype: &Archetype)
    requires
        s.wf(),
        forall|c: DynamicId| ids@.dom().contains(c as nat) <==> archetype.table().dom().contains(c),
    ensures
        (forall|j: int| 0 <= j < s.keys().len() ==> ids@.dom().contains(#[trigger] s.keys()[j].index_key()))
            <==> id_set(s).subset_of(archetype.table().dom()),
        (exists|j: int| 0 <= j < s.keys().len() && ids@.dom().contains(#[trigger] s.keys()[j].index_key()))
            <==> !id_set(s).disjoint(archetype.table().dom()),
        s.keys().len() == 0 ==> id_set(s).subset_of(archetype.table().dom()) && id_set(s).disjoint(archetype.table().dom()),
{
    s.lemma_view();
    if forall|j: int| 0 <= j < s.keys().len() ==> ids@.dom().contains(#[trigger] s.keys()[j].index_key()) {
        assert forall|c: DynamicId| id_set(s).contains(c) implies archetype.table().dom().contains(c) by {
            let j = choose|j: int| 0 <= j < s.keys().len() && (#[trigger] s.keys()[j]).index_key() == c as nat;
        }
    }
    if id_set(s).subset_of(archetype.table().dom()) {
        assert forall|j: int| 0 <= j < s.keys().len() implies ids@.dom().contains(#[trigger] s.keys()[j].index_key()) by {
            let c = s.keys()[j];
            assert(id_set(s).contains(c));
        }
    }
    if exists|j: int| 0 <= j < s.keys().len() && ids@.dom().contains(#[trigger] s.keys()[j].index_key()) {
        let j = choose|j: int| 0 <= j < s.keys().len() && ids@.dom().contains(#[trigger] s.keys()[j].index_key());
        let c = s.keys()[j];
        assert(id_set(s).contains(c));
        assert(archetype.table().dom().contains(c));
    }
    if !id_set(s).disjoint(archetype.table().dom()) {
        let c = choose|c: DynamicId| id_set(s).contains(c) && archetype.table().dom().contains(c);
        let j = choose|j: int| 0 <= j < s.keys().len() && (#[trigger] s.keys()[j]).index_key() == c as nat;
        assert(ids@.dom().contains(s.keys()[j].index_key()));
    }
    if s.keys().len() == 0 {
        assert forall|c: DynamicId| !id_set(s).contains(c) by {
            if id_set(s).contains(c) {
                let j = choose|j: int| 0 <= j < s.keys().len() && (#[trigger] s.keys()[j]).index_key() == c as nat;
            }
        }
    }
}

} // verus!

verus! {

/// An access that reads, writes, requires and excludes nothing matches every archetype.
pub proof fn law_empty_access_matches_all(access: QueryAccess, arch: Set<DynamicId>)
    requires
        access.reads@.dom() == Set::<nat>::empty(),
        access.writes@.dom() == Set::<nat>::empty(),
        access.withs@.dom() == Set::<nat>::empty(),
        access.withouts@.dom() == Set::<nat>::empty(),
    ensures
        matches_spec(&access, arch),
{
    assert(id_set(&access.withouts) =~= Set::empty());
    assert(id_set(&access.withs) =~= Set::empty());
    assert(id_set(&access.reads) =~= Set::empty());
    assert(id_set(&access.writes) =~= Set::empty());
}

/// An access matches an archetype exactly when the archetype has every type the access
/// requires, reads or writes, and none of the types it excludes: a type the access requires
/// and the archetype lacks keeps the archetype from matching, as does an excluded type it has.
pub proof fn law_match_means(access: QueryAccess, arch: Set<DynamicId>)
    ensures
        matches_spec(&access, arch) <==> {
            &&& forall|c: DynamicId| #[trigger] access.withs@.dom().contains(c as nat) ==> arch.contains(c)
            &&& forall|c: DynamicId| #[trigger] access.reads@.dom().contains(c as nat) ==> arch.contains(c)
            &&& forall|c: DynamicId| #[trigger] access.writes@.dom().contains(c as nat) ==> arch.contains(c)
            &&& forall|c: DynamicId| #[trigger] access.withouts@.dom().contains(c as nat) ==> !arch.contains(c)
        },
{
    if matches_spec(&access, arch) {
        assert forall|c: DynamicId| #[trigger] access.withs@.dom().contains(c as nat) implies arch.contains(c) by {
            assert(id_set(&access.withs).contains(c));
        }
        assert forall|c: DynamicId| #[trigger] access.reads@.dom().contains(c as nat) implies arch.contains(c) by {
            assert(id_set(&access.reads).contains(c));
        }
        assert forall|c: DynamicId| #[trigger] access.writes@.dom().contains(c as nat) implies arch.contains(c) by {
            assert(id_set(&access.writes).contains(c));
        }
        assert forall|c: DynamicId| #[trigger] access.withouts@.dom().contains(c as nat) implies !arch.contains(c) by {
            assert(id_set(&access.withouts).contains(c));
        }
    }
}

/// Adding component types to an archetype never makes a matching access stop matching, unless
/// an added type is one the access excludes.
pub proof fn law_match_monotone(access: QueryAccess, small: Set<DynamicId>, big: Set<DynamicId>)
    requires
        matches_spec(&access, small),
        small.subset_of(big),
        id_set(&access.withouts).disjoint(big),
    ensures
        matches_spec(&access, big),
{
}

} // verus!
