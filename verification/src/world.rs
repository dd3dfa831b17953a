use vstd::prelude::*;

use std::collections::HashMap;

use crate::components::{lemma_values_for_occurs, swap_removed, values_for, Archetype, Column};
use crate::entity::{Entity, EntityAllocator};

verus! {

broadcast use vstd::std_specs::hash::group_hash_axioms;

/// Where an entity's data lives: the archetype index and the row in it.
pub type EntityLoc = (usize, usize);

/// The number an entity is filed under in a world's location table: slot in
/// the high 32 bits, generation in the low 32 bits.
pub open spec fn entity_key(e: Entity) -> u64 {
    (e.index() as int * 0x1_0000_0000 + e.generation() as int) as u64
}

pub fn key_of(e: Entity) -> (k: u64)
    ensures
        k == entity_key(e),
{
    let i = e.index() as u64;
    let g = e.generation() as u64;
    assert(i * 0x1_0000_0000 + g <= u64::MAX) by (nonlinear_arith)
        requires
            i <= u32::MAX,
            g <= u32::MAX,
    ;
    i * 0x1_0000_0000 + g
}

/// Different handles are filed under different numbers.
pub proof fn lemma_entity_key_injective(a: Entity, b: Entity)
    requires
        entity_key(a) == entity_key(b),
    ensures
        a == b,
{
    assert(a.index() as int * 0x1_0000_0000 + a.generation() as int <= u64::MAX) by (nonlinear_arith)
        requires
            a.index() <= u32::MAX,
            a.generation() <= u32::MAX,
    ;
    assert(b.index() as int * 0x1_0000_0000 + b.generation() as int <= u64::MAX) by (nonlinear_arith)
        requires
            b.index() <= u32::MAX,
            b.generation() <= u32::MAX,
    ;
    Entity::lemma_ext(a, b);
}

/// The whole state of a scene's entities: the allocator of handles, the
/// archetypes that store component values (of payload type `V`, keyed by a
/// component type number), where each entity lives, and the resources
/// (values keyed by a resource type number).
pub struct World<V> {
    entities: EntityAllocator,
    archetypes: Vec<Archetype<V>>,
    entity_map: HashMap<u64, EntityLoc>,
    resources: HashMap<u64, V>,
}

impl<V> Default for World<V> {
    fn default() -> (w: Self)
        ensures
            w.wf(),
            w.is_empty(),
            w.rows_recorded(),
            w.handles_ok(),
    {
        World {
            entities: EntityAllocator::default(),
            archetypes: Vec::new(),
            entity_map: HashMap::new(),
            resources: HashMap::new(),
        }
    }
}

impl<V> World<V> {
    pub closed spec fn allocator(&self) -> EntityAllocator {
        self.entities
    }

    pub closed spec fn archs(&self) -> Seq<Archetype<V>> {
        self.archetypes@
    }

    /// Entity key to location.
    pub closed spec fn locations(&self) -> Map<u64, EntityLoc> {
        self.entity_map@
    }

    pub closed spec fn resource_map(&self) -> Map<u64, V> {
        self.resources@
    }

    /// No slots handed out, no archetypes, no locations, no resources.
    pub open spec fn is_empty(&self) -> bool {
        &&& self.allocator().generations() == Seq::<u32>::empty()
        &&& self.allocator().free_slots() == Seq::<u32>::empty()
        &&& self.archs() == Seq::<Archetype<V>>::empty()
        &&& self.locations() == Map::<u64, EntityLoc>::empty()
        &&& self.resource_map() == Map::<u64, V>::empty()
    }

    /// Where `e` lives, if anywhere.
    pub open spec fn location(&self, e: Entity) -> Option<EntityLoc> {
        if self.locations().contains_key(entity_key(e)) {
            Some(self.locations()[entity_key(e)])
        } else {
            None
        }
    }

    /// The value of component `tid` of entity `e`, if `e` has a location
    /// whose archetype holds a value of that type in `e`'s row.
    pub open spec fn component(&self, e: Entity, tid: u64) -> Option<V> {
        match self.location(e) {
            Some(loc) => {
                let a = self.archs()[loc.0 as int];
                if a.has_column(tid) && (loc.1 as int) < a.column(tid).len() {
                    Some(a.column(tid)[loc.1 as int])
                } else {
                    None
                }
            },
            None => None,
        }
    }


    /// Every row of every archetype is recorded as that entity's location.
    pub open spec fn rows_recorded(&self) -> bool {
        forall|a: int, r: int|
            0 <= a < self.archs().len() && 0 <= r < self.archs()[a].rows().len() ==> {
                let k = entity_key(#[trigger] self.archs()[a].rows()[r]);
                &&& self.locations().contains_key(k)
                &&& self.locations()[k] == (a as usize, r as usize)
            }
    }


    /// Every archetype holds one value per row in each column.
    pub open spec fn all_dense(&self) -> bool {
        forall|a: int| 0 <= a < self.archs().len() ==> (#[trigger] self.archs()[a]).dense()
    }

    /// Handles are sound: no slot is on the free stack twice, and every
    /// located entity is alive and does not have its slot on the free stack.
    pub open spec fn handles_ok(&self) -> bool {
        &&& self.allocator().free_slots().no_duplicates()
        &&& forall|k: u64|
            #[trigger] self.locations().contains_key(k) ==> {
                let loc = self.locations()[k];
                let x = self.archs()[loc.0 as int].rows()[loc.1 as int];
                &&& self.allocator().is_alive(x)
                &&& !self.allocator().free_slots().contains(x.index())
            }
    }

    /// An archetype in a world has exactly one column per component type.
    pub open spec fn archetype_ok(a: Archetype<V>) -> bool {
        &&& a.wf()
        &&& forall|t: u64| a.has_column(t) <==> a.types().contains(t)
    }

    /// Every recorded location points at a row of an archetype that holds
    /// exactly that entity.
    pub open spec fn locations_ok(&self) -> bool {
        forall|k: u64|
            #[trigger] self.locations().contains_key(k) ==> {
                let loc = self.locations()[k];
                &&& (loc.0 as int) < self.archs().len()
                &&& (loc.1 as int) < self.archs()[loc.0 as int].rows().len()
                &&& entity_key(self.archs()[loc.0 as int].rows()[loc.1 as int]) == k
            }
    }

    pub open spec fn wf(&self) -> bool {
        &&& self.allocator().wf()
        &&& forall|i: int| 0 <= i < self.archs().len() ==> Self::archetype_ok(#[trigger] self.archs()[i])
        &&& self.locations_ok()
    }


    /// The component types of a list of `(component type, value)` pairs, in order.
    pub open spec fn component_types_of(comps: Seq<(u64, V)>) -> Seq<u64> {
        comps.map_values(|p: (u64, V)| p.0)
    }

    /// What building an entity with components `comps` does to a world: the
    /// entity becomes the last row of the first archetype whose component
    /// types include all of the given ones (or of a new archetype with
    /// exactly those types), each value is appended to the column of its
    /// type, and the entity's location is recorded.
    pub open spec fn build_post(before: Self, e: Entity, comps: Seq<(u64, V)>, after: Self) -> bool {
        let types = Self::component_types_of(comps);
        let m = Self::first_match(before.archs(), types);
        let a = Self::build_target(before.archs(), types);
        let base_rows = Self::build_base_rows(before.archs(), types);
        &&& after.allocator() == before.allocator()
        &&& after.resource_map() == before.resource_map()
        &&& after.locations() == before.locations().insert(
            entity_key(e),
            (a as usize, base_rows.len() as usize),
        )
        &&& after.archs().len() == (if m is Some {
            before.archs().len() as int
        } else {
            before.archs().len() + 1 as int
        })
        &&& forall|q: int|
            0 <= q < before.archs().len() && q != a ==> #[trigger] after.archs()[q]
                == before.archs()[q]
        &&& after.archs()[a].types() == (match m {
            Some(i) => before.archs()[i].types(),
            None => types,
        })
        &&& after.archs()[a].rows() == base_rows.push(e)
        &&& forall|t: u64|
            #[trigger] after.archs()[a].has_column(t) ==> after.archs()[a].column(t)
                == Self::build_base_column(before.archs(), types, t) + values_for(comps, t)
    }

    /// The index of the archetype an entity with component types `types` joins.
    pub open spec fn build_target(archs: Seq<Archetype<V>>, types: Seq<u64>) -> int {
        match Self::first_match(archs, types) {
            Some(i) => i,
            None => archs.len() as int,
        }
    }

    /// The rows of that archetype before the entity joins it.
    pub open spec fn build_base_rows(archs: Seq<Archetype<V>>, types: Seq<u64>) -> Seq<Entity> {
        match Self::first_match(archs, types) {
            Some(i) => archs[i].rows(),
            None => Seq::<Entity>::empty(),
        }
    }

    /// Column `t` of that archetype before the entity joins it.
    pub open spec fn build_base_column(archs: Seq<Archetype<V>>, types: Seq<u64>, t: u64) -> Seq<V> {
        match Self::first_match(archs, types) {
            Some(i) => archs[i].column(t),
            None => Seq::<V>::empty(),
        }
    }

    /// The archetype count fits in `usize`.
    pub proof fn lemma_bounds(&self)
        ensures
            self.archs().len() <= usize::MAX,
    {
        assert(self.archetypes.len() == self.archetypes@.len());
    }

    /// Well-formedness only depends on the allocator, archetypes and locations.
    pub proof fn lemma_wf_frame(before: Self, after: Self)
        requires
            before.wf(),
            after.allocator().wf(),
            after.archs() == before.archs(),
            after.locations() == before.locations(),
        ensures
            after.wf(),
    {
        assert forall|q: int| 0 <= q < after.archs().len() implies Self::archetype_ok(#[trigger] after.archs()[q]) by {
            assert(Self::archetype_ok(before.archs()[q]));
        }
        assert forall|kk: u64| #[trigger] after.locations().contains_key(kk) implies {
            let loc = after.locations()[kk];
            &&& (loc.0 as int) < after.archs().len()
            &&& (loc.1 as int) < after.archs()[loc.0 as int].rows().len()
            &&& entity_key(after.archs()[loc.0 as int].rows()[loc.1 as int]) == kk
        } by {
            assert(before.locations().contains_key(kk));
        }
    }

    /// The first archetype (by position) whose component types include all of `types`.
    pub open spec fn first_match(archs: Seq<Archetype<V>>, types: Seq<u64>) -> Option<int> {
        if exists|i: int| 0 <= i < archs.len() && #[trigger] archs[i].spec_matches(types) {
            Some(
                choose|i: int|
                    0 <= i < archs.len() && #[trigger] archs[i].spec_matches(types) && forall|j: int|
                        0 <= j < i ==> !(#[trigger] archs[j].spec_matches(types)),
            )
        } else {
            None
        }
    }


    /// A matching archetype below or at `i` exists, so a first one exists.
    pub proof fn lemma_minimal_match(archs: Seq<Archetype<V>>, types: Seq<u64>, i: int)
        requires
            0 <= i < archs.len(),
            archs[i].spec_matches(types),
        ensures
            exists|c: int|
                0 <= c < archs.len() && #[trigger] archs[c].spec_matches(types) && forall|j: int|
                    0 <= j < c ==> !(#[trigger] archs[j].spec_matches(types)),
        decreases i,
    {
        if exists|j: int| 0 <= j < i && #[trigger] archs[j].spec_matches(types) {
            let j = choose|j: int| 0 <= j < i && #[trigger] archs[j].spec_matches(types);
            Self::lemma_minimal_match(archs, types, j);
        } else {
            assert(forall|j: int| 0 <= j < i ==> !(#[trigger] archs[j].spec_matches(types)));
        }
    }

    /// `first_match` names the first matching archetype.
    pub proof fn lemma_first_match(archs: Seq<Archetype<V>>, types: Seq<u64>)
        ensures
            Self::first_match(archs, types) matches Some(c) ==> 0 <= c < archs.len()
                && archs[c].spec_matches(types) && forall|j: int|
                0 <= j < c ==> !(#[trigger] archs[j].spec_matches(types)),
            Self::first_match(archs, types) is None ==> forall|j: int|
                0 <= j < archs.len() ==> !(#[trigger] archs[j].spec_matches(types)),
    {
        if exists|i: int| 0 <= i < archs.len() && #[trigger] archs[i].spec_matches(types) {
            let i = choose|i: int| 0 <= i < archs.len() && #[trigger] archs[i].spec_matches(types);
            Self::lemma_minimal_match(archs, types, i);
        }
    }

    /// The archetype an entity with component types `types` joins is the first
    /// one, by position, whose component types include every type of `types`
    /// (as sets: order and repetition do not matter); when no archetype
    /// includes them all, none is chosen.
    pub proof fn lemma_first_match_is_first_superset(archs: Seq<Archetype<V>>, types: Seq<u64>)
        ensures
            Self::first_match(archs, types) matches Some(c) ==> {
                &&& 0 <= c && c < archs.len()
                &&& types.to_set().subset_of(archs[c].types().to_set())
                &&& forall|j: int|
                    0 <= j && j < c ==> !types.to_set().subset_of(#[trigger] archs[j].types().to_set())
            },
            Self::first_match(archs, types) is None ==> forall|i: int|
                0 <= i && i < archs.len() ==> !types.to_set().subset_of(#[trigger] archs[i].types().to_set()),
    {
        Self::lemma_first_match(archs, types);
        let m = Self::first_match(archs, types);
        if m is Some {
            let c = m->0;
            archs[c].lemma_matches_is_subset(types);
            assert forall|j: int| 0 <= j && j < c implies !types.to_set().subset_of(
                #[trigger] archs[j].types().to_set(),
            ) by {
                archs[j].lemma_matches_is_subset(types);
            }
        } else {
            assert forall|i: int| 0 <= i && i < archs.len() implies !types.to_set().subset_of(
                #[trigger] archs[i].types().to_set(),
            ) by {
                archs[i].lemma_matches_is_subset(types);
            }
        }
    }

    /// Which archetype an entity joins depends only on the set of its
    /// component types, not on their order or repetition.
    pub proof fn lemma_first_match_order_free(archs: Seq<Archetype<V>>, t1: Seq<u64>, t2: Seq<u64>)
        requires
            t1.to_set() == t2.to_set(),
        ensures
            Self::first_match(archs, t1) == Self::first_match(archs, t2),
    {
        Self::lemma_first_match_is_first_superset(archs, t1);
        Self::lemma_first_match_is_first_superset(archs, t2);
        match (Self::first_match(archs, t1), Self::first_match(archs, t2)) {
            (Some(c1), Some(c2)) => {
                if c1 < c2 {
                    assert(!t2.to_set().subset_of(archs[c1].types().to_set()));
                } else if c2 < c1 {
                    assert(!t1.to_set().subset_of(archs[c2].types().to_set()));
                }
            },
            (Some(c1), None) => {
                assert(!t2.to_set().subset_of(archs[c1].types().to_set()));
            },
            (None, Some(c2)) => {
                assert(!t1.to_set().subset_of(archs[c2].types().to_set()));
            },
            (None, None) => {},
        }
    }

    /// The first archetype whose component types include all of `type_ids`;
    /// when there is none, a new empty archetype with exactly those component
    /// types (one column per distinct type) is appended. Returns its index.
    pub fn find_or_create_archetype(&mut self, type_ids: &[u64]) -> (r: usize)
        requires
            old(self).wf(),
        ensures
            final(self).wf(),
            final(self).allocator() == old(self).allocator(),
            final(self).locations() == old(self).locations(),
            final(self).resource_map() == old(self).resource_map(),
            (r as int) < final(self).archs().len(),
            Self::first_match(old(self).archs(), type_ids@) matches Some(i) ==> r == i
                && final(self).archs() == old(self).archs(),
            Self::first_match(old(self).archs(), type_ids@) is None ==> {
                let a = final(self).archs()[r as int];
                &&& r == old(self).archs().len()
                &&& final(self).archs().drop_last() == old(self).archs()
                &&& a.types() == type_ids@
                &&& a.rows() == Seq::<Entity>::empty()
                &&& forall|j: int| 0 <= j && j < a.cols().len() ==> (#[trigger] a.cols()[j]).values().len() == 0
            },
            forall|j: int|
                0 <= j && j < r && j < old(self).archs().len() ==> !type_ids@.to_set().subset_of(
                    #[trigger] old(self).archs()[j].types().to_set(),
                ),
            (r as int) < old(self).archs().len() ==> {
                &&& final(self).archs() == old(self).archs()
                &&& type_ids@.to_set().subset_of(old(self).archs()[r as int].types().to_set())
            },
            (r as int) >= old(self).archs().len() ==> {
                &&& r == old(self).archs().len()
                &&& final(self).archs().drop_last() == old(self).archs()
                &&& final(self).archs()[r as int].types() == type_ids@
                &&& forall|j: int|
                    0 <= j && j < old(self).archs().len() ==> !type_ids@.to_set().subset_of(
                        #[trigger] old(self).archs()[j].types().to_set(),
                    )
            },
    {
        proof {
            Self::lemma_first_match_is_first_superset(old(self).archs(), type_ids@);
        }
        let mut i: usize = 0;
        while i < self.archetypes.len()
            invariant
                *self == *old(self),
                old(self).wf(),
                0 <= i <= self.archs().len(),
                forall|j: int| 0 <= j < i ==> !(#[trigger] self.archs()[j].spec_matches(type_ids@)),
            decreases self.archs().len() - i,
        {
            if self.archetypes[i].matches(type_ids) {
                proof {
                    let m = Self::first_match(self.archs(), type_ids@);
                    assert(m is Some);
                    let c = m->0;
                    if c < i {
                        assert(!self.archs()[c].spec_matches(type_ids@));
                    }
                    if c > i {
                        assert(!(self.archs()[i as int].spec_matches(type_ids@)));
                    }
                    assert(c == i);
                    Self::lemma_first_match_is_first_superset(self.archs(), type_ids@);
                }
                return i;
            }
            i = i + 1;
        }
        let mut types: Vec<u64> = Vec::new();
        let mut columns: Vec<Column<V>> = Vec::new();
        let mut k: usize = 0;
        while k < type_ids.len()
            invariant
                *self == *old(self),
                old(self).wf(),
                Self::first_match(old(self).archs(), type_ids@) is None,
                0 <= k <= type_ids@.len(),
                types@ == type_ids@.take(k as int),
                forall|a: int, b: int|
                    0 <= a < b < columns@.len() ==> #[trigger] columns@[a].spec_type_id()
                        != #[trigger] columns@[b].spec_type_id(),
                forall|a: int| 0 <= a < columns@.len() ==> (#[trigger] columns@[a]).values().len() == 0,
                forall|t: u64|
                    (exists|a: int| 0 <= a < columns@.len() && #[trigger] columns@[a].spec_type_id() == t)
                        <==> types@.contains(t),
            decreases type_ids@.len() - k,
        {
            let t = type_ids[k];
            let mut seen = false;
            let mut c: usize = 0;
            while c < columns.len()
                invariant
                    0 <= c <= columns@.len(),
                    seen == (exists|a: int| 0 <= a < c && #[trigger] columns@[a].spec_type_id() == t),
                decreases columns@.len() - c,
            {
                if columns[c].type_id() == t {
                    seen = true;
                }
                c = c + 1;
            }
            proof {
                assert(type_ids@.take(k + 1) == type_ids@.take(k as int).push(t));
            }
            if !seen {
                let ghost before = columns@;
                columns.push(Column::new(t));
                proof {
                    assert forall|u: u64|
                        (exists|a: int| 0 <= a < columns@.len() && #[trigger] columns@[a].spec_type_id() == u)
                            <==> types@.push(t).contains(u) by {
                        if types@.push(t).contains(u) {
                            if u == t {
                                assert(columns@[before.len() as int].spec_type_id() == u);
                            } else {
                                assert(types@.contains(u)) by {
                                    let w = choose|w: int| 0 <= w < types@.push(t).len() && types@.push(t)[w] == u;
                                    assert(types@[w] == u);
                                }
                                let a = choose|a: int| 0 <= a < before.len() && #[trigger] before[a].spec_type_id() == u;
                                assert(columns@[a].spec_type_id() == u);
                            }
                        }
                        if exists|a: int| 0 <= a < columns@.len() && #[trigger] columns@[a].spec_type_id() == u {
                            let a = choose|a: int| 0 <= a < columns@.len() && #[trigger] columns@[a].spec_type_id() == u;
                            if a < before.len() {
                                assert(before[a].spec_type_id() == u);
                                assert(types@.contains(u));
                                let w = choose|w: int| 0 <= w < types@.len() && types@[w] == u;
                                assert(types@.push(t)[w] == u);
                            } else {
                                assert(types@.push(t)[types@.len() as int] == u);
                            }
                        }
                    }
                }
            } else {
                proof {
                    assert forall|u: u64|
                        (exists|a: int| 0 <= a < columns@.len() && #[trigger] columns@[a].spec_type_id() == u)
                            <==> types@.push(t).contains(u) by {
                        if types@.push(t).contains(u) {
                            let w = choose|w: int| 0 <= w < types@.push(t).len() && types@.push(t)[w] == u;
                            if w < types@.len() {
                                assert(types@[w] == u);
                            }
                        }
                        if types@.contains(u) {
                            let w = choose|w: int| 0 <= w < types@.len() && types@[w] == u;
                            assert(types@.push(t)[w] == u);
                        }
                    }
                }
            }
            types.push(t);
            k = k + 1;
        }
        proof {
            assert(type_ids@.take(type_ids@.len() as int) == type_ids@);
        }
        let ghost old_archs = self.archetypes@;
        let a = Archetype::new(types, Vec::new(), columns);
        self.archetypes.push(a);
        proof {
            assert(Self::first_match(old_archs, type_ids@) is None);
            assert forall|t: u64| a.has_column(t) <==> a.types().contains(t) by {
                if a.has_column(t) {
                    let j = choose|j: int| 0 <= j < a.cols().len() && #[trigger] a.cols()[j].spec_type_id() == t;
                    assert(0 <= j < columns@.len() && columns@[j].spec_type_id() == t);
                }
            }
            assert(self.archs().drop_last() == old_archs);
            assert forall|q: int| 0 <= q < self.archs().len() implies Self::archetype_ok(#[trigger] self.archs()[q]) by {
                if q < old_archs.len() {
                    assert(self.archs()[q] == old_archs[q]);
                }
            }
            assert forall|key: u64| #[trigger] self.locations().contains_key(key) implies {
                let loc = self.locations()[key];
                &&& (loc.0 as int) < self.archs().len()
                &&& (loc.1 as int) < self.archs()[loc.0 as int].rows().len()
                &&& entity_key(self.archs()[loc.0 as int].rows()[loc.1 as int]) == key
            } by {
                assert(old(self).locations().contains_key(key));
                let loc = self.locations()[key];
                assert(self.archs()[loc.0 as int] == old_archs[loc.0 as int]);
            }
        }
        self.archetypes.len() - 1
    }

    /// Stores `resource` under resource type `key`, replacing any earlier one.
    pub fn insert_resource(&mut self, key: u64, resource: V)
        ensures
            final(self).resource_map() == old(self).resource_map().insert(key, resource),
            final(self).allocator() == old(self).allocator(),
            final(self).archs() == old(self).archs(),
            final(self).locations() == old(self).locations(),
    {
        self.resources.insert(key, resource);
    }

    /// The resource of type `key`, if one is stored.
    pub fn resource(&self, key: u64) -> (r: Option<&V>)
        ensures
            r == (if self.resource_map().contains_key(key) {
                Some(&self.resource_map()[key])
            } else {
                None
            }),
    {
        self.resources.get(&key)
    }

    /// Mutable access to the resource of type `key`, if one is stored;
    /// whatever is written through it becomes the stored resource.
    pub fn resource_mut(&mut self, key: u64) -> (r: Option<&mut V>)
        ensures
            final(self).allocator() == old(self).allocator(),
            final(self).archs() == old(self).archs(),
            final(self).locations() == old(self).locations(),
            old(self).resource_map().contains_key(key) ==> (r matches Some(x) && *x
                == old(self).resource_map()[key] && final(self).resource_map()
                == old(self).resource_map().insert(key, *final(x))),
            !old(self).resource_map().contains_key(key) ==> r is None && final(self).resource_map()
                == old(self).resource_map(),
    {
        match self.resources.entry(key) {
            std::collections::hash_map::Entry::Occupied(e) => Some(e.into_mut()),
            std::collections::hash_map::Entry::Vacant(_) => None,
        }
    }

    /// Takes the resource of type `key` out of the world, if one is stored.
    pub fn remove_resource(&mut self, key: u64) -> (r: Option<V>)
        ensures
            r == old(self).resource_map().get(key),
            final(self).resource_map() == old(self).resource_map().remove(key),
            final(self).allocator() == old(self).allocator(),
            final(self).archs() == old(self).archs(),
            final(self).locations() == old(self).locations(),
    {
        self.resources.remove(&key)
    }

    /// The archetypes, in the order they were made.
    pub fn archetypes_iter(&self) -> (r: &[Archetype<V>])
        ensures
            r@ == self.archs(),
    {
        self.archetypes.as_slice()
    }

    /// Mutable access to the archetype at `index`, if there is one; whatever
    /// it is changed into replaces it.
    pub fn archetype_mut(&mut self, index: usize) -> (r: Option<&mut Archetype<V>>)
        ensures
            final(self).allocator() == old(self).allocator(),
            final(self).locations() == old(self).locations(),
            final(self).resource_map() == old(self).resource_map(),
            (index as int) < old(self).archs().len() ==> (r matches Some(x) && *x
                == old(self).archs()[index as int] && final(self).archs() == old(self).archs().update(
                index as int,
                *final(x),
            )),
            (index as int) >= old(self).archs().len() ==> r is None && final(self).archs()
                == old(self).archs(),
    {
        if index < self.archetypes.len() {
            Some(&mut self.archetypes[index])
        } else {
            None
        }
    }


    /// What despawning `e` does: its slot is freed in the allocator; if it has
    /// a location, its row is removed from that archetype (the last row moves
    /// into its place), its location is dropped, and the entity that moved
    /// is recorded at the freed row.
    pub open spec fn despawn_post(before: Self, e: Entity, after: Self) -> bool {
        &&& EntityAllocator::dealloc_post(before.allocator(), e, after.allocator())
        &&& after.resource_map() == before.resource_map()
        &&& match before.location(e) {
            None => after.archs() == before.archs() && after.locations() == before.locations(),
            Some(loc) => {
                let a = loc.0 as int;
                let r = loc.1 as int;
                let last = before.archs()[a].rows().last();
                &&& after.archs().len() == before.archs().len()
                &&& forall|q: int|
                    0 <= q < before.archs().len() && q != a ==> #[trigger] after.archs()[q]
                        == before.archs()[q]
                &&& Archetype::removed(before.archs()[a], r, after.archs()[a])
                &&& after.locations() == (if last != e {
                    before.locations().remove(entity_key(e)).insert(entity_key(last), loc)
                } else {
                    before.locations().remove(entity_key(e))
                })
            },
        }
    }

    /// Removes `entity` from the world and frees its slot. The slot is freed
    /// even when the handle has no location (a stale or never-built handle).
    pub fn despawn(&mut self, entity: Entity)
        requires
            old(self).wf(),
            (entity.index() as int) < old(self).allocator().generations().len(),
            old(self).allocator().generations()[entity.index() as int] < u32::MAX,
            old(self).location(entity) matches Some(loc) ==> old(self).archs()[loc.0 as int].columns_cover(
                loc.1 + 1,
            ),
        ensures
            final(self).wf(),
            Self::despawn_post(*old(self), entity, *final(self)),
            final(self).location(entity) is None,
            entity.generation() <= old(self).allocator().generations()[entity.index() as int]
                ==> !final(self).allocator().is_alive(entity),
    {
        let ghost w0 = *self;
        let k = key_of(entity);
        if let Some((arch_index, row)) = self.entity_map.remove(&k) {
            proof {
                assert(w0.locations().contains_key(k));
            }
            let ghost a0 = self.archs()[arch_index as int];
            let last = self.archetypes[arch_index].remove(row);
            let ghost a1 = self.archs()[arch_index as int];
            proof {
                lemma_entity_key_injective(a0.rows()[row as int], entity);
                assert(a0.rows()[row as int] == entity);
            }
            if last != entity {
                self.entity_map.insert(key_of(last), (arch_index, row));
            }
            proof {
                if last != entity {
                    assert(entity_key(last) != entity_key(entity)) by {
                        if entity_key(last) == entity_key(entity) {
                            lemma_entity_key_injective(last, entity);
                        }
                    }
                }
                let n = a0.rows().len();
                if last != entity {
                    // the row that was removed is not the last one
                    assert(row < n - 1);
                }
                assert forall|t: u64| a1.has_column(t) <==> a0.has_column(t) by {
                    if a1.has_column(t) {
                        let j = choose|j: int| 0 <= j < a1.cols().len() && #[trigger] a1.cols()[j].spec_type_id() == t;
                        assert(a0.cols()[j].spec_type_id() == t);
                    }
                    if a0.has_column(t) {
                        let j = choose|j: int| 0 <= j < a0.cols().len() && #[trigger] a0.cols()[j].spec_type_id() == t;
                        assert(a1.cols()[j].spec_type_id() == t);
                    }
                }
                assert(World::archetype_ok(a1));
                assert forall|q: int| 0 <= q < self.archs().len() implies World::archetype_ok(#[trigger] self.archs()[q]) by {
                    if q != arch_index {
                        assert(self.archs()[q] == w0.archs()[q]);
                    }
                }
                assert forall|kk: u64| #[trigger] self.locations().contains_key(kk) implies {
                    let loc = self.locations()[kk];
                    &&& (loc.0 as int) < self.archs().len()
                    &&& (loc.1 as int) < self.archs()[loc.0 as int].rows().len()
                    &&& entity_key(self.archs()[loc.0 as int].rows()[loc.1 as int]) == kk
                } by {
                    if last != entity && kk == entity_key(last) {
                        assert(a1.rows()[row as int] == last);
                    } else {
                        assert(w0.locations().contains_key(kk));
                        assert(kk != k);
                        let loc = w0.locations()[kk];
                        if loc.0 == arch_index {
                            assert(loc.1 != row);
                            if loc.1 as int == n - 1 {
                                assert(a0.rows()[n - 1] == last);
                                assert(false);
                            }
                            assert(a1.rows()[loc.1 as int] == a0.rows()[loc.1 as int]);
                        } else {
                            assert(self.archs()[loc.0 as int] == w0.archs()[loc.0 as int]);
                        }
                    }
                }
                assert(self.wf());
            }
        } else {
            proof {
                assert(self.locations() =~= w0.locations());
                assert(!w0.locations().contains_key(k));
                World::lemma_wf_frame(w0, *self);
            }
        }
        let ghost w1 = *self;
        self.entities.dealloc(entity);
        proof {
            assert(self.archs() == w1.archs());
            assert(self.locations() == w1.locations());
            assert(w1.wf());
            assert forall|q: int| 0 <= q < self.archs().len() implies World::archetype_ok(#[trigger] self.archs()[q]) by {
                assert(World::archetype_ok(w1.archs()[q]));
            }
            assert forall|kk: u64| #[trigger] self.locations().contains_key(kk) implies {
                let loc = self.locations()[kk];
                &&& (loc.0 as int) < self.archs().len()
                &&& (loc.1 as int) < self.archs()[loc.0 as int].rows().len()
                &&& entity_key(self.archs()[loc.0 as int].rows()[loc.1 as int]) == kk
            } by {
                assert(w1.locations().contains_key(kk));
            }
        }
    }

    /// What spawning does: allocate a handle and hand out an empty builder
    /// for it; nothing else changes.
    pub open spec fn spawn_post(before: Self, b: EntityBuilder<V>, after: Self) -> bool {
        &&& EntityAllocator::allocate_post(before.allocator(), after.allocator(), b.entity())
        &&& b.components() == Seq::<(u64, V)>::empty()
        &&& after.archs() == before.archs()
        &&& after.locations() == before.locations()
        &&& after.resource_map() == before.resource_map()
    }

    /// Allocates a new entity and returns a builder for its components.
    pub fn spawn(&mut self) -> (b: EntityBuilder<V>)
        requires
            old(self).wf(),
        ensures
            final(self).wf(),
            Self::spawn_post(*old(self), b, *final(self)),
    {
        let entity = self.entities.allocate();
        proof {
            assert(self.archs() == old(self).archs());
            assert(self.locations() == old(self).locations());
            assert forall|k: u64| #[trigger] self.locations().contains_key(k) implies {
                let loc = self.locations()[k];
                &&& (loc.0 as int) < self.archs().len()
                &&& (loc.1 as int) < self.archs()[loc.0 as int].rows().len()
                &&& entity_key(self.archs()[loc.0 as int].rows()[loc.1 as int]) == k
            } by {
                assert(old(self).locations().contains_key(k));
            }
        }
        EntityBuilder::new(entity)
    }
}

/// Collects the components of one entity before it is placed in a world.
pub struct EntityBuilder<V> {
    entity: Entity,
    components: Vec<(u64, V)>,
}

impl<V> EntityBuilder<V> {
    pub closed spec fn entity(&self) -> Entity {
        self.entity
    }

    /// The `(component type, value)` pairs added so far, in order.
    pub closed spec fn components(&self) -> Seq<(u64, V)> {
        self.components@
    }

    /// A builder for `entity` with no components yet.
    pub fn new(entity: Entity) -> (b: Self)
        ensures
            b.entity() == entity,
            b.components() == Seq::<(u64, V)>::empty(),
    {
        EntityBuilder { entity, components: Vec::new() }
    }

    /// Adds a component value of type `tid`.
    pub fn with_component(self, tid: u64, component: V) -> (b: Self)
        ensures
            b.entity() == self.entity(),
            b.components() == self.components().push((tid, component)),
    {
        let mut s = self;
        s.components.push((tid, component));
        s
    }

    /// Places the entity in `world`: see `World::build_post`. Returns the entity.
    pub fn build(self, world: &mut World<V>) -> (e: Entity)
        requires
            old(world).wf(),
        ensures
            e == self.entity(),
            final(world).wf(),
            World::build_post(*old(world), self.entity(), self.components(), *final(world)),
    {
        let entity = self.entity;
        let components = self.components;
        let ghost comps = components@;
        let ghost types = World::<V>::component_types_of(comps);
        let mut type_ids: Vec<u64> = Vec::new();
        let mut i: usize = 0;
        while i < components.len()
            invariant
                0 <= i <= comps.len(),
                components@ == comps,
                types == World::<V>::component_types_of(comps),
                type_ids@ == types.take(i as int),
            decreases comps.len() - i,
        {
            type_ids.push(components[i].0);
            proof {
                assert(types.take(i + 1) == types.take(i as int).push(types[i as int]));
            }
            i = i + 1;
        }
        proof {
            assert(types.take(comps.len() as int) == types);
        }
        let ghost w0 = *world;
        let arch_index = world.find_or_create_archetype(type_ids.as_slice());
        let ghost w1 = *world;
        let ghost a1 = w1.archs()[arch_index as int];
        proof {
            assert(World::archetype_ok(a1));
            assert forall|k: int| 0 <= k < comps.len() implies a1.has_column(#[trigger] comps[k].0) by {
                assert(types[k] == comps[k].0);
                match World::<V>::first_match(w0.archs(), types) {
                    Some(m) => {
                        World::<V>::lemma_first_match(w0.archs(), types);
                        assert(a1.spec_matches(types));
                        assert(a1.types().contains(types[k]));
                    },
                    None => {
                        assert(a1.types()[k] == types[k]);
                        assert(a1.types().contains(types[k]));
                    },
                }
            }
        }
        let row = world.archetypes[arch_index].entities().len();
        world.archetypes[arch_index].add(entity, components);
        let ghost a2 = world.archs()[arch_index as int];
        world.entity_map.insert(key_of(entity), (arch_index, row));
        proof {
            // the changed archetype keeps one column per component type
            assert forall|t: u64| a2.has_column(t) <==> a1.has_column(t) by {
                if a2.has_column(t) {
                    let j = choose|j: int| 0 <= j < a2.cols().len() && #[trigger] a2.cols()[j].spec_type_id() == t;
                    assert(a1.cols()[j].spec_type_id() == t);
                }
                if a1.has_column(t) {
                    let j = choose|j: int| 0 <= j < a1.cols().len() && #[trigger] a1.cols()[j].spec_type_id() == t;
                    assert(a2.cols()[j].spec_type_id() == t);
                }
            }
            assert forall|t: u64| #[trigger] a2.has_column(t) implies a2.column(t) == a1.column(t)
                + values_for(comps, t) by {
                let j = a1.column_pos(t);
                a1.lemma_column_pos(j);
                assert(a2.cols()[j].spec_type_id() == t);
                a2.lemma_column_pos(j);
            }
            assert(World::archetype_ok(a2));
            assert forall|q: int| 0 <= q < world.archs().len() implies World::archetype_ok(#[trigger] world.archs()[q]) by {
                if q != arch_index {
                    assert(world.archs()[q] == w1.archs()[q]);
                }
            }
            assert forall|k: u64| #[trigger] world.locations().contains_key(k) implies {
                let loc = world.locations()[k];
                &&& (loc.0 as int) < world.archs().len()
                &&& (loc.1 as int) < world.archs()[loc.0 as int].rows().len()
                &&& entity_key(world.archs()[loc.0 as int].rows()[loc.1 as int]) == k
            } by {
                if k != entity_key(entity) {
                    assert(w1.locations().contains_key(k));
                    let loc = w1.locations()[k];
                    if loc.0 == arch_index {
                        assert(a2.rows()[loc.1 as int] == a1.rows()[loc.1 as int]);
                    } else {
                        assert(world.archs()[loc.0 as int] == w1.archs()[loc.0 as int]);
                    }
                }
            }
            match World::<V>::first_match(w0.archs(), types) {
                Some(m) => {
                    assert forall|t: u64| #[trigger] a2.has_column(t) implies a2.column(t) == w0.archs()[m].column(t)
                        + values_for(comps, t) by {}
                },
                None => {
                    assert forall|t: u64| #[trigger] a2.has_column(t) implies a2.column(t) == Seq::<V>::empty()
                        + values_for(comps, t) by {
                        let j = a1.column_pos(t);
                        assert(a1.cols()[j].values().len() == 0);
                        assert(a1.column(t) == Seq::<V>::empty());
                    }
                    assert forall|q: int| 0 <= q < w0.archs().len() && q != w0.archs().len() implies #[trigger] world.archs()[q]
                        == w0.archs()[q] by {
                        assert(w1.archs()[q] == w0.archs()[q]);
                    }
                },
            }
        }
        entity
    }
}

/// Despawning an entity leaves every other entity's component values as they
/// were, provided every stored row is recorded and the despawned entity's
/// archetype holds one value per row in each column.
pub proof fn lemma_despawn_keeps_other_components<V>(
    before: World<V>,
    e: Entity,
    after: World<V>,
    x: Entity,
    t: u64,
)
    requires
        before.wf(),
        before.rows_recorded(),
        World::despawn_post(before, e, after),
        x != e,
        before.location(e) matches Some(loc) ==> before.archs()[loc.0 as int].dense(),
    ensures
        after.component(x, t) == before.component(x, t),
{
    if entity_key(x) == entity_key(e) {
        lemma_entity_key_injective(x, e);
    }
    match before.location(e) {
        None => {},
        Some(loc) => {
            let a = loc.0 as int;
            let r = loc.1 as int;
            let a0 = before.archs()[a];
            let a1 = after.archs()[a];
            let n = a0.rows().len();
            let last = a0.rows().last();
            a0.lemma_bounds();
            assert(before.locations().contains_key(entity_key(e)));
            lemma_entity_key_injective(a0.rows()[r], e);
            Archetype::lemma_removed_column(a0, r, a1, t);
            if a0.has_column(t) {
                let j = a0.column_pos(t);
                a0.lemma_column_pos(j);
                assert(a0.column(t).len() == n);
            }
            if last != e && entity_key(x) == entity_key(last) {
                lemma_entity_key_injective(x, last);
                assert(a0.rows()[n - 1] == last);
                assert(before.locations()[entity_key(last)] == (a as usize, (n - 1) as usize));
                assert(r < n - 1) by {
                    if r == n - 1 {
                        assert(a0.rows()[r] == last);
                    }
                }
                assert(after.location(x) == Some(loc));
                assert(before.location(x) == Some(((a as usize), (n - 1) as usize)));
                if a0.has_column(t) {
                    assert(swap_removed(a0.column(t), r)[r] == a0.column(t)[n - 1]);
                    assert(after.component(x, t) == before.component(x, t));
                } else {
                    assert(after.component(x, t) == before.component(x, t));
                }
            } else {
                assert(after.location(x) == before.location(x));
                match before.location(x) {
                    None => {},
                    Some(lx) => {
                        assert(before.locations().contains_key(entity_key(x)));
                        if lx.0 as int == a {
                            assert(lx.1 as int != r) by {
                                if lx.1 as int == r {
                                    assert(entity_key(a0.rows()[r]) == entity_key(x));
                                }
                            }
                            assert(lx.1 as int != n - 1) by {
                                if lx.1 as int == n - 1 {
                                    assert(entity_key(a0.rows()[n - 1]) == entity_key(x));
                                    lemma_entity_key_injective(a0.rows()[n - 1], x);
                                    if last == e {
                                        assert(x == e);
                                    }
                                }
                            }
                        }
                    },
                }
            }
        },
    }
}

/// Despawning keeps every stored row recorded.
pub proof fn lemma_despawn_keeps_rows_recorded<V>(before: World<V>, e: Entity, after: World<V>)
    requires
        before.wf(),
        before.rows_recorded(),
        World::despawn_post(before, e, after),
    ensures
        after.rows_recorded(),
{
    match before.location(e) {
        None => {},
        Some(loc) => {
            let a = loc.0 as int;
            let r = loc.1 as int;
            let a0 = before.archs()[a];
            let a1 = after.archs()[a];
            let n = a0.rows().len();
            let last = a0.rows().last();
            a0.lemma_bounds();
            before.lemma_bounds();
            let ke = entity_key(e);
            let kl = entity_key(last);
            assert(before.locations().contains_key(ke));
            assert(before.locations()[ke] == loc);
            lemma_entity_key_injective(a0.rows()[r], e);
            assert(before.locations()[kl] == (a as usize, (n - 1) as usize));
            if last == e {
                assert(r == n - 1);
            }
            assert forall|q: int, w: int|
                0 <= q < after.archs().len() && 0 <= w < after.archs()[q].rows().len() implies {
                let k = entity_key(#[trigger] after.archs()[q].rows()[w]);
                &&& after.locations().contains_key(k)
                &&& after.locations()[k] == (q as usize, w as usize)
            } by {
                if q == a {
                    if w == r {
                        assert(a1.rows()[w] == last);
                        assert(last != e);
                        assert(after.locations() == before.locations().remove(ke).insert(kl, loc));
                    } else {
                        assert(a1.rows()[w] == a0.rows()[w]);
                        let k = entity_key(a0.rows()[w]);
                        assert(before.locations()[k] == (a as usize, w as usize));
                        assert(k != ke);
                        assert(k != kl);
                    }
                } else {
                    assert(after.archs()[q] == before.archs()[q]);
                    before.archs()[q].lemma_bounds();
                    let k = entity_key(before.archs()[q].rows()[w]);
                    assert(before.locations()[k] == (q as usize, w as usize));
                    assert(k != ke);
                    assert(k != kl);
                }
            }
        },
    }
}
/// After building `e`, reading any of its component types gives back the
/// first value given for that type, provided the archetype it joins held
/// one value per row in each column.
pub proof fn lemma_build_reads_back<V>(
    before: World<V>,
    e: Entity,
    comps: Seq<(u64, V)>,
    after: World<V>,
    t: u64,
)
    requires
        before.wf(),
        after.wf(),
        World::build_post(before, e, comps, after),
        World::first_match(before.archs(), World::component_types_of(comps)) matches Some(i)
            ==> before.archs()[i].dense(),
        values_for(comps, t).len() > 0,
    ensures
        after.component(e, t) == Some(values_for(comps, t)[0]),
{
    let types = World::component_types_of(comps);
    let m = World::first_match(before.archs(), types);
    World::lemma_first_match(before.archs(), types);
    lemma_values_for_occurs(comps, t);
    let i = choose|i: int| 0 <= i < comps.len() && (#[trigger] comps[i]).0 == t;
    assert(types[i] == t);
    let a = World::build_target(before.archs(), types);
    before.lemma_bounds();
    let aa = after.archs()[a];
    assert(World::archetype_ok(aa));
    match m {
        Some(c) => {
            assert(before.archs()[c].spec_matches(types));
            assert(aa.types().contains(types[i]));
            let b = before.archs()[c];
            b.lemma_bounds();
            assert(World::archetype_ok(b));
            assert(b.has_column(t));
            let j = b.column_pos(t);
            b.lemma_column_pos(j);
            assert(b.column(t).len() == b.rows().len());
        },
        None => {
            assert(aa.types()[i] == t);
            assert(aa.types().contains(t));
        },
    }
    assert(aa.has_column(t));
}

/// Building `e` leaves every other entity's component values as they were,
/// provided the archetype `e` joins held one value per row in each column.
pub proof fn lemma_build_keeps_other_components<V>(
    before: World<V>,
    e: Entity,
    comps: Seq<(u64, V)>,
    after: World<V>,
    x: Entity,
    t: u64,
)
    requires
        before.wf(),
        after.wf(),
        World::build_post(before, e, comps, after),
        World::first_match(before.archs(), World::component_types_of(comps)) matches Some(i)
            ==> before.archs()[i].dense(),
        x != e,
    ensures
        after.component(x, t) == before.component(x, t),
{
    if entity_key(x) == entity_key(e) {
        lemma_entity_key_injective(x, e);
    }
    let types = World::component_types_of(comps);
    let m = World::first_match(before.archs(), types);
    World::lemma_first_match(before.archs(), types);
    assert(after.location(x) == before.location(x));
    match before.location(x) {
        None => {},
        Some(lx) => {
            assert(before.locations().contains_key(entity_key(x)));
            let q = lx.0 as int;
            match m {
                Some(c) => {
                    if q == c {
                        let b = before.archs()[c];
                        assert(World::build_target(before.archs(), types) == c);
                        let aa = after.archs()[World::build_target(before.archs(), types)];
                        assert(World::archetype_ok(b));
                        assert(World::archetype_ok(aa));
                        assert(aa.has_column(t) == b.has_column(t));
                        if b.has_column(t) {
                            let j = b.column_pos(t);
                            b.lemma_column_pos(j);
                            assert(b.column(t).len() == b.rows().len());
                            assert(aa.column(t) == b.column(t) + values_for(comps, t));
                        }
                    }
                },
                None => {},
            }
        },
    }
}

/// Building an entity that had no location keeps every stored row recorded.
pub proof fn lemma_build_keeps_rows_recorded<V>(
    before: World<V>,
    e: Entity,
    comps: Seq<(u64, V)>,
    after: World<V>,
)
    requires
        before.wf(),
        before.rows_recorded(),
        before.location(e) is None,
        World::build_post(before, e, comps, after),
    ensures
        after.rows_recorded(),
{
    let types = World::component_types_of(comps);
    let m = World::first_match(before.archs(), types);
    World::lemma_first_match(before.archs(), types);
    let a = World::build_target(before.archs(), types);
    let base_rows = World::build_base_rows(before.archs(), types);
    before.lemma_bounds();
    let ke = entity_key(e);
    assert forall|q: int, w: int|
        0 <= q < after.archs().len() && 0 <= w < after.archs()[q].rows().len() implies {
        let k = entity_key(#[trigger] after.archs()[q].rows()[w]);
        &&& after.locations().contains_key(k)
        &&& after.locations()[k] == (q as usize, w as usize)
    } by {
        if q == a {
            if w == base_rows.len() {
                assert(after.archs()[q].rows()[w] == e);
            } else {
                let c = m->0;
                before.archs()[c].lemma_bounds();
                assert(after.archs()[q].rows()[w] == before.archs()[c].rows()[w]);
                let k = entity_key(before.archs()[c].rows()[w]);
                assert(before.locations().contains_key(k));
                assert(k != ke);
            }
        } else {
            assert(after.archs()[q] == before.archs()[q]);
            before.archs()[q].lemma_bounds();
            let k = entity_key(before.archs()[q].rows()[w]);
            assert(before.locations().contains_key(k));
            assert(k != ke);
        }
    }
}

/// A despawned entity is no longer stored in any archetype, provided every
/// stored row was recorded.
pub proof fn lemma_despawned_not_stored<V>(before: World<V>, e: Entity, after: World<V>)
    requires
        before.wf(),
        before.rows_recorded(),
        World::despawn_post(before, e, after),
    ensures
        after.location(e) is None,
        forall|a: int, r: int|
            0 <= a < after.archs().len() && 0 <= r < after.archs()[a].rows().len()
                ==> #[trigger] after.archs()[a].rows()[r] != e,
{
    lemma_despawn_keeps_rows_recorded(before, e, after);
    match before.location(e) {
        None => {
            assert forall|a: int, r: int|
                0 <= a < after.archs().len() && 0 <= r < after.archs()[a].rows().len() implies #[trigger] after.archs()[a].rows()[r] != e by {
                if after.archs()[a].rows()[r] == e {
                    assert(after.locations().contains_key(entity_key(e)));
                }
            }
        },
        Some(loc) => {
            let last = before.archs()[loc.0 as int].rows().last();
            if last != e {
                assert(entity_key(last) != entity_key(e)) by {
                    if entity_key(last) == entity_key(e) {
                        lemma_entity_key_injective(last, e);
                    }
                }
            }
            assert(!after.locations().contains_key(entity_key(e)));
            assert forall|a: int, r: int|
                0 <= a < after.archs().len() && 0 <= r < after.archs()[a].rows().len() implies #[trigger] after.archs()[a].rows()[r] != e by {
                if after.archs()[a].rows()[r] == e {
                    assert(after.locations().contains_key(entity_key(e)));
                }
            }
        },
    }
}

/// A freshly spawned entity does not alias any stored entity: it has no
/// location, it is alive, and its slot is not free. Spawning keeps handles
/// sound. (With an empty free stack this needs fewer than 2^32 slots, since
/// a new slot is numbered by the slot count truncated to 32 bits.)
pub proof fn lemma_spawn_is_fresh<V>(before: World<V>, b: EntityBuilder<V>, after: World<V>)
    requires
        before.wf(),
        before.handles_ok(),
        World::spawn_post(before, b, after),
        before.allocator().free_slots().len() > 0 || before.allocator().generations().len() < u32::MAX,
    ensures
        after.location(b.entity()) is None,
        after.allocator().is_alive(b.entity()),
        !after.allocator().free_slots().contains(b.entity().index()),
        after.handles_ok(),
{
    let e = b.entity();
    let g0 = before.allocator().generations();
    let f0 = before.allocator().free_slots();
    let f1 = after.allocator().free_slots();
    if f0.len() > 0 {
        assert(f0.last() == e.index());
        assert(f1 == f0.drop_last());
        assert(!f1.contains(e.index())) by {
            if f1.contains(e.index()) {
                let w = choose|w: int| 0 <= w < f1.len() && f1[w] == e.index();
                assert(f0[w] == f0[f0.len() - 1]);
            }
        }
    }
    assert(after.allocator().is_alive(e)) by {
        if f0.len() > 0 {
            assert(before.allocator().wf());
            assert((f0[f0.len() - 1] as int) < g0.len());
        }
    }
    if after.locations().contains_key(entity_key(e)) {
        let k = entity_key(e);
        assert(before.locations().contains_key(k));
        let loc = before.locations()[k];
        let x = before.archs()[loc.0 as int].rows()[loc.1 as int];
        lemma_entity_key_injective(x, e);
        if f0.len() > 0 {
            assert(f0.contains(e.index())) by {
                assert(f0[f0.len() - 1] == e.index());
            }
        } else {
            assert((x.index() as int) < g0.len());
        }
    }
    assert forall|k: u64| #[trigger] after.locations().contains_key(k) implies {
        let loc = after.locations()[k];
        let x = after.archs()[loc.0 as int].rows()[loc.1 as int];
        &&& after.allocator().is_alive(x)
        &&& !after.allocator().free_slots().contains(x.index())
    } by {
        assert(before.locations().contains_key(k));
        let loc = before.locations()[k];
        let x = before.archs()[loc.0 as int].rows()[loc.1 as int];
        if f1.contains(x.index()) {
            let w = choose|w: int| 0 <= w < f1.len() && f1[w] == x.index();
            assert(f0[w] == x.index());
        }
    }
    if f0.len() > 0 {
        assert(f1.no_duplicates()) by {
            assert forall|i: int, j: int| 0 <= i < f1.len() && 0 <= j < f1.len() && i != j implies f1[i] != f1[j] by {
                assert(f0[i] != f0[j]);
            }
        }
    }
}

/// Building an alive entity that has no location and whose slot is not free
/// keeps handles sound.
pub proof fn lemma_build_keeps_handles_ok<V>(
    before: World<V>,
    e: Entity,
    comps: Seq<(u64, V)>,
    after: World<V>,
)
    requires
        before.wf(),
        after.wf(),
        before.handles_ok(),
        before.allocator().is_alive(e),
        !before.allocator().free_slots().contains(e.index()),
        World::build_post(before, e, comps, after),
    ensures
        after.handles_ok(),
{
    let types = World::component_types_of(comps);
    World::lemma_first_match(before.archs(), types);
    let a = World::build_target(before.archs(), types);
    let base_rows = World::build_base_rows(before.archs(), types);
    before.lemma_bounds();
    assert forall|k: u64| #[trigger] after.locations().contains_key(k) implies {
        let loc = after.locations()[k];
        let x = after.archs()[loc.0 as int].rows()[loc.1 as int];
        &&& after.allocator().is_alive(x)
        &&& !after.allocator().free_slots().contains(x.index())
    } by {
        if k == entity_key(e) {
            assert(after.archs()[a].rows()[base_rows.len() as int] == e);
        } else {
            assert(before.locations().contains_key(k));
            let loc = before.locations()[k];
            assert(after.locations()[k] == loc);
            if loc.0 as int == a {
                let c = World::first_match(before.archs(), types)->0;
                before.archs()[c].lemma_bounds();
                assert(after.archs()[a].rows()[loc.1 as int] == before.archs()[c].rows()[loc.1 as int]);
            } else {
                assert(after.archs()[loc.0 as int] == before.archs()[loc.0 as int]);
            }
        }
    }
}

/// Despawning an alive entity whose slot is not free keeps handles sound,
/// provided every stored row is recorded.
pub proof fn lemma_despawn_keeps_handles_ok<V>(before: World<V>, e: Entity, after: World<V>)
    requires
        before.wf(),
        after.wf(),
        before.rows_recorded(),
        before.handles_ok(),
        before.allocator().is_alive(e),
        !before.allocator().free_slots().contains(e.index()),
        before.allocator().generations()[e.index() as int] < u32::MAX,
        World::despawn_post(before, e, after),
    ensures
        after.handles_ok(),
{
    let f0 = before.allocator().free_slots();
    let f1 = after.allocator().free_slots();
    assert(f1 == f0.push(e.index()));
    assert(f1.no_duplicates()) by {
        assert forall|i: int, j: int| 0 <= i < f1.len() && 0 <= j < f1.len() && i != j implies f1[i] != f1[j] by {
            if i < f0.len() && j < f0.len() {
                assert(f0[i] != f0[j]);
            } else if i < f0.len() {
                assert(f0.contains(f0[i]));
            } else {
                assert(f0.contains(f0[j]));
            }
        }
    }
    assert forall|k: u64| #[trigger] after.locations().contains_key(k) implies {
        let loc = after.locations()[k];
        let x = after.archs()[loc.0 as int].rows()[loc.1 as int];
        &&& after.allocator().is_alive(x)
        &&& !after.allocator().free_slots().contains(x.index())
    } by {
        let loc = after.locations()[k];
        let x = after.archs()[loc.0 as int].rows()[loc.1 as int];
        assert(entity_key(x) == k);
        // the key was recorded before (possibly at another row)
        match before.location(e) {
            Some(le) => {
                let a0 = before.archs()[le.0 as int];
                a0.lemma_bounds();
                before.lemma_bounds();
                let n = a0.rows().len();
                let last = a0.rows().last();
                if last != e && k == entity_key(last) {
                    assert(a0.rows()[n - 1] == last);
                    assert(before.locations().contains_key(k));
                } else {
                    assert(before.locations().contains_key(k));
                }
            },
            None => {
                assert(before.locations().contains_key(k));
            },
        }
        assert(before.locations().contains_key(k));
        let lb = before.locations()[k];
        let y = before.archs()[lb.0 as int].rows()[lb.1 as int];
        assert(entity_key(y) == k);
        lemma_entity_key_injective(x, y);
        assert(before.allocator().is_alive(y));
        assert(!f0.contains(y.index()));
        // y is not e: e's key is no longer recorded
        assert(k != entity_key(e));
        assert(x.index() != e.index()) by {
            if x.index() == e.index() {
                Entity::lemma_ext(x, e);
            }
        }
        if f1.contains(x.index()) {
            let w = choose|w: int| 0 <= w < f1.len() && f1[w] == x.index();
            if w < f0.len() {
                assert(f0.contains(x.index()));
            }
        }
    }
}
/// A component type that occurs exactly once in a list of components with
/// distinct types has exactly one value there.
pub proof fn lemma_values_for_distinct<V>(comps: Seq<(u64, V)>, t: u64)
    requires
        World::<V>::component_types_of(comps).no_duplicates(),
        World::<V>::component_types_of(comps).contains(t),
    ensures
        values_for(comps, t).len() == 1,
    decreases comps.len(),
{
    let types = World::<V>::component_types_of(comps);
    let rest = comps.drop_last();
    let rtypes = World::<V>::component_types_of(rest);
    assert(rtypes =~= types.drop_last());
    assert(rtypes.no_duplicates()) by {
        assert forall|x: int, y: int| 0 <= x < y < rtypes.len() implies rtypes[x] != rtypes[y] by {
            assert(rtypes[x] == types[x] && rtypes[y] == types[y]);
        }
    }
    let w = choose|w: int| 0 <= w < types.len() && types[w] == t;
    if comps.last().0 == t {
        assert(!rtypes.contains(t)) by {
            if rtypes.contains(t) {
                let x = choose|x: int| 0 <= x < rtypes.len() && rtypes[x] == t;
                assert(types[x] == t && types[types.len() - 1] == t);
            }
        }
        if values_for(rest, t).len() > 0 {
            lemma_values_for_occurs(rest, t);
            let x = choose|x: int| 0 <= x < rest.len() && (#[trigger] rest[x]).0 == t;
            assert(rtypes[x] == t);
        }
    } else {
        assert(w < types.len() - 1);
        assert(rtypes[w] == t);
        lemma_values_for_distinct(rest, t);
    }
}

/// Despawning keeps every archetype at one value per row in each column.
pub proof fn lemma_despawn_keeps_dense<V>(before: World<V>, e: Entity, after: World<V>)
    requires
        before.wf(),
        before.all_dense(),
        World::despawn_post(before, e, after),
    ensures
        after.all_dense(),
{
    match before.location(e) {
        None => {},
        Some(loc) => {
            let a = loc.0 as int;
            let r = loc.1 as int;
            assert(before.locations().contains_key(entity_key(e)));
            let a0 = before.archs()[a];
            let a1 = after.archs()[a];
            assert(a0.dense());
            assert(a1.dense()) by {
                assert forall|j: int| 0 <= j < a1.cols().len() implies #[trigger] a1.cols()[j].values().len()
                    == a1.rows().len() by {
                    assert(a0.cols()[j].values().len() == a0.rows().len());
                }
            }
            assert forall|q: int| 0 <= q < after.archs().len() implies (#[trigger] after.archs()[q]).dense() by {
                if q != a {
                    assert(before.archs()[q].dense());
                }
            }
        },
    }
}

/// Building an entity keeps every archetype at one value per row in each
/// column, provided its component types are distinct and the archetype it
/// joins has no component type beyond them.
pub proof fn lemma_build_keeps_dense<V>(
    before: World<V>,
    e: Entity,
    comps: Seq<(u64, V)>,
    after: World<V>,
)
    requires
        before.wf(),
        after.wf(),
        before.all_dense(),
        World::build_post(before, e, comps, after),
        World::<V>::component_types_of(comps).no_duplicates(),
        World::first_match(before.archs(), World::<V>::component_types_of(comps)) matches Some(i)
            ==> forall|t: u64|
            #[trigger] before.archs()[i].has_column(t) ==> World::<V>::component_types_of(comps).contains(t),
    ensures
        after.all_dense(),
{
    let types = World::<V>::component_types_of(comps);
    let m = World::first_match(before.archs(), types);
    let a = World::build_target(before.archs(), types);
    World::<V>::lemma_first_match(before.archs(), types);
    let a1 = after.archs()[a];
    assert(World::archetype_ok(a1));
    assert(a1.dense()) by {
        assert forall|j: int| 0 <= j < a1.cols().len() implies #[trigger] a1.cols()[j].values().len()
            == a1.rows().len() by {
            let t = a1.cols()[j].spec_type_id();
            a1.lemma_column_pos(j);
            assert(a1.column(t) == World::build_base_column(before.archs(), types, t) + values_for(comps, t));
            assert(a1.types().contains(t));
            match m {
                Some(i) => {
                    let a0 = before.archs()[i];
                    assert(World::archetype_ok(a0));
                    assert(a0.has_column(t));
                    assert(types.contains(t));
                    lemma_values_for_distinct(comps, t);
                    assert(a0.dense());
                    let k = a0.column_pos(t);
                    assert(a0.cols()[k].values().len() == a0.rows().len());
                },
                None => {
                    assert(types.contains(t));
                    lemma_values_for_distinct(comps, t);
                },
            }
        }
    }
    assert forall|q: int| 0 <= q < after.archs().len() implies (#[trigger] after.archs()[q]).dense() by {
        if q != a {
            assert(before.archs()[q].dense());
        }
    }
}

} // verus!
