use vstd::prelude::*;

use crate::entity::Entity;

verus! {

/// Removing position `i` by moving the last element into it.
pub open spec fn swap_removed<T>(s: Seq<T>, i: int) -> Seq<T> {
    s.update(i, s.last()).drop_last()
}

/// The values, in order, that a list of `(component type, value)` pairs holds
/// for component type `tid`.
pub open spec fn values_for<V>(components: Seq<(u64, V)>, tid: u64) -> Seq<V>
    decreases components.len(),
{
    if components.len() == 0 {
        Seq::empty()
    } else {
        let rest = values_for(components.drop_last(), tid);
        if components.last().0 == tid {
            rest.push(components.last().1)
        } else {
            rest
        }
    }
}


/// A type with values in a component list occurs in it.
pub proof fn lemma_values_for_occurs<V>(components: Seq<(u64, V)>, tid: u64)
    requires
        values_for(components, tid).len() > 0,
    ensures
        exists|i: int| 0 <= i < components.len() && (#[trigger] components[i]).0 == tid,
    decreases components.len(),
{
    if components.last().0 == tid {
        assert(components[components.len() - 1].0 == tid);
    } else {
        lemma_values_for_occurs(components.drop_last(), tid);
        let i = choose|i: int| 0 <= i < components.drop_last().len() && (#[trigger] components.drop_last()[i]).0 == tid;
        assert(components[i] == components.drop_last()[i]);
    }
}

/// One column of an archetype: the values of one component type, one per row.
pub struct Column<V> {
    data: Vec<V>,
    type_id: u64,
}

impl<V> Column<V> {
    /// The stored values, row by row.
    pub closed spec fn values(&self) -> Seq<V> {
        self.data@
    }

    /// The component type this column stores.
    pub closed spec fn spec_type_id(&self) -> u64 {
        self.type_id
    }

    /// An empty column for component type `tid`.
    pub fn new(tid: u64) -> (c: Self)
        ensures
            c.values() == Seq::<V>::empty(),
            c.spec_type_id() == tid,
    {
        Column { data: Vec::new(), type_id: tid }
    }

    /// Appends a value as the last row.
    pub fn push(&mut self, value: V)
        ensures
            final(self).values() == old(self).values().push(value),
            final(self).spec_type_id() == old(self).spec_type_id(),
    {
        self.data.push(value);
    }

    /// The value at `row`.
    pub fn get(&self, row: usize) -> (r: Option<&V>)
        requires
            row < self.values().len(),
        ensures
            r == Some(&self.values()[row as int]),
    {
        Some(&self.data[row])
    }

    /// Mutable access to the value at `row`; whatever is written through it
    /// becomes that row's value.
    pub fn get_mut(&mut self, row: usize) -> (r: Option<&mut V>)
        requires
            row < old(self).values().len(),
        ensures
            r matches Some(x) && *x == old(self).values()[row as int]
                && final(self).values() == old(self).values().update(row as int, *final(x))
                && final(self).spec_type_id() == old(self).spec_type_id(),
    {
        Some(&mut self.data[row])
    }

    /// Removes `row`, moving the last row into its place.
    pub fn swap_remove(&mut self, row: usize)
        requires
            row < old(self).values().len(),
        ensures
            final(self).values() == swap_removed(old(self).values(), row as int),
            final(self).spec_type_id() == old(self).spec_type_id(),
    {
        self.data.swap_remove(row);
    }

    /// The number of rows.
    pub fn len(&self) -> (n: usize)
        ensures
            n == self.values().len(),
    {
        self.data.len()
    }

    /// The component type this column stores.
    pub fn type_id(&self) -> (t: u64)
        ensures
            t == self.spec_type_id(),
    {
        self.type_id
    }
}

/// The entities that share one set of component types, with one column per
/// component type. Row `r` of every column belongs to `entities[r]`.
pub struct Archetype<V> {
    component_types: Vec<u64>,
    entities: Vec<Entity>,
    columns: Vec<Column<V>>,
}

impl<V> Archetype<V> {
    /// The component types, as given when the archetype was made.
    pub closed spec fn types(&self) -> Seq<u64> {
        self.component_types@
    }

    /// The entities, row by row.
    pub closed spec fn rows(&self) -> Seq<Entity> {
        self.entities@
    }

    /// The columns.
    pub closed spec fn cols(&self) -> Seq<Column<V>> {
        self.columns@
    }

    /// No two columns store the same component type.
    pub open spec fn wf(&self) -> bool {
        forall|i: int, j: int|
            0 <= i < j < self.cols().len() ==> #[trigger] self.cols()[i].spec_type_id()
                != #[trigger] self.cols()[j].spec_type_id()
    }

    pub open spec fn has_column(&self, tid: u64) -> bool {
        exists|j: int| 0 <= j < self.cols().len() && #[trigger] self.cols()[j].spec_type_id() == tid
    }

    /// The position of the column for `tid`.
    pub open spec fn column_pos(&self, tid: u64) -> int {
        choose|j: int| 0 <= j < self.cols().len() && #[trigger] self.cols()[j].spec_type_id() == tid
    }

    /// The values of the column for `tid` (meaningful when it exists).
    pub open spec fn column(&self, tid: u64) -> Seq<V> {
        self.cols()[self.column_pos(tid)].values()
    }

    /// Whether every type in `types` is one of the archetype's component types.
    pub open spec fn spec_matches(&self, types: Seq<u64>) -> bool {
        forall|i: int| 0 <= i < types.len() ==> self.types().contains(#[trigger] types[i])
    }

    /// Matching depends only on which types are asked for, not on their
    /// order or repetition: two lists with the same members match the same
    /// archetypes; and an archetype matches a list exactly when each listed
    /// type is one of its component types.
    pub proof fn lemma_matches_order_free(&self, t1: Seq<u64>, t2: Seq<u64>)
        requires
            forall|x: u64| t1.contains(x) <==> t2.contains(x),
        ensures
            self.spec_matches(t1) == self.spec_matches(t2),
            self.spec_matches(t1) == (forall|x: u64| #[trigger] t1.contains(x) ==> self.types().contains(x)),
    {
        if self.spec_matches(t1) {
            assert forall|i: int| 0 <= i < t2.len() implies self.types().contains(#[trigger] t2[i]) by {
                assert(t2.contains(t2[i]));
                let w = choose|w: int| 0 <= w < t1.len() && t1[w] == t2[i];
                assert(self.types().contains(t1[w]));
            }
        }
        if self.spec_matches(t2) {
            assert forall|i: int| 0 <= i < t1.len() implies self.types().contains(#[trigger] t1[i]) by {
                assert(t1.contains(t1[i]));
                let w = choose|w: int| 0 <= w < t2.len() && t2[w] == t1[i];
                assert(self.types().contains(t2[w]));
            }
        }
        if self.spec_matches(t1) {
            assert forall|x: u64| #[trigger] t1.contains(x) implies self.types().contains(x) by {
                let w = choose|w: int| 0 <= w < t1.len() && t1[w] == x;
                assert(self.types().contains(t1[w]));
            }
        }
        if forall|x: u64| #[trigger] t1.contains(x) ==> self.types().contains(x) {
            assert forall|i: int| 0 <= i < t1.len() implies self.types().contains(#[trigger] t1[i]) by {
                assert(t1.contains(t1[i]));
            }
        }
    }

    /// An archetype matches a list of types exactly when the set of listed
    /// types is a subset of the set of its component types.
    pub proof fn lemma_matches_is_subset(&self, types: Seq<u64>)
        ensures
            self.spec_matches(types) == types.to_set().subset_of(self.types().to_set()),
    {
        if self.spec_matches(types) {
            assert forall|x: u64| types.to_set().contains(x) implies self.types().to_set().contains(x) by {
                let w = choose|w: int| 0 <= w < types.len() && types[w] == x;
                assert(self.types().contains(types[w]));
            }
        }
        if types.to_set().subset_of(self.types().to_set()) {
            assert forall|i: int| 0 <= i < types.len() implies self.types().contains(#[trigger] types[i]) by {
                assert(types.contains(types[i]));
                assert(types.to_set().contains(types[i]));
                assert(self.types().to_set().contains(types[i]));
            }
        }
    }

    /// Every column holds at least `n` rows.
    pub open spec fn columns_cover(&self, n: int) -> bool {
        forall|j: int| 0 <= j < self.cols().len() ==> n <= #[trigger] self.cols()[j].values().len()
    }

    /// Every column holds exactly one value per entity.
    pub open spec fn dense(&self) -> bool {
        forall|j: int|
            0 <= j < self.cols().len() ==> #[trigger] self.cols()[j].values().len()
                == self.rows().len()
    }

    /// Row and column counts fit in `usize`.
    pub proof fn lemma_bounds(&self)
        ensures
            self.rows().len() <= usize::MAX,
            self.cols().len() <= usize::MAX,
    {
        assert(self.entities.len() == self.entities@.len());
        assert(self.columns.len() == self.columns@.len());
    }

    pub proof fn lemma_column_pos(&self, j: int)
        requires
            self.wf(),
            0 <= j < self.cols().len(),
        ensures
            self.has_column(self.cols()[j].spec_type_id()),
            self.column_pos(self.cols()[j].spec_type_id()) == j,
    {
        let t = self.cols()[j].spec_type_id();
        assert(self.has_column(t));
        let k = self.column_pos(t);
        if k != j {
            if k < j {
                assert(self.cols()[k].spec_type_id() != self.cols()[j].spec_type_id());
            } else {
                assert(self.cols()[j].spec_type_id() != self.cols()[k].spec_type_id());
            }
        }
    }

    /// An archetype from its parts.
    pub fn new(component_types: Vec<u64>, entities: Vec<Entity>, columns: Vec<Column<V>>) -> (a:
        Self)
        requires
            forall|i: int, j: int|
                0 <= i < j < columns@.len() ==> #[trigger] columns@[i].spec_type_id()
                    != #[trigger] columns@[j].spec_type_id(),
        ensures
            a.wf(),
            a.types() == component_types@,
            a.rows() == entities@,
            a.cols() == columns@,
    {
        Archetype { component_types, entities, columns }
    }

    /// The entities, row by row.
    pub fn entities(&self) -> (r: &[Entity])
        ensures
            r@ == self.rows(),
    {
        self.entities.as_slice()
    }

    /// Whether every type in `types` is one of the archetype's component types.
    pub fn matches(&self, types: &[u64]) -> (r: bool)
        ensures
            r == self.spec_matches(types@),
            r == (forall|k: int| 0 <= k < types@.len() ==> self.types().contains(#[trigger] types@[k])),
    {
        let mut i: usize = 0;
        while i < types.len()
            invariant
                0 <= i <= types@.len(),
                forall|k: int| 0 <= k < i ==> self.types().contains(#[trigger] types@[k]),
            decreases types@.len() - i,
        {
            let t = types[i];
            let mut found = false;
            let mut j: usize = 0;
            while j < self.component_types.len()
                invariant
                    0 <= j <= self.types().len(),
                    found == (exists|k: int| 0 <= k < j && self.types()[k] == t),
                decreases self.types().len() - j,
            {
                if self.component_types[j] == t {
                    found = true;
                }
                j = j + 1;
            }
            if !found {
                assert(!self.types().contains(types@[i as int]));
                return false;
            }
            i = i + 1;
        }
        true
    }

    /// The position of the column that stores `tid`, if there is one.
    pub fn column_position(&self, tid: u64) -> (r: Option<usize>)
        requires
            self.wf(),
        ensures
            r matches Some(j) ==> j < self.cols().len() && self.cols()[j as int].spec_type_id() == tid
                && self.column_pos(tid) == j,
            r is Some <==> self.has_column(tid),
    {
        let mut j: usize = 0;
        while j < self.columns.len()
            invariant
                self.wf(),
                0 <= j <= self.cols().len(),
                forall|k: int| 0 <= k < j ==> #[trigger] self.cols()[k].spec_type_id() != tid,
            decreases self.cols().len() - j,
        {
            if self.columns[j].type_id() == tid {
                proof {
                    self.lemma_column_pos(j as int);
                }
                return Some(j);
            }
            j = j + 1;
        }
        None
    }

    /// How many values the column for `tid` holds, or `None` when the
    /// archetype has no column for `tid`.
    pub fn column_len(&self, tid: u64) -> (r: Option<usize>)
        requires
            self.wf(),
        ensures
            r is Some <==> self.has_column(tid),
            r matches Some(n) ==> n as int == self.column(tid).len(),
    {
        match self.column_position(tid) {
            Some(j) => Some(self.columns[j].len()),
            None => None,
        }
    }

    /// The value of component `tid` at `row`, or `None` when the archetype has
    /// no column for `tid`.
    pub fn get_entry(&self, tid: u64, row: usize) -> (r: Option<&V>)
        requires
            self.wf(),
            self.has_column(tid) ==> row < self.column(tid).len(),
        ensures
            r == (if self.has_column(tid) {
                Some(&self.column(tid)[row as int])
            } else {
                None
            }),
    {
        match self.column_position(tid) {
            Some(j) => self.columns[j].get(row),
            None => None,
        }
    }

    /// Mutable access to the value of component `tid` at `row`, or `None`
    /// when the archetype has no column for `tid`. Whatever is written through
    /// the reference becomes that value; nothing else changes.
    pub fn get_entry_mut(&mut self, tid: u64, row: usize) -> (r: Option<&mut V>)
        requires
            old(self).wf(),
            old(self).has_column(tid) ==> row < old(self).column(tid).len(),
        ensures
            old(self).has_column(tid) ==> (r matches Some(x) && *x == old(self).column(tid)[row as int]
                && Self::entry_written(*old(self), *final(self), tid, row as int, *final(x))),
            !old(self).has_column(tid) ==> r is None && *final(self) == *old(self),
    {
        match self.column_position(tid) {
            Some(j) => self.columns[j].get_mut(row),
            None => None,
        }
    }

    /// `after` is `before` with the value of component `tid` at `row` set to `v`.
    pub open spec fn entry_written(before: Self, after: Self, tid: u64, row: int, v: V) -> bool {
        let j = before.column_pos(tid);
        &&& after.types() == before.types()
        &&& after.rows() == before.rows()
        &&& after.cols().len() == before.cols().len()
        &&& forall|k: int|
            0 <= k < before.cols().len() ==> (#[trigger] after.cols()[k]).spec_type_id()
                == before.cols()[k].spec_type_id()
        &&& forall|k: int|
            0 <= k < before.cols().len() && k != j ==> (#[trigger] after.cols()[k]).values()
                == before.cols()[k].values()
        &&& after.cols()[j].values() == before.cols()[j].values().update(row, v)
    }

    /// Appends `entity` as a new row and pushes each component value onto the
    /// column of its type, in the order given.
    pub fn add(&mut self, entity: Entity, components: Vec<(u64, V)>)
        requires
            old(self).wf(),
            forall|i: int| 0 <= i < components@.len() ==> old(self).has_column(#[trigger] components@[i].0),
        ensures
            final(self).wf(),
            final(self).types() == old(self).types(),
            final(self).rows() == old(self).rows().push(entity),
            final(self).cols().len() == old(self).cols().len(),
            forall|k: int|
                0 <= k < old(self).cols().len() ==> (#[trigger] final(self).cols()[k]).spec_type_id()
                    == old(self).cols()[k].spec_type_id()
                    && final(self).cols()[k].values() == old(self).cols()[k].values()
                    + values_for(components@, old(self).cols()[k].spec_type_id()),
    {
        self.entities.push(entity);
        let ghost comps = components@;
        let total = components.len();
        let mut rev: Vec<(u64, V)> = Vec::new();
        let mut components = components;
        while components.len() > 0
            invariant
                rev@.len() + components@.len() == comps.len(),
                components@ == comps.take(components@.len() as int),
                forall|i: int| 0 <= i < rev@.len() ==> #[trigger] rev@[i] == comps[comps.len() - 1 - i],
            decreases components@.len(),
        {
            let c = components.pop().unwrap();
            rev.push(c);
        }
        let ghost base = self.columns@;
        let mut n: usize = 0;
        while rev.len() > 0
            invariant
                self.wf(),
                self.types() == old(self).types(),
                self.rows() == old(self).rows().push(entity),
                n + rev@.len() == comps.len(),
                comps.len() == total,
                forall|i: int| 0 <= i < rev@.len() ==> #[trigger] rev@[i] == comps[comps.len() - 1 - i],
                forall|i: int| 0 <= i < comps.len() ==> old(self).has_column(#[trigger] comps[i].0),
                self.cols().len() == base.len(),
                base == old(self).cols(),
                forall|k: int|
                    0 <= k < base.len() ==> (#[trigger] self.cols()[k]).spec_type_id()
                        == base[k].spec_type_id() && self.cols()[k].values() == base[k].values()
                        + values_for(comps.take(n as int), base[k].spec_type_id()),
            decreases rev@.len(),
        {
            let (tid, value) = rev.pop().unwrap();
            proof {
                assert(comps[n as int] == (tid, value));
                assert(old(self).has_column(comps[n as int].0));
                let w = choose|w: int| 0 <= w < base.len() && #[trigger] base[w].spec_type_id() == tid;
                assert(self.cols()[w].spec_type_id() == tid);
            }
            let j = self.column_position(tid).unwrap();
            self.columns[j].push(value);
            proof {
                assert(comps.take(n + 1).drop_last() == comps.take(n as int));
                assert forall|k: int| 0 <= k < base.len() implies (#[trigger] self.cols()[k]).spec_type_id()
                        == base[k].spec_type_id() && self.cols()[k].values() == base[k].values()
                        + values_for(comps.take(n + 1), base[k].spec_type_id()) by {
                    assert(comps.take(n + 1).last() == (tid, value));
                }
            }
            n = n + 1;
        }
        proof {
            assert(comps.take(n as int) == comps);
        }
    }

    /// `after` is `before` with `row` removed by moving the last row into its
    /// place, in the entity list and in every column.
    pub open spec fn removed(before: Self, row: int, after: Self) -> bool {
        &&& after.types() == before.types()
        &&& after.rows() == swap_removed(before.rows(), row)
        &&& after.cols().len() == before.cols().len()
        &&& forall|k: int|
            0 <= k < before.cols().len() ==> (#[trigger] after.cols()[k]).spec_type_id()
                == before.cols()[k].spec_type_id() && after.cols()[k].values() == swap_removed(
                before.cols()[k].values(),
                row,
            )
    }


    /// Removing a row keeps one column per component type, and each column
    /// loses the same row.
    pub proof fn lemma_removed_column(before: Self, row: int, after: Self, t: u64)
        requires
            before.wf(),
            Self::removed(before, row, after),
        ensures
            after.wf(),
            after.has_column(t) == before.has_column(t),
            before.has_column(t) ==> after.column(t) == swap_removed(before.column(t), row),
    {
        assert forall|a: int, b: int|
            0 <= a < b < after.cols().len() implies #[trigger] after.cols()[a].spec_type_id()
                != #[trigger] after.cols()[b].spec_type_id() by {
            assert(before.cols()[a].spec_type_id() != before.cols()[b].spec_type_id());
        }
        if after.has_column(t) {
            let j = choose|j: int| 0 <= j < after.cols().len() && #[trigger] after.cols()[j].spec_type_id() == t;
            assert(before.cols()[j].spec_type_id() == t);
        }
        if before.has_column(t) {
            let j = before.column_pos(t);
            before.lemma_column_pos(j);
            assert(after.cols()[j].spec_type_id() == t);
            after.lemma_column_pos(j);
        }
    }

    /// Removes `row` by moving the last row into its place, in the entity list
    /// and in every column, and returns the entity that was in the last row.
    pub fn remove(&mut self, row: usize) -> (last: Entity)
        requires
            old(self).wf(),
            row < old(self).rows().len(),
            old(self).columns_cover(row + 1),
        ensures
            final(self).wf(),
            last == old(self).rows().last(),
            Self::removed(*old(self), row as int, *final(self)),
    {
        let last = *self.entities.last().unwrap();
        self.entities.swap_remove(row);
        let ghost base = self.columns@;
        let mut j: usize = 0;
        while j < self.columns.len()
            invariant
                self.types() == old(self).types(),
                self.rows() == swap_removed(old(self).rows(), row as int),
                base == old(self).cols(),
                self.cols().len() == base.len(),
                0 <= j <= base.len(),
                old(self).columns_cover(row + 1),
                forall|k: int|
                    0 <= k < base.len() ==> (#[trigger] self.cols()[k]).spec_type_id()
                        == base[k].spec_type_id(),
                forall|k: int|
                    0 <= k < j ==> (#[trigger] self.cols()[k]).values() == swap_removed(
                        base[k].values(),
                        row as int,
                    ),
                forall|k: int| j <= k < base.len() ==> (#[trigger] self.cols()[k]).values() == base[k].values(),
            decreases base.len() - j,
        {
            self.columns[j].swap_remove(row);
            j = j + 1;
        }
        proof {
            assert forall|a: int, b: int|
                0 <= a < b < self.cols().len() implies #[trigger] self.cols()[a].spec_type_id()
                    != #[trigger] self.cols()[b].spec_type_id() by {
                assert(base[a].spec_type_id() != base[b].spec_type_id());
            }
        }
        last
    }
}

} // verus!
