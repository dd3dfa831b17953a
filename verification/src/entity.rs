use vstd::prelude::*;

verus! {

/// A generational handle to an entity: the slot `index` together with the
/// `generation` that slot had when the handle was handed out.
#[derive(Clone, Copy, Debug, PartialEq, Eq, Structural, Hash, PartialOrd, Ord)]
pub struct Entity {
    index: u32,
    generation: u32,
}

impl Entity {
    pub closed spec fn spec_index(&self) -> u32 {
        self.index
    }

    pub closed spec fn spec_generation(&self) -> u32 {
        self.generation
    }

    /// The slot this handle refers to.
    #[verifier::when_used_as_spec(spec_index)]
    pub fn index(&self) -> (r: u32)
        ensures
            r == self.spec_index(),
    {
        self.index
    }

    /// The generation of the slot at the time the handle was handed out.
    #[verifier::when_used_as_spec(spec_generation)]
    pub fn generation(&self) -> (r: u32)
        ensures
            r == self.spec_generation(),
    {
        self.generation
    }

    /// Two handles with the same slot and generation are the same handle.
    pub proof fn lemma_ext(a: Entity, b: Entity)
        requires
            a.index() == b.index(),
            a.generation() == b.generation(),
        ensures
            a == b,
    {
    }
}

/// Hands out entity handles. Each slot carries a generation counter; a handle
/// is alive while its generation matches the slot's current one. Freed slots
/// are kept on a stack and handed out again, most recently freed first.
#[derive(Debug)]
pub struct EntityAllocator {
    generations: Vec<u32>,
    free: Vec<u32>,
}

impl Default for EntityAllocator {
    fn default() -> (r: Self)
        ensures
            r.generations() == Seq::<u32>::empty(),
            r.free_slots() == Seq::<u32>::empty(),
            r.wf(),
            r.issued_ok(Set::<Entity>::empty()),
    {
        EntityAllocator { generations: Vec::new(), free: Vec::new() }
    }
}

impl EntityAllocator {
    /// Current generation of every slot ever handed out.
    pub closed spec fn generations(&self) -> Seq<u32> {
        self.generations@
    }

    /// The stack of freed slots; the last one is handed out next.
    pub closed spec fn free_slots(&self) -> Seq<u32> {
        self.free@
    }

    /// Every freed slot names a slot that exists.
    pub open spec fn wf(&self) -> bool {
        forall|i: int|
            0 <= i < self.free_slots().len() ==> (#[trigger] self.free_slots()[i] as int)
                < self.generations().len()
    }

    /// The handles in `issued` (those handed out so far) fit the allocator:
    /// no slot is on the free stack twice, every handed-out handle names an
    /// existing slot at a generation it has reached, and the slot of a
    /// handed-out handle that is still alive is not on the free stack.
    pub open spec fn issued_ok(&self, issued: Set<Entity>) -> bool {
        &&& self.free_slots().no_duplicates()
        &&& forall|h: Entity|
            #[trigger] issued.contains(h) ==> (h.index() as int) < self.generations().len()
                && h.generation() <= self.generations()[h.index() as int]
        &&& forall|h: Entity|
            #[trigger] issued.contains(h) && self.spec_is_alive(h) ==> !self.free_slots().contains(
                h.index(),
            )
    }

    /// Whether `e` is alive with respect to the slot generations `gens`.
    pub open spec fn alive_in(gens: Seq<u32>, e: Entity) -> bool {
        &&& (e.index() as int) < gens.len()
        &&& gens[e.index() as int] == e.generation()
    }

    pub open spec fn spec_is_alive(&self, e: Entity) -> bool {
        Self::alive_in(self.generations(), e)
    }

    /// Slot generations never go back: no slot disappears and no counter decreases.
    pub open spec fn generations_grow(before: Seq<u32>, after: Seq<u32>) -> bool {
        &&& before.len() <= after.len()
        &&& forall|i: int| 0 <= i < before.len() ==> before[i] <= #[trigger] after[i]
    }

    /// What `allocate` does: pop the top of the free stack and hand out that
    /// slot at its current generation, or, with an empty stack, open a new
    /// slot at generation 0 whose number is the slot count truncated to 32 bits.
    pub open spec fn allocate_post(before: Self, after: Self, e: Entity) -> bool {
        if before.free_slots().len() > 0 {
            let i = before.free_slots().last();
            &&& e.index() == i
            &&& e.generation() == before.generations()[i as int]
            &&& after.free_slots() == before.free_slots().drop_last()
            &&& after.generations() == before.generations()
        } else {
            &&& e.index() == before.generations().len() as u32
            &&& e.generation() == 0
            &&& after.free_slots() == before.free_slots()
            &&& after.generations() == before.generations().push(0)
        }
    }

    /// What `dealloc` does: bump the slot's generation and push the slot on
    /// the free stack.
    pub open spec fn dealloc_post(before: Self, entity: Entity, after: Self) -> bool {
        &&& after.generations() == before.generations().update(
            entity.index() as int,
            (before.generations()[entity.index() as int] + 1) as u32,
        )
        &&& after.free_slots() == before.free_slots().push(entity.index())
    }

    /// Hands out a handle: the most recently freed slot with its current
    /// generation, or else a new slot (numbered by the slot count, truncated
    /// to 32 bits) with generation 0.
    pub fn allocate(&mut self) -> (e: Entity)
        requires
            old(self).wf(),
        ensures
            final(self).wf(),
            Self::allocate_post(*old(self), *final(self), e),
            Self::generations_grow(old(self).generations(), final(self).generations()),
            old(self).free_slots().len() > 0 || old(self).generations().len() <= u32::MAX
                ==> final(self).is_alive(e),
    {
        if let Some(index) = self.free.pop() {
            Entity { index, generation: self.generations[index as usize] }
        } else {
            let index = self.generations.len() as u32;
            self.generations.push(0);
            proof {
                assert forall|i: int| 0 <= i < self.free_slots().len() implies (
                #[trigger] self.free_slots()[i] as int) < self.generations().len() by {
                    assert(self.free_slots()[i] == old(self).free_slots()[i]);
                }
            }
            Entity { index, generation: 0 }
        }
    }

    /// Frees the slot of `entity`: its generation moves on by one (so every
    /// handle to it dies) and the slot goes on top of the free stack.
    pub fn dealloc(&mut self, entity: Entity)
        requires
            old(self).wf(),
            (entity.index() as int) < old(self).generations().len(),
            old(self).generations()[entity.index() as int] < u32::MAX,
        ensures
            final(self).wf(),
            Self::dealloc_post(*old(self), entity, *final(self)),
            Self::generations_grow(old(self).generations(), final(self).generations()),
            entity.generation() <= old(self).generations()[entity.index() as int]
                ==> !final(self).is_alive(entity),
    {
        let i = entity.index as usize;
        let g = self.generations[i];
        self.generations.set(i, g + 1);
        self.free.push(entity.index);
        proof {
            assert forall|k: int| 0 <= k < self.free_slots().len() implies (
            #[trigger] self.free_slots()[k] as int) < self.generations().len() by {
                if k < old(self).free_slots().len() {
                    assert(self.free_slots()[k] == old(self).free_slots()[k]);
                }
            }
        }
    }

    /// Whether `entity` still refers to the current generation of its slot.
    #[verifier::when_used_as_spec(spec_is_alive)]
    pub fn is_alive(&self, entity: Entity) -> (r: bool)
        ensures
            r == self.spec_is_alive(entity),
    {
        let i = entity.index as usize;
        if i < self.generations.len() {
            self.generations[i] == entity.generation
        } else {
            false
        }
    }
}

/// Once a handle's slot has moved past its generation, the handle stays dead
/// under every later sequence of allocations and frees (those only let
/// generations grow).
pub proof fn lemma_dead_stays_dead(before: Seq<u32>, after: Seq<u32>, e: Entity)
    requires
        EntityAllocator::generations_grow(before, after),
        (e.index() as int) < before.len(),
        e.generation() < before[e.index() as int],
    ensures
        !EntityAllocator::alive_in(after, e),
{
}

/// Growth of slot generations composes over a sequence of operations.
pub proof fn lemma_generations_grow_trans(a: Seq<u32>, b: Seq<u32>, c: Seq<u32>)
    requires
        EntityAllocator::generations_grow(a, b),
        EntityAllocator::generations_grow(b, c),
    ensures
        EntityAllocator::generations_grow(a, c),
{
    assert forall|i: int| 0 <= i < a.len() implies a[i] <= #[trigger] c[i] by {
        assert(a[i] <= b[i]);
    }
}

/// Freeing a live handle and then allocating hands out the same slot again
/// with the next generation: the new handle is alive, the old one is not,
/// and they differ.
pub proof fn lemma_free_then_allocate_reuses_slot(
    a0: EntityAllocator,
    e: Entity,
    a1: EntityAllocator,
    a2: EntityAllocator,
    e2: Entity,
)
    requires
        a0.wf(),
        a0.is_alive(e),
        a0.generations()[e.index() as int] < u32::MAX,
        EntityAllocator::dealloc_post(a0, e, a1),
        EntityAllocator::allocate_post(a1, a2, e2),
    ensures
        e2.index() == e.index(),
        e2.generation() == e.generation() + 1,
        a2.is_alive(e2),
        !a2.is_alive(e),
        e2 != e,
{
}

/// Allocating keeps the handed-out handles sound, and the new handle is
/// alive and shares its slot with no handle that is still alive: every
/// earlier handle stays alive or dead as it was. (With an empty free stack
/// this needs at most 2^32 slots, since a new slot is numbered by the slot
/// count truncated to 32 bits.)
pub proof fn lemma_allocate_keeps_issued_ok(
    a0: EntityAllocator,
    issued: Set<Entity>,
    a1: EntityAllocator,
    e: Entity,
)
    requires
        a0.wf(),
        a0.issued_ok(issued),
        EntityAllocator::allocate_post(a0, a1, e),
        a0.free_slots().len() > 0 || a0.generations().len() <= u32::MAX,
    ensures
        a1.issued_ok(issued.insert(e)),
        a1.is_alive(e),
        forall|h: Entity|
            #[trigger] issued.contains(h) ==> a1.is_alive(h) == a0.is_alive(h) && (a0.is_alive(h)
                ==> h.index() != e.index()),
{
    let f0 = a0.free_slots();
    let f1 = a1.free_slots();
    if f0.len() > 0 {
        let i = f0.last();
        assert(f0[f0.len() - 1] == i);
        assert(f1.no_duplicates()) by {
            assert forall|x: int, y: int| 0 <= x < y < f1.len() implies f1[x] != f1[y] by {
                assert(f1[x] == f0[x] && f1[y] == f0[y]);
            }
        }
        assert(!f1.contains(i)) by {
            if f1.contains(i) {
                let x = choose|x: int| 0 <= x < f1.len() && f1[x] == i;
                assert(f0[x] == i);
            }
        }
        assert forall|h: Entity| #[trigger] issued.contains(h) implies a1.is_alive(h) == a0.is_alive(h)
            && (a0.is_alive(h) ==> h.index() != e.index()) by {
            if a0.is_alive(h) {
                assert(!f0.contains(h.index()));
                if h.index() == i {
                    assert(f0.contains(i));
                }
            }
        }
        assert forall|h: Entity|
            #[trigger] issued.insert(e).contains(h) && a1.spec_is_alive(h) implies !f1.contains(
            h.index(),
        ) by {
            if h != e {
                assert(issued.contains(h));
                assert(!f0.contains(h.index()));
                if f1.contains(h.index()) {
                    let x = choose|x: int| 0 <= x < f1.len() && f1[x] == h.index();
                    assert(f0[x] == h.index());
                }
            }
        }
    } else {
        let n = a0.generations().len();
        assert(e.index() as int == n);
        assert forall|h: Entity| #[trigger] issued.contains(h) implies a1.is_alive(h) == a0.is_alive(h)
            && (a0.is_alive(h) ==> h.index() != e.index()) by {
            assert(a1.generations()[h.index() as int] == a0.generations()[h.index() as int]);
        }
        assert forall|h: Entity| #[trigger] issued.insert(e).contains(h) implies (h.index() as int)
            < a1.generations().len() && h.generation() <= a1.generations()[h.index() as int] by {
            if h != e {
                assert(issued.contains(h));
                assert(a1.generations()[h.index() as int] == a0.generations()[h.index() as int]);
            }
        }
    }
}

/// Freeing a live handed-out handle keeps the handed-out handles sound: its
/// slot goes on the free stack once, every handle to that slot is dead, and
/// handles to other slots stay alive or dead as they were.
pub proof fn lemma_dealloc_keeps_issued_ok(
    a0: EntityAllocator,
    issued: Set<Entity>,
    e: Entity,
    a1: EntityAllocator,
)
    requires
        a0.wf(),
        a0.issued_ok(issued),
        issued.contains(e),
        a0.is_alive(e),
        a0.generations()[e.index() as int] < u32::MAX,
        EntityAllocator::dealloc_post(a0, e, a1),
    ensures
        a1.issued_ok(issued),
        !a1.is_alive(e),
        forall|h: Entity| #[trigger] issued.contains(h) && h.index() == e.index() ==> !a1.is_alive(h),
        forall|h: Entity|
            #[trigger] issued.contains(h) && h.index() != e.index() ==> a1.is_alive(h) == a0.is_alive(h),
{
    let f0 = a0.free_slots();
    let f1 = a1.free_slots();
    let i = e.index();
    assert(!f0.contains(i));
    assert(f1.no_duplicates()) by {
        assert forall|x: int, y: int| 0 <= x < y < f1.len() implies f1[x] != f1[y] by {
            if y == f1.len() - 1 {
                assert(f1[x] == f0[x]);
                if f1[x] == i {
                    assert(f0.contains(i));
                }
            } else {
                assert(f1[x] == f0[x] && f1[y] == f0[y]);
            }
        }
    }
    assert forall|h: Entity| #[trigger] issued.contains(h) implies (h.index() as int)
        < a1.generations().len() && h.generation() <= a1.generations()[h.index() as int] by {}
    assert forall|h: Entity| #[trigger] issued.contains(h) && a1.spec_is_alive(h) implies !f1.contains(
        h.index(),
    ) by {
        assert(h.index() != i);
        assert(a0.spec_is_alive(h));
        assert(!f0.contains(h.index()));
        if f1.contains(h.index()) {
            let x = choose|x: int| 0 <= x < f1.len() && f1[x] == h.index();
            assert(f0[x] == h.index());
        }
    }
}

} // verus!
