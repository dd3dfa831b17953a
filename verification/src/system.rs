use vstd::prelude::*;

use crate::world::World;

verus! {

/// Logic run against a world each frame. `runs_to` states what one run does:
/// which system and world it can leave behind, starting from a given system
/// and world; a system that does not state it claims nothing.
pub trait System<V>: Sized {
    open spec fn runs_to(&self, world: World<V>, after: Self, after_world: World<V>) -> bool {
        true
    }

    fn run(&mut self, world: &mut World<V>)
        ensures
            old(self).runs_to(*old(world), *final(self), *final(world)),
    ;
}

/// Running the systems `sys` in order, from world `w`, can leave the systems
/// `sys2` and world `w2` behind.
pub open spec fn runs_seq<V, S: System<V>>(sys: Seq<S>, w: World<V>, sys2: Seq<S>, w2: World<V>) -> bool
    decreases sys.len(),
{
    if sys.len() == 0 {
        sys2.len() == 0 && w2 == w
    } else {
        &&& sys2.len() == sys.len()
        &&& exists|wm: World<V>|
            runs_seq(sys.drop_last(), w, sys2.drop_last(), wm) && #[trigger] sys.last().runs_to(
                wm,
                sys2.last(),
                w2,
            )
    }
}

/// Running systems in order keeps each system in its place: when `sys` run
/// in order from `w` leave `sys2` and `w2`, there are worlds `ws` from `w`
/// to `w2` such that the `k`-th system, run from `ws[k]`, leaves the `k`-th
/// system of `sys2` and the world `ws[k + 1]`.
pub proof fn lemma_runs_seq_positions<V, S: System<V>>(sys: Seq<S>, w: World<V>, sys2: Seq<S>, w2: World<V>)
    requires
        runs_seq(sys, w, sys2, w2),
    ensures
        sys2.len() == sys.len(),
        exists|ws: Seq<World<V>>|
            ws.len() == sys.len() + 1 && ws[0] == w && ws[sys.len() as int] == w2 && forall|k: int|
                0 <= k < sys.len() ==> #[trigger] sys[k].runs_to(ws[k], sys2[k], ws[k + 1]),
    decreases sys.len(),
{
    if sys.len() == 0 {
        let ws = seq![w];
        assert(ws.len() == sys.len() + 1 && ws[0] == w && ws[sys.len() as int] == w2 && forall|k: int|
            0 <= k < sys.len() ==> #[trigger] sys[k].runs_to(ws[k], sys2[k], ws[k + 1]));
    } else {
        let n = sys.len() - 1;
        let wm = choose|wm: World<V>|
            runs_seq(sys.drop_last(), w, sys2.drop_last(), wm) && #[trigger] sys.last().runs_to(
                wm,
                sys2.last(),
                w2,
            );
        lemma_runs_seq_positions(sys.drop_last(), w, sys2.drop_last(), wm);
        let ws0 = choose|ws: Seq<World<V>>|
            ws.len() == sys.drop_last().len() + 1 && ws[0] == w && ws[sys.drop_last().len() as int] == wm
                && forall|k: int|
                0 <= k < sys.drop_last().len() ==> #[trigger] sys.drop_last()[k].runs_to(
                    ws[k],
                    sys2.drop_last()[k],
                    ws[k + 1],
                );
        let ws = ws0.push(w2);
        assert forall|k: int| 0 <= k < sys.len() implies #[trigger] sys[k].runs_to(ws[k], sys2[k], ws[k + 1]) by {
            if k < n {
                assert(sys.drop_last()[k] == sys[k]);
                assert(sys2.drop_last()[k] == sys2[k]);
                assert(sys.drop_last()[k].runs_to(ws0[k], sys2.drop_last()[k], ws0[k + 1]));
            } else {
                assert(ws[k] == wm);
            }
        }
        assert(ws.len() == sys.len() + 1 && ws[0] == w && ws[sys.len() as int] == w2 && forall|k: int|
            0 <= k < sys.len() ==> #[trigger] sys[k].runs_to(ws[k], sys2[k], ws[k + 1]));
    }
}

/// The phases of a frame, run in this order.
#[derive(Clone, Copy, Debug, PartialEq, Eq, Structural, Hash)]
pub enum Stage {
    PreUpdate,
    Update,
    PostUpdate,
    PreRender,
}

impl Stage {
    /// The number of stages.
    pub const COUNT: usize = 4;

    pub open spec fn spec_index(&self) -> int {
        match *self {
            Stage::PreUpdate => 0,
            Stage::Update => 1,
            Stage::PostUpdate => 2,
            Stage::PreRender => 3,
        }
    }

    /// The stage's position in the frame.
    pub fn index(&self) -> (i: usize)
        ensures
            i == self.spec_index(),
    {
        match *self {
            Stage::PreUpdate => 0,
            Stage::Update => 1,
            Stage::PostUpdate => 2,
            Stage::PreRender => 3,
        }
    }
}

/// The systems of a scene, grouped by stage, each group in the order added.
pub struct Scheduler<S> {
    stages: Vec<Vec<S>>,
    order: [Stage; 4],
}

impl<S> Default for Scheduler<S> {
    fn default() -> (s: Self)
        ensures
            s.wf(),
            forall|st: Stage| #[trigger] s.systems(st) == Seq::<S>::empty(),
    {
        let mut stages: Vec<Vec<S>> = Vec::new();
        stages.push(Vec::new());
        stages.push(Vec::new());
        stages.push(Vec::new());
        stages.push(Vec::new());
        Scheduler {
            stages,
            order: [Stage::PreUpdate, Stage::Update, Stage::PostUpdate, Stage::PreRender],
        }
    }
}

impl<S> Scheduler<S> {
    /// The systems of stage `st`, in the order they run.
    pub closed spec fn systems(&self, st: Stage) -> Seq<S> {
        self.stages@[st.spec_index()]@
    }

    pub closed spec fn wf(&self) -> bool {
        &&& self.stages@.len() == 4
        &&& self.order@ == seq![Stage::PreUpdate, Stage::Update, Stage::PostUpdate, Stage::PreRender]
    }

    /// Adds `system` at the end of stage `stage`.
    pub fn add_system(&mut self, stage: Stage, system: S)
        requires
            old(self).wf(),
        ensures
            final(self).wf(),
            final(self).systems(stage) == old(self).systems(stage).push(system),
            forall|st: Stage| st != stage ==> #[trigger] final(self).systems(st) == old(self).systems(st),
    {
        let i = stage.index();
        self.stages[i].push(system);
        proof {
            assert forall|st: Stage| st != stage implies #[trigger] self.systems(st) == old(self).systems(st) by {
                assert(st.spec_index() != stage.spec_index());
            }
        }
    }

    /// Runs the systems of stage `stage` against `world`, in order.
    pub fn run_stage<V>(&mut self, stage: Stage, world: &mut World<V>)
        where
            S: System<V>,
        requires
            old(self).wf(),
        ensures
            final(self).wf(),
            runs_seq(old(self).systems(stage), *old(world), final(self).systems(stage), *final(world)),
            final(self).systems(stage).len() == old(self).systems(stage).len(),
            exists|ws: Seq<World<V>>|
                ws.len() == old(self).systems(stage).len() + 1 && ws[0] == *old(world)
                    && ws[old(self).systems(stage).len() as int] == *final(world) && forall|k: int|
                    0 <= k < old(self).systems(stage).len() ==> #[trigger] old(self).systems(stage)[k].runs_to(
                        ws[k],
                        final(self).systems(stage)[k],
                        ws[k + 1],
                    ),
            forall|st: Stage| st != stage ==> #[trigger] final(self).systems(st) == old(self).systems(st),
    {
        let i = stage.index();
        let mut systems: Vec<S> = Vec::new();
        std::mem::swap(&mut systems, &mut self.stages[i]);
        let ghost sys0 = systems@;
        let ghost w0 = *world;
        let mut k: usize = 0;
        while k < systems.len()
            invariant
                0 <= k <= systems@.len(),
                systems@.len() == sys0.len(),
                forall|j: int| k <= j < sys0.len() ==> #[trigger] systems@[j] == sys0[j],
                runs_seq(sys0.take(k as int), w0, systems@.take(k as int), *world),
            decreases sys0.len() - k,
        {
            let ghost wm = *world;
            let ghost before = systems@;
            systems[k].run(world);
            proof {
                assert(systems@ == before.update(k as int, systems@[k as int]));
                let a = sys0.take(k + 1);
                let b = systems@.take(k + 1);
                assert(a.drop_last() == sys0.take(k as int));
                assert(b.drop_last() == before.take(k as int));
                assert(before.take(k as int) == systems@.take(k as int));
                assert(a.last() == sys0[k as int]);
                assert(b.last() == systems@[k as int]);
                assert(a.last().runs_to(wm, b.last(), *world));
                assert(runs_seq(a.drop_last(), w0, b.drop_last(), wm));
            }
            k = k + 1;
        }
        proof {
            assert(sys0.take(sys0.len() as int) == sys0);
            assert(systems@.take(sys0.len() as int) == systems@);
        }
        std::mem::swap(&mut systems, &mut self.stages[i]);
        proof {
            lemma_runs_seq_positions(old(self).systems(stage), *old(world), self.systems(stage), *world);
            assert forall|st: Stage| st != stage implies #[trigger] self.systems(st) == old(self).systems(st) by {
                assert(st.spec_index() != stage.spec_index());
            }
        }
    }

    /// Running a whole frame: every stage in the order PreUpdate, Update,
    /// PostUpdate, PreRender, each from the world the previous one left.
    pub open spec fn runs_frame<V>(before: Self, w0: World<V>, after: Self, w4: World<V>) -> bool
        where
            S: System<V>,
    {
        exists|w1: World<V>, w2: World<V>, w3: World<V>|
            #![trigger Self::frame_steps(before, w0, w1, w2, w3, after, w4)]
            Self::frame_steps(before, w0, w1, w2, w3, after, w4)
    }

    pub open spec fn frame_steps<V>(
        before: Self,
        w0: World<V>,
        w1: World<V>,
        w2: World<V>,
        w3: World<V>,
        after: Self,
        w4: World<V>,
    ) -> bool
        where
            S: System<V>,
    {
        &&& runs_seq(before.systems(Stage::PreUpdate), w0, after.systems(Stage::PreUpdate), w1)
        &&& runs_seq(before.systems(Stage::Update), w1, after.systems(Stage::Update), w2)
        &&& runs_seq(before.systems(Stage::PostUpdate), w2, after.systems(Stage::PostUpdate), w3)
        &&& runs_seq(before.systems(Stage::PreRender), w3, after.systems(Stage::PreRender), w4)
    }

    /// Runs every stage against `world`, in the order PreUpdate, Update,
    /// PostUpdate, PreRender.
    pub fn run_all<V>(&mut self, world: &mut World<V>)
        where
            S: System<V>,
        requires
            old(self).wf(),
        ensures
            final(self).wf(),
            Self::runs_frame(*old(self), *old(world), *final(self), *final(world)),
    {
        let ghost s0 = *self;
        let ghost mut ws: Seq<World<V>> = seq![*world];
        let mut j: usize = 0;
        while j < 4
            invariant
                self.wf(),
                0 <= j <= 4,
                ws.len() == j + 1,
                ws[j as int] == *world,
                ws[0] == *old(world),
                s0 == *old(self),
                self.order@ == seq![Stage::PreUpdate, Stage::Update, Stage::PostUpdate, Stage::PreRender],
                forall|m: int|
                    0 <= m < j ==> runs_seq(
                        s0.systems(self.order@[m]),
                        #[trigger] ws[m],
                        self.systems(self.order@[m]),
                        ws[m + 1],
                    ),
                forall|m: int| j <= m < 4 ==> #[trigger] self.systems(self.order@[m]) == s0.systems(self.order@[m]),
            decreases 4 - j,
        {
            let stage = self.order[j];
            let ghost s1 = *self;
            self.run_stage(stage, world);
            proof {
                assert forall|m: int| 0 <= m < j implies self.systems(self.order@[m]) == s1.systems(
                    self.order@[m],
                ) by {
                    assert(self.order@[m] != stage);
                }
                assert forall|m: int| j < m < 4 implies self.systems(self.order@[m]) == s1.systems(
                    self.order@[m],
                ) by {
                    assert(self.order@[m] != stage);
                }
                ws = ws.push(*world);
            }
            j = j + 1;
        }
        proof {
            assert(Self::frame_steps(s0, ws[0], ws[1], ws[2], ws[3], *self, ws[4]));
        }
    }

    /// Runs every stage against `world`; the same as `run_all`.
    pub fn run<V>(&mut self, world: &mut World<V>)
        where
            S: System<V>,
        requires
            old(self).wf(),
        ensures
            final(self).wf(),
            Self::runs_frame(*old(self), *old(world), *final(self), *final(world)),
    {
        self.run_all(world);
    }
}

} // verus!
