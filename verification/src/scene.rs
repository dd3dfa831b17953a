use vstd::prelude::*;

use crate::system::{runs_seq, Scheduler, Stage, System};
use crate::world::{EntityBuilder, World};

verus! {

/// A scene: a world together with the systems that run against it.
pub struct Scene<V, S> {
    pub world: World<V>,
    pub scheduler: Scheduler<S>,
    pub init: bool,
}

impl<V, S> Scene<V, S> {
    pub open spec fn schedule(&self) -> Scheduler<S> {
        self.scheduler
    }

    pub open spec fn wf(&self) -> bool {
        &&& self.world.wf()
        &&& self.schedule().wf()
    }

    /// An empty scene: an empty world, no systems, not yet initialised.
    pub fn new() -> (s: Self)
        ensures
            s.wf(),
            s.world.is_empty(),
            forall|st: Stage| #[trigger] s.schedule().systems(st) == Seq::<S>::empty(),
            !s.init,
    {
        Scene { world: World::default(), scheduler: Scheduler::default(), init: false }
    }

    /// The scene with `resource` stored under resource type `key`.
    pub fn with_resource(self, key: u64, resource: V) -> (s: Self)
        ensures
            s.world.resource_map() == self.world.resource_map().insert(key, resource),
            s.world.allocator() == self.world.allocator(),
            s.world.archs() == self.world.archs(),
            s.world.locations() == self.world.locations(),
            s.schedule() == self.schedule(),
            s.init == self.init,
    {
        let mut s = self;
        s.world.insert_resource(key, resource);
        s
    }

    /// The scene with one more entity: a fresh entity is spawned, `f` adds
    /// its components to the builder, and the result is built into the world.
    pub fn with_entity<F>(self, f: F) -> (s: Self)
        where
            F: FnOnce(EntityBuilder<V>) -> EntityBuilder<V>,
        requires
            self.world.wf(),
            forall|b: EntityBuilder<V>| call_requires(f, (b,)),
        ensures
            s.world.wf(),
            exists|mid: World<V>, b0: EntityBuilder<V>, b1: EntityBuilder<V>|
                #![trigger World::spawn_post(self.world, b0, mid), call_ensures(f, (b0,), b1)]
                World::spawn_post(self.world, b0, mid) && call_ensures(f, (b0,), b1)
                    && World::build_post(mid, b1.entity(), b1.components(), s.world),
            s.schedule() == self.schedule(),
            s.init == self.init,
    {
        let mut s = self;
        let b0 = s.world.spawn();
        let ghost mid = s.world;
        let b1 = f(b0);
        b1.build(&mut s.world);
        s
    }

    /// The scene with `system` added at the end of stage `stage`.
    pub fn with_system(self, stage: Stage, system: S) -> (s: Self)
        requires
            self.schedule().wf(),
        ensures
            s.schedule().wf(),
            s.schedule().systems(stage) == self.schedule().systems(stage).push(system),
            forall|st: Stage| st != stage ==> #[trigger] s.schedule().systems(st) == self.schedule().systems(st),
            s.world == self.world,
            s.init == self.init,
    {
        let mut s = self;
        s.scheduler.add_system(stage, system);
        s
    }

    /// Adds `system` at the end of stage `stage`.
    pub fn add_system(&mut self, stage: Stage, system: S)
        requires
            old(self).schedule().wf(),
        ensures
            final(self).schedule().wf(),
            final(self).schedule().systems(stage) == old(self).schedule().systems(stage).push(system),
            forall|st: Stage| st != stage ==> #[trigger] final(self).schedule().systems(st) == old(self).schedule().systems(st),
            final(self).world == old(self).world,
            final(self).init == old(self).init,
    {
        self.scheduler.add_system(stage, system);
    }

    /// Runs the systems of stage `stage` against the scene's world, in order.
    pub fn run_stage(&mut self, stage: Stage)
        where
            S: System<V>,
        requires
            old(self).schedule().wf(),
        ensures
            final(self).schedule().wf(),
            runs_seq(
                old(self).schedule().systems(stage),
                old(self).world,
                final(self).schedule().systems(stage),
                final(self).world,
            ),
            final(self).schedule().systems(stage).len() == old(self).schedule().systems(stage).len(),
            exists|ws: Seq<World<V>>|
                ws.len() == old(self).schedule().systems(stage).len() + 1 && ws[0] == old(self).world
                    && ws[old(self).schedule().systems(stage).len() as int] == final(self).world
                    && forall|k: int|
                    0 <= k < old(self).schedule().systems(stage).len()
                        ==> #[trigger] old(self).schedule().systems(stage)[k].runs_to(
                        ws[k],
                        final(self).schedule().systems(stage)[k],
                        ws[k + 1],
                    ),
            forall|st: Stage| st != stage ==> #[trigger] final(self).schedule().systems(st) == old(self).schedule().systems(st),
            final(self).init == old(self).init,
    {
        self.scheduler.run_stage(stage, &mut self.world);
    }
}

} // verus!
