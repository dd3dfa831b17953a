use engine::system::{Scheduler, Stage, System};
use engine::world::World;

const LOG: u64 = 1;

/// Appends its mark to the log resource (as decimal digits).
struct Mark(i64);

impl System<i64> for Mark {
    fn run(&mut self, world: &mut World<i64>) {
        let log = *world.resource(LOG).unwrap_or(&0);
        world.insert_resource(LOG, log * 10 + self.0);
    }
}

#[test]
fn run_all_runs_stages_in_frame_order() {
    let mut s: Scheduler<Mark> = Scheduler::default();
    s.add_system(Stage::PreRender, Mark(4));
    s.add_system(Stage::Update, Mark(2));
    s.add_system(Stage::PreUpdate, Mark(1));
    s.add_system(Stage::PostUpdate, Mark(3));
    s.add_system(Stage::Update, Mark(5));
    let mut w: World<i64> = World::default();
    s.run_all(&mut w);
    assert_eq!(w.resource(LOG), Some(&12534));
}

#[test]
fn run_is_run_all() {
    let mut s: Scheduler<Mark> = Scheduler::default();
    s.add_system(Stage::Update, Mark(7));
    s.add_system(Stage::PreUpdate, Mark(6));
    let mut w: World<i64> = World::default();
    s.run(&mut w);
    assert_eq!(w.resource(LOG), Some(&67));
}

#[test]
fn run_stage_runs_only_that_stage_in_insertion_order() {
    let mut s: Scheduler<Mark> = Scheduler::default();
    s.add_system(Stage::Update, Mark(1));
    s.add_system(Stage::Update, Mark(2));
    s.add_system(Stage::PostUpdate, Mark(9));
    let mut w: World<i64> = World::default();
    s.run_stage(Stage::Update, &mut w);
    assert_eq!(w.resource(LOG), Some(&12));
    s.run_stage(Stage::PreRender, &mut w);
    assert_eq!(w.resource(LOG), Some(&12));
}

#[test]
fn stage_indices_and_count() {
    assert_eq!(Stage::COUNT, 4);
    assert_eq!(Stage::PreUpdate.index(), 0);
    assert_eq!(Stage::Update.index(), 1);
    assert_eq!(Stage::PostUpdate.index(), 2);
    assert_eq!(Stage::PreRender.index(), 3);
}
