use engine::assets::ManagedResource;
use engine::manager::SceneManager;
use engine::scene::Scene;
use engine::system::{Stage, System};
use engine::world::World;

const SCORE: u64 = 1;
const POS: u64 = 2;

struct Add(i64);

impl System<i64> for Add {
    fn run(&mut self, world: &mut World<i64>) {
        let v = *world.resource(SCORE).unwrap_or(&0);
        world.insert_resource(SCORE, v + self.0);
    }
}

type Sc = Scene<i64, Add>;
type Loader = fn() -> Sc;
type Res = ManagedResource<Sc, Loader>;

fn scene_with_score(v: i64) -> Sc {
    Scene::new().with_resource(SCORE, v)
}

fn score(s: &Sc) -> Option<i64> {
    s.world.resource(SCORE).copied()
}

#[test]
fn scene_builders() {
    let mut s: Sc = Scene::new()
        .with_resource(SCORE, 1)
        .with_entity(|b| b.with_component(POS, 7))
        .with_system(Stage::Update, Add(10));
    s.add_system(Stage::Update, Add(100));
    assert!(!s.init);
    assert_eq!(s.world.archetypes_iter()[0].get_entry(POS, 0), Some(&7));
    s.run_stage(Stage::PreUpdate);
    assert_eq!(score(&s), Some(1));
    s.run_stage(Stage::Update);
    assert_eq!(score(&s), Some(111));
}

#[test]
fn preloaded_needs_initial_scene() {
    let scenes: Vec<(&'static str, Res)> = vec![("menu", Res::eager(scene_with_score(1)))];
    assert!(SceneManager::preloaded(scenes, "game").is_none());
    let scenes: Vec<(&'static str, Res)> = vec![];
    assert!(SceneManager::preloaded(scenes, "menu").is_none());
}

#[test]
fn preloaded_later_entry_replaces_earlier() {
    let scenes: Vec<(&'static str, Res)> = vec![
        ("menu", Res::eager(scene_with_score(1))),
        ("game", Res::eager(scene_with_score(2))),
        ("menu", Res::eager(scene_with_score(3))),
    ];
    let mut m = SceneManager::preloaded(scenes, "menu").unwrap();
    assert_eq!(score(m.current_scene()), Some(3));
    assert_eq!(score(m.switch("game").unwrap()), Some(2));
    assert_eq!(score(m.current_scene()), Some(2));
}

#[test]
fn lazy_scene_is_built_on_first_use() {
    let scenes: Vec<(&'static str, Res)> = vec![
        ("menu", Res::eager(scene_with_score(1))),
        ("level", Res::lazy(|| scene_with_score(50))),
    ];
    let mut m = SceneManager::preloaded(scenes, "menu").unwrap();
    let level = m.switch("level").unwrap();
    level.world.insert_resource(SCORE, 51);
    assert_eq!(score(m.current_scene_mut()), Some(51));
}

#[test]
fn switch_to_missing_scene_changes_nothing() {
    let scenes: Vec<(&'static str, Res)> = vec![("menu", Res::eager(scene_with_score(1)))];
    let mut m = SceneManager::preloaded(scenes, "menu").unwrap();
    assert!(m.switch("nowhere").is_none());
    assert_eq!(score(m.current_scene()), Some(1));
}

#[test]
fn add_scene_does_not_replace() {
    let scenes: Vec<(&'static str, Res)> = vec![("menu", Res::eager(scene_with_score(1)))];
    let mut m = SceneManager::preloaded(scenes, "menu").unwrap();
    assert!(!m.add_scene("menu", Res::eager(scene_with_score(9))));
    assert_eq!(score(m.current_scene()), Some(1));
    assert!(m.add_scene("game", Res::eager(scene_with_score(2))));
    assert_eq!(score(m.switch("game").unwrap()), Some(2));
}

#[test]
fn switch_with_runs_on_target_but_keeps_current() {
    let scenes: Vec<(&'static str, Res)> = vec![
        ("menu", Res::eager(scene_with_score(1))),
        ("game", Res::eager(scene_with_score(2))),
    ];
    let mut m = SceneManager::preloaded(scenes, "menu").unwrap();
    assert!(m.switch_with("game", |s: &mut Sc| s.world.insert_resource(SCORE, 20)));
    assert!(!m.switch_with("nowhere", |s: &mut Sc| s.world.insert_resource(SCORE, 0)));
    assert_eq!(score(m.current_scene()), Some(1));
    assert_eq!(score(m.switch("game").unwrap()), Some(20));
}

#[test]
fn global_resources() {
    let scenes: Vec<(&'static str, Res)> = vec![("menu", Res::eager(scene_with_score(1)))];
    let mut m = SceneManager::preloaded(scenes, "menu").unwrap().with_global(5, 500);
    assert_eq!(m.global(5), Some(&500));
    assert_eq!(m.global(6), None);
    *m.global_mut(5).unwrap() += 1;
    assert_eq!(m.global(5), Some(&501));
    assert!(m.global_mut(6).is_none());
}
