use engine::components::{Archetype, Column};
use engine::query::validate_query_params;
use engine::world::{EntityBuilder, World};

const POS: u64 = 1;
const VEL: u64 = 2;
const TAG: u64 = 3;

fn value_of(w: &World<i64>, arch: usize, tid: u64, row: usize) -> Option<i64> {
    w.archetypes_iter()[arch].get_entry(tid, row).copied()
}

#[test]
fn build_places_entity_in_new_archetype() {
    let mut w: World<i64> = World::default();
    let e = w.spawn().with_component(POS, 10).with_component(VEL, 20).build(&mut w);
    let archs = w.archetypes_iter();
    assert_eq!(archs.len(), 1);
    assert_eq!(archs[0].entities(), &[e]);
    assert_eq!(value_of(&w, 0, POS, 0), Some(10));
    assert_eq!(value_of(&w, 0, VEL, 0), Some(20));
    assert_eq!(value_of(&w, 0, TAG, 0), None);
}

#[test]
fn same_types_share_an_archetype() {
    let mut w: World<i64> = World::default();
    let a = w.spawn().with_component(POS, 1).with_component(VEL, 2).build(&mut w);
    let b = w.spawn().with_component(POS, 3).with_component(VEL, 4).build(&mut w);
    assert_eq!(w.archetypes_iter().len(), 1);
    assert_eq!(w.archetypes_iter()[0].entities(), &[a, b]);
    assert_eq!(value_of(&w, 0, POS, 1), Some(3));
}

#[test]
fn entity_with_fewer_types_joins_first_archetype_that_covers_them() {
    let mut w: World<i64> = World::default();
    w.spawn().with_component(POS, 1).with_component(VEL, 2).build(&mut w);
    let b = w.spawn().with_component(POS, 5).build(&mut w);
    let archs = w.archetypes_iter();
    assert_eq!(archs.len(), 1);
    assert_eq!(archs[0].entities()[1], b);
    assert_eq!(value_of(&w, 0, POS, 1), Some(5));
}

#[test]
fn find_or_create_archetype_reuses_and_creates() {
    let mut w: World<i64> = World::default();
    assert_eq!(w.find_or_create_archetype(&[POS, VEL]), 0);
    assert_eq!(w.find_or_create_archetype(&[VEL]), 0);
    assert_eq!(w.find_or_create_archetype(&[TAG]), 1);
    assert_eq!(w.find_or_create_archetype(&[POS, TAG]), 2);
    assert_eq!(w.find_or_create_archetype(&[]), 0);
    assert_eq!(w.archetypes_iter().len(), 3);
}

#[test]
fn despawn_moves_last_row_into_the_gap() {
    let mut w: World<i64> = World::default();
    let a = w.spawn().with_component(POS, 1).build(&mut w);
    let b = w.spawn().with_component(POS, 2).build(&mut w);
    let c = w.spawn().with_component(POS, 3).build(&mut w);
    w.despawn(a);
    assert_eq!(w.archetypes_iter()[0].entities(), &[c, b]);
    assert_eq!(value_of(&w, 0, POS, 0), Some(3));
    assert_eq!(value_of(&w, 0, POS, 1), Some(2));
    // c now lives in row 0: despawning it removes that row
    w.despawn(c);
    assert_eq!(w.archetypes_iter()[0].entities(), &[b]);
    assert_eq!(value_of(&w, 0, POS, 0), Some(2));
}

#[test]
fn despawned_entity_is_dead_and_its_slot_reused() {
    let mut w: World<i64> = World::default();
    let a = w.spawn().with_component(POS, 1).build(&mut w);
    w.despawn(a);
    let b = w.spawn().with_component(POS, 9).build(&mut w);
    assert_eq!(b.index(), a.index());
    assert_eq!(b.generation(), a.generation() + 1);
    assert_eq!(w.archetypes_iter()[0].entities(), &[b]);
}

#[test]
fn despawning_last_row_needs_no_move() {
    let mut w: World<i64> = World::default();
    let a = w.spawn().with_component(POS, 1).build(&mut w);
    let b = w.spawn().with_component(POS, 2).build(&mut w);
    w.despawn(b);
    assert_eq!(w.archetypes_iter()[0].entities(), &[a]);
    assert_eq!(value_of(&w, 0, POS, 0), Some(1));
}

#[test]
fn resources_insert_read_change_remove() {
    let mut w: World<i64> = World::default();
    assert_eq!(w.resource(7), None);
    w.insert_resource(7, 100);
    assert_eq!(w.resource(7), Some(&100));
    w.insert_resource(7, 101);
    assert_eq!(w.resource(7), Some(&101));
    *w.resource_mut(7).unwrap() += 1;
    assert_eq!(w.resource(7), Some(&102));
    assert!(w.resource_mut(8).is_none());
    assert_eq!(w.remove_resource(7), Some(102));
    assert_eq!(w.remove_resource(7), None);
    assert_eq!(w.resource(7), None);
}

#[test]
fn archetype_mut_changes_values() {
    let mut w: World<i64> = World::default();
    w.spawn().with_component(POS, 1).build(&mut w);
    *w.archetype_mut(0).unwrap().get_entry_mut(POS, 0).unwrap() = 42;
    assert_eq!(value_of(&w, 0, POS, 0), Some(42));
    assert!(w.archetype_mut(1).is_none());
    assert!(w.archetype_mut(0).unwrap().get_entry_mut(VEL, 0).is_none());
}

#[test]
fn query_visits_matching_rows_in_order() {
    let mut w: World<i64> = World::default();
    w.spawn().with_component(POS, 1).with_component(VEL, 2).build(&mut w);
    w.spawn().with_component(TAG, 3).build(&mut w);
    w.spawn().with_component(POS, 4).with_component(VEL, 5).build(&mut w);
    w.spawn().with_component(POS, 6).with_component(TAG, 7).build(&mut w);
    let q = w.query(vec![(POS, false)]);
    assert_eq!(q.iter(), vec![(0, 0), (0, 1), (2, 0)]);
    let q = w.query(vec![(POS, true), (VEL, false)]);
    assert_eq!(q.iter(), vec![(0, 0), (0, 1)]);
    let q = w.query(vec![(VEL, false), (TAG, false)]);
    assert_eq!(q.iter(), vec![]);
    let total: i64 = w
        .query(vec![(POS, false)])
        .iter()
        .iter()
        .map(|&(a, r)| value_of(&w, a, POS, r).unwrap())
        .sum();
    assert_eq!(total, 11);
}

#[test]
fn query_params_conflicts() {
    assert!(validate_query_params(&[]));
    assert!(validate_query_params(&[(POS, false), (VEL, true)]));
    assert!(validate_query_params(&[(POS, false), (POS, false)]));
    assert!(!validate_query_params(&[(POS, false), (POS, true)]));
    assert!(!validate_query_params(&[(POS, true), (POS, false)]));
    assert!(!validate_query_params(&[(POS, true), (POS, true)]));
    assert!(!validate_query_params(&[(VEL, false), (POS, true), (TAG, false), (POS, false)]));
}

#[test]
fn column_operations() {
    let mut c: Column<i64> = Column::new(POS);
    assert_eq!(c.len(), 0);
    assert_eq!(c.type_id(), POS);
    c.push(1);
    c.push(2);
    c.push(3);
    assert_eq!(c.get(1), Some(&2));
    *c.get_mut(0).unwrap() = 10;
    c.swap_remove(0);
    assert_eq!(c.len(), 2);
    assert_eq!(c.get(0), Some(&3));
    assert_eq!(c.get(1), Some(&2));
}

#[test]
fn archetype_add_and_remove() {
    let mut w: World<i64> = World::default();
    let e0 = w.spawn().build(&mut w);
    let e1 = w.spawn().build(&mut w);
    let e2 = w.spawn().build(&mut w);
    let mut a: Archetype<i64> = Archetype::new(vec![POS, VEL], vec![], vec![Column::new(POS), Column::new(VEL)]);
    assert!(a.matches(&[VEL]));
    assert!(a.matches(&[]));
    assert!(!a.matches(&[TAG]));
    a.add(e0, vec![(POS, 1), (VEL, 2)]);
    a.add(e1, vec![(VEL, 4), (POS, 3)]);
    a.add(e2, vec![(POS, 5), (VEL, 6)]);
    assert_eq!(a.get_entry(VEL, 1), Some(&4));
    assert_eq!(a.get_entry(TAG, 0), None);
    let last = a.remove(0);
    assert_eq!(last, e2);
    assert_eq!(a.entities(), &[e2, e1]);
    assert_eq!(a.get_entry(POS, 0), Some(&5));
    assert_eq!(a.get_entry(VEL, 0), Some(&6));
}

#[test]
fn builder_keeps_components_in_order() {
    let mut w: World<i64> = World::default();
    let b = w.spawn();
    let e = b.with_component(TAG, 1).with_component(TAG, 2).build(&mut w);
    assert_eq!(w.archetypes_iter()[0].entities(), &[e]);
    // the first value given for a type is the one in the entity's row
    assert_eq!(value_of(&w, 0, TAG, 0), Some(1));
    let again = EntityBuilder::<i64>::new(e).build(&mut w);
    assert_eq!(again, e);
}

#[test]
fn despawned_entity_is_gone_from_queries_and_rows() {
    let mut w: World<i64> = World::default();
    let a = w.spawn().with_component(POS, 1).build(&mut w);
    let b = w.spawn().with_component(POS, 2).build(&mut w);
    w.despawn(a);
    assert!(!w.archetypes_iter()[0].entities().contains(&a));
    let hits = w.query(vec![(POS, false)]).iter();
    assert_eq!(hits, vec![(0, 0)]);
    assert_eq!(w.archetypes_iter()[0].entities()[0], b);
    let c = w.spawn().with_component(POS, 3).build(&mut w);
    assert_ne!(c, a);
    assert_ne!(c, b);
    assert_eq!(w.archetypes_iter()[0].entities(), &[b, c]);
}

#[test]
fn components_of_others_survive_despawn() {
    let mut w: World<i64> = World::default();
    let ents: Vec<_> = (0..5).map(|i| w.spawn().with_component(POS, i * 10).with_component(VEL, i).build(&mut w)).collect();
    w.despawn(ents[1]);
    w.despawn(ents[3]);
    let arch = &w.archetypes_iter()[0];
    for (row, e) in arch.entities().iter().enumerate() {
        let i = ents.iter().position(|x| x == e).unwrap() as i64;
        assert_eq!(arch.get_entry(POS, row), Some(&(i * 10)));
        assert_eq!(arch.get_entry(VEL, row), Some(&i));
    }
    assert_eq!(arch.entities().len(), 3);
}

fn every_column_dense(w: &World<i64>, types: &[u64]) -> bool {
    w.archetypes_iter().iter().all(|a| {
        types.iter().all(|&t| match a.column_len(t) {
            Some(n) => n == a.entities().len(),
            None => true,
        })
    })
}

#[test]
fn despawn_and_exact_build_keep_columns_dense() {
    let mut w: World<i64> = World::default();
    let a = w.spawn().with_component(POS, 1).with_component(VEL, 2).build(&mut w);
    let b = w.spawn().with_component(POS, 3).with_component(VEL, 4).build(&mut w);
    w.spawn().with_component(TAG, 5).build(&mut w);
    assert!(every_column_dense(&w, &[POS, VEL, TAG]));
    w.despawn(a);
    assert!(every_column_dense(&w, &[POS, VEL, TAG]));
    w.despawn(b);
    assert!(every_column_dense(&w, &[POS, VEL, TAG]));
    assert_eq!(w.archetypes_iter()[0].column_len(POS), Some(0));
    assert_eq!(w.archetypes_iter()[0].column_len(TAG), None);
}

#[test]
fn building_into_a_wider_archetype_leaves_a_column_short() {
    let mut w: World<i64> = World::default();
    w.spawn().with_component(POS, 1).with_component(VEL, 2).build(&mut w);
    w.spawn().with_component(POS, 3).build(&mut w);
    assert_eq!(w.archetypes_iter()[0].column_len(POS), Some(2));
    assert_eq!(w.archetypes_iter()[0].column_len(VEL), Some(1));
    assert!(!every_column_dense(&w, &[POS, VEL]));
    assert!(w.query(vec![(POS, false)]).is_readable());
    assert!(!w.query(vec![(POS, false), (VEL, false)]).is_readable());
    assert!(w.query(vec![(TAG, false)]).is_readable());
}
