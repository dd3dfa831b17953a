use std::cell::Cell;
use std::rc::Rc;

use engine::assets::ManagedResource;

#[test]
fn eager_resource_gives_its_value() {
    let mut r: ManagedResource<i32, fn() -> i32> = ManagedResource::eager(5);
    assert_eq!(*r.get(), 5);
    *r.get() = 6;
    assert_eq!(*r.get(), 6);
}

#[test]
fn lazy_resource_loads_once() {
    let calls = Rc::new(Cell::new(0));
    let c = calls.clone();
    let mut r = ManagedResource::lazy(move || {
        c.set(c.get() + 1);
        40
    });
    assert_eq!(calls.get(), 0);
    assert_eq!(*r.get(), 40);
    *r.get() += 2;
    assert_eq!(*r.get(), 42);
    assert_eq!(calls.get(), 1);
}

#[test]
fn map_of_eager_applies_at_once() {
    let calls = Rc::new(Cell::new(0));
    let c = calls.clone();
    let r: ManagedResource<i32, fn() -> i32> = ManagedResource::eager(3);
    let mut m = r.map(move |x| {
        c.set(c.get() + 1);
        x * 10
    });
    assert_eq!(calls.get(), 1);
    assert_eq!(*m.get(), 30);
    assert_eq!(calls.get(), 1);
}

#[test]
fn map_of_lazy_waits_for_first_use() {
    let calls = Rc::new(Cell::new(0));
    let c = calls.clone();
    let r = ManagedResource::lazy(|| String::from("grass"));
    let mut m = r.map(move |s: String| {
        c.set(c.get() + 1);
        s.len()
    });
    assert_eq!(calls.get(), 0);
    assert_eq!(*m.get(), 5);
    assert_eq!(*m.get(), 5);
    assert_eq!(calls.get(), 1);
}
