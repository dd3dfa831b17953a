use vstd::prelude::*;

use std::collections::HashMap;

use vstd::string::StringSliceAdditionalSpecFns;

use crate::assets::{Loader, ManagedResource};
use crate::scene::Scene;

verus! {

broadcast use vstd::std_specs::hash::group_hash_axioms;

/// Whether two names are the same text.
pub fn same_name(a: &str, b: &str) -> (r: bool)
    ensures
        r == (a.spec_bytes() == b.spec_bytes()),
{
    let x = a.as_bytes();
    let y = b.as_bytes();
    if x.len() != y.len() {
        return false;
    }
    let mut i: usize = 0;
    while i < x.len()
        invariant
            0 <= i <= x@.len(),
            x@.len() == y@.len(),
            x@ == a.spec_bytes(),
            y@ == b.spec_bytes(),
            forall|k: int| 0 <= k < i ==> x@[k] == y@[k],
        decreases x@.len() - i,
    {
        if x[i] != y[i] {
            return false;
        }
        i = i + 1;
    }
    proof {
        assert(x@ =~= y@);
    }
    true
}

/// The scenes a list of named scenes describes: a later entry for a name
/// replaces an earlier one.
pub open spec fn preload_map<R>(pairs: Seq<(&'static str, R)>) -> Map<Seq<u8>, R>
    decreases pairs.len(),
{
    if pairs.len() == 0 {
        Map::empty()
    } else {
        preload_map(pairs.drop_last()).insert(pairs.last().0.spec_bytes(), pairs.last().1)
    }
}

/// The named scenes of a game, which of them is current, and the resources
/// shared by all scenes (values keyed by a resource type number).
pub struct SceneManager<V, S, L> {
    scenes: Vec<(&'static str, ManagedResource<Scene<V, S>, L>)>,
    current: &'static str,
    global_resources: HashMap<u64, V>,
}

impl<V, S, L: Loader<Output = Scene<V, S>>> SceneManager<V, S, L> {
    /// The scene names, in the order first given.
    pub closed spec fn names(&self) -> Seq<Seq<u8>> {
        self.scenes@.map_values(|p: (&'static str, ManagedResource<Scene<V, S>, L>)| p.0.spec_bytes())
    }

    /// The scenes, in the same order as `names`.
    pub closed spec fn resources(&self) -> Seq<ManagedResource<Scene<V, S>, L>> {
        self.scenes@.map_values(|p: (&'static str, ManagedResource<Scene<V, S>, L>)| p.1)
    }

    pub closed spec fn current_name(&self) -> Seq<u8> {
        self.current.spec_bytes()
    }

    pub closed spec fn globals(&self) -> Map<u64, V> {
        self.global_resources@
    }

    pub open spec fn has(&self, name: Seq<u8>) -> bool {
        self.names().contains(name)
    }

    /// The position of scene `name` (meaningful when it exists).
    pub open spec fn pos(&self, name: Seq<u8>) -> int {
        choose|j: int| 0 <= j < self.names().len() && self.names()[j] == name
    }

    /// The scene of each name.
    pub open spec fn scene_map(&self) -> Map<Seq<u8>, ManagedResource<Scene<V, S>, L>> {
        Map::new(|n: Seq<u8>| self.has(n), |n: Seq<u8>| self.resources()[self.pos(n)])
    }

    pub open spec fn names_distinct(&self) -> bool {
        forall|i: int, j: int|
            0 <= i < j < self.names().len() ==> #[trigger] self.names()[i] != #[trigger] self.names()[j]
    }

    proof fn lemma_pos(&self, j: int)
        requires
            self.names_distinct(),
            0 <= j < self.names().len(),
        ensures
            self.has(self.names()[j]),
            self.pos(self.names()[j]) == j,
    {
        let n = self.names()[j];
        assert(self.names()[j] == n);
        let k = self.pos(n);
        if k != j {
            if k < j {
                assert(self.names()[k] != self.names()[j]);
            } else {
                assert(self.names()[j] != self.names()[k]);
            }
        }
    }

    /// The position of the scene called `name`, if there is one.
    fn find(&self, name: &str) -> (r: Option<usize>)
        requires
            self.names_distinct(),
        ensures
            r matches Some(j) ==> j < self.names().len() && self.names()[j as int] == name.spec_bytes()
                && self.pos(name.spec_bytes()) == j,
            r is None <==> !self.has(name.spec_bytes()),
    {
        let mut j: usize = 0;
        while j < self.scenes.len()
            invariant
                self.names_distinct(),
                0 <= j <= self.names().len(),
                self.names().len() == self.scenes@.len(),
                forall|k: int| 0 <= k < j ==> #[trigger] self.names()[k] != name.spec_bytes(),
            decreases self.names().len() - j,
        {
            if same_name(self.scenes[j].0, name) {
                proof {
                    self.lemma_pos(j as int);
                }
                return Some(j);
            }
            j = j + 1;
        }
        proof {
            if self.has(name.spec_bytes()) {
                let k = choose|k: int| 0 <= k < self.names().len() && self.names()[k] == name.spec_bytes();
                assert(self.names()[k] != name.spec_bytes());
            }
        }
        None
    }

    proof fn lemma_replace(before: Self, after: Self, j: int, res: ManagedResource<Scene<V, S>, L>)
        requires
            before.names_distinct(),
            0 <= j < before.names().len(),
            before.names().len() == before.resources().len(),
            after.names() == before.names(),
            after.resources() == before.resources().update(j, res),
        ensures
            after.names_distinct(),
            after.scene_map() == before.scene_map().insert(before.names()[j], res),
    {
        before.lemma_pos(j);
        after.lemma_pos(j);
        assert forall|n: Seq<u8>| after.has(n) implies after.resources()[after.pos(n)] == before.scene_map().insert(
            before.names()[j],
            res,
        )[n] by {
            let k = choose|k: int| 0 <= k < after.names().len() && after.names()[k] == n;
            after.lemma_pos(k);
            before.lemma_pos(k);
        }
        assert forall|n: Seq<u8>| before.scene_map().insert(before.names()[j], res).contains_key(n) implies after.has(n) by {
            if n != before.names()[j] {
                assert(before.has(n));
            }
        }
        assert(after.scene_map() =~= before.scene_map().insert(before.names()[j], res));
    }

    proof fn lemma_append(before: Self, after: Self, name: Seq<u8>, res: ManagedResource<Scene<V, S>, L>)
        requires
            before.names_distinct(),
            !before.has(name),
            before.names().len() == before.resources().len(),
            after.names() == before.names().push(name),
            after.resources() == before.resources().push(res),
        ensures
            after.names_distinct(),
            after.scene_map() == before.scene_map().insert(name, res),
    {
        let n0 = before.names().len() as int;
        assert forall|i: int, j: int|
            0 <= i < j < after.names().len() implies #[trigger] after.names()[i] != #[trigger] after.names()[j] by {
            if j == n0 {
                assert(before.names()[i] == after.names()[i]);
            } else {
                assert(before.names()[i] != before.names()[j]);
            }
        }
        after.lemma_pos(n0);
        assert forall|n: Seq<u8>| after.has(n) implies after.resources()[after.pos(n)] == before.scene_map().insert(
            name,
            res,
        )[n] by {
            let k = choose|k: int| 0 <= k < after.names().len() && after.names()[k] == n;
            after.lemma_pos(k);
            if k < n0 {
                before.lemma_pos(k);
            }
        }
        assert forall|n: Seq<u8>| before.scene_map().insert(name, res).contains_key(n) implies after.has(n) by {
            if n != name {
                let k = choose|k: int| 0 <= k < before.names().len() && before.names()[k] == n;
                assert(after.names()[k] == n);
            } else {
                assert(after.names()[n0] == n);
            }
        }
        assert forall|n: Seq<u8>| after.has(n) implies before.scene_map().insert(name, res).contains_key(n) by {
            let k = choose|k: int| 0 <= k < after.names().len() && after.names()[k] == n;
            if k < n0 {
                assert(before.names()[k] == n);
            }
        }
        assert(after.scene_map() =~= before.scene_map().insert(name, res));
    }

    /// A manager of the given named scenes (a later entry for a name
    /// replaces an earlier one) with `initial_scene` current and no shared
    /// resources; `None` when no scene has that name.
    pub fn preloaded(
        scenes: Vec<(&'static str, ManagedResource<Scene<V, S>, L>)>,
        initial_scene: &'static str,
    ) -> (r: Option<Self>)
        requires
            forall|i: int| 0 <= i < scenes@.len() ==> (#[trigger] scenes@[i]).1.wf(),
        ensures
            r is Some <==> preload_map(scenes@).contains_key(initial_scene.spec_bytes()),
            r matches Some(m) ==> {
                &&& m.wf()
                &&& m.scene_map() == preload_map(scenes@)
                &&& m.current_name() == initial_scene.spec_bytes()
                &&& m.globals() == Map::<u64, V>::empty()
            },
    {
        let ghost input = scenes@;
        let total = scenes.len();
        let mut rest = scenes;
        let mut rev: Vec<(&'static str, ManagedResource<Scene<V, S>, L>)> = Vec::new();
        while rest.len() > 0
            invariant
                rev@.len() + rest@.len() == input.len(),
                rest@ == input.take(rest@.len() as int),
                forall|i: int| 0 <= i < rev@.len() ==> #[trigger] rev@[i] == input[input.len() - 1 - i],
            decreases rest@.len(),
        {
            let e = rest.pop().unwrap();
            rev.push(e);
        }
        let mut m = SceneManager { scenes: Vec::new(), current: initial_scene, global_resources: HashMap::new() };
        proof {
            assert(m.scene_map() =~= preload_map(input.take(0)));
        }
        let mut n: usize = 0;
        while rev.len() > 0
            invariant
                n + rev@.len() == input.len(),
                input.len() == total,
                forall|i: int| 0 <= i < rev@.len() ==> #[trigger] rev@[i] == input[input.len() - 1 - i],
                forall|i: int| 0 <= i < input.len() ==> (#[trigger] input[i]).1.wf(),
                m.names_distinct(),
                m.names().len() == m.resources().len(),
                forall|i: int| 0 <= i < m.resources().len() ==> (#[trigger] m.resources()[i]).wf(),
                m.scene_map() == preload_map(input.take(n as int)),
                m.current_name() == initial_scene.spec_bytes(),
                m.globals() == Map::<u64, V>::empty(),
            decreases rev@.len(),
        {
            let (name, res) = rev.pop().unwrap();
            proof {
                assert(input[n as int] == (name, res));
                assert(input.take(n + 1).drop_last() == input.take(n as int));
                assert(input.take(n + 1).last() == (name, res));
            }
            let ghost before = m;
            match m.find(name) {
                Some(j) => {
                    m.scenes.set(j, (name, res));
                    proof {
                        assert(m.names() =~= before.names());
                        assert(m.resources() =~= before.resources().update(j as int, res));
                        SceneManager::lemma_replace(before, m, j as int, res);
                    }
                },
                None => {
                    m.scenes.push((name, res));
                    proof {
                        assert(m.names() =~= before.names().push(name.spec_bytes()));
                        assert(m.resources() =~= before.resources().push(res));
                        SceneManager::lemma_append(before, m, name.spec_bytes(), res);
                    }
                },
            }
            n = n + 1;
        }
        proof {
            assert(input.take(n as int) == input);
        }
        if m.find(initial_scene).is_none() {
            return None;
        }
        Some(m)
    }

    /// `after` is `before` with the scene at `name` resolved: its value is
    /// `now` when handed out and `fin` once the caller is done with it; no
    /// other scene changes.
    pub open spec fn resolved_at(before: Self, name: Seq<u8>, after: Self, now: Scene<V, S>, fin: Scene<V, S>) -> bool {
        let j = before.pos(name);
        let r0 = before.resources()[j];
        let r1 = after.resources()[j];
        &&& after.names() == before.names()
        &&& after.resources().len() == before.resources().len()
        &&& forall|k: int| 0 <= k < before.resources().len() && k != j ==> #[trigger] after.resources()[k] == before.resources()[k]
        &&& r1.wf()
        &&& r1.is_resolved()
        &&& r1.value() == fin
        &&& r0.is_resolved() ==> now == r0.value()
        &&& !r0.is_resolved() ==> r0.loads(now)
        &&& after.globals() == before.globals()
    }

    /// The scene at position `j`, resolved first if needed.
    fn scene_at(&mut self, j: usize) -> (r: &mut Scene<V, S>)
        requires
            old(self).names_distinct(),
            old(self).names().len() == old(self).resources().len(),
            (j as int) < old(self).names().len(),
            old(self).resources()[j as int].wf(),
        ensures
            final(self).names() == old(self).names(),
            final(self).resources().len() == old(self).resources().len(),
            forall|k: int|
                0 <= k < old(self).resources().len() && k != j ==> #[trigger] final(self).resources()[k]
                    == old(self).resources()[k],
            final(self).resources()[j as int].wf(),
            final(self).resources()[j as int].is_resolved(),
            final(self).resources()[j as int].value() == *final(r),
            old(self).resources()[j as int].is_resolved() ==> *r == old(self).resources()[j as int].value(),
            !old(self).resources()[j as int].is_resolved() ==> old(self).resources()[j as int].loads(*r),
            final(self).current_name() == old(self).current_name(),
            final(self).globals() == old(self).globals(),
    {
        self.scenes[j].1.get()
    }

    /// The current scene, resolved first if needed.
    pub fn current_scene(&mut self) -> (r: &Scene<V, S>)
        requires
            old(self).wf(),
        ensures
            final(self).wf(),
            Self::resolved_at(*old(self), old(self).current_name(), *final(self), *r, *r),
            final(self).current_name() == old(self).current_name(),
    {
        let j = self.find(self.current).unwrap();
        proof {
            old(self).lemma_pos(j as int);
        }
        self.scene_at(j)
    }

    /// The current scene for changing, resolved first if needed.
    pub fn current_scene_mut(&mut self) -> (r: &mut Scene<V, S>)
        requires
            old(self).wf(),
        ensures
            final(self).wf(),
            Self::resolved_at(*old(self), old(self).current_name(), *final(self), *r, *final(r)),
            final(self).current_name() == old(self).current_name(),
    {
        let j = self.find(self.current).unwrap();
        proof {
            old(self).lemma_pos(j as int);
        }
        self.scene_at(j)
    }

    /// Makes `target` the current scene and hands it out, resolved first if
    /// needed; `None` (and no change) when there is no such scene.
    pub fn switch(&mut self, target: &'static str) -> (r: Option<&mut Scene<V, S>>)
        requires
            old(self).wf(),
        ensures
            final(self).wf(),
            r is Some <==> old(self).has(target.spec_bytes()),
            r matches Some(sc) ==> Self::resolved_at(*old(self), target.spec_bytes(), *final(self), *sc, *final(sc))
                && final(self).current_name() == target.spec_bytes(),
            r is None ==> *final(self) == *old(self),
    {
        match self.find(target) {
            Some(j) => {
                self.current = target;
                proof {
                    old(self).lemma_pos(j as int);
                }
                Some(self.scene_at(j))
            },
            None => None,
        }
    }

    /// Runs `f` on scene `target`, resolved first if needed, and returns
    /// `true`: the scene is left as `f` leaves it. `false` (and no change)
    /// when there is no such scene. The current scene stays as it was.
    pub fn switch_with<F>(&mut self, target: &'static str, f: F) -> (found: bool)
        where
            F: FnOnce(&mut Scene<V, S>),
        requires
            old(self).wf(),
            forall|sc: &mut Scene<V, S>| call_requires(f, (sc,)),
        ensures
            final(self).wf(),
            found == old(self).has(target.spec_bytes()),
            final(self).current_name() == old(self).current_name(),
            !found ==> *final(self) == *old(self),
            found ==> exists|sc: &mut Scene<V, S>|
                #[trigger] call_ensures(f, (sc,), ()) && Self::resolved_at(
                    *old(self),
                    target.spec_bytes(),
                    *final(self),
                    *sc,
                    *final(sc),
                ),
    {
        match self.find(target) {
            Some(j) => {
                proof {
                    old(self).lemma_pos(j as int);
                }
                let sc = self.scene_at(j);
                let ghost now = *sc;
                f(sc);
                proof {
                    let fin = self.resources()[j as int].value();
                    assert(Self::resolved_at(*old(self), target.spec_bytes(), *self, now, fin));
                    assert(exists|r: &mut Scene<V, S>| #[trigger] call_ensures(f, (r,), ()) && *r == now
                        && *final(r) == fin);
                }
                true
            },
            None => false,
        }
    }

    /// Adds scene `scene` under `name` and returns `true`, unless a scene of
    /// that name exists already: then nothing changes and `false` comes back.
    pub fn add_scene(&mut self, name: &'static str, scene: ManagedResource<Scene<V, S>, L>) -> (added: bool)
        requires
            old(self).wf(),
            scene.wf(),
        ensures
            final(self).wf(),
            added == !old(self).has(name.spec_bytes()),
            added ==> final(self).scene_map() == old(self).scene_map().insert(name.spec_bytes(), scene),
            !added ==> *final(self) == *old(self),
            final(self).current_name() == old(self).current_name(),
            final(self).globals() == old(self).globals(),
    {
        match self.find(name) {
            Some(_) => false,
            None => {
                let ghost before = *self;
                self.scenes.push((name, scene));
                proof {
                    assert(self.names() =~= before.names().push(name.spec_bytes()));
                    assert(self.resources() =~= before.resources().push(scene));
                    SceneManager::lemma_append(before, *self, name.spec_bytes(), scene);
                    let c = choose|k: int| 0 <= k < before.names().len() && before.names()[k] == before.current_name();
                    assert(self.names()[c] == self.current_name());
                    assert forall|k: int| 0 <= k < self.resources().len() implies (#[trigger] self.resources()[k]).wf() by {
                        if k < before.resources().len() {
                            assert(self.resources()[k] == before.resources()[k]);
                        }
                    }
                }
                true
            },
        }
    }

    /// The manager with `resource` shared under resource type `key`,
    /// replacing any earlier one.
    pub fn with_global(self, key: u64, resource: V) -> (m: Self)
        ensures
            m.globals() == self.globals().insert(key, resource),
            m.names() == self.names(),
            m.resources() == self.resources(),
            m.current_name() == self.current_name(),
    {
        let mut m = self;
        m.global_resources.insert(key, resource);
        m
    }

    /// The shared resource of type `key`, if there is one.
    pub fn global(&self, key: u64) -> (r: Option<&V>)
        ensures
            r == (if self.globals().contains_key(key) {
                Some(&self.globals()[key])
            } else {
                None
            }),
    {
        self.global_resources.get(&key)
    }

    /// Mutable access to the shared resource of type `key`, if there is one;
    /// whatever is written through it becomes the stored resource.
    pub fn global_mut(&mut self, key: u64) -> (r: Option<&mut V>)
        ensures
            final(self).names() == old(self).names(),
            final(self).resources() == old(self).resources(),
            final(self).current_name() == old(self).current_name(),
            old(self).globals().contains_key(key) ==> (r matches Some(x) && *x == old(self).globals()[key]
                && final(self).globals() == old(self).globals().insert(key, *final(x))),
            !old(self).globals().contains_key(key) ==> r is None && final(self).globals() == old(self).globals(),
    {
        match self.global_resources.entry(key) {
            std::collections::hash_map::Entry::Occupied(e) => Some(e.into_mut()),
            std::collections::hash_map::Entry::Vacant(_) => None,
        }
    }

    /// Names are distinct, the current scene exists, and every scene is in
    /// a valid state.
    pub open spec fn wf(&self) -> bool {
        &&& self.names().len() == self.resources().len()
        &&& forall|i: int, j: int|
            0 <= i < j < self.names().len() ==> #[trigger] self.names()[i] != #[trigger] self.names()[j]
        &&& self.has(self.current_name())
        &&& forall|i: int| 0 <= i < self.resources().len() ==> (#[trigger] self.resources()[i]).wf()
    }
}

} // verus!
