use vstd::prelude::*;

verus! {

/// Produces a value once, when first needed. `ready` says it may be run;
/// `produces` says which values it can give.
pub trait Loader: Sized {
    type Output;

    spec fn ready(&self) -> bool;

    spec fn produces(&self, v: Self::Output) -> bool;

    fn load(self) -> (v: Self::Output)
        requires
            self.ready(),
        ensures
            self.produces(v),
    ;
}

/// A closure with no arguments is a loader.
impl<T, F: FnOnce() -> T> Loader for F {
    type Output = T;

    open spec fn ready(&self) -> bool {
        call_requires(*self, ())
    }

    open spec fn produces(&self, v: T) -> bool {
        call_ensures(*self, (), v)
    }

    fn load(self) -> (v: T) {
        self()
    }
}

/// A loader that runs another loader and passes its value through a closure.
pub struct MapLoader<L, F> {
    inner: L,
    f: F,
}

impl<L, F> MapLoader<L, F> {
    pub closed spec fn spec_inner(&self) -> L {
        self.inner
    }

    pub closed spec fn spec_f(&self) -> F {
        self.f
    }
}

impl<O, L: Loader, F: FnOnce(L::Output) -> O> Loader for MapLoader<L, F> {
    type Output = O;

    open spec fn ready(&self) -> bool {
        &&& self.spec_inner().ready()
        &&& forall|u: L::Output| #[trigger] self.spec_inner().produces(u) ==> call_requires(self.spec_f(), (u,))
    }

    open spec fn produces(&self, v: O) -> bool {
        exists|u: L::Output| #[trigger] self.spec_inner().produces(u) && call_ensures(self.spec_f(), (u,), v)
    }

    fn load(self) -> (v: O) {
        let MapLoader { inner, f } = self;
        let u = inner.load();
        f(u)
    }
}

/// The state behind a managed resource: the value once resolved, or else
/// the loader that will produce it.
struct ManagedResourceInner<T, L> {
    value: Option<T>,
    loader: Option<L>,
}

impl<T, L: Loader<Output = T>> ManagedResourceInner<T, L> {
    spec fn ok(&self) -> bool {
        match self.loader {
            Some(l) => self.value.is_none() && l.ready(),
            None => self.value.is_some(),
        }
    }

    /// The value, loading it first if it is not resolved yet; it stays
    /// resolved afterwards.
    fn resolve(&mut self) -> (r: &mut T)
        requires
            old(self).ok(),
        ensures
            final(self).ok(),
            final(self).value == Some(*final(r)),
            old(self).value matches Some(v) ==> *r == v,
            old(self).loader matches Some(l) ==> l.produces(*r),
    {
        if self.value.is_none() {
            match self.loader.take() {
                Some(l) => {
                    let v = l.load();
                    return self.value.insert(v);
                },
                None => {},
            }
        }
        self.value.as_mut().unwrap()
    }
}

/// A value that is either already there or is loaded by `L` on first use
/// and kept.
pub struct ManagedResource<T, L>(ManagedResourceInner<T, L>);

impl<T, L: Loader<Output = T>> ManagedResource<T, L> {
    /// The value is there, or else a loader ready to run is.
    pub closed spec fn wf(&self) -> bool {
        self.0.ok()
    }

    /// Whether the value is already there.
    pub closed spec fn is_resolved(&self) -> bool {
        self.0.value.is_some()
    }

    /// The value, once resolved.
    pub closed spec fn value(&self) -> T {
        self.0.value->0
    }

    /// Whether loading (when not resolved) can give `v`.
    pub closed spec fn loads(&self, v: T) -> bool {
        match self.0.loader {
            Some(l) => l.produces(v),
            None => false,
        }
    }

    /// The value, loading and keeping it first if it is not resolved yet.
    pub fn get(&mut self) -> (r: &mut T)
        requires
            old(self).wf(),
        ensures
            final(self).wf(),
            final(self).is_resolved(),
            final(self).value() == *final(r),
            old(self).is_resolved() ==> *r == old(self).value(),
            !old(self).is_resolved() ==> old(self).loads(*r),
    {
        self.0.resolve()
    }

    /// A resource that is there from the start.
    pub fn eager(value: T) -> (r: Self)
        ensures
            r.wf(),
            r.is_resolved(),
            r.value() == value,
    {
        ManagedResource(ManagedResourceInner { value: Some(value), loader: None })
    }

    /// A resource that `loader` produces on first use.
    pub fn lazy(loader: L) -> (r: Self)
        requires
            loader.ready(),
        ensures
            r.wf(),
            !r.is_resolved(),
            forall|v: T| #[trigger] r.loads(v) <==> loader.produces(v),
    {
        ManagedResource(ManagedResourceInner { value: None, loader: Some(loader) })
    }

    /// A resource holding `f` of this one's value: applied now when the value
    /// is there, or after loading otherwise.
    pub fn map<F, O>(self, f: F) -> (r: ManagedResource<O, MapLoader<L, F>>)
        where
            F: FnOnce(T) -> O,
        requires
            self.wf(),
            self.is_resolved() ==> call_requires(f, (self.value(),)),
            !self.is_resolved() ==> forall|u: T| #[trigger] self.loads(u) ==> call_requires(f, (u,)),
        ensures
            r.wf(),
            r.is_resolved() == self.is_resolved(),
            self.is_resolved() ==> call_ensures(f, (self.value(),), r.value()),
            !self.is_resolved() ==> forall|w: O|
                #[trigger] r.loads(w) <==> exists|u: T| #[trigger] self.loads(u) && call_ensures(f, (u,), w),
    {
        let ManagedResource(inner) = self;
        let ManagedResourceInner { value, loader } = inner;
        match loader {
            None => ManagedResource::eager(f(value.unwrap())),
            Some(l) => {
                let ml = MapLoader { inner: l, f };
                proof {
                    assert forall|u: T| #[trigger] l.produces(u) implies call_requires(f, (u,)) by {
                        assert(self.loads(u));
                    }
                }
                let r = ManagedResource::lazy(ml);
                proof {
                    assert forall|w: O| #[trigger] r.loads(w) <==> exists|u: T|
                        #[trigger] self.loads(u) && call_ensures(f, (u,), w) by {
                        if r.loads(w) {
                            let u = choose|u: T| #[trigger] l.produces(u) && call_ensures(f, (u,), w);
                            assert(self.loads(u));
                        }
                        if exists|u: T| #[trigger] self.loads(u) && call_ensures(f, (u,), w) {
                            let u = choose|u: T| #[trigger] self.loads(u) && call_ensures(f, (u,), w);
                            assert(l.produces(u));
                        }
                    }
                }
                r
            },
        }
    }
}

} // verus!
