use vstd::prelude::*;

use std::collections::HashSet;

use crate::components::Archetype;
use crate::world::World;

verus! {

broadcast use vstd::std_specs::hash::group_hash_axioms;

/// A query's parameters are consistent when no component type is asked for
/// twice with either request mutable (a mutable request excludes any other
/// request for the same type).
pub open spec fn params_valid(params: Seq<(u64, bool)>) -> bool {
    forall|i: int, j: int|
        0 <= i < j < params.len() && (#[trigger] params[i]).0 == (#[trigger] params[j]).0
            ==> !params[i].1 && !params[j].1
}

/// The component types a query asks for, in order.
pub open spec fn param_types(params: Seq<(u64, bool)>) -> Seq<u64> {
    params.map_values(|p: (u64, bool)| p.0)
}

/// The `(archetype, row)` places a query visits, in order: every row of
/// every archetype whose component types include all asked-for types, by
/// archetype and then by row.
pub open spec fn query_hits<V>(archs: Seq<Archetype<V>>, types: Seq<u64>) -> Seq<(usize, usize)>
    decreases archs.len(),
{
    if archs.len() == 0 {
        Seq::empty()
    } else {
        let a = archs.len() - 1;
        query_hits(archs.drop_last(), types) + if archs.last().spec_matches(types) {
            Seq::new(archs.last().rows().len(), |r: int| (a as usize, r as usize))
        } else {
            Seq::empty()
        }
    }
}

/// Checks that a query's parameters are consistent (see `params_valid`):
/// walking the parameters in order, a mutable request for a type already
/// seen, or any request for a type already requested mutably, is a conflict.
pub fn validate_query_params(type_ids: &[(u64, bool)]) -> (ok: bool)
    ensures
        ok == params_valid(type_ids@),
        ok ==> forall|i: int, j: int|
            0 <= i && i < j && j < type_ids@.len() && (#[trigger] type_ids@[i]).0 == (#[trigger] type_ids@[j]).0
                ==> !type_ids@[i].1 && !type_ids@[j].1,
        !ok ==> exists|i: int, j: int|
            0 <= i && i < j && j < type_ids@.len() && (#[trigger] type_ids@[i]).0 == (#[trigger] type_ids@[j]).0
                && (type_ids@[i].1 || type_ids@[j].1),
{
    let mut seen_mutable: HashSet<u64> = HashSet::new();
    let mut seen_any: HashSet<u64> = HashSet::new();
    let mut i: usize = 0;
    while i < type_ids.len()
        invariant
            0 <= i <= type_ids@.len(),
            params_valid(type_ids@.take(i as int)),
            forall|t: u64|
                seen_any@.contains(t) <==> exists|k: int| 0 <= k < i && (#[trigger] type_ids@[k]).0 == t,
            forall|t: u64|
                seen_mutable@.contains(t) <==> exists|k: int|
                    0 <= k < i && (#[trigger] type_ids@[k]).0 == t && type_ids@[k].1,
        decreases type_ids@.len() - i,
    {
        let (tid, is_mut) = type_ids[i];
        if is_mut && seen_any.contains(&tid) {
            proof {
                let k = choose|k: int| 0 <= k < i && (#[trigger] type_ids@[k]).0 == tid;
                assert(type_ids@[k].0 == type_ids@[i as int].0);
            }
            return false;
        }
        if seen_mutable.contains(&tid) {
            proof {
                let k = choose|k: int| 0 <= k < i && (#[trigger] type_ids@[k]).0 == tid && type_ids@[k].1;
                assert(type_ids@[k].0 == type_ids@[i as int].0);
            }
            return false;
        }
        if is_mut {
            seen_mutable.insert(tid);
        }
        seen_any.insert(tid);
        proof {
            let p = type_ids@.take(i + 1);
            assert forall|a: int, b: int|
                0 <= a < b < p.len() && (#[trigger] p[a]).0 == (#[trigger] p[b]).0 implies !p[a].1 && !p[b].1 by {
                if b == i {
                    assert(p[a] == type_ids@[a]);
                    assert(seen_any@.contains(tid));
                } else {
                    assert(type_ids@.take(i as int)[a] == p[a]);
                    assert(type_ids@.take(i as int)[b] == p[b]);
                }
            }
            assert forall|t: u64|
                seen_any@.contains(t) <==> exists|k: int| 0 <= k < i + 1 && (#[trigger] type_ids@[k]).0 == t by {
                if t == tid {
                    assert(type_ids@[i as int].0 == t);
                }
            }
            assert forall|t: u64|
                seen_mutable@.contains(t) <==> exists|k: int|
                    0 <= k < i + 1 && (#[trigger] type_ids@[k]).0 == t && type_ids@[k].1 by {
                if t == tid && is_mut {
                    assert(type_ids@[i as int].0 == t);
                }
            }
        }
        i = i + 1;
    }
    proof {
        assert(type_ids@.take(type_ids@.len() as int) == type_ids@);
    }
    true
}

/// A mutable request conflicts with any other request for the same type,
/// however far apart the two stand in the list.
pub proof fn lemma_mutable_request_conflicts(params: Seq<(u64, bool)>, i: int, j: int)
    requires
        0 <= i < j < params.len(),
        params[i].0 == params[j].0,
        params[i].1 || params[j].1,
    ensures
        !params_valid(params),
{
}

/// Requests that are all immutable never conflict.
pub proof fn lemma_shared_requests_never_conflict(params: Seq<(u64, bool)>)
    requires
        forall|k: int| 0 <= k < params.len() ==> !(#[trigger] params[k]).1,
    ensures
        params_valid(params),
{
}

/// Adding one more request keeps the parameters consistent exactly when they
/// were consistent and the new request neither is mutable nor meets a
/// mutable request for the same type among the earlier ones.
pub proof fn lemma_params_valid_push(params: Seq<(u64, bool)>, x: (u64, bool))
    ensures
        params_valid(params.push(x)) == (params_valid(params) && forall|k: int|
            0 <= k < params.len() && (#[trigger] params[k]).0 == x.0 ==> !params[k].1 && !x.1),
{
    let p = params.push(x);
    if params_valid(p) {
        assert forall|a: int, b: int|
            0 <= a < b < params.len() && (#[trigger] params[a]).0 == (#[trigger] params[b]).0 implies !params[a].1
                && !params[b].1 by {
            assert(p[a] == params[a] && p[b] == params[b]);
        }
        assert forall|k: int| 0 <= k < params.len() && (#[trigger] params[k]).0 == x.0 implies !params[k].1
            && !x.1 by {
            assert(p[k] == params[k] && p[params.len() as int] == x);
        }
    }
    if params_valid(params) && forall|k: int|
        0 <= k < params.len() && (#[trigger] params[k]).0 == x.0 ==> !params[k].1 && !x.1 {
        assert forall|a: int, b: int|
            0 <= a < b < p.len() && (#[trigger] p[a]).0 == (#[trigger] p[b]).0 implies !p[a].1 && !p[b].1 by {
            if b == params.len() {
                assert(p[a] == params[a]);
            } else {
                assert(p[a] == params[a] && p[b] == params[b]);
            }
        }
    }
}

/// What a query visits, over all inputs: every visited place is a row of an
/// archetype whose component types include all asked-for types; every row of
/// every such archetype is visited; and the places come in increasing order,
/// by archetype and then by row, each once.
pub proof fn lemma_query_hits_exact<V>(archs: Seq<Archetype<V>>, types: Seq<u64>)
    requires
        archs.len() <= usize::MAX,
    ensures
        forall|i: int|
            0 <= i < query_hits(archs, types).len() ==> {
                let h = #[trigger] query_hits(archs, types)[i];
                &&& (h.0 as int) < archs.len()
                &&& (h.1 as int) < archs[h.0 as int].rows().len()
                &&& types.to_set().subset_of(archs[h.0 as int].types().to_set())
            },
        forall|a: usize, r: usize|
            #![trigger query_hits(archs, types).contains((a, r))]
            (a as int) < archs.len() && (r as int) < archs[a as int].rows().len() && types.to_set().subset_of(
                archs[a as int].types().to_set(),
            ) ==> query_hits(archs, types).contains((a, r)),
        forall|i: int, j: int|
            0 <= i && i < j && j < query_hits(archs, types).len() ==> {
                let hi = #[trigger] query_hits(archs, types)[i];
                let hj = #[trigger] query_hits(archs, types)[j];
                hi.0 < hj.0 || (hi.0 == hj.0 && hi.1 < hj.1)
            },
    decreases archs.len(),
{
    let hits = query_hits(archs, types);
    if archs.len() > 0 {
        let n = archs.len() - 1;
        let init = archs.drop_last();
        let prev = query_hits(init, types);
        lemma_query_hits_exact(init, types);
        let last = archs.last();
        last.lemma_bounds();
        last.lemma_matches_is_subset(types);
        let tail = if last.spec_matches(types) {
            Seq::new(last.rows().len(), |r: int| (n as usize, r as usize))
        } else {
            Seq::<(usize, usize)>::empty()
        };
        assert(hits == prev + tail);
        assert forall|i: int| 0 <= i < hits.len() implies {
            let h = #[trigger] hits[i];
            &&& (h.0 as int) < archs.len()
            &&& (h.1 as int) < archs[h.0 as int].rows().len()
            &&& types.to_set().subset_of(archs[h.0 as int].types().to_set())
        } by {
            if i < prev.len() {
                let h = prev[i];
                assert(hits[i] == h);
                assert(archs[h.0 as int] == init[h.0 as int]);
            } else {
                assert(hits[i] == tail[i - prev.len()]);
            }
        }
        assert forall|ua: usize, ur: usize|
            #![trigger hits.contains((ua, ur))]
            (ua as int) < archs.len() && (ur as int) < archs[ua as int].rows().len() && types.to_set().subset_of(
                archs[ua as int].types().to_set(),
            ) implies hits.contains((ua, ur)) by {
            let a = ua as int;
            let r = ur as int;
            if a < n {
                assert(init[a] == archs[a]);
                assert(prev.contains((ua, ur)));
                let w = choose|w: int| 0 <= w < prev.len() && prev[w] == (ua, ur);
                assert(hits[w] == prev[w]);
            } else {
                assert(a == n);
                assert(archs[a] == last);
                assert(last.spec_matches(types));
                assert(tail.len() == last.rows().len());
                assert(tail[r] == (ua, ur));
                assert(hits[prev.len() + r] == tail[r]);
            }
        }
        assert forall|i: int, j: int| 0 <= i && i < j && j < hits.len() implies {
            let hi = #[trigger] hits[i];
            let hj = #[trigger] hits[j];
            hi.0 < hj.0 || (hi.0 == hj.0 && hi.1 < hj.1)
        } by {
            if j < prev.len() {
                assert(hits[i] == prev[i] && hits[j] == prev[j]);
            } else if i < prev.len() {
                assert(hits[i] == prev[i]);
                assert(hits[j] == tail[j - prev.len()]);
                assert((prev[i].0 as int) < init.len());
            } else {
                assert(hits[i] == tail[i - prev.len()]);
                assert(hits[j] == tail[j - prev.len()]);
            }
        }
    }
}

/// A query over a world: the component types it asks for, each with whether
/// the access is mutable.
pub struct Query<'a, V> {
    world: &'a World<V>,
    params: Vec<(u64, bool)>,
}

impl<'a, V> Query<'a, V> {
    pub closed spec fn world(&self) -> World<V> {
        *self.world
    }

    pub closed spec fn params(&self) -> Seq<(u64, bool)> {
        self.params@
    }

    /// Every archetype the query visits holds, for each asked-for type, a
    /// value in every row.
    pub open spec fn readable(&self) -> bool {
        forall|a: int, k: int|
            0 <= a < self.world().archs().len() && 0 <= k < self.params().len()
                && self.world().archs()[a].spec_matches(param_types(self.params()))
                ==> #[trigger] self.world().archs()[a].column((#[trigger] self.params()[k]).0).len()
                >= self.world().archs()[a].rows().len()
    }

    /// Whether `readable` holds: every archetype the query visits has, for
    /// each asked-for type, a value in every row.
    pub fn is_readable(&self) -> (r: bool)
        requires
            self.world().wf(),
        ensures
            r == self.readable(),
    {
        let ghost types = param_types(self.params());
        let mut type_ids: Vec<u64> = Vec::new();
        let mut i: usize = 0;
        while i < self.params.len()
            invariant
                0 <= i <= self.params().len(),
                types == param_types(self.params()),
                type_ids@ == types.take(i as int),
            decreases self.params().len() - i,
        {
            type_ids.push(self.params[i].0);
            proof {
                assert(types.take(i + 1) == types.take(i as int).push(types[i as int]));
            }
            i = i + 1;
        }
        proof {
            assert(types.take(self.params().len() as int) == types);
        }
        let archetypes = self.world.archetypes_iter();
        let ghost archs = archetypes@;
        let mut a: usize = 0;
        while a < archetypes.len()
            invariant
                0 <= a <= archs.len(),
                archs == archetypes@,
                archs == self.world().archs(),
                self.world().wf(),
                type_ids@ == types,
                types == param_types(self.params()),
                forall|b: int, k: int|
                    0 <= b < a && 0 <= k < self.params().len() && archs[b].spec_matches(types)
                        ==> #[trigger] archs[b].column((#[trigger] self.params()[k]).0).len()
                        >= archs[b].rows().len(),
            decreases archs.len() - a,
        {
            if archetypes[a].matches(type_ids.as_slice()) {
                let arch = &archetypes[a];
                proof {
                    assert(World::archetype_ok(archs[a as int]));
                }
                let n = arch.entities().len();
                let mut k: usize = 0;
                while k < self.params.len()
                    invariant
                        0 <= k <= self.params().len(),
                        0 <= a < archs.len(),
                        archs == self.world().archs(),
                        self.world().wf(),
                        types == param_types(self.params()),
                        archs[a as int].spec_matches(types),
                        *arch == archs[a as int],
                        arch.wf(),
                        n == arch.rows().len(),
                        forall|kk: int|
                            0 <= kk < k ==> #[trigger] arch.column(self.params()[kk].0).len() >= n,
                    decreases self.params().len() - k,
                {
                    let t = self.params[k].0;
                    match arch.column_len(t) {
                        Some(len) => {
                            if len < n {
                                proof {
                                    assert(self.world().archs()[a as int].column(self.params()[k as int].0).len()
                                        < self.world().archs()[a as int].rows().len());
                                }
                                return false;
                            }
                        },
                        None => {
                            proof {
                                assert(types[k as int] == self.params()[k as int].0);
                                assert(types[k as int] == t);
                                assert(arch.types().contains(t));
                                assert(World::archetype_ok(*arch));
                            }
                            return false;
                        },
                    }
                    k = k + 1;
                }
            }
            a = a + 1;
        }
        true
    }

    /// A query over `world` with the given parameters.
    pub fn new(world: &'a World<V>, params: Vec<(u64, bool)>) -> (q: Self)
        ensures
            q.world() == *world,
            q.params() == params@,
    {
        Query { world, params }
    }

    /// The places the query visits, in order (see `query_hits`): for each
    /// visited row, the value of every asked-for type can then be read from
    /// (or written to) that archetype at that row.
    pub fn iter(&self) -> (hits: Vec<(usize, usize)>)
        requires
            params_valid(self.params()),
            self.world().wf(),
            self.readable(),
        ensures
            hits@ == query_hits(self.world().archs(), param_types(self.params())),
            forall|i: int|
                0 <= i < hits@.len() ==> {
                    let h = #[trigger] hits@[i];
                    &&& (h.0 as int) < self.world().archs().len()
                    &&& (h.1 as int) < self.world().archs()[h.0 as int].rows().len()
                    &&& forall|k: int|
                        0 <= k < self.params().len() ==> self.world().archs()[h.0 as int].types().contains(
                            (#[trigger] self.params()[k]).0,
                        )
                },
            forall|a: usize, r: usize|
                #![trigger hits@.contains((a, r))]
                (a as int) < self.world().archs().len() && (r as int) < self.world().archs()[a as int].rows().len()
                    && (forall|k: int|
                    0 <= k < self.params().len() ==> self.world().archs()[a as int].types().contains(
                        (#[trigger] self.params()[k]).0,
                    )) ==> hits@.contains((a, r)),
            forall|i: int, j: int|
                0 <= i && i < j && j < hits@.len() ==> {
                    let hi = #[trigger] hits@[i];
                    let hj = #[trigger] hits@[j];
                    hi.0 < hj.0 || (hi.0 == hj.0 && hi.1 < hj.1)
                },
    {
        let ghost types = param_types(self.params());
        let mut type_ids: Vec<u64> = Vec::new();
        let mut i: usize = 0;
        while i < self.params.len()
            invariant
                0 <= i <= self.params().len(),
                types == param_types(self.params()),
                type_ids@ == types.take(i as int),
            decreases self.params().len() - i,
        {
            type_ids.push(self.params[i].0);
            proof {
                assert(types.take(i + 1) == types.take(i as int).push(types[i as int]));
            }
            i = i + 1;
        }
        proof {
            assert(types.take(self.params().len() as int) == types);
        }
        let archetypes = self.world.archetypes_iter();
        let ghost archs = archetypes@;
        let mut hits: Vec<(usize, usize)> = Vec::new();
        let mut a: usize = 0;
        while a < archetypes.len()
            invariant
                0 <= a <= archs.len(),
                archs == archetypes@,
                type_ids@ == types,
                hits@ == query_hits(archs.take(a as int), types),
            decreases archs.len() - a,
        {
            let ghost before = hits@;
            if archetypes[a].matches(type_ids.as_slice()) {
                let n = archetypes[a].entities().len();
                let mut r: usize = 0;
                while r < n
                    invariant
                        0 <= r <= n,
                        n == archs[a as int].rows().len(),
                        hits@ == before + Seq::new(r as nat, |k: int| (a, k as usize)),
                    decreases n - r,
                {
                    hits.push((a, r));
                    proof {
                        assert(hits@ == before + Seq::new((r + 1) as nat, |k: int| (a, k as usize)));
                    }
                    r = r + 1;
                }
            }
            proof {
                let t = archs.take(a + 1);
                assert(t.drop_last() == archs.take(a as int));
                assert(t.last() == archs[a as int]);
                if archs[a as int].spec_matches(types) {
                    assert(hits@ == query_hits(t, types));
                } else {
                    assert(hits@ == query_hits(t, types));
                }
            }
            a = a + 1;
        }
        proof {
            assert(archs.take(archs.len() as int) == archs);
            self.world().lemma_bounds();
            lemma_query_hits_exact(archs, types);
            let params = self.params();
            assert forall|i: int| 0 <= i < hits@.len() implies {
                let h = #[trigger] hits@[i];
                &&& (h.0 as int) < archs.len()
                &&& (h.1 as int) < archs[h.0 as int].rows().len()
                &&& forall|k: int| 0 <= k < params.len() ==> archs[h.0 as int].types().contains((#[trigger] params[k]).0)
            } by {
                let h = hits@[i];
                assert forall|k: int| 0 <= k < params.len() implies archs[h.0 as int].types().contains(
                    (#[trigger] params[k]).0,
                ) by {
                    assert(types[k] == params[k].0);
                    assert(types.contains(types[k]));
                    assert(types.to_set().contains(types[k]));
                }
            }
            assert forall|a: usize, r: usize|
                #![trigger hits@.contains((a, r))]
                (a as int) < archs.len() && (r as int) < archs[a as int].rows().len() && (forall|k: int|
                    0 <= k < params.len() ==> archs[a as int].types().contains((#[trigger] params[k]).0))
                    implies hits@.contains((a, r)) by {
                assert forall|x: u64| types.to_set().contains(x) implies archs[a as int].types().to_set().contains(x) by {
                    let w = choose|w: int| 0 <= w < types.len() && types[w] == x;
                    assert(types[w] == params[w].0);
                }
            }
        }
        hits
    }
}

impl<V> World<V> {
    /// A query over this world with the given parameters.
    pub fn query(&self, params: Vec<(u64, bool)>) -> (q: Query<'_, V>)
        ensures
            q.world() == *self,
            q.params() == params@,
    {
        Query::new(self, params)
    }
}

/// Every place a query visits is a row of an archetype that matches it.
pub proof fn lemma_query_hits_match<V>(archs: Seq<Archetype<V>>, types: Seq<u64>, i: int)
    requires
        0 <= i < query_hits(archs, types).len(),
        archs.len() <= usize::MAX,
    ensures
        ({
            let h = query_hits(archs, types)[i];
            &&& (h.0 as int) < archs.len()
            &&& archs[h.0 as int].spec_matches(types)
            &&& (h.1 as int) < archs[h.0 as int].rows().len()
        }),
    decreases archs.len(),
{
    let prev = query_hits(archs.drop_last(), types);
    if i < prev.len() {
        lemma_query_hits_match(archs.drop_last(), types, i);
        assert(query_hits(archs, types)[i] == prev[i]);
    } else {
        archs.last().lemma_bounds();
    }
}

/// What a query gives back: at every place it visits, each asked-for
/// component type has a value to read.
pub proof fn lemma_query_hit_readable<V>(q: Query<V>, i: int, k: int)
    requires
        q.world().wf(),
        q.readable(),
        0 <= i < query_hits(q.world().archs(), param_types(q.params())).len(),
        0 <= k < q.params().len(),
    ensures
        ({
            let h = query_hits(q.world().archs(), param_types(q.params()))[i];
            let arch = q.world().archs()[h.0 as int];
            &&& (h.0 as int) < q.world().archs().len()
            &&& arch.has_column(q.params()[k].0)
            &&& (h.1 as int) < arch.rows().len()
            &&& (h.1 as int) < arch.column(q.params()[k].0).len()
        }),
{
    let types = param_types(q.params());
    q.world().lemma_bounds();
    lemma_query_hits_match(q.world().archs(), types, i);
    let h = query_hits(q.world().archs(), types)[i];
    let arch = q.world().archs()[h.0 as int];
    assert(types[k] == q.params()[k].0);
    assert(arch.types().contains(types[k]));
    assert(World::archetype_ok(arch));
}

} // verus!
