//! The bookkeeping of the fixture manager: which fixture types are permanent,
//! which were set up during the run and in what order, and which of those are
//! no longer used and can be torn down. Each fixture type is identified by an
//! integer that the runner assigns to it.

use vstd::prelude::*;
use vstd::multiset::Multiset;

verus! {

/// Where the fixture of a type is found.
#[derive(Clone, Copy, Debug, PartialEq, Eq, Structural)]
pub enum Found {
    /// Among the permanent fixtures of the run.
    Permanent,
    /// Among the fixtures set up during the run.
    Cached,
    /// Nowhere: it was never set up.
    Missing,
}

/// What a registry holds: the permanent fixture types, and the types set up
/// during the run, in the order they were set up.
pub struct RegistryModel {
    pub permanent: Seq<u64>,
    pub cache: Seq<u64>,
}

/// Where the fixture of type `id` is found: permanent fixtures come first.
pub open spec fn found(m: RegistryModel, id: u64) -> Found {
    if m.permanent.contains(id) {
        Found::Permanent
    } else if m.cache.contains(id) {
        Found::Cached
    } else {
        Found::Missing
    }
}

/// The registry `m` after a fixture of type `id` was set up.
pub open spec fn with_set_up(m: RegistryModel, id: u64) -> RegistryModel {
    RegistryModel { cache: m.cache.push(id), ..m }
}

/// The first `n` types of `cache` whose fixture only the registry holds
/// (`counts[i] == 1` for `cache[i]`), in order.
pub open spec fn unused_upto(cache: Seq<u64>, counts: Seq<usize>, n: nat) -> Seq<u64>
    decreases n,
{
    if n == 0 {
        Seq::empty()
    } else {
        let prev = unused_upto(cache, counts, (n - 1) as nat);
        if counts[n - 1] == 1 {
            prev.push(cache[n - 1])
        } else {
            prev
        }
    }
}

/// The first `n` types of `cache` whose fixture is still held elsewhere, in order.
pub open spec fn kept_upto(cache: Seq<u64>, counts: Seq<usize>, n: nat) -> Seq<u64>
    decreases n,
{
    if n == 0 {
        Seq::empty()
    } else {
        let prev = kept_upto(cache, counts, (n - 1) as nat);
        if counts[n - 1] == 1 {
            prev
        } else {
            prev.push(cache[n - 1])
        }
    }
}

/// A fixture is set up at most once: once a type was set up, it is found among
/// the set-up fixtures, and no other type is found elsewhere than before.
pub proof fn lemma_set_up_once(m: RegistryModel, id: u64)
    requires
        found(m, id) == Found::Missing,
    ensures
        found(with_set_up(m, id), id) == Found::Cached,
        forall|other: u64| other != id ==> found(with_set_up(m, id), other) == found(m, other),
{
    assert(with_set_up(m, id).cache[m.cache.len() as int] == id);
    assert forall|other: u64| other != id implies found(with_set_up(m, id), other) == found(
        m,
        other,
    ) by {
        if m.cache.contains(other) {
            let i = choose|i: int| 0 <= i < m.cache.len() && m.cache[i] == other;
            assert(with_set_up(m, id).cache[i] == other);
        }
        if with_set_up(m, id).cache.contains(other) {
            let i = choose|i: int|
                0 <= i < with_set_up(m, id).cache.len() && with_set_up(m, id).cache[i] == other;
            assert(m.cache[i] == other);
        }
    }
}

/// At the start of a run only the permanent fixtures are found: a fixture
/// that was never set up is missing.
pub proof fn lemma_nothing_set_up_at_start(permanent: Seq<u64>, id: u64)
    requires
        !permanent.contains(id),
    ensures
        found(RegistryModel { permanent, cache: Seq::empty() }, id) == Found::Missing,
{
}

/// One of the first `n` types of `cache` is `x`, and only the registry holds
/// its fixture.
pub open spec fn unused_among(cache: Seq<u64>, counts: Seq<usize>, n: nat, x: u64) -> bool {
    exists|i: int| 0 <= i < n && cache[i] == x && counts[i] == 1
}

/// One of the first `n` types of `cache` is `x`, and its fixture is still held
/// elsewhere.
pub open spec fn kept_among(cache: Seq<u64>, counts: Seq<usize>, n: nat, x: u64) -> bool {
    exists|i: int| 0 <= i < n && cache[i] == x && counts[i] != 1
}

/// Only fixtures that nothing else holds are torn down, and every other
/// set-up fixture is kept: the types of `cache` are split between the two.
pub proof fn lemma_teardown_takes_only_unused(cache: Seq<u64>, counts: Seq<usize>, n: nat)
    requires
        n <= cache.len(),
        n <= counts.len(),
    ensures
        unused_upto(cache, counts, n).len() + kept_upto(cache, counts, n).len() == n,
        forall|j: int|
            0 <= j < unused_upto(cache, counts, n).len() ==> unused_among(
                cache,
                counts,
                n,
                #[trigger] unused_upto(cache, counts, n)[j],
            ),
        forall|j: int|
            0 <= j < kept_upto(cache, counts, n).len() ==> kept_among(
                cache,
                counts,
                n,
                #[trigger] kept_upto(cache, counts, n)[j],
            ),
    decreases n,
{
    if n > 0 {
        let k = (n - 1) as nat;
        lemma_teardown_takes_only_unused(cache, counts, k);
        let u = unused_upto(cache, counts, n);
        let pu = unused_upto(cache, counts, k);
        let kk = kept_upto(cache, counts, n);
        let pk = kept_upto(cache, counts, k);
        assert forall|j: int| 0 <= j < u.len() implies unused_among(cache, counts, n, #[trigger] u[j]) by {
            if j < pu.len() {
                assert(u[j] == pu[j]);
                assert(unused_among(cache, counts, k, pu[j]));
                let i = choose|i: int| 0 <= i < k && cache[i] == pu[j] && counts[i] == 1;
                assert(0 <= i < n && cache[i] == u[j] && counts[i] == 1);
            } else {
                assert(0 <= k < n && cache[k as int] == u[j] && counts[k as int] == 1);
            }
        }
        assert forall|j: int| 0 <= j < kk.len() implies kept_among(cache, counts, n, #[trigger] kk[j]) by {
            if j < pk.len() {
                assert(kk[j] == pk[j]);
                assert(kept_among(cache, counts, k, pk[j]));
                let i = choose|i: int| 0 <= i < k && cache[i] == pk[j] && counts[i] != 1;
                assert(0 <= i < n && cache[i] == kk[j] && counts[i] != 1);
            } else {
                assert(0 <= k < n && cache[k as int] == kk[j] && counts[k as int] != 1);
            }
        }
    }
}

/// Teardown hands out each unused fixture exactly once and drops none: the
/// types taken out and the types kept are, together, the first `n` set-up
/// types counted with their multiplicity.
pub proof fn lemma_teardown_loses_and_repeats_nothing(
    cache: Seq<u64>,
    counts: Seq<usize>,
    n: nat,
)
    requires
        n <= cache.len(),
        n <= counts.len(),
    ensures
        unused_upto(cache, counts, n).to_multiset().add(kept_upto(cache, counts, n).to_multiset())
            == cache.take(n as int).to_multiset(),
    decreases n,
{
    broadcast use vstd::seq_lib::group_to_multiset_ensures;
    broadcast use vstd::multiset::group_multiset_axioms;

    if n == 0 {
        assert(cache.take(0) =~= Seq::<u64>::empty());
        assert(unused_upto(cache, counts, 0) =~= Seq::<u64>::empty());
        assert(kept_upto(cache, counts, 0) =~= Seq::<u64>::empty());
        assert(Seq::<u64>::empty().to_multiset() =~= Multiset::<u64>::empty());
        assert(Multiset::<u64>::empty().add(Multiset::<u64>::empty()) =~= Multiset::<u64>::empty());
    } else {
        let k = (n - 1) as nat;
        lemma_teardown_loses_and_repeats_nothing(cache, counts, k);
        let x = cache[k as int];
        assert(cache.take(n as int) =~= cache.take(k as int).push(x));
        let pu = unused_upto(cache, counts, k).to_multiset();
        let pk = kept_upto(cache, counts, k).to_multiset();
        if counts[k as int] == 1 {
            assert(unused_upto(cache, counts, n) == unused_upto(cache, counts, k).push(x));
            assert(pu.insert(x).add(pk) =~= pu.add(pk).insert(x));
        } else {
            assert(kept_upto(cache, counts, n) == kept_upto(cache, counts, k).push(x));
            assert(pu.add(pk.insert(x)) =~= pu.add(pk).insert(x));
        }
    }
}

/// Whether `v` holds `x`.
fn holds(v: &Vec<u64>, x: u64) -> (r: bool)
    ensures
        r == v@.contains(x),
{
    let mut i: usize = 0;
    while i < v.len()
        invariant
            i <= v.len(),
            forall|k: int| 0 <= k < i ==> v@[k] != x,
        decreases v.len() - i,
    {
        if v[i] == x {
            return true;
        }
        i = i + 1;
    }
    false
}

/// The fixture types that a run knows.
pub struct Registry {
    permanent: Vec<u64>,
    cache: Vec<u64>,
}

impl View for Registry {
    type V = RegistryModel;

    closed spec fn view(&self) -> RegistryModel {
        RegistryModel { permanent: self.permanent@, cache: self.cache@ }
    }
}

impl Registry {
    /// The registry at the start of a run with the permanent fixtures of the
    /// types `permanent`.
    pub fn new(permanent: Vec<u64>) -> (r: Self)
        ensures
            r@ == (RegistryModel { permanent: permanent@, cache: Seq::empty() }),
    {
        let r = Registry { permanent, cache: Vec::new() };
        assert(r@.cache =~= Seq::<u64>::empty());
        r
    }

    /// Where the fixture of type `id` is found.
    pub fn find(&self, id: u64) -> (r: Found)
        ensures
            r == found(self@, id),
    {
        if holds(&self.permanent, id) {
            Found::Permanent
        } else if holds(&self.cache, id) {
            Found::Cached
        } else {
            Found::Missing
        }
    }

    /// Records that a fixture of type `id` was set up: it joins the end of the
    /// set-up types unless it is among them already.
    pub fn set_up(&mut self, id: u64)
        ensures
            final(self)@ == if old(self)@.cache.contains(id) {
                old(self)@
            } else {
                with_set_up(old(self)@, id)
            },
    {
        if !holds(&self.cache, id) {
            self.cache.push(id);
        }
    }

    /// The types set up during the run, in the order they were set up.
    pub fn cached(&self) -> (r: Vec<u64>)
        ensures
            r@ == self@.cache,
    {
        self.cache.clone()
    }

    /// Takes out of the registry the set-up types whose fixture only the
    /// registry holds, `counts[i]` being the number of holders of the fixture of
    /// type `cached()[i]`, and returns them in order; the others stay, in order.
    pub fn take_unused(&mut self, counts: &Vec<usize>) -> (r: Vec<u64>)
        requires
            counts.len() == old(self)@.cache.len(),
        ensures
            r@ == unused_upto(old(self)@.cache, counts@, counts.len() as nat),
            final(self)@ == (RegistryModel {
                cache: kept_upto(old(self)@.cache, counts@, counts.len() as nat),
                ..old(self)@
            }),
            r@.to_multiset().add(final(self)@.cache.to_multiset()) == old(self)@.cache.to_multiset(),
            forall|j: int|
                0 <= j < r@.len() ==> unused_among(old(self)@.cache, counts@, counts.len() as nat, #[trigger] r@[j]),
            forall|j: int|
                0 <= j < final(self)@.cache.len() ==> kept_among(
                    old(self)@.cache,
                    counts@,
                    counts.len() as nat,
                    #[trigger] final(self)@.cache[j],
                ),
    {
        proof {
            lemma_teardown_loses_and_repeats_nothing(self@.cache, counts@, counts.len() as nat);
            lemma_teardown_takes_only_unused(self@.cache, counts@, counts.len() as nat);
            assert(self@.cache.take(counts.len() as int) =~= self@.cache);
        }
        let mut unused: Vec<u64> = Vec::new();
        let mut kept: Vec<u64> = Vec::new();
        let mut i: usize = 0;
        while i < self.cache.len()
            invariant
                i <= self.cache.len(),
                counts.len() == self.cache.len(),
                unused@ == unused_upto(self.cache@, counts@, i as nat),
                kept@ == kept_upto(self.cache@, counts@, i as nat),
            decreases self.cache.len() - i,
        {
            if counts[i] == 1 {
                unused.push(self.cache[i]);
            } else {
                kept.push(self.cache[i]);
            }
            i = i + 1;
        }
        self.cache = kept;
        unused
    }
}

} // verus!
