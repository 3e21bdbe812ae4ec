//! Counters of a test run and the names of what failed.

use vstd::prelude::*;
use std::ops::AddAssign;
use crate::text::{clone_strings, to_string, views};

verus! {

/// What the statistics of a run hold.
pub struct StatisticsModel {
    pub total: nat,
    pub filtered: nat,
    pub launched: nat,
    pub ok: nat,
    pub failed: nat,
    pub skipped: nat,
    pub failed_tests: Seq<Seq<char>>,
}

/// The statistics of a run that has done nothing yet.
pub open spec fn no_statistics() -> StatisticsModel {
    StatisticsModel {
        total: 0,
        filtered: 0,
        launched: 0,
        ok: 0,
        failed: 0,
        skipped: 0,
        failed_tests: Seq::empty(),
    }
}

/// The statistics of two runs taken together: the counters add up and the
/// failures of `a` come before those of `b`.
pub open spec fn combine(a: StatisticsModel, b: StatisticsModel) -> StatisticsModel {
    StatisticsModel {
        total: a.total + b.total,
        filtered: a.filtered + b.filtered,
        launched: a.launched + b.launched,
        ok: a.ok + b.ok,
        failed: a.failed + b.failed,
        skipped: a.skipped + b.skipped,
        failed_tests: a.failed_tests + b.failed_tests,
    }
}

/// Every counter of `combine(a, b)` fits in a `usize`.
pub open spec fn combinable(a: StatisticsModel, b: StatisticsModel) -> bool {
    &&& a.total + b.total <= usize::MAX
    &&& a.filtered + b.filtered <= usize::MAX
    &&& a.launched + b.launched <= usize::MAX
    &&& a.ok + b.ok <= usize::MAX
    &&& a.failed + b.failed <= usize::MAX
    &&& a.skipped + b.skipped <= usize::MAX
}

/// Taking statistics together does not depend on how they are grouped.
pub proof fn lemma_combine_associative(a: StatisticsModel, b: StatisticsModel, c: StatisticsModel)
    ensures
        combine(combine(a, b), c) == combine(a, combine(b, c)),
{
    assert(combine(combine(a, b), c).failed_tests =~= combine(a, combine(b, c)).failed_tests);
}

/// Empty statistics change nothing when taken together with others, on either side.
pub proof fn lemma_combine_identity(a: StatisticsModel)
    ensures
        combine(no_statistics(), a) == a,
        combine(a, no_statistics()) == a,
{
    assert(combine(no_statistics(), a).failed_tests =~= a.failed_tests);
    assert(combine(a, no_statistics()).failed_tests =~= a.failed_tests);
}

/// The statistics `m` once a test that the filter kept starts: it is counted as
/// kept, then as skipped or as launched.
pub open spec fn test_started(m: StatisticsModel, skip: bool) -> StatisticsModel {
    if skip {
        StatisticsModel { filtered: m.filtered + 1, skipped: m.skipped + 1, ..m }
    } else {
        StatisticsModel { filtered: m.filtered + 1, launched: m.launched + 1, ..m }
    }
}

/// The statistics `m` once a launched test named `name` ends: as a success, or
/// as a failure that is counted and named.
pub open spec fn test_finished(m: StatisticsModel, passed: bool, name: Seq<char>) -> StatisticsModel {
    if passed {
        StatisticsModel { ok: m.ok + 1, ..m }
    } else {
        StatisticsModel { failed: m.failed + 1, failed_tests: m.failed_tests.push(name), ..m }
    }
}

/// Each launched test ends exactly once, as a success or as a failure, and a
/// skipped test is neither launched nor ends.
pub proof fn lemma_each_launched_test_ends_once(m: StatisticsModel, passed: bool, name: Seq<char>)
    ensures
        ({
            let s = test_finished(test_started(m, false), passed, name);
            &&& s.filtered == m.filtered + 1
            &&& s.launched == m.launched + 1
            &&& s.ok + s.failed == m.ok + m.failed + 1
            &&& s.skipped == m.skipped
            &&& s.total == m.total
        }),
        ({
            let s = test_started(m, true);
            &&& s.filtered == m.filtered + 1
            &&& s.skipped == m.skipped + 1
            &&& s.launched == m.launched
            &&& s.ok == m.ok
            &&& s.failed == m.failed
            &&& s.failed_tests == m.failed_tests
            &&& s.total == m.total
        }),
{
}

/// Counting tests as they start and end never changes the number of tests of
/// the run, and keeps every kept test counted once, as launched or as skipped:
/// when `filtered == launched + skipped` holds before a start or an end, it
/// holds after it.
pub proof fn lemma_counting_tests_keeps_the_total(
    m: StatisticsModel,
    skip: bool,
    passed: bool,
    name: Seq<char>,
)
    ensures
        test_started(m, skip).total == m.total,
        test_finished(m, passed, name).total == m.total,
        m.filtered == m.launched + m.skipped ==> test_started(m, skip).filtered == test_started(
            m,
            skip,
        ).launched + test_started(m, skip).skipped,
        m.filtered == m.launched + m.skipped ==> test_finished(m, passed, name).filtered
            == test_finished(m, passed, name).launched + test_finished(m, passed, name).skipped,
        test_started(m, skip).ok == m.ok,
        test_started(m, skip).failed_tests == m.failed_tests,
        test_finished(m, passed, name).filtered == m.filtered,
        test_finished(m, passed, name).launched == m.launched,
        test_finished(m, passed, name).skipped == m.skipped,
        test_finished(m, passed, name).ok + test_finished(m, passed, name).failed == m.ok + m.failed
            + 1,
        test_finished(m, passed, name).failed_tests.len() == m.failed_tests.len() + (if passed {
            0int
        } else {
            1int
        }),
{
}

/// The statistics of two runs taken together count every test and every
/// failure of both: each counter is the sum of the two, and the failures of the
/// first come before those of the second.
pub proof fn lemma_combine_adds_up(a: StatisticsModel, b: StatisticsModel)
    ensures
        combine(a, b).total == a.total + b.total,
        combine(a, b).filtered == a.filtered + b.filtered,
        combine(a, b).launched == a.launched + b.launched,
        combine(a, b).ok == a.ok + b.ok,
        combine(a, b).failed == a.failed + b.failed,
        combine(a, b).skipped == a.skipped + b.skipped,
        combine(a, b).failed_tests.len() == a.failed_tests.len() + b.failed_tests.len(),
        combine(a, b).failed_tests.take(a.failed_tests.len() as int) == a.failed_tests,
        combine(a, b).failed_tests.skip(a.failed_tests.len() as int) == b.failed_tests,
{
    assert(combine(a, b).failed_tests.take(a.failed_tests.len() as int) =~= a.failed_tests);
    assert(combine(a, b).failed_tests.skip(a.failed_tests.len() as int) =~= b.failed_tests);
}

/// The state of the statistics of a test run: how many tests there were, how
/// many the filter kept, how many were launched, succeeded, failed or were
/// skipped, and the names of what failed.
///
/// This is a plain value: a run shares one `Inner` between its tasks behind a
/// lock, and every change goes through the methods below.
#[derive(Debug)]
pub struct Inner {
    total: usize,
    filtered: usize,
    launched: usize,
    ok: usize,
    failed: usize,
    skipped: usize,
    failed_tests: Vec<String>,
}

impl Inner {
    /// Each failure is counted once and named once.
    #[verifier::type_invariant]
    spec fn failures_named(self) -> bool {
        self.failed == self.failed_tests.len()
    }
}

impl View for Inner {
    type V = StatisticsModel;

    closed spec fn view(&self) -> StatisticsModel {
        StatisticsModel {
            total: self.total as nat,
            filtered: self.filtered as nat,
            launched: self.launched as nat,
            ok: self.ok as nat,
            failed: self.failed as nat,
            skipped: self.skipped as nat,
            failed_tests: views(self.failed_tests@),
        }
    }
}

impl Inner {
    /// Empty statistics.
    pub fn new() -> (r: Self)
        ensures
            r@ == no_statistics(),
    {
        let r = Inner {
            total: 0,
            filtered: 0,
            launched: 0,
            ok: 0,
            failed: 0,
            skipped: 0,
            failed_tests: Vec::new(),
        };
        assert(r@.failed_tests =~= Seq::<Seq<char>>::empty());
        r
    }

    /// Adds `count` tests to the total.
    pub fn increment_total(&mut self, count: usize)
        requires
            old(self)@.total + count <= usize::MAX,
        ensures
            final(self)@ == (StatisticsModel { total: old(self)@.total + count as nat, ..old(self)@ }),
    {
        proof {
            use_type_invariant(&*self);
        }
        self.total = self.total + count;
    }

    /// Adds `count` tests to the number of tests the filter kept.
    pub fn increment_filtered(&mut self, count: usize)
        requires
            old(self)@.filtered + count <= usize::MAX,
        ensures
            final(self)@ == (StatisticsModel {
                filtered: old(self)@.filtered + count as nat,
                ..old(self)@
            }),
    {
        proof {
            use_type_invariant(&*self);
        }
        self.filtered = self.filtered + count;
    }

    /// Counts one launched test.
    pub fn increment_launched(&mut self)
        requires
            old(self)@.launched < usize::MAX,
        ensures
            final(self)@ == (StatisticsModel { launched: old(self)@.launched + 1, ..old(self)@ }),
    {
        proof {
            use_type_invariant(&*self);
        }
        self.launched = self.launched + 1;
    }

    /// Counts one test that succeeded.
    pub fn increment_ok(&mut self)
        requires
            old(self)@.ok < usize::MAX,
        ensures
            final(self)@ == (StatisticsModel { ok: old(self)@.ok + 1, ..old(self)@ }),
    {
        proof {
            use_type_invariant(&*self);
        }
        self.ok = self.ok + 1;
    }

    /// Counts one skipped test.
    pub fn increment_skipped(&mut self)
        requires
            old(self)@.skipped < usize::MAX,
        ensures
            final(self)@ == (StatisticsModel { skipped: old(self)@.skipped + 1, ..old(self)@ }),
    {
        proof {
            use_type_invariant(&*self);
        }
        self.skipped = self.skipped + 1;
    }

    /// Counts one failure and records the name of what failed.
    pub fn record_failure(&mut self, failed_test: &str)
        requires
            old(self)@.failed < usize::MAX,
        ensures
            final(self)@ == (StatisticsModel {
                failed: old(self)@.failed + 1,
                failed_tests: old(self)@.failed_tests.push(failed_test@),
                ..old(self)@
            }),
    {
        proof {
            use_type_invariant(&*self);
        }
        let ghost before = views(self.failed_tests@);
        let mut names = clone_strings(&self.failed_tests);
        names.push(to_string(failed_test));
        *self = Inner {
            total: self.total,
            filtered: self.filtered,
            launched: self.launched,
            ok: self.ok,
            failed: self.failed + 1,
            skipped: self.skipped,
            failed_tests: names,
        };
        assert(views(self.failed_tests@) =~= before.push(failed_test@));
    }

    /// Counts a test that the filter kept and that now starts: as skipped when
    /// `skip`, else as launched.
    pub fn start_test(&mut self, skip: bool)
        requires
            old(self)@.filtered < usize::MAX,
            skip ==> old(self)@.skipped < usize::MAX,
            !skip ==> old(self)@.launched < usize::MAX,
        ensures
            final(self)@ == test_started(old(self)@, skip),
            final(self)@.total == old(self)@.total,
            final(self)@.filtered == old(self)@.filtered + 1,
            skip ==> final(self)@.skipped == old(self)@.skipped + 1
                && final(self)@.launched == old(self)@.launched,
            !skip ==> final(self)@.launched == old(self)@.launched + 1
                && final(self)@.skipped == old(self)@.skipped,
    {
        self.increment_filtered(1);
        if skip {
            self.increment_skipped();
        } else {
            self.increment_launched();
        }
    }

    /// Counts the end of the launched test `name`: a success when `passed`, else
    /// a failure recorded under its name.
    pub fn finish_test(&mut self, passed: bool, name: &str)
        requires
            passed ==> old(self)@.ok < usize::MAX,
            !passed ==> old(self)@.failed < usize::MAX,
        ensures
            final(self)@ == test_finished(old(self)@, passed, name@),
            final(self)@.total == old(self)@.total,
            final(self)@.filtered == old(self)@.filtered,
            final(self)@.launched == old(self)@.launched,
            final(self)@.skipped == old(self)@.skipped,
            final(self)@.ok + final(self)@.failed == old(self)@.ok + old(self)@.failed + 1,
    {
        if passed {
            self.increment_ok();
        } else {
            self.record_failure(name);
        }
    }

    /// Adds the counters and the failures of `other` to these.
    pub fn append(&mut self, other: &Inner)
        requires
            combinable(old(self)@, other@),
        ensures
            final(self)@ == combine(old(self)@, other@),
            final(self)@.total == old(self)@.total + other@.total,
            final(self)@.filtered == old(self)@.filtered + other@.filtered,
            final(self)@.launched == old(self)@.launched + other@.launched,
            final(self)@.ok == old(self)@.ok + other@.ok,
            final(self)@.failed == old(self)@.failed + other@.failed,
            final(self)@.skipped == old(self)@.skipped + other@.skipped,
            final(self)@.failed_tests == old(self)@.failed_tests + other@.failed_tests,
    {
        proof {
            use_type_invariant(&*self);
            use_type_invariant(other);
        }
        let ghost before = views(self.failed_tests@);
        let mut names = clone_strings(&self.failed_tests);
        let mut i: usize = 0;
        while i < other.failed_tests.len()
            invariant
                i <= other.failed_tests.len(),
                views(names@) == before + views(other.failed_tests@).take(i as int),
            decreases other.failed_tests.len() - i,
        {
            let ghost prev = views(names@);
            names.push(other.failed_tests[i].clone());
            assert(views(names@) =~= prev.push(other.failed_tests@[i as int]@));
            assert(views(names@) =~= before + views(other.failed_tests@).take(i + 1));
            i = i + 1;
        }
        assert(views(other.failed_tests@).take(other.failed_tests.len() as int) =~= views(
            other.failed_tests@,
        ));
        *self = Inner {
            total: self.total + other.total,
            filtered: self.filtered + other.filtered,
            launched: self.launched + other.launched,
            ok: self.ok + other.ok,
            failed: self.failed + other.failed,
            skipped: self.skipped + other.skipped,
            failed_tests: names,
        };
    }

    /// Whether nothing failed.
    pub fn is_success(&self) -> (r: bool)
        ensures
            r == (self@.failed_tests.len() == 0),
    {
        self.failed_tests.len() == 0
    }

    /// The number of tests.
    pub fn total(&self) -> (r: usize)
        ensures
            r == self@.total,
    {
        self.total
    }

    /// The number of tests that the filter kept.
    pub fn filtered(&self) -> (r: usize)
        ensures
            r == self@.filtered,
    {
        self.filtered
    }

    /// The number of launched tests.
    pub fn launched(&self) -> (r: usize)
        ensures
            r == self@.launched,
    {
        self.launched
    }

    /// The number of tests that succeeded.
    pub fn ok(&self) -> (r: usize)
        ensures
            r == self@.ok,
    {
        self.ok
    }

    /// The number of failures, which is the number of recorded failure names.
    pub fn failed(&self) -> (r: usize)
        ensures
            r == self@.failed,
            r == self@.failed_tests.len(),
    {
        proof {
            use_type_invariant(self);
        }
        self.failed
    }

    /// The number of skipped tests.
    pub fn skipped(&self) -> (r: usize)
        ensures
            r == self@.skipped,
    {
        self.skipped
    }

    /// The names of what failed, in the order the failures were recorded.
    pub fn failed_tests(&self) -> (r: Vec<String>)
        ensures
            views(r@) == self@.failed_tests,
    {
        clone_strings(&self.failed_tests)
    }
}

impl Clone for Inner {
    /// A snapshot: an independent copy holding the same counters and failures,
    /// which later changes to `self` do not reach.
    fn clone(&self) -> (r: Inner)
        ensures
            r@ == self@,
    {
        proof {
            use_type_invariant(self);
        }
        Inner {
            total: self.total,
            filtered: self.filtered,
            launched: self.launched,
            ok: self.ok,
            failed: self.failed,
            skipped: self.skipped,
            failed_tests: clone_strings(&self.failed_tests),
        }
    }
}

impl<'a> AddAssign<&'a Inner> for Inner {
    /// Adds the counters and the failures of `other` to these.
    fn add_assign(&mut self, other: &'a Inner)
        requires
            combinable(old(self)@, other@),
        ensures
            final(self)@ == combine(old(self)@, other@),
    {
        self.append(other);
    }
}

impl AddAssign for Inner {
    /// Adds the counters and the failures of `other` to these.
    fn add_assign(&mut self, other: Inner)
        requires
            combinable(old(self)@, other@),
        ensures
            final(self)@ == combine(old(self)@, other@),
    {
        self.append(&other);
    }
}

} // verus!
