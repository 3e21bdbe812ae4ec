//! The order in which a group runs: set up its fixture, run the subgroups that
//! the filter considers, then the tests that the filter considers, then tear
//! the fixture down. A failed setup or teardown is recorded under the path of
//! the group. The waiting is done by the caller, which performs each action and
//! reports how it ended.

use vstd::prelude::*;
use crate::filter::{
    Filter, FilterModel, filter_model, lemma_no_filters_select_nothing,
    lemma_unmatched_filters_select_nothing, name_pairs, selects, matcher_of, accepts,
    lemma_group_match_runs_every_test,
};
use crate::statistics::{Inner, StatisticsModel};
use crate::text::{clone_strings, join, join_names, qualify, split_last, to_string, views};

verus! {

/// Where a group is in its run.
#[derive(Clone, Copy, Debug, PartialEq, Eq, Structural)]
pub enum Stage {
    Setup,
    Group(usize),
    Test(usize),
    Teardown,
    Finished,
}

/// What the caller is to do next.
#[derive(Clone, Copy, Debug, PartialEq, Eq, Structural)]
pub enum Action {
    SetupFixture,
    RunGroup(usize),
    RunTest(usize),
    TeardownFixture,
    Finish,
}

/// How the last action ended.
#[derive(Clone, Copy, Debug, PartialEq, Eq, Structural)]
pub enum Event {
    SetupOk,
    SetupFailed,
    ChildDone,
    TeardownOk,
    TeardownFailed,
}

/// Whether `event` can end the action of `stage`.
pub open spec fn fits(stage: Stage, event: Event) -> bool {
    match stage {
        Stage::Setup => event == Event::SetupOk || event == Event::SetupFailed,
        Stage::Group(_) => event == Event::ChildDone,
        Stage::Test(_) => event == Event::ChildDone,
        Stage::Teardown => event == Event::TeardownOk || event == Event::TeardownFailed,
        Stage::Finished => false,
    }
}

/// Whether the filter runs the subgroup `g` of the group at `path`.
pub open spec fn group_considered(f: FilterModel, path: Seq<Seq<char>>, g: Seq<char>) -> bool {
    !f.active || f.groups.contains(join(path.push(g)))
}

/// Whether the filter runs the test `t` of the group at `path`.
pub open spec fn test_considered(f: FilterModel, path: Seq<Seq<char>>, t: Seq<char>) -> bool {
    !f.active || ({
        let key = join(path);
        &&& f.tests.contains_key(key)
        &&& (f.tests[key] == Set::<Seq<char>>::empty() || f.tests[key].contains(t))
    })
}

/// Without filters every subgroup and every test of every group runs.
pub proof fn lemma_no_filters_run_everything(
    parent: Seq<char>,
    names: Seq<Seq<char>>,
    path: Seq<Seq<char>>,
    g: Seq<char>,
    t: Seq<char>,
)
    ensures
        group_considered(filter_model(Seq::empty(), parent, names), path, g),
        test_considered(filter_model(Seq::empty(), parent, names), path, t),
{
    lemma_no_filters_select_nothing(parent, names);
}

/// Filters that select none of the tests of the hierarchy run no subgroup and
/// no test of any group.
pub proof fn lemma_unmatched_filters_run_nothing(
    filters: Seq<Seq<char>>,
    parent: Seq<char>,
    names: Seq<Seq<char>>,
    path: Seq<Seq<char>>,
    g: Seq<char>,
    t: Seq<char>,
)
    requires
        filters.len() > 0,
        forall|i: int, j: int|
            0 <= i < filters.len() && 0 <= j < name_pairs(names).len() ==> !#[trigger] selects(
                filters[i],
                name_pairs(names)[j].0,
                name_pairs(names)[j].1,
            ),
    ensures
        !group_considered(filter_model(filters, parent, names), path, g),
        !test_considered(filter_model(filters, parent, names), path, t),
{
    lemma_unmatched_filters_select_nothing(filters, parent, names);
}

/// The first subgroup at or after `from` that the filter runs.
pub open spec fn first_group_from(
    f: FilterModel,
    path: Seq<Seq<char>>,
    groups: Seq<Seq<char>>,
    from: int,
) -> Option<int>
    decreases groups.len() - from,
{
    if from < 0 || from >= groups.len() {
        None
    } else if group_considered(f, path, groups[from]) {
        Some(from)
    } else {
        first_group_from(f, path, groups, from + 1)
    }
}

/// The first test at or after `from` that the filter runs.
pub open spec fn first_test_from(
    f: FilterModel,
    path: Seq<Seq<char>>,
    tests: Seq<Seq<char>>,
    from: int,
) -> Option<int>
    decreases tests.len() - from,
{
    if from < 0 || from >= tests.len() {
        None
    } else if test_considered(f, path, tests[from]) {
        Some(from)
    } else {
        first_test_from(f, path, tests, from + 1)
    }
}

/// The stage after looking for the next subgroup from `g` and then the next test
/// from `t`: that subgroup, else that test, else the teardown.
pub open spec fn advance(
    f: FilterModel,
    path: Seq<Seq<char>>,
    groups: Seq<Seq<char>>,
    tests: Seq<Seq<char>>,
    g: int,
    t: int,
) -> Stage {
    match first_group_from(f, path, groups, g) {
        Some(k) => Stage::Group(k as usize),
        None => match first_test_from(f, path, tests, t) {
            Some(k) => Stage::Test(k as usize),
            None => Stage::Teardown,
        },
    }
}

/// The action that starts `stage`.
pub open spec fn action_of(stage: Stage) -> Action {
    match stage {
        Stage::Setup => Action::SetupFixture,
        Stage::Group(k) => Action::RunGroup(k),
        Stage::Test(k) => Action::RunTest(k),
        Stage::Teardown => Action::TeardownFixture,
        Stage::Finished => Action::Finish,
    }
}

/// The stage that `event` leads to from `stage`.
pub open spec fn next_stage(
    f: FilterModel,
    path: Seq<Seq<char>>,
    groups: Seq<Seq<char>>,
    tests: Seq<Seq<char>>,
    stage: Stage,
    event: Event,
) -> Stage {
    match stage {
        Stage::Setup => if event == Event::SetupOk {
            advance(f, path, groups, tests, 0, 0)
        } else {
            Stage::Finished
        },
        Stage::Group(k) => advance(f, path, groups, tests, k + 1, 0),
        Stage::Test(k) => advance(f, path, groups, tests, groups.len() as int, k + 1),
        _ => Stage::Finished,
    }
}

/// Whether `event` records a failure of the group itself.
pub open spec fn is_failure(event: Event) -> bool {
    event == Event::SetupFailed || event == Event::TeardownFailed
}

/// What a group run holds.
pub struct GroupRunModel {
    pub path: Seq<Seq<char>>,
    pub groups: Seq<Seq<char>>,
    pub tests: Seq<Seq<char>>,
    pub stage: Stage,
}

/// The run of one group.
pub struct GroupRun {
    path: Vec<String>,
    groups: Vec<String>,
    tests: Vec<String>,
    stage: Stage,
}

impl GroupRun {
    /// A running child is one of the group's subgroups or tests.
    #[verifier::type_invariant]
    spec fn child_exists(self) -> bool {
        match self.stage {
            Stage::Group(k) => k < self.groups.len(),
            Stage::Test(k) => k < self.tests.len(),
            _ => true,
        }
    }
}

/// The subgroup found from `from` is at or after `from` and exists.
pub proof fn lemma_first_group_in_range(
    f: FilterModel,
    path: Seq<Seq<char>>,
    groups: Seq<Seq<char>>,
    from: int,
)
    ensures
        first_group_from(f, path, groups, from) matches Some(k) ==> from <= k < groups.len(),
    decreases groups.len() - from,
{
    if 0 <= from < groups.len() && !group_considered(f, path, groups[from]) {
        lemma_first_group_in_range(f, path, groups, from + 1);
    }
}

/// The test found from `from` is at or after `from` and exists.
pub proof fn lemma_first_test_in_range(
    f: FilterModel,
    path: Seq<Seq<char>>,
    tests: Seq<Seq<char>>,
    from: int,
)
    ensures
        first_test_from(f, path, tests, from) matches Some(k) ==> from <= k < tests.len(),
    decreases tests.len() - from,
{
    if 0 <= from < tests.len() && !test_considered(f, path, tests[from]) {
        lemma_first_test_in_range(f, path, tests, from + 1);
    }
}

/// The subgroup found from `from` is the first one there that the filter runs:
/// none before it is skipped wrongly, and none is found when none is run.
pub proof fn lemma_first_group_is_first_considered(
    f: FilterModel,
    path: Seq<Seq<char>>,
    groups: Seq<Seq<char>>,
    from: int,
)
    requires
        0 <= from,
    ensures
        match first_group_from(f, path, groups, from) {
            Some(k) => group_considered(f, path, groups[k]) && forall|j: int|
                from <= j < k ==> !group_considered(f, path, #[trigger] groups[j]),
            None => forall|j: int|
                from <= j < groups.len() ==> !group_considered(f, path, #[trigger] groups[j]),
        },
    decreases groups.len() - from,
{
    if from < groups.len() && !group_considered(f, path, groups[from]) {
        lemma_first_group_is_first_considered(f, path, groups, from + 1);
    }
}

/// The test found from `from` is the first one there that the filter runs:
/// none before it is skipped wrongly, and none is found when none is run.
pub proof fn lemma_first_test_is_first_considered(
    f: FilterModel,
    path: Seq<Seq<char>>,
    tests: Seq<Seq<char>>,
    from: int,
)
    requires
        0 <= from,
    ensures
        match first_test_from(f, path, tests, from) {
            Some(k) => test_considered(f, path, tests[k]) && forall|j: int|
                from <= j < k ==> !test_considered(f, path, #[trigger] tests[j]),
            None => forall|j: int|
                from <= j < tests.len() ==> !test_considered(f, path, #[trigger] tests[j]),
        },
    decreases tests.len() - from,
{
    if from < tests.len() && !test_considered(f, path, tests[from]) {
        lemma_first_test_is_first_considered(f, path, tests, from + 1);
    }
}

/// A single filter without `::` whose pattern accepts the name of a group runs
/// every test of that group.
pub proof fn lemma_group_match_considers_every_test(
    f: Seq<char>,
    parent: Seq<char>,
    names: Seq<Seq<char>>,
    j: int,
    path: Seq<Seq<char>>,
    t: Seq<char>,
)
    requires
        split_last(f) is None,
        0 <= j < name_pairs(names).len(),
        accepts(matcher_of(f), name_pairs(names)[j].0),
        join(path) == qualify(parent, name_pairs(names)[j].0),
    ensures
        test_considered(filter_model(seq![f], parent, names), path, t),
{
    lemma_group_match_runs_every_test(f, parent, names, j);
}

/// A group runs its parts in order, each only if the filter considers it: after
/// the setup, or after a subgroup or a test, the next stage is the first
/// subgroup after the one just run that the filter considers, else the first
/// test after the one just run that it considers, else the teardown; a failed
/// setup or the teardown ends the run.
pub proof fn lemma_next_stage_is_next_considered(
    f: FilterModel,
    path: Seq<Seq<char>>,
    groups: Seq<Seq<char>>,
    tests: Seq<Seq<char>>,
    stage: Stage,
    event: Event,
)
    requires
        fits(stage, event),
        groups.len() <= usize::MAX,
        tests.len() <= usize::MAX,
        stage matches Stage::Group(k) ==> k < groups.len(),
        stage matches Stage::Test(k) ==> k < tests.len(),
    ensures
        ({
            let n = next_stage(f, path, groups, tests, stage, event);
            let g0: int = match stage {
                Stage::Setup => 0,
                Stage::Group(k) => k + 1,
                _ => groups.len() as int,
            };
            let t0: int = match stage {
                Stage::Test(k) => k + 1,
                _ => 0,
            };
            let goes_on = (stage is Setup && event == Event::SetupOk) || stage is Group
                || stage is Test;
            &&& n !is Setup
            &&& (n is Finished <==> !goes_on)
            &&& (n matches Stage::Group(j) ==> goes_on && g0 <= j < groups.len()
                && group_considered(f, path, groups[j as int])
                && forall|i: int| g0 <= i < j ==> !group_considered(f, path, #[trigger] groups[i]))
            &&& (n matches Stage::Test(j) ==> goes_on && t0 <= j < tests.len()
                && test_considered(f, path, tests[j as int])
                && (forall|i: int| g0 <= i < groups.len() ==> !group_considered(f, path, #[trigger] groups[i]))
                && forall|i: int| t0 <= i < j ==> !test_considered(f, path, #[trigger] tests[i]))
            &&& (n is Teardown ==> goes_on
                && (forall|i: int| g0 <= i < groups.len() ==> !group_considered(f, path, #[trigger] groups[i]))
                && forall|i: int| t0 <= i < tests.len() ==> !test_considered(f, path, #[trigger] tests[i]))
        }),
{
    let (g0, t0): (int, int) = match stage {
        Stage::Setup => (0, 0),
        Stage::Group(k) => (k + 1, 0),
        Stage::Test(k) => (groups.len() as int, k + 1),
        _ => (groups.len() as int, 0),
    };
    lemma_first_group_is_first_considered(f, path, groups, g0);
    lemma_first_test_is_first_considered(f, path, tests, t0);
    lemma_first_group_in_range(f, path, groups, g0);
    lemma_first_test_in_range(f, path, tests, t0);
    let n = next_stage(f, path, groups, tests, stage, event);
    if stage is Setup && event == Event::SetupOk || stage is Group || stage is Test {
        assert(n == advance(f, path, groups, tests, g0, t0));
        match first_group_from(f, path, groups, g0) {
            Some(j) => {
                assert(n == Stage::Group(j as usize));
                assert((j as usize) as int == j);
            },
            None => match first_test_from(f, path, tests, t0) {
                Some(j) => {
                    assert(n == Stage::Test(j as usize));
                    assert((j as usize) as int == j);
                },
                None => {},
            },
        }
    }
}

impl View for GroupRun {
    type V = GroupRunModel;

    closed spec fn view(&self) -> GroupRunModel {
        GroupRunModel {
            path: views(self.path@),
            groups: views(self.groups@),
            tests: views(self.tests@),
            stage: self.stage,
        }
    }
}

impl GroupRun {
    /// The run of the group `name` below the groups `parent_names`, with the
    /// subgroups `groups` and the tests `tests`; it starts with the setup.
    pub fn new(parent_names: &Vec<String>, name: &str, groups: &Vec<String>, tests: &Vec<String>) -> (r: Self)
        ensures
            r@ == (GroupRunModel {
                path: views(parent_names@).push(name@),
                groups: views(groups@),
                tests: views(tests@),
                stage: Stage::Setup,
            }),
    {
        let mut path = clone_strings(parent_names);
        let ghost before = views(path@);
        path.push(to_string(name));
        assert(views(path@) =~= before.push(name@));
        GroupRun { path, groups: clone_strings(groups), tests: clone_strings(tests), stage: Stage::Setup }
    }

    /// The names of the groups from the root down to this one.
    pub fn path(&self) -> (r: Vec<String>)
        ensures
            views(r@) == self@.path,
    {
        clone_strings(&self.path)
    }

    /// The action that the current stage stands for.
    pub fn action(&self) -> (r: Action)
        ensures
            r == action_of(self@.stage),
    {
        match self.stage {
            Stage::Setup => Action::SetupFixture,
            Stage::Group(k) => Action::RunGroup(k),
            Stage::Test(k) => Action::RunTest(k),
            Stage::Teardown => Action::TeardownFixture,
            Stage::Finished => Action::Finish,
        }
    }

    /// Whether `event` can end the current action.
    pub fn expects(&self, event: Event) -> (r: bool)
        ensures
            r == fits(self@.stage, event),
    {
        match self.stage {
            Stage::Setup => event == Event::SetupOk || event == Event::SetupFailed,
            Stage::Group(_) => event == Event::ChildDone,
            Stage::Test(_) => event == Event::ChildDone,
            Stage::Teardown => event == Event::TeardownOk || event == Event::TeardownFailed,
            Stage::Finished => false,
        }
    }

    /// The first subgroup at or after `from` that the filter runs.
    fn find_group(&self, filter: &Filter, from: usize) -> (r: Option<usize>)
        ensures
            match r {
                Some(k) => first_group_from(filter@, self@.path, self@.groups, from as int) == Some(
                    k as int,
                ),
                None => first_group_from(filter@, self@.path, self@.groups, from as int) is None,
            },
        decreases self.groups.len() - from,
    {
        if from >= self.groups.len() {
            return None;
        }
        assert(self@.groups[from as int] == self.groups@[from as int]@);
        if filter.consider_group(&self.path, self.groups[from].as_str()) {
            Some(from)
        } else {
            self.find_group(filter, from + 1)
        }
    }

    /// The first test at or after `from` that the filter runs.
    fn find_test(&self, filter: &Filter, from: usize) -> (r: Option<usize>)
        ensures
            match r {
                Some(k) => first_test_from(filter@, self@.path, self@.tests, from as int) == Some(
                    k as int,
                ),
                None => first_test_from(filter@, self@.path, self@.tests, from as int) is None,
            },
        decreases self.tests.len() - from,
    {
        if from >= self.tests.len() {
            return None;
        }
        assert(self@.tests[from as int] == self.tests@[from as int]@);
        if filter.consider_test(&self.path, self.tests[from].as_str()) {
            Some(from)
        } else {
            self.find_test(filter, from + 1)
        }
    }

    /// The stage after the next subgroup from `g`, else the next test from `t`.
    fn advance(&self, filter: &Filter, g: usize, t: usize) -> (r: Stage)
        ensures
            r == advance(filter@, self@.path, self@.groups, self@.tests, g as int, t as int),
            match r {
                Stage::Group(k) => k < self.groups.len(),
                Stage::Test(k) => k < self.tests.len(),
                _ => true,
            },
    {
        proof {
            lemma_first_group_in_range(filter@, self@.path, self@.groups, g as int);
            lemma_first_test_in_range(filter@, self@.path, self@.tests, t as int);
        }
        match self.find_group(filter, g) {
            Some(k) => Stage::Group(k),
            None => match self.find_test(filter, t) {
                Some(k) => Stage::Test(k),
                None => Stage::Teardown,
            },
        }
    }

    /// Takes in how the current action ended and returns the next action: a failed
    /// setup or teardown is recorded under the path of the group.
    pub fn step(&mut self, event: Event, filter: &Filter, stats: &mut Inner) -> (r: Action)
        requires
            fits(old(self)@.stage, event),
            is_failure(event) ==> old(stats)@.failed < usize::MAX,
        ensures
            final(self)@ == (GroupRunModel {
                stage: next_stage(
                    filter@,
                    old(self)@.path,
                    old(self)@.groups,
                    old(self)@.tests,
                    old(self)@.stage,
                    event,
                ),
                ..old(self)@
            }),
            r == action_of(final(self)@.stage),
            final(self)@.stage matches Stage::Group(j) ==> group_considered(
                filter@,
                old(self)@.path,
                old(self)@.groups[j as int],
            ),
            final(self)@.stage matches Stage::Test(j) ==> test_considered(
                filter@,
                old(self)@.path,
                old(self)@.tests[j as int],
            ),
            old(self)@.stage matches Stage::Test(k) ==> (final(self)@.stage matches Stage::Test(j)
                ==> k < j && forall|i: int|
                k < i < j ==> !test_considered(filter@, old(self)@.path, #[trigger] old(self)@.tests[i])),
            is_failure(event) ==> final(stats)@ == (StatisticsModel {
                failed: old(stats)@.failed + 1,
                failed_tests: old(stats)@.failed_tests.push(join(old(self)@.path)),
                ..old(stats)@
            }),
            !is_failure(event) ==> final(stats)@ == old(stats)@,
    {
        proof {
            use_type_invariant(&*self);
            lemma_next_stage_is_next_considered(
                filter@,
                self@.path,
                self@.groups,
                self@.tests,
                self@.stage,
                event,
            );
        }
        if event == Event::SetupFailed || event == Event::TeardownFailed {
            let name = join_names(&self.path);
            stats.record_failure(name.as_str());
        }
        let next = match self.stage {
            Stage::Setup => if event == Event::SetupOk {
                self.advance(filter, 0, 0)
            } else {
                Stage::Finished
            },
            Stage::Group(k) => self.advance(filter, k + 1, 0),
            Stage::Test(k) => self.advance(filter, self.groups.len(), k + 1),
            _ => Stage::Finished,
        };
        self.stage = next;
        self.action()
    }
}

} // verus!
