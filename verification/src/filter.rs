//! Selection of the groups and tests to run from command-line filters.
//!
//! A filter is either `<group>::<test>` (split at its last `::`) or a single
//! pattern that is tried against both the group and the test name. Each
//! pattern is empty (anything matches), quoted (`"name"`, the name must be
//! equal) or plain (the name must contain it).

use vstd::prelude::*;
use crate::group::{tree_names, GroupTree};
use crate::text::{
    contains_seq, contains_str, has_sep_at, is_first_sep, qualified, qualify, rsplit_once_sep,
    segments, lemma_join_cons, lemma_qualify_injective, sep,
    split_last, str_eq, string_eq, to_string, views, join, join_names, lemma_join_push, sep_at,
    clone_strings, position_of,
};

verus! {

/// What a single pattern accepts.
pub enum Matcher {
    Any,
    Partial(Seq<char>),
    Exact(Seq<char>),
}

/// The matcher that the pattern `filter` stands for.
pub open spec fn matcher_of(filter: Seq<char>) -> Matcher {
    if filter.len() == 0 {
        Matcher::Any
    } else if filter.len() >= 2 && filter[0] == '"' && filter[filter.len() - 1] == '"' {
        Matcher::Exact(filter.subrange(1, filter.len() - 1))
    } else {
        Matcher::Partial(filter)
    }
}

/// Whether the matcher `m` accepts the name `candidate`.
pub open spec fn accepts(m: Matcher, candidate: Seq<char>) -> bool {
    match m {
        Matcher::Any => true,
        Matcher::Partial(f) => contains_seq(candidate, f),
        Matcher::Exact(f) => candidate == f,
    }
}

/// Whether the filter `f` selects the test `t` of the group `g`, or the whole group.
pub open spec fn selects(f: Seq<char>, g: Seq<char>, t: Seq<char>) -> bool {
    match split_last(f) {
        Some((gp, tp)) => accepts(matcher_of(gp), g) && accepts(matcher_of(tp), t),
        None => accepts(matcher_of(f), g) || accepts(matcher_of(f), t),
    }
}

/// Whether the filter `f` names the test `t` of the group `g` on its own, rather
/// than the whole group `g`.
pub open spec fn adds_test(f: Seq<char>, g: Seq<char>, t: Seq<char>) -> bool {
    match split_last(f) {
        Some((gp, tp)) => accepts(matcher_of(gp), g) && !(matcher_of(tp) is Any) && accepts(
            matcher_of(tp),
            t,
        ),
        None => !accepts(matcher_of(f), g) && accepts(matcher_of(f), t),
    }
}

/// The (group, test) pairs of qualified test names: each name is split at its
/// last `::`; names without `::` are left out.
pub open spec fn name_pairs(names: Seq<Seq<char>>) -> Seq<(Seq<char>, Seq<char>)>
    decreases names.len(),
{
    if names.len() == 0 {
        Seq::empty()
    } else {
        let rest = name_pairs(names.drop_last());
        match split_last(names.last()) {
            Some(p) => rest.push(p),
            None => rest,
        }
    }
}

/// The group paths that a selected group `g` under `prefix` opens: `prefix::a`,
/// `prefix::a::b`, ... for `g == "a::b::..."`, split at each `::` from the left.
pub open spec fn scopes(prefix: Seq<char>, g: Seq<char>) -> Set<Seq<char>>
    decreases g.len(),
{
    if exists|i: int| is_first_sep(g, i) {
        let i = choose|i: int| is_first_sep(g, i);
        let here = qualify(prefix, g.take(i));
        set![here].union(scopes(here, g.skip(i + 2)))
    } else {
        set![qualify(prefix, g)]
    }
}

/// What a filter holds: whether any filter was given, the selected groups
/// (each with the tests it names; no test means the whole group), and the group
/// paths that lead to them.
pub struct FilterModel {
    pub active: bool,
    pub tests: Map<Seq<char>, Set<Seq<char>>>,
    pub groups: Set<Seq<char>>,
}

/// The group path `parent::g` is selected by one of `filters` for some pair.
pub open spec fn selected_group(
    filters: Seq<Seq<char>>,
    parent: Seq<char>,
    pairs: Seq<(Seq<char>, Seq<char>)>,
    key: Seq<char>,
) -> bool {
    exists|i: int, j: int|
        0 <= i < filters.len() && 0 <= j < pairs.len() && #[trigger] selects(
            filters[i],
            pairs[j].0,
            pairs[j].1,
        ) && key == qualify(parent, pairs[j].0)
}

/// One of `filters` names the test `t` of the group path `key` on its own.
pub open spec fn selected_test(
    filters: Seq<Seq<char>>,
    parent: Seq<char>,
    pairs: Seq<(Seq<char>, Seq<char>)>,
    key: Seq<char>,
    t: Seq<char>,
) -> bool {
    exists|i: int, j: int|
        0 <= i < filters.len() && 0 <= j < pairs.len() && #[trigger] adds_test(
            filters[i],
            pairs[j].0,
            pairs[j].1,
        ) && key == qualify(parent, pairs[j].0) && t == pairs[j].1
}

/// One of `filters` selects a group whose path passes through `path`.
pub open spec fn opened_group(
    filters: Seq<Seq<char>>,
    parent: Seq<char>,
    pairs: Seq<(Seq<char>, Seq<char>)>,
    path: Seq<char>,
) -> bool {
    exists|i: int, j: int|
        0 <= i < filters.len() && 0 <= j < pairs.len() && #[trigger] selects(
            filters[i],
            pairs[j].0,
            pairs[j].1,
        ) && scopes(parent, pairs[j].0).contains(path)
}

/// The filter that `filters` give for the tests `names` of the group `parent`.
pub open spec fn filter_model(
    filters: Seq<Seq<char>>,
    parent: Seq<char>,
    names: Seq<Seq<char>>,
) -> FilterModel {
    let pairs = name_pairs(names);
    FilterModel {
        active: filters.len() > 0,
        tests: Map::new(
            |k: Seq<char>| selected_group(filters, parent, pairs, k),
            |k: Seq<char>| Set::new(|t: Seq<char>| selected_test(filters, parent, pairs, k, t)),
        ),
        groups: Set::new(|p: Seq<char>| opened_group(filters, parent, pairs, p)),
    }
}

/// Without filters the filter is inactive and selects nothing: every group and
/// test runs.
pub proof fn lemma_no_filters_select_nothing(parent: Seq<char>, names: Seq<Seq<char>>)
    ensures
        !filter_model(Seq::empty(), parent, names).active,
        filter_model(Seq::empty(), parent, names).tests.dom() == Set::<Seq<char>>::empty(),
        filter_model(Seq::empty(), parent, names).groups == Set::<Seq<char>>::empty(),
{
    let m = filter_model(Seq::empty(), parent, names);
    assert(m.tests.dom() =~= Set::<Seq<char>>::empty());
    assert(m.groups =~= Set::<Seq<char>>::empty());
}

/// Filters that select no (group, test) pair leave the filter active with nothing
/// selected: no group and no test runs.
pub proof fn lemma_unmatched_filters_select_nothing(
    filters: Seq<Seq<char>>,
    parent: Seq<char>,
    names: Seq<Seq<char>>,
)
    requires
        filters.len() > 0,
        forall|i: int, j: int|
            0 <= i < filters.len() && 0 <= j < name_pairs(names).len() ==> !#[trigger] selects(
                filters[i],
                name_pairs(names)[j].0,
                name_pairs(names)[j].1,
            ),
    ensures
        filter_model(filters, parent, names).active,
        filter_model(filters, parent, names).tests.dom() == Set::<Seq<char>>::empty(),
        filter_model(filters, parent, names).groups == Set::<Seq<char>>::empty(),
{
    let m = filter_model(filters, parent, names);
    assert(m.tests.dom() =~= Set::<Seq<char>>::empty());
    assert(m.groups =~= Set::<Seq<char>>::empty());
}

/// A filter without `::` whose pattern accepts the group name `g` selects the
/// whole group: it selects every test of `g` and names none of them on its own.
pub proof fn lemma_group_match_takes_whole_group(f: Seq<char>, g: Seq<char>, t: Seq<char>)
    requires
        split_last(f) is None,
        accepts(matcher_of(f), g),
    ensures
        selects(f, g, t),
        !adds_test(f, g, t),
{
}

/// With a single filter without `::` whose pattern accepts the group name `g`
/// of one of the tests, the group `parent::g` is selected with no test named,
/// so that every one of its tests runs.
pub proof fn lemma_group_match_runs_every_test(
    f: Seq<char>,
    parent: Seq<char>,
    names: Seq<Seq<char>>,
    j: int,
)
    requires
        split_last(f) is None,
        0 <= j < name_pairs(names).len(),
        accepts(matcher_of(f), name_pairs(names)[j].0),
    ensures
        ({
            let m = filter_model(seq![f], parent, names);
            let key = qualify(parent, name_pairs(names)[j].0);
            &&& m.active
            &&& m.tests.contains_key(key)
            &&& m.tests[key] == Set::<Seq<char>>::empty()
        }),
{
    let filters = seq![f];
    let pairs = name_pairs(names);
    let g = pairs[j].0;
    let key = qualify(parent, g);
    let m = filter_model(filters, parent, names);
    assert(selects(filters[0], pairs[j].0, pairs[j].1));
    assert(selected_group(filters, parent, pairs, key));
    assert forall|t: Seq<char>| !m.tests[key].contains(t) by {
        if selected_test(filters, parent, pairs, key, t) {
            let (a, b) = choose|a: int, b: int|
                0 <= a < filters.len() && 0 <= b < pairs.len() && #[trigger] adds_test(
                    filters[a],
                    pairs[b].0,
                    pairs[b].1,
                ) && key == qualify(parent, pairs[b].0) && t == pairs[b].1;
            lemma_qualify_injective(parent, g, pairs[b].0);
            assert(!adds_test(f, g, pairs[b].1));
        }
    }
    assert(m.tests[key] =~= Set::<Seq<char>>::empty());
}

/// A quoted pattern `"name"` accepts `name` and nothing else.
pub proof fn lemma_quoted_matches_only_itself(name: Seq<char>, candidate: Seq<char>)
    ensures
        accepts(matcher_of(seq!['"'] + name + seq!['"']), candidate) == (candidate == name),
{
    let q = seq!['"'] + name + seq!['"'];
    assert(q.subrange(1, q.len() - 1) =~= name);
}

/// The paths that opening `g` under `prefix` passes through end with `prefix::g`.
pub proof fn lemma_scopes_reach_group(prefix: Seq<char>, g: Seq<char>)
    ensures
        scopes(prefix, g).contains(qualify(prefix, g)),
    decreases g.len(),
{
    if exists|i: int| is_first_sep(g, i) {
        let i = choose|i: int| is_first_sep(g, i);
        let here = qualify(prefix, g.take(i));
        lemma_scopes_reach_group(here, g.skip(i + 2));
        assert(qualify(here, g.skip(i + 2)) =~= qualify(prefix, g));
    }
}

/// The path `prefix::g1::...::gi`, for the segments `g1`, ..., `gn` of `g`.
pub open spec fn segment_prefix(prefix: Seq<char>, g: Seq<char>, i: int) -> Seq<char> {
    qualify(prefix, join(segments(g).take(i)))
}

/// The paths that opening `g` under `prefix` passes through are exactly
/// `prefix::g1`, `prefix::g1::g2`, ..., `prefix::g1::...::gn`, for the segments
/// `g1`, ..., `gn` of `g`.
pub proof fn lemma_scopes_are_segment_prefixes(prefix: Seq<char>, g: Seq<char>, p: Seq<char>)
    ensures
        scopes(prefix, g).contains(p) <==> exists|i: int|
            1 <= i <= segments(g).len() && p == #[trigger] segment_prefix(prefix, g, i),
    decreases g.len(),
{
    if exists|k: int| is_first_sep(g, k) {
        let k = choose|k: int| is_first_sep(g, k);
        let head = g.take(k);
        let rest = g.skip(k + 2);
        let here = qualify(prefix, head);
        lemma_scopes_are_segment_prefixes(here, rest, p);
        let segs = segments(g);
        let tail = segments(rest);
        assert(segs == seq![head] + tail);
        assert(tail.len() >= 1) by {
            reveal_with_fuel(segments, 1);
        }
        assert(segs.take(1) =~= seq![head]);
        assert(segment_prefix(prefix, g, 1) == here);
        assert forall|i: int| 1 <= i <= tail.len() implies segment_prefix(prefix, g, i + 1)
            == #[trigger] segment_prefix(here, rest, i) by {
            assert(segs.take(i + 1) =~= seq![head] + tail.take(i));
            lemma_join_cons(head, tail.take(i));
            assert(segment_prefix(prefix, g, i + 1) =~= segment_prefix(here, rest, i));
        }
        if scopes(prefix, g).contains(p) {
            if p != here {
                let i = choose|i: int| 1 <= i <= tail.len() && p == segment_prefix(here, rest, i);
                assert(p == segment_prefix(prefix, g, i + 1));
            }
        }
        if exists|i: int| 1 <= i <= segs.len() && p == #[trigger] segment_prefix(prefix, g, i) {
            let i = choose|i: int| 1 <= i <= segs.len() && p == segment_prefix(prefix, g, i);
            if i > 1 {
                assert(p == segment_prefix(here, rest, i - 1));
            }
        }
    } else {
        assert(segments(g) =~= seq![g]);
        assert(segments(g).take(1) =~= seq![g]);
        assert(segment_prefix(prefix, g, 1) == qualify(prefix, g));
    }
}

/// The groups that the filters open are exactly the `::`-prefixes below
/// `parent` of the selected groups: for each selected group
/// `parent::g1::...::gn`, the paths `parent::g1::...::gi` for `1 <= i <= n`,
/// and no other path.
pub proof fn lemma_groups_are_prefix_closure(
    filters: Seq<Seq<char>>,
    parent: Seq<char>,
    names: Seq<Seq<char>>,
    p: Seq<char>,
)
    ensures
        filter_model(filters, parent, names).groups.contains(p) <==> exists|g: Seq<char>, i: int|
            filter_model(filters, parent, names).tests.contains_key(qualify(parent, g)) && 1 <= i
                <= segments(g).len() && p == #[trigger] segment_prefix(parent, g, i),
{
    let m = filter_model(filters, parent, names);
    let pairs = name_pairs(names);
    if m.groups.contains(p) {
        let (i, j) = choose|i: int, j: int|
            0 <= i < filters.len() && 0 <= j < pairs.len() && #[trigger] selects(
                filters[i],
                pairs[j].0,
                pairs[j].1,
            ) && scopes(parent, pairs[j].0).contains(p);
        let g = pairs[j].0;
        assert(selected_group(filters, parent, pairs, qualify(parent, g)));
        lemma_scopes_are_segment_prefixes(parent, g, p);
        let k = choose|k: int| 1 <= k <= segments(g).len() && p == segment_prefix(parent, g, k);
        assert(m.tests.contains_key(qualify(parent, g)) && 1 <= k <= segments(g).len() && p
            == segment_prefix(parent, g, k));
    }
    if exists|g: Seq<char>, k: int|
        m.tests.contains_key(qualify(parent, g)) && 1 <= k <= segments(g).len() && p
            == #[trigger] segment_prefix(parent, g, k) {
        let (g, k) = choose|g: Seq<char>, k: int|
            m.tests.contains_key(qualify(parent, g)) && 1 <= k <= segments(g).len() && p
                == #[trigger] segment_prefix(parent, g, k);
        assert(selected_group(filters, parent, pairs, qualify(parent, g)));
        let (i, j) = choose|i: int, j: int|
            0 <= i < filters.len() && 0 <= j < pairs.len() && #[trigger] selects(
                filters[i],
                pairs[j].0,
                pairs[j].1,
            ) && qualify(parent, g) == qualify(parent, pairs[j].0);
        lemma_qualify_injective(parent, g, pairs[j].0);
        lemma_scopes_are_segment_prefixes(parent, g, p);
        assert(opened_group(filters, parent, pairs, p));
    }
}

/// Every selected group is also opened, so the groups above it are run.
pub proof fn lemma_selected_groups_are_opened(
    filters: Seq<Seq<char>>,
    parent: Seq<char>,
    names: Seq<Seq<char>>,
    key: Seq<char>,
)
    ensures
        filter_model(filters, parent, names).tests.contains_key(key) ==> filter_model(
            filters,
            parent,
            names,
        ).groups.contains(key),
{
    let pairs = name_pairs(names);
    if selected_group(filters, parent, pairs, key) {
        let (i, j) = choose|i: int, j: int|
            0 <= i < filters.len() && 0 <= j < pairs.len() && #[trigger] selects(
                filters[i],
                pairs[j].0,
                pairs[j].1,
            ) && key == qualify(parent, pairs[j].0);
        lemma_scopes_reach_group(parent, pairs[j].0);
        assert(opened_group(filters, parent, pairs, key));
    }
}

/// A pattern of a filter.
#[derive(Clone, Copy, Debug)]
pub enum FilterMatcher<'a> {
    Any,
    Partial(&'a str),
    Exact(&'a str),
}

impl<'a> View for FilterMatcher<'a> {
    type V = Matcher;

    open spec fn view(&self) -> Matcher {
        match *self {
            FilterMatcher::Any => Matcher::Any,
            FilterMatcher::Partial(f) => Matcher::Partial(f@),
            FilterMatcher::Exact(f) => Matcher::Exact(f@),
        }
    }
}

impl<'a> FilterMatcher<'a> {
    /// The pattern written as `filter`: empty, `"quoted"` or plain.
    pub fn new(filter: &'a str) -> (r: Self)
        ensures
            r@ == matcher_of(filter@),
    {
        let n = filter.unicode_len();
        if n == 0 {
            FilterMatcher::Any
        } else if n >= 2 && filter.get_char(0) == '"' && filter.get_char(n - 1) == '"' {
            FilterMatcher::Exact(filter.substring_char(1, n - 1))
        } else {
            FilterMatcher::Partial(filter)
        }
    }

    /// Whether this pattern accepts the name `candidate`.
    pub fn matches(self, candidate: &str) -> (r: bool)
        ensures
            r == accepts(self@, candidate@),
    {
        match self {
            FilterMatcher::Any => true,
            FilterMatcher::Partial(f) => contains_str(candidate, f),
            FilterMatcher::Exact(f) => str_eq(candidate, f),
        }
    }
}

/// The views of (group, test) pairs of strings.
pub open spec fn pair_views(p: Seq<(String, String)>) -> Seq<(Seq<char>, Seq<char>)> {
    p.map_values(|q: (String, String)| (q.0@, q.1@))
}

/// Pair `(a, b)` comes before position `(i, j)` in the order in which the
/// filters (`a`) and the pairs (`b`) are visited.
spec fn seen(i: int, j: int, a: int, b: int) -> bool {
    a < i || (a == i && b < j)
}

spec fn group_upto(
    filters: Seq<Seq<char>>,
    parent: Seq<char>,
    pairs: Seq<(Seq<char>, Seq<char>)>,
    i: int,
    j: int,
    key: Seq<char>,
) -> bool {
    exists|a: int, b: int|
        seen(i, j, a, b) && 0 <= a < filters.len() && 0 <= b < pairs.len() && #[trigger] selects(
            filters[a],
            pairs[b].0,
            pairs[b].1,
        ) && key == qualify(parent, pairs[b].0)
}

spec fn test_upto(
    filters: Seq<Seq<char>>,
    parent: Seq<char>,
    pairs: Seq<(Seq<char>, Seq<char>)>,
    i: int,
    j: int,
    key: Seq<char>,
    t: Seq<char>,
) -> bool {
    exists|a: int, b: int|
        seen(i, j, a, b) && 0 <= a < filters.len() && 0 <= b < pairs.len() && #[trigger] adds_test(
            filters[a],
            pairs[b].0,
            pairs[b].1,
        ) && key == qualify(parent, pairs[b].0) && t == pairs[b].1
}

spec fn path_upto(
    filters: Seq<Seq<char>>,
    parent: Seq<char>,
    pairs: Seq<(Seq<char>, Seq<char>)>,
    i: int,
    j: int,
    path: Seq<char>,
) -> bool {
    exists|a: int, b: int|
        seen(i, j, a, b) && 0 <= a < filters.len() && 0 <= b < pairs.len() && #[trigger] selects(
            filters[a],
            pairs[b].0,
            pairs[b].1,
        ) && scopes(parent, pairs[b].0).contains(path)
}

/// A test named on its own also selects its group.
proof fn lemma_adds_test_selects(f: Seq<char>, g: Seq<char>, t: Seq<char>)
    ensures
        adds_test(f, g, t) ==> selects(f, g, t),
{
}

/// Visiting pair `j` of filter `i` adds exactly what that pair selects.
proof fn lemma_step(
    filters: Seq<Seq<char>>,
    parent: Seq<char>,
    pairs: Seq<(Seq<char>, Seq<char>)>,
    i: int,
    j: int,
)
    requires
        0 <= i < filters.len(),
        0 <= j < pairs.len(),
    ensures
        forall|k: Seq<char>|
            #[trigger] group_upto(filters, parent, pairs, i, j + 1, k) == (group_upto(
                filters,
                parent,
                pairs,
                i,
                j,
                k,
            ) || (selects(filters[i], pairs[j].0, pairs[j].1) && k == qualify(parent, pairs[j].0))),
        forall|k: Seq<char>, t: Seq<char>|
            #[trigger] test_upto(filters, parent, pairs, i, j + 1, k, t) == (test_upto(
                filters,
                parent,
                pairs,
                i,
                j,
                k,
                t,
            ) || (adds_test(filters[i], pairs[j].0, pairs[j].1) && k == qualify(parent, pairs[j].0)
                && t == pairs[j].1)),
        forall|p: Seq<char>|
            #[trigger] path_upto(filters, parent, pairs, i, j + 1, p) == (path_upto(
                filters,
                parent,
                pairs,
                i,
                j,
                p,
            ) || (selects(filters[i], pairs[j].0, pairs[j].1) && scopes(parent, pairs[j].0).contains(
                p,
            ))),
{
    assert forall|k: Seq<char>|
        #[trigger] group_upto(filters, parent, pairs, i, j + 1, k) == (group_upto(
            filters,
            parent,
            pairs,
            i,
            j,
            k,
        ) || (selects(filters[i], pairs[j].0, pairs[j].1) && k == qualify(parent, pairs[j].0))) by {
        if group_upto(filters, parent, pairs, i, j + 1, k) {
            let (a, b) = choose|a: int, b: int|
                seen(i, j + 1, a, b) && 0 <= a < filters.len() && 0 <= b < pairs.len()
                    && #[trigger] selects(filters[a], pairs[b].0, pairs[b].1) && k == qualify(
                    parent,
                    pairs[b].0,
                );
            if !(a == i && b == j) {
                assert(seen(i, j, a, b));
            }
        }
        if selects(filters[i], pairs[j].0, pairs[j].1) && k == qualify(parent, pairs[j].0) {
            assert(seen(i, j + 1, i, j));
        }
        if group_upto(filters, parent, pairs, i, j, k) {
            let (a, b) = choose|a: int, b: int|
                seen(i, j, a, b) && 0 <= a < filters.len() && 0 <= b < pairs.len()
                    && #[trigger] selects(filters[a], pairs[b].0, pairs[b].1) && k == qualify(
                    parent,
                    pairs[b].0,
                );
            assert(seen(i, j + 1, a, b));
        }
    }
    assert forall|k: Seq<char>, t: Seq<char>|
        #[trigger] test_upto(filters, parent, pairs, i, j + 1, k, t) == (test_upto(
            filters,
            parent,
            pairs,
            i,
            j,
            k,
            t,
        ) || (adds_test(filters[i], pairs[j].0, pairs[j].1) && k == qualify(parent, pairs[j].0)
            && t == pairs[j].1)) by {
        if test_upto(filters, parent, pairs, i, j + 1, k, t) {
            let (a, b) = choose|a: int, b: int|
                seen(i, j + 1, a, b) && 0 <= a < filters.len() && 0 <= b < pairs.len()
                    && #[trigger] adds_test(filters[a], pairs[b].0, pairs[b].1) && k == qualify(
                    parent,
                    pairs[b].0,
                ) && t == pairs[b].1;
            if !(a == i && b == j) {
                assert(seen(i, j, a, b));
            }
        }
        if adds_test(filters[i], pairs[j].0, pairs[j].1) && k == qualify(parent, pairs[j].0) && t
            == pairs[j].1 {
            assert(seen(i, j + 1, i, j));
        }
        if test_upto(filters, parent, pairs, i, j, k, t) {
            let (a, b) = choose|a: int, b: int|
                seen(i, j, a, b) && 0 <= a < filters.len() && 0 <= b < pairs.len()
                    && #[trigger] adds_test(filters[a], pairs[b].0, pairs[b].1) && k == qualify(
                    parent,
                    pairs[b].0,
                ) && t == pairs[b].1;
            assert(seen(i, j + 1, a, b));
        }
    }
    assert forall|p: Seq<char>|
        #[trigger] path_upto(filters, parent, pairs, i, j + 1, p) == (path_upto(
            filters,
            parent,
            pairs,
            i,
            j,
            p,
        ) || (selects(filters[i], pairs[j].0, pairs[j].1) && scopes(parent, pairs[j].0).contains(
            p,
        ))) by {
        if path_upto(filters, parent, pairs, i, j + 1, p) {
            let (a, b) = choose|a: int, b: int|
                seen(i, j + 1, a, b) && 0 <= a < filters.len() && 0 <= b < pairs.len()
                    && #[trigger] selects(filters[a], pairs[b].0, pairs[b].1) && scopes(
                    parent,
                    pairs[b].0,
                ).contains(p);
            if !(a == i && b == j) {
                assert(seen(i, j, a, b));
            }
        }
        if selects(filters[i], pairs[j].0, pairs[j].1) && scopes(parent, pairs[j].0).contains(p) {
            assert(seen(i, j + 1, i, j));
        }
        if path_upto(filters, parent, pairs, i, j, p) {
            let (a, b) = choose|a: int, b: int|
                seen(i, j, a, b) && 0 <= a < filters.len() && 0 <= b < pairs.len()
                    && #[trigger] selects(filters[a], pairs[b].0, pairs[b].1) && scopes(
                    parent,
                    pairs[b].0,
                ).contains(p);
            assert(seen(i, j + 1, a, b));
        }
    }
}

/// Finishing the pairs of filter `i` is starting filter `i + 1`.
proof fn lemma_row(
    filters: Seq<Seq<char>>,
    parent: Seq<char>,
    pairs: Seq<(Seq<char>, Seq<char>)>,
    i: int,
)
    ensures
        forall|k: Seq<char>|
            #[trigger] group_upto(filters, parent, pairs, i + 1, 0, k) == group_upto(
                filters,
                parent,
                pairs,
                i,
                pairs.len() as int,
                k,
            ),
        forall|k: Seq<char>, t: Seq<char>|
            #[trigger] test_upto(filters, parent, pairs, i + 1, 0, k, t) == test_upto(
                filters,
                parent,
                pairs,
                i,
                pairs.len() as int,
                k,
                t,
            ),
        forall|p: Seq<char>|
            #[trigger] path_upto(filters, parent, pairs, i + 1, 0, p) == path_upto(
                filters,
                parent,
                pairs,
                i,
                pairs.len() as int,
                p,
            ),
{
    assert forall|a: int, b: int| 0 <= b < pairs.len() implies #[trigger] seen(i + 1, 0, a, b)
        == seen(i, pairs.len() as int, a, b) by {}
}

/// Adds `s` to the duplicate-free list `v` unless it is there already.
fn insert_unique(v: &mut Vec<String>, s: String)
    requires
        views(old(v)@).no_duplicates(),
    ensures
        views(final(v)@).no_duplicates(),
        forall|x: Seq<char>| #[trigger]
            views(final(v)@).contains(x) == (views(old(v)@).contains(x) || x == s@),
{
    let mut i: usize = 0;
    while i < v.len()
        invariant
            i <= v.len(),
            v@ == old(v)@,
            views(old(v)@).no_duplicates(),
            forall|k: int| 0 <= k < i ==> v@[k]@ != s@,
        decreases v.len() - i,
    {
        if string_eq(&v[i], s.as_str()) {
            assert(views(v@)[i as int] == s@);
            return;
        }
        i = i + 1;
    }
    let ghost before = views(v@);
    v.push(s);
    assert(views(v@) =~= before.push(s@));
    assert forall|x: Seq<char>| #[trigger] views(v@).contains(x) == (before.contains(x) || x == s@) by {
        if views(v@).contains(x) {
            let k = choose|k: int| 0 <= k < views(v@).len() && views(v@)[k] == x;
            if k < before.len() {
                assert(before[k] == x);
            }
        }
        if x == s@ {
            assert(views(v@)[before.len() as int] == x);
        }
        if before.contains(x) {
            let k = choose|k: int| 0 <= k < before.len() && before[k] == x;
            assert(views(v@)[k] == x);
        }
    }
}

/// The index of the entry for `key`, added with no tests if absent.
fn entry(keys: &mut Vec<String>, tests: &mut Vec<Vec<String>>, key: String) -> (idx: usize)
    requires
        old(keys).len() == old(tests).len(),
        views(old(keys)@).no_duplicates(),
    ensures
        final(keys).len() == final(tests).len(),
        views(final(keys)@).no_duplicates(),
        idx < final(keys).len(),
        final(keys)@[idx as int]@ == key@,
        views(old(keys)@).contains(key@) ==> final(keys)@ == old(keys)@ && final(tests)@ == old(
            tests,
        )@,
        !views(old(keys)@).contains(key@) ==> {
            &&& final(keys)@ == old(keys)@.push(key)
            &&& final(tests)@.len() == old(tests)@.len() + 1
            &&& final(tests)@.drop_last() == old(tests)@
            &&& final(tests)@.last()@.len() == 0
        },
{
    let mut i: usize = 0;
    while i < keys.len()
        invariant
            i <= keys.len(),
            keys.len() == tests.len(),
            keys@ == old(keys)@,
            tests@ == old(tests)@,
            views(old(keys)@).no_duplicates(),
            forall|k: int| 0 <= k < i ==> keys@[k]@ != key@,
        decreases keys.len() - i,
    {
        if string_eq(&keys[i], key.as_str()) {
            assert(views(keys@)[i as int] == key@);
            return i;
        }
        i = i + 1;
    }
    let ghost before = views(keys@);
    let ghost old_tests = tests@;
    assert(!before.contains(key@));
    keys.push(key);
    tests.push(Vec::new());
    assert(views(keys@) =~= before.push(key@));
    assert(tests@.drop_last() =~= old_tests);
    keys.len() - 1
}

/// Adds the test `t` to the entry at `idx`.
fn add_test(tests: &mut Vec<Vec<String>>, idx: usize, t: String)
    requires
        idx < old(tests).len(),
        views(old(tests)@[idx as int]@).no_duplicates(),
    ensures
        final(tests).len() == old(tests).len(),
        views(final(tests)@[idx as int]@).no_duplicates(),
        forall|x: Seq<char>| #[trigger]
            views(final(tests)@[idx as int]@).contains(x) == (views(
                old(tests)@[idx as int]@,
            ).contains(x) || x == t@),
        forall|m: int|
            0 <= m < final(tests).len() && m != idx ==> final(tests)@[m] == old(tests)@[m],
{
    let ghost before = tests@;
    let mut inner = tests.remove(idx);
    insert_unique(&mut inner, t);
    tests.insert(idx, inner);
    assert forall|m: int| 0 <= m < tests.len() && m != idx implies tests@[m] == before[m] by {
        if m < idx {
            assert(tests@[m] == before[m]);
        } else {
            assert(tests@[m] == before[m]);
        }
    }
}

/// Adds to `groups` the group paths that opening `g` under `parent` passes through.
fn insert_scopes(groups: &mut Vec<String>, parent: &str, g: &str)
    requires
        views(old(groups)@).no_duplicates(),
    ensures
        views(final(groups)@).no_duplicates(),
        forall|p: Seq<char>| #[trigger]
            views(final(groups)@).contains(p) == (views(old(groups)@).contains(p) || scopes(
                parent@,
                g@,
            ).contains(p)),
{
    let n = g.unicode_len();
    let mut acc = to_string(parent);
    let mut start: usize = 0;
    let mut j: usize = 0;
    let ghost mut added: Set<Seq<char>> = Set::empty();
    assert(g@.skip(0) =~= g@);
    while j < n
        invariant
            n == g@.len(),
            start <= j <= n,
            views(groups@).no_duplicates(),
            scopes(parent@, g@) =~= added.union(scopes(acc@, g@.skip(start as int))),
            forall|p: Seq<char>| #[trigger]
                views(groups@).contains(p) == (views(old(groups)@).contains(p) || added.contains(p)),
            forall|k: int| start <= k < j ==> !#[trigger] has_sep_at(g@, k),
        decreases n - j,
    {
        if sep_at(g, n, j) {
            let ghost rest = g@.skip(start as int);
            let ghost at = j - start;
            assert(has_sep_at(rest, at as int));
            assert forall|k: int| k < at implies !#[trigger] has_sep_at(rest, k) by {
                if 0 <= k {
                    assert(!has_sep_at(g@, start + k));
                }
            }
            assert(is_first_sep(rest, at as int));
            assert forall|k: int| is_first_sep(rest, k) implies k == at by {
                if k < at {
                    assert(!has_sep_at(rest, k));
                } else if at < k {
                    assert(!has_sep_at(rest, at as int));
                }
            }
            let part = g.substring_char(start, j);
            assert(part@ =~= rest.take(at as int));
            assert(rest.skip(at + 2) =~= g@.skip(j + 2));
            acc = qualified(acc.as_str(), part);
            let here = acc.clone();
            insert_unique(groups, here);
            proof {
                added = added.insert(acc@);
            }
            start = j + 2;
            j = j + 2;
        } else {
            assert(!has_sep_at(g@, j as int));
            j = j + 1;
        }
    }
    let ghost rest = g@.skip(start as int);
    assert forall|k: int| !#[trigger] is_first_sep(rest, k) by {
        if 0 <= k && has_sep_at(rest, k) {
            assert(has_sep_at(g@, start + k));
        }
    }
    let part = g.substring_char(start, n);
    assert(part@ =~= rest);
    acc = qualified(acc.as_str(), part);
    insert_unique(groups, acc);
}

/// The (group, test) pairs of the qualified test names `names`.
fn split_names(names: &Vec<String>) -> (r: Vec<(String, String)>)
    ensures
        pair_views(r@) == name_pairs(views(names@)),
{
    let mut r: Vec<(String, String)> = Vec::new();
    let mut i: usize = 0;
    while i < names.len()
        invariant
            i <= names.len(),
            pair_views(r@) == name_pairs(views(names@).take(i as int)),
        decreases names.len() - i,
    {
        let ghost before = views(names@).take(i as int);
        let ghost after = views(names@).take(i + 1);
        assert(after.drop_last() =~= before);
        assert(after.last() == names@[i as int]@);
        match rsplit_once_sep(names[i].as_str()) {
            Some((g, t)) => {
                let ghost old_r = r@;
                r.push((to_string(g), to_string(t)));
                assert(pair_views(r@) =~= pair_views(old_r).push((g@, t@)));
            },
            None => {},
        }
        i = i + 1;
    }
    assert(views(names@).take(names.len() as int) =~= views(names@));
    r
}

/// How one filter is applied to each (group, test) pair.
enum Rule<'a> {
    Scoped(FilterMatcher<'a>, FilterMatcher<'a>),
    Single(FilterMatcher<'a>),
}

spec fn rule_fits(r: Rule, f: Seq<char>) -> bool {
    match r {
        Rule::Scoped(gm, tm) => split_last(f) matches Some((gp, tp)) && gm@ == matcher_of(gp) && tm@
            == matcher_of(tp),
        Rule::Single(m) => split_last(f) is None && m@ == matcher_of(f),
    }
}

fn rule_of<'a>(f: &'a str) -> (r: Rule<'a>)
    ensures
        rule_fits(r, f@),
{
    match rsplit_once_sep(f) {
        Some((g, t)) => Rule::Scoped(FilterMatcher::new(g), FilterMatcher::new(t)),
        None => Rule::Single(FilterMatcher::new(f)),
    }
}

/// Whether the rule selects the pair `(g, t)`, and whether it names the test `t` on its own.
fn decide(rule: &Rule, Ghost(f): Ghost<Seq<char>>, g: &str, t: &str) -> (r: (bool, bool))
    requires
        rule_fits(*rule, f),
    ensures
        r.0 == selects(f, g@, t@),
        r.1 == adds_test(f, g@, t@),
{
    match rule {
        Rule::Scoped(gm, tm) => {
            let in_group = gm.matches(g);
            let in_test = tm.matches(t);
            let any = match tm {
                FilterMatcher::Any => true,
                _ => false,
            };
            (in_group && in_test, in_group && !any && in_test)
        },
        Rule::Single(m) => {
            let in_group = m.matches(g);
            let in_test = m.matches(t);
            (in_group || in_test, !in_group && in_test)
        },
    }
}

/// The groups and tests selected for a run.
pub struct Filter {
    active: bool,
    keys: Vec<String>,
    tests: Vec<Vec<String>>,
    groups: Vec<String>,
}

impl Filter {
    #[verifier::type_invariant]
    spec fn well_formed(self) -> bool {
        &&& self.keys.len() == self.tests.len()
        &&& views(self.keys@).no_duplicates()
        &&& forall|i: int|
            0 <= i < self.tests.len() ==> views(#[trigger] self.tests@[i]@).no_duplicates()
        &&& views(self.groups@).no_duplicates()
    }
}

impl View for Filter {
    type V = FilterModel;

    closed spec fn view(&self) -> FilterModel {
        FilterModel {
            active: self.active,
            tests: Map::new(
                |k: Seq<char>| views(self.keys@).contains(k),
                |k: Seq<char>| views(self.tests@[views(self.keys@).index_of(k)]@).to_set(),
            ),
            groups: views(self.groups@).to_set(),
        }
    }
}

impl Filter {
    /// The filter of a run without filters: every group and test runs.
    pub fn empty() -> (r: Self)
        ensures
            !r@.active,
            r@.tests == Map::<Seq<char>, Set<Seq<char>>>::empty(),
            r@.groups == Set::<Seq<char>>::empty(),
    {
        let r = Filter { active: false, keys: Vec::new(), tests: Vec::new(), groups: Vec::new() };
        assert(r@.tests =~= Map::<Seq<char>, Set<Seq<char>>>::empty());
        assert(r@.groups =~= Set::<Seq<char>>::empty());
        r
    }

    /// The filter that `filters` give for the qualified test names `names` of the
    /// group `parent`.
    pub fn from_names(filters: &[String], parent: &str, names: &Vec<String>) -> (r: Self)
        ensures
            r@ == filter_model(views(filters@), parent@, views(names@)),
    {
        let pairs = split_names(names);
        let ghost fs = views(filters@);
        let ghost ps = pair_views(pairs@);
        let ghost par = parent@;
        let mut keys: Vec<String> = Vec::new();
        let mut tests: Vec<Vec<String>> = Vec::new();
        let mut groups: Vec<String> = Vec::new();
        let mut i: usize = 0;
        while i < filters.len()
            invariant
                i <= filters.len(),
                fs == views(filters@),
                ps == pair_views(pairs@),
                par == parent@,
                keys.len() == tests.len(),
                views(keys@).no_duplicates(),
                forall|m: int| 0 <= m < tests.len() ==> views(#[trigger] tests@[m]@).no_duplicates(),
                views(groups@).no_duplicates(),
                forall|k: Seq<char>| #[trigger]
                    views(keys@).contains(k) == group_upto(fs, par, ps, i as int, 0, k),
                forall|m: int, t: Seq<char>|
                    0 <= m < keys.len() ==> (#[trigger] views(tests@[m]@).contains(t) == test_upto(
                        fs,
                        par,
                        ps,
                        i as int,
                        0,
                        keys@[m]@,
                        t,
                    )),
                forall|p: Seq<char>| #[trigger]
                    views(groups@).contains(p) == path_upto(fs, par, ps, i as int, 0, p),
            decreases filters.len() - i,
        {
            let rule = rule_of(filters[i].as_str());
            let mut j: usize = 0;
            while j < pairs.len()
                invariant
                    i < filters.len(),
                    j <= pairs.len(),
                    fs == views(filters@),
                    ps == pair_views(pairs@),
                    par == parent@,
                    rule_fits(rule, fs[i as int]),
                    keys.len() == tests.len(),
                    views(keys@).no_duplicates(),
                    forall|m: int|
                        0 <= m < tests.len() ==> views(#[trigger] tests@[m]@).no_duplicates(),
                    views(groups@).no_duplicates(),
                    forall|k: Seq<char>| #[trigger]
                        views(keys@).contains(k) == group_upto(fs, par, ps, i as int, j as int, k),
                    forall|m: int, t: Seq<char>|
                        0 <= m < keys.len() ==> (#[trigger] views(tests@[m]@).contains(t)
                            == test_upto(fs, par, ps, i as int, j as int, keys@[m]@, t)),
                    forall|p: Seq<char>| #[trigger]
                        views(groups@).contains(p) == path_upto(fs, par, ps, i as int, j as int, p),
                decreases pairs.len() - j,
            {
                proof {
                    lemma_step(fs, par, ps, i as int, j as int);
                    lemma_adds_test_selects(fs[i as int], ps[j as int].0, ps[j as int].1);
                }
                let (g, t) = &pairs[j];
                let (sel, add) = decide(&rule, Ghost(fs[i as int]), g.as_str(), t.as_str());
                if sel {
                    let key = qualified(parent, g.as_str());
                    let ghost key_view = key@;
                    let ghost old_keys = keys@;
                    let ghost old_tests = tests@;
                    let idx = entry(&mut keys, &mut tests, key);
                    assert forall|k: Seq<char>| #[trigger]
                        views(keys@).contains(k) == (views(old_keys).contains(k) || k
                            == key_view) by {
                        if !views(old_keys).contains(key_view) {
                            let grown = views(old_keys).push(key_view);
                            assert(views(keys@) =~= grown);
                            if grown.contains(k) {
                                let w = choose|w: int| 0 <= w < grown.len() && grown[w] == k;
                                if w < old_keys.len() {
                                    assert(views(old_keys)[w] == k);
                                }
                            }
                            if views(old_keys).contains(k) {
                                let w = choose|w: int|
                                    0 <= w < old_keys.len() && views(old_keys)[w] == k;
                                assert(grown[w] == k);
                            }
                            if k == key_view {
                                assert(grown[old_keys.len() as int] == k);
                            }
                        }
                    }
                    let ghost is_new = !views(old_keys).contains(key_view);
                    assert(is_new ==> idx as int == old_keys.len()) by {
                        if is_new && idx < old_keys.len() {
                            assert(views(old_keys)[idx as int] == key_view);
                        }
                    }
                    assert forall|m: int|
                        0 <= m < tests.len() implies views(
                            #[trigger] tests@[m]@,
                        ).no_duplicates() by {
                        if m < old_tests.len() {
                            assert(tests@[m] == old_tests[m]);
                        } else {
                            assert(tests@[m]@.len() == 0);
                        }
                    }
                    let ghost mid_tests = tests@;
                    if add {
                        add_test(&mut tests, idx, t.clone());
                    }
                    proof {
                        assert(key_view == qualify(par, ps[j as int].0));
                        assert(t@ == ps[j as int].1);
                        assert forall|m: int|
                            0 <= m < tests.len() implies views(
                                #[trigger] tests@[m]@,
                            ).no_duplicates() by {
                            if m != idx {
                                assert(tests@[m] == mid_tests[m]);
                            }
                        }
                        assert forall|m: int, x: Seq<char>|
                            0 <= m < keys.len() implies (#[trigger] views(tests@[m]@).contains(x)
                                == test_upto(fs, par, ps, i as int, j + 1, keys@[m]@, x)) by {
                            if m != idx {
                                assert(tests@[m] == mid_tests[m]);
                                assert(m < old_keys.len());
                                assert(keys@[m] == old_keys[m]);
                                assert(tests@[m] == old_tests[m]);
                                assert(views(keys@)[m] != views(keys@)[idx as int]);
                            } else if !is_new {
                                assert(keys@[m] == old_keys[m]);
                                assert(mid_tests[m] == old_tests[m]);
                            } else {
                                assert(mid_tests[m]@.len() == 0);
                                if test_upto(fs, par, ps, i as int, j as int, key_view, x) {
                                    let (a, b) = choose|a: int, b: int|
                                        seen(i as int, j as int, a, b) && 0 <= a < fs.len() && 0
                                            <= b < ps.len() && #[trigger] adds_test(
                                            fs[a],
                                            ps[b].0,
                                            ps[b].1,
                                        ) && key_view == qualify(par, ps[b].0) && x == ps[b].1;
                                    lemma_adds_test_selects(fs[a], ps[b].0, ps[b].1);
                                    assert(group_upto(fs, par, ps, i as int, j as int, key_view));
                                }
                            }
                        }
                    }
                    insert_scopes(&mut groups, parent, g.as_str());
                } else {
                    assert forall|m: int, x: Seq<char>|
                        0 <= m < keys.len() implies (#[trigger] views(tests@[m]@).contains(x)
                            == test_upto(fs, par, ps, i as int, j + 1, keys@[m]@, x)) by {}
                }
                j = j + 1;
            }
            proof {
                lemma_row(fs, par, ps, i as int);
            }
            i = i + 1;
        }
        let r = Filter { active: filters.len() > 0, keys, tests, groups };
        proof {
            let model = filter_model(fs, par, views(names@));
            assert(ps == name_pairs(views(names@)));
            assert forall|k: Seq<char>| #[trigger] group_upto(fs, par, ps, fs.len() as int, 0, k)
                == selected_group(fs, par, ps, k) by {
                if selected_group(fs, par, ps, k) {
                    let (a, b) = choose|a: int, b: int|
                        0 <= a < fs.len() && 0 <= b < ps.len() && #[trigger] selects(
                            fs[a],
                            ps[b].0,
                            ps[b].1,
                        ) && k == qualify(par, ps[b].0);
                    assert(seen(fs.len() as int, 0, a, b));
                }
            }
            assert forall|k: Seq<char>, t: Seq<char>| #[trigger] test_upto(
                fs,
                par,
                ps,
                fs.len() as int,
                0,
                k,
                t,
            ) == selected_test(fs, par, ps, k, t) by {
                if selected_test(fs, par, ps, k, t) {
                    let (a, b) = choose|a: int, b: int|
                        0 <= a < fs.len() && 0 <= b < ps.len() && #[trigger] adds_test(
                            fs[a],
                            ps[b].0,
                            ps[b].1,
                        ) && k == qualify(par, ps[b].0) && t == ps[b].1;
                    assert(seen(fs.len() as int, 0, a, b));
                }
            }
            assert forall|p: Seq<char>| #[trigger] path_upto(fs, par, ps, fs.len() as int, 0, p)
                == opened_group(fs, par, ps, p) by {
                if opened_group(fs, par, ps, p) {
                    let (a, b) = choose|a: int, b: int|
                        0 <= a < fs.len() && 0 <= b < ps.len() && #[trigger] selects(
                            fs[a],
                            ps[b].0,
                            ps[b].1,
                        ) && scopes(par, ps[b].0).contains(p);
                    assert(seen(fs.len() as int, 0, a, b));
                }
            }
            assert(r@.groups =~= model.groups);
            assert forall|k: Seq<char>| #[trigger] r@.tests.contains_key(k) implies r@.tests[k]
                =~= model.tests[k] by {
                let m = views(r.keys@).index_of(k);
                assert(r.keys@[m]@ == k);
                assert forall|x: Seq<char>| #[trigger] r@.tests[k].contains(x) == model.tests[k].contains(x) by {
                    assert(views(r.tests@[m]@).contains(x) == test_upto(fs, par, ps, fs.len() as int, 0, k, x));
                }
            }
            assert(r@.tests =~= model.tests);
        }
        r
    }
}

impl Filter {
    /// The filter that `filters` give for the tests of the group hierarchy `group`.
    pub fn new(filters: &[String], group: &GroupTree) -> (r: Self)
        ensures
            r@ == filter_model(views(filters@), group.name@, tree_names(*group)),
    {
        let names = group.test_names();
        Filter::from_names(filters, group.name.as_str(), &names)
    }

    /// Whether the subgroup `group_name` of the group path `group_names` is to be
    /// run: every group runs when no filter was given; otherwise its path must be
    /// one that the filters opened.
    pub fn consider_group(&self, group_names: &Vec<String>, group_name: &str) -> (r: bool)
        ensures
            r == (!self@.active || self@.groups.contains(
                join(views(group_names@).push(group_name@)),
            )),
    {
        proof {
            lemma_join_push(views(group_names@), group_name@);
            assert(views(group_names@).len() == group_names.len());
        }
        let path = if group_names.len() == 0 {
            to_string(group_name)
        } else {
            let prefix = join_names(group_names);
            qualified(prefix.as_str(), group_name)
        };
        if !self.active {
            return true;
        }
        match position_of(&self.groups, path.as_str()) {
            Some(i) => {
                assert(views(self.groups@)[i as int] == path@);
                true
            },
            None => false,
        }
    }

    /// Whether the test `test_name` of the group path `group_names` is to be run:
    /// every test runs when no filter was given; otherwise the group must be
    /// selected, either whole (no tests named) or naming this test.
    pub fn consider_test(&self, group_names: &Vec<String>, test_name: &str) -> (r: bool)
        ensures
            r == (!self@.active || ({
                let key = join(views(group_names@));
                &&& self@.tests.contains_key(key)
                &&& (self@.tests[key] == Set::<Seq<char>>::empty() || self@.tests[key].contains(
                    test_name@,
                ))
            })),
    {
        proof {
            use_type_invariant(self);
        }
        if !self.active {
            return true;
        }
        let key = join_names(group_names);
        match position_of(&self.keys, key.as_str()) {
            Some(m) => {
                proof {
                    assert(views(self.keys@)[m as int] == key@);
                    let w = views(self.keys@).index_of(key@);
                    assert(views(self.keys@)[w] == key@);
                    assert(w == m);
                }
                let inner = &self.tests[m];
                if inner.len() == 0 {
                    assert(self@.tests[key@] =~= Set::<Seq<char>>::empty());
                    return true;
                }
                assert(views(inner@)[0] == inner@[0]@);
                assert(self@.tests[key@].contains(inner@[0]@));
                match position_of(inner, test_name) {
                    Some(i) => {
                        assert(views(inner@)[i as int] == test_name@);
                        true
                    },
                    None => false,
                }
            },
            None => false,
        }
    }

    /// The group paths that the filter opened, each once.
    pub fn group_paths(&self) -> (r: Vec<String>)
        ensures
            views(r@).no_duplicates(),
            views(r@).to_set() == self@.groups,
    {
        proof {
            use_type_invariant(self);
        }
        clone_strings(&self.groups)
    }

    /// The selected groups, each once.
    pub fn selected_groups(&self) -> (r: Vec<String>)
        ensures
            views(r@).no_duplicates(),
            views(r@).to_set() == self@.tests.dom(),
    {
        proof {
            use_type_invariant(self);
        }
        let r = clone_strings(&self.keys);
        assert(views(r@).to_set() =~= self@.tests.dom());
        r
    }

    /// The tests named for the selected group `key`, each once (none named means
    /// the whole group), or `None` when `key` is not selected.
    pub fn tests_of(&self, key: &str) -> (r: Option<Vec<String>>)
        ensures
            match r {
                Some(v) => self@.tests.contains_key(key@) && views(v@).no_duplicates() && views(
                    v@,
                ).to_set() == self@.tests[key@],
                None => !self@.tests.contains_key(key@),
            },
    {
        proof {
            use_type_invariant(self);
        }
        match position_of(&self.keys, key) {
            Some(m) => {
                proof {
                    assert(views(self.keys@)[m as int] == key@);
                    let w = views(self.keys@).index_of(key@);
                    assert(views(self.keys@)[w] == key@);
                    assert(w == m);
                }
                Some(clone_strings(&self.tests[m]))
            },
            None => None,
        }
    }
}

} // verus!
