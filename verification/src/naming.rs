//! The names of the items that the `group!` and `test!` macros generate for a
//! group or a test called `name`, the paths under which they register them,
//! and the check that an argument of a test function is a fixture.

use vstd::prelude::*;
use convert_case::{Case, Converter};
use crate::text::{str_eq, views};

verus! {

/// `name` in CONSTANT_CASE, as convert_case's `Converter` with `Case::Constant` writes it.
pub uninterp spec fn constant_case(name: Seq<char>) -> Seq<char>;

/// `name` in PascalCase, as convert_case's `Converter` with `Case::Pascal` writes it.
pub uninterp spec fn pascal_case(name: Seq<char>) -> Seq<char>;

/// `name` in snake_case, as convert_case's `Converter` with `Case::Snake` writes it.
pub uninterp spec fn snake_case(name: Seq<char>) -> Seq<char>;

/// Calls `convert_case::Converter::convert` set to `Case::Constant`; its result is
/// claimed to depend on the characters of `name` alone, and is named by `constant_case`.
#[verifier::external_body]
fn to_constant_case(name: &str) -> (r: String)
    ensures
        r@ == constant_case(name@),
{
    Converter::new().to_case(Case::Constant).convert(name)
}

/// Calls `convert_case::Converter::convert` set to `Case::Pascal`; its result is
/// claimed to depend on the characters of `name` alone, and is named by `pascal_case`.
#[verifier::external_body]
fn to_pascal_case(name: &str) -> (r: String)
    ensures
        r@ == pascal_case(name@),
{
    Converter::new().to_case(Case::Pascal).convert(name)
}

/// Calls `convert_case::Converter::convert` set to `Case::Snake`; its result is
/// claimed to depend on the characters of `name` alone, and is named by `snake_case`.
#[verifier::external_body]
fn to_snake_case(name: &str) -> (r: String)
    ensures
        r@ == snake_case(name@),
{
    Converter::new().to_case(Case::Snake).convert(name)
}

/// `head`, then `middle`, then `tail`.
fn surround(head: &str, middle: String, tail: &str) -> (r: String)
    ensures
        r@ == head@ + middle@ + tail@,
{
    let mut r = String::from_str(head);
    r.append(middle.as_str());
    r.append(tail);
    r
}

/// `head`, then `rest`.
fn prefixed(head: &str, rest: String) -> (r: String)
    ensures
        r@ == head@ + rest@,
{
    let mut r = String::from_str(head);
    r.append(rest.as_str());
    r
}

/// The name of the list of subgroups of the group `name`.
pub fn group_groups_name(name: &str) -> (r: String)
    ensures
        r@ == "_E2ETEST_"@ + constant_case(name@) + "_GROUPS"@,
{
    surround("_E2ETEST_", to_constant_case(name), "_GROUPS")
}

/// The name of the list of tests of the group `name`.
pub fn group_tests_name(name: &str) -> (r: String)
    ensures
        r@ == "_E2ETEST_"@ + constant_case(name@) + "_TESTS"@,
{
    surround("_E2ETEST_", to_constant_case(name), "_TESTS")
}

/// The name of the fixture type of the group `name`.
pub fn group_fixture_name(name: &str) -> (r: String)
    ensures
        r@ == "_E2etestGroupFixture"@ + pascal_case(name@),
{
    prefixed("_E2etestGroupFixture", to_pascal_case(name))
}

/// The name of the type of the group `name`.
pub fn group_type_name(name: &str) -> (r: String)
    ensures
        r@ == "_E2etestGroup"@ + pascal_case(name@),
{
    prefixed("_E2etestGroup", to_pascal_case(name))
}

/// The name of the fixture type of the test `name`.
pub fn test_fixture_name(name: &str) -> (r: String)
    ensures
        r@ == "_E2etestTestFixture"@ + pascal_case(name@),
{
    prefixed("_E2etestTestFixture", to_pascal_case(name))
}

/// The name of the type of the test `name`.
pub fn test_type_name(name: &str) -> (r: String)
    ensures
        r@ == "_E2etestTest"@ + pascal_case(name@),
{
    prefixed("_E2etestTest", to_pascal_case(name))
}

/// The name of the function that registers the test `name` with its group.
pub fn test_register_name(name: &str) -> (r: String)
    ensures
        r@ == "_e2etest_register_"@ + snake_case(name@),
{
    prefixed("_e2etest_register_", to_snake_case(name))
}

/// `segments` with its last segment replaced by `last`.
fn with_last(segments: &Vec<String>, last: String) -> (r: Vec<String>)
    requires
        segments.len() > 0,
    ensures
        views(r@) == views(segments@).drop_last().push(last@),
{
    let mut r: Vec<String> = Vec::new();
    let mut i: usize = 0;
    while i + 1 < segments.len()
        invariant
            0 < segments.len(),
            i + 1 <= segments.len(),
            views(r@) == views(segments@).take(i as int),
        decreases segments.len() - i,
    {
        let ghost prev = views(r@);
        r.push(segments[i].clone());
        assert(views(r@) =~= prev.push(segments@[i as int]@));
        assert(views(r@) =~= views(segments@).take(i + 1));
        i = i + 1;
    }
    let ghost prev = views(r@);
    r.push(last);
    assert(views(r@) =~= prev.push(last@));
    assert(views(segments@).take(i as int) =~= views(segments@).drop_last());
    assert(views(r@) =~= views(segments@).drop_last().push(last@));
    r
}

/// The path of the list of tests of the group at the path `segments`: the same
/// path with the group's name, its last segment, replaced by the name of the
/// group's list of tests; `None` for an empty path.
pub fn tests_path(segments: &Vec<String>) -> (r: Option<Vec<String>>)
    ensures
        r is None <==> segments.len() == 0,
        r matches Some(p) ==> views(p@) == views(segments@).drop_last().push(
            "_E2ETEST_"@ + constant_case(segments@.last()@) + "_TESTS"@,
        ),
{
    if segments.len() == 0 {
        return None;
    }
    let name = group_tests_name(segments[segments.len() - 1].as_str());
    Some(with_last(segments, name))
}

/// The path of the list of subgroups of the group at the path `segments`: the
/// same path with the group's name, its last segment, replaced by the name of
/// the group's list of subgroups; `None` for an empty path.
pub fn groups_path(segments: &Vec<String>) -> (r: Option<Vec<String>>)
    ensures
        r is None <==> segments.len() == 0,
        r matches Some(p) ==> views(p@) == views(segments@).drop_last().push(
            "_E2ETEST_"@ + constant_case(segments@.last()@) + "_GROUPS"@,
        ),
{
    if segments.len() == 0 {
        return None;
    }
    let name = group_groups_name(segments[segments.len() - 1].as_str());
    Some(with_last(segments, name))
}

/// The shape of one segment of the type path of an argument of a test
/// function: its name, and whether its first generic argument is a type path
/// (as `Fx` in `Arc<Fx>`).
pub struct SegmentShape {
    pub name: String,
    pub type_argument: bool,
}

/// Whether an argument of a test function whose type path has the segments
/// `segments` is a fixture, of type `Arc<Fixture>` written with or without its
/// module path: its last segment is `Arc`, and its first generic argument is the
/// fixture's type.
pub fn is_fixture_argument(segments: &Vec<SegmentShape>) -> (r: bool)
    ensures
        r == (segments@.len() > 0 && segments@.last().name@ == "Arc"@
            && segments@.last().type_argument),
{
    if segments.len() == 0 {
        return false;
    }
    let last = &segments[segments.len() - 1];
    str_eq(last.name.as_str(), "Arc") && last.type_argument
}

} // verus!
