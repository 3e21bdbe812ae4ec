//! The names in a hierarchy of test groups.

use vstd::prelude::*;
use crate::text::{qualified, qualify, views};

verus! {

/// The names of a group: its own name, the names of its tests and its subgroups.
pub struct GroupTree {
    pub name: String,
    pub tests: Vec<String>,
    pub groups: Vec<GroupTree>,
}

/// The names of all tests of `tree`, qualified by the path of subgroups below
/// `tree` that holds them: first those of the subgroups, in order, then its own.
pub open spec fn tree_names(tree: GroupTree) -> Seq<Seq<char>>
    decreases tree,
{
    subgroup_names(tree.groups@) + views(tree.tests@)
}

/// The qualified test names of the groups `groups`, in order.
pub open spec fn subgroup_names(groups: Seq<GroupTree>) -> Seq<Seq<char>>
    decreases groups,
{
    if groups.len() == 0 {
        Seq::empty()
    } else {
        let last = groups.last();
        subgroup_names(groups.drop_last()) + tree_names(last).map_values(
            |t: Seq<char>| qualify(last.name@, t),
        )
    }
}

impl GroupTree {
    /// The names of all tests of this group and its subgroups, each qualified by
    /// the path of subgroups that holds it.
    pub fn test_names(&self) -> (r: Vec<String>)
        ensures
            views(r@) == tree_names(*self),
        decreases self,
    {
        let mut r: Vec<String> = Vec::new();
        let mut i: usize = 0;
        while i < self.groups.len()
            invariant
                i <= self.groups.len(),
                views(r@) == subgroup_names(self.groups@.take(i as int)),
            decreases self.groups.len() - i,
        {
            let sub = &self.groups[i];
            assert(decreases_to!(self => self.groups));
            let names = sub.test_names();
            let ghost before = views(r@);
            let ghost prefix = self.groups@.take(i as int);
            let ghost upto = self.groups@.take(i + 1);
            assert(upto.drop_last() =~= prefix);
            assert(upto.last() == *sub);
            let mut k: usize = 0;
            while k < names.len()
                invariant
                    k <= names.len(),
                    views(names@) == tree_names(*sub),
                    views(r@) == before + tree_names(*sub).take(k as int).map_values(
                        |t: Seq<char>| qualify(sub.name@, t),
                    ),
                decreases names.len() - k,
            {
                let full = qualified(sub.name.as_str(), names[k].as_str());
                let ghost old_r = views(r@);
                r.push(full);
                assert(views(r@) =~= old_r.push(qualify(sub.name@, names@[k as int]@)));
                assert(names@[k as int]@ == tree_names(*sub)[k as int]);
                assert(tree_names(*sub).take(k + 1) =~= tree_names(*sub).take(k as int).push(
                    names@[k as int]@,
                ));
                assert(views(r@) =~= before + tree_names(*sub).take(k + 1).map_values(
                    |t: Seq<char>| qualify(sub.name@, t),
                ));
                k = k + 1;
            }
            assert(tree_names(*sub).take(names.len() as int) =~= tree_names(*sub));
            assert(views(r@) =~= subgroup_names(upto));
            i = i + 1;
        }
        assert(self.groups@.take(self.groups.len() as int) =~= self.groups@);
        let ghost head = views(r@);
        let mut j: usize = 0;
        while j < self.tests.len()
            invariant
                j <= self.tests.len(),
                views(r@) == head + views(self.tests@).take(j as int),
            decreases self.tests.len() - j,
        {
            let ghost old_r = views(r@);
            r.push(self.tests[j].clone());
            assert(views(r@) =~= old_r.push(self.tests@[j as int]@));
            assert(views(self.tests@)[j as int] == self.tests@[j as int]@);
            assert(views(r@) =~= head + views(self.tests@).take(j + 1));
            j = j + 1;
        }
        assert(views(self.tests@).take(self.tests.len() as int) =~= views(self.tests@));
        r
    }
}

} // verus!
