//! Character-level helpers on names: the `::` separator, substring search
//! and joining of name segments.

use vstd::prelude::*;

verus! {

/// The separator between the segments of a qualified name.
pub open spec fn sep() -> Seq<char> {
    seq![':', ':']
}

/// `s` holds the separator `::` starting at character `i`.
pub open spec fn has_sep_at(s: Seq<char>, i: int) -> bool {
    &&& 0 <= i
    &&& i + 1 < s.len()
    &&& s[i] == ':'
    &&& s[i + 1] == ':'
}

/// `i` is the start of the last occurrence of `::` in `s`.
pub open spec fn is_last_sep(s: Seq<char>, i: int) -> bool {
    &&& has_sep_at(s, i)
    &&& forall|j: int| i < j ==> !#[trigger] has_sep_at(s, j)
}

/// `i` is the start of the first occurrence of `::` in `s`.
pub open spec fn is_first_sep(s: Seq<char>, i: int) -> bool {
    &&& has_sep_at(s, i)
    &&& forall|j: int| j < i ==> !#[trigger] has_sep_at(s, j)
}

/// The split of `s` around its last `::`: the part before it and the part after it,
/// or `None` when `s` holds no `::`.
pub open spec fn split_last(s: Seq<char>) -> Option<(Seq<char>, Seq<char>)> {
    if exists|i: int| is_last_sep(s, i) {
        let i = choose|i: int| is_last_sep(s, i);
        Some((s.take(i), s.skip(i + 2)))
    } else {
        None
    }
}

/// `needle` occurs in `hay` as a contiguous run of characters.
pub open spec fn contains_seq(hay: Seq<char>, needle: Seq<char>) -> bool {
    exists|i: int| 0 <= i && i + needle.len() <= hay.len() && #[trigger] hay.subrange(i, i + needle.len()) == needle
}

/// The segments of `parts` joined by `::`.
pub open spec fn join(parts: Seq<Seq<char>>) -> Seq<char>
    decreases parts.len(),
{
    if parts.len() == 0 {
        Seq::empty()
    } else if parts.len() == 1 {
        parts[0]
    } else {
        join(parts.drop_last()) + sep() + parts.last()
    }
}

/// `prefix::name`.
pub open spec fn qualify(prefix: Seq<char>, name: Seq<char>) -> Seq<char> {
    prefix + sep() + name
}

/// The views of a sequence of strings.
pub open spec fn views(v: Seq<String>) -> Seq<Seq<char>> {
    v.map_values(|s: String| s@)
}

/// Two consecutive `::` positions cannot both be the last one.
pub proof fn lemma_last_sep_unique(s: Seq<char>, i: int, j: int)
    requires
        is_last_sep(s, i),
        is_last_sep(s, j),
    ensures
        i == j,
{
    if i < j {
        assert(!has_sep_at(s, j));
    } else if j < i {
        assert(!has_sep_at(s, i));
    }
}

/// The segments of `s` split at each `::` from the left, as `str::split("::")`
/// gives them: always at least one.
pub open spec fn segments(s: Seq<char>) -> Seq<Seq<char>>
    decreases s.len(),
{
    if exists|i: int| is_first_sep(s, i) {
        let i = choose|i: int| is_first_sep(s, i);
        seq![s.take(i)] + segments(s.skip(i + 2))
    } else {
        seq![s]
    }
}

/// Joining a segment in front of at least one other puts `::` between them.
pub proof fn lemma_join_cons(a: Seq<char>, rest: Seq<Seq<char>>)
    requires
        rest.len() >= 1,
    ensures
        join(seq![a] + rest) == a + sep() + join(rest),
    decreases rest.len(),
{
    let all = seq![a] + rest;
    if rest.len() == 1 {
        assert(all.drop_last() =~= seq![a]);
        assert(all.last() == rest[0]);
        assert(join(seq![a]) == a);
        assert(join(rest) == rest[0]);
        assert(join(all) == join(seq![a]) + sep() + rest[0]);
    } else {
        lemma_join_cons(a, rest.drop_last());
        assert(all.drop_last() =~= seq![a] + rest.drop_last());
        assert(all.last() == rest.last());
        assert(join(all) == join(seq![a] + rest.drop_last()) + sep() + rest.last());
        assert(join(rest) == join(rest.drop_last()) + sep() + rest.last());
        assert(join(all) =~= a + sep() + (join(rest.drop_last()) + sep() + rest.last()));
    }
}

/// `prefix::name` determines `name` once `prefix` is fixed.
pub proof fn lemma_qualify_injective(prefix: Seq<char>, a: Seq<char>, b: Seq<char>)
    requires
        qualify(prefix, a) == qualify(prefix, b),
    ensures
        a == b,
{
    let n = prefix.len() as int + 2;
    assert(qualify(prefix, a).skip(n) =~= a);
    assert(qualify(prefix, b).skip(n) =~= b);
}

/// The last `::` of `s` starts at `i` exactly when `split_last` cuts there.
pub proof fn lemma_split_last_at(s: Seq<char>, i: int)
    requires
        is_last_sep(s, i),
    ensures
        split_last(s) == Some((s.take(i), s.skip(i + 2))),
{
    let k = choose|k: int| is_last_sep(s, k);
    lemma_last_sep_unique(s, i, k);
}

/// Whether `::` starts at character `i` of `s`, whose length is `n`.
pub fn sep_at(s: &str, n: usize, i: usize) -> (r: bool)
    requires
        n == s@.len(),
    ensures
        r == has_sep_at(s@, i as int),
{
    if i < n && n - i >= 2 {
        s.get_char(i) == ':' && s.get_char(i + 1) == ':'
    } else {
        false
    }
}

/// Splits `s` around the last occurrence of `::`, as `str::rsplit_once("::")` does.
pub fn rsplit_once_sep<'a>(s: &'a str) -> (r: Option<(&'a str, &'a str)>)
    ensures
        match r {
            Some((a, b)) => split_last(s@) == Some((a@, b@)),
            None => split_last(s@) is None,
        },
{
    let n = s.unicode_len();
    let mut j: usize = n;
    while j >= 2
        invariant
            n == s@.len(),
            j <= n,
            forall|k: int| j - 1 <= k ==> !#[trigger] has_sep_at(s@, k),
        decreases j,
    {
        if sep_at(s, n, j - 2) {
            let i = j - 2;
            assert(is_last_sep(s@, i as int));
            proof {
                lemma_split_last_at(s@, i as int);
            }
            let before = s.substring_char(0, i);
            let after = s.substring_char(j, n);
            assert(before@ =~= s@.take(i as int));
            assert(after@ =~= s@.skip(i + 2));
            return Some((before, after));
        }
        j = j - 1;
    }
    assert forall|i: int| !is_last_sep(s@, i) by {
        if has_sep_at(s@, i) {
            assert(i + 1 < s@.len());
            assert(j <= 1);
        }
    }
    None
}

/// Whether the characters of `a` and `b` agree.
pub fn str_eq(a: &str, b: &str) -> (r: bool)
    ensures
        r == (a@ == b@),
{
    let n = a.unicode_len();
    let m = b.unicode_len();
    if n != m {
        return false;
    }
    let mut i: usize = 0;
    while i < n
        invariant
            n == a@.len(),
            m == b@.len(),
            n == m,
            i <= n,
            forall|k: int| 0 <= k < i ==> a@[k] == b@[k],
        decreases n - i,
    {
        if a.get_char(i) != b.get_char(i) {
            return false;
        }
        i = i + 1;
    }
    assert(a@ =~= b@);
    true
}

/// Whether `needle` occurs in `hay`, as `str::contains` with a string pattern.
pub fn contains_str(hay: &str, needle: &str) -> (r: bool)
    ensures
        r == contains_seq(hay@, needle@),
{
    let n = hay.unicode_len();
    let m = needle.unicode_len();
    if m > n {
        assert forall|i: int| 0 <= i && i + m <= n implies #[trigger] hay@.subrange(i, i + m) != needle@ by {}
        return false;
    }
    if m == 0 {
        assert(hay@.subrange(0, 0 + needle@.len() as int) =~= needle@);
        return true;
    }
    let mut i: usize = 0;
    while i <= n - m
        invariant
            n == hay@.len(),
            m == needle@.len(),
            1 <= m <= n,
            i <= n - m + 1,
            forall|k: int| 0 <= k < i ==> #[trigger] hay@.subrange(k, k + m) != needle@,
        decreases n - m + 1 - i,
    {
        let window = hay.substring_char(i, i + m);
        if str_eq(window, needle) {
            assert(hay@.subrange(i as int, i + m) == needle@);
            return true;
        }
        i = i + 1;
    }
    assert forall|k: int| 0 <= k && k + m <= n implies #[trigger] hay@.subrange(k, k + m) != needle@ by {
        assert(k < i);
    }
    false
}

/// Whether two strings hold the same characters.
pub fn string_eq(a: &String, b: &str) -> (r: bool)
    ensures
        r == (a@ == b@),
{
    str_eq(a.as_str(), b)
}

/// A fresh string holding the characters of `s`.
pub fn to_string(s: &str) -> (r: String)
    ensures
        r@ == s@,
{
    String::from_str(s)
}

/// `prefix::name` as a fresh string.
pub fn qualified(prefix: &str, name: &str) -> (r: String)
    ensures
        r@ == qualify(prefix@, name@),
{
    let mut r = String::from_str(prefix);
    let s = "::";
    proof {
        reveal_strlit("::");
    }
    r.append(s);
    r.append(name);
    assert(r@ =~= qualify(prefix@, name@));
    r
}

/// The strings of `parts` joined by `::`, as itertools' `join("::")` does.
pub fn join_names(parts: &Vec<String>) -> (r: String)
    ensures
        r@ == join(views(parts@)),
{
    let mut r = String::new();
    let mut i: usize = 0;
    while i < parts.len()
        invariant
            i <= parts.len(),
            r@ == join(views(parts@).take(i as int)),
        decreases parts.len() - i,
    {
        let ghost before = views(parts@).take(i as int);
        let ghost after = views(parts@).take(i + 1);
        assert(after.drop_last() =~= before);
        if i == 0 {
            r = String::from_str(parts[i].as_str());
            assert(after.len() == 1);
        } else {
            let s = "::";
            proof {
                reveal_strlit("::");
            }
            r.append(s);
            r.append(parts[i].as_str());
        }
        assert(r@ =~= join(after));
        i = i + 1;
    }
    assert(views(parts@).take(parts.len() as int) =~= views(parts@));
    r
}

/// `join` of a sequence extended by one segment.
pub proof fn lemma_join_push(parts: Seq<Seq<char>>, last: Seq<char>)
    ensures
        join(parts.push(last)) == if parts.len() == 0 {
            last
        } else {
            qualify(join(parts), last)
        },
{
    assert(parts.push(last).drop_last() =~= parts);
}

/// A copy of a list of strings.
pub fn clone_strings(v: &Vec<String>) -> (r: Vec<String>)
    ensures
        r@ == v@,
{
    let mut r: Vec<String> = Vec::new();
    let mut i: usize = 0;
    while i < v.len()
        invariant
            i <= v.len(),
            r@ == v@.take(i as int),
        decreases v.len() - i,
    {
        r.push(v[i].clone());
        assert(r@ =~= v@.take(i + 1));
        i = i + 1;
    }
    assert(v@.take(v.len() as int) =~= v@);
    r
}

/// The position of a string with the characters of `s` in `v`, if any.
pub fn position_of(v: &Vec<String>, s: &str) -> (r: Option<usize>)
    ensures
        match r {
            Some(i) => i < v.len() && v@[i as int]@ == s@,
            None => !views(v@).contains(s@),
        },
{
    let mut i: usize = 0;
    while i < v.len()
        invariant
            i <= v.len(),
            forall|k: int| 0 <= k < i ==> v@[k]@ != s@,
        decreases v.len() - i,
    {
        if string_eq(&v[i], s) {
            return Some(i);
        }
        i = i + 1;
    }
    None
}

} // verus!
