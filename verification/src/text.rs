//! Character-level utilities shared by the pattern parser and the resolver:
//! separator normalization, splitting on a separator character, substring
//! search, and locating the last separator of a path.

use vstd::prelude::*;
use vstd::string::*;

verus! {

/// The canonical path separator of the platform family this tool targets.
pub open spec fn sep_char() -> char {
    '\\'
}

/// Alternate separator accepted on input and rewritten to the canonical one.
pub open spec fn alt_sep_char() -> char {
    '/'
}

/// Every alternate separator replaced by the canonical one.
pub open spec fn norm_seps(s: Seq<char>) -> Seq<char> {
    s.map_values(|c: char| if c == alt_sep_char() { sep_char() } else { c })
}

/// A single canonical separator, as a string slice usable in executable code.
pub fn sep_str() -> (r: &'static str)
    ensures
        r@ == seq![sep_char()],
{
    let r = "\\";
    proof {
        reveal_strlit("\\");
        assert(r@ =~= seq![sep_char()]);
    }
    r
}

/// Rewrites every `/` of `s` to `\`.
pub fn normalize_separators(s: &str) -> (r: String)
    ensures
        r@ == norm_seps(s@),
{
    let n: usize = s.unicode_len();
    let mut r = String::new();
    let mut i: usize = 0;
    while i < n
        invariant
            i <= n,
            n == s@.len(),
            r@ == norm_seps(s@.take(i as int)),
        decreases n - i,
    {
        let c = s.get_char(i);
        if c == '/' {
            r.append(sep_str());
        } else {
            let piece = s.substring_char(i, i + 1);
            r.append(piece);
        }
        proof {
            assert(s@.take(i + 1).map_values(
                |c: char| if c == alt_sep_char() { sep_char() } else { c },
            ) =~= s@.take(i as int).map_values(
                |c: char| if c == alt_sep_char() { sep_char() } else { c },
            ).push(if s@[i as int] == alt_sep_char() { sep_char() } else { s@[i as int] }));
            assert(s@.subrange(i as int, i + 1) =~= seq![s@[i as int]]);
        }
        i = i + 1;
    }
    proof {
        assert(s@.take(n as int) =~= s@);
    }
    r
}

/// Whether the character `c` occurs in `s`.
pub fn contains_char(s: &str, c: char) -> (r: bool)
    ensures
        r == s@.contains(c),
{
    let n: usize = s.unicode_len();
    let mut i: usize = 0;
    while i < n
        invariant
            i <= n,
            n == s@.len(),
            forall|j: int| 0 <= j < i ==> s@[j] != c,
        decreases n - i,
    {
        if s.get_char(i) == c {
            proof {
                assert(s@[i as int] == c);
            }
            return true;
        }
        i = i + 1;
    }
    false
}

/// `needle` occurs in `hay` as a contiguous run of characters.
pub open spec fn has_substring(hay: Seq<char>, needle: Seq<char>) -> bool {
    exists|i: int|
        0 <= i && i + needle.len() <= hay.len() && #[trigger] hay.subrange(i, i + needle.len())
            == needle
}

/// Substring search: whether `needle` occurs contiguously in `hay`.
pub fn contains_sub(hay: &str, needle: &str) -> (r: bool)
    ensures
        r == has_substring(hay@, needle@),
{
    let nh: usize = hay.unicode_len();
    let nn: usize = needle.unicode_len();
    if nn > nh {
        return false;
    }
    let mut i: usize = 0;
    while i <= nh - nn
        invariant
            nh == hay@.len(),
            nn == needle@.len(),
            nn <= nh,
            i <= nh - nn + 1,
            forall|ii: int|
                0 <= ii < i ==> #[trigger] hay@.subrange(ii, ii + needle@.len()) != needle@,
        decreases nh - nn - i + 1,
    {
        let mut j: usize = 0;
        let mut matched: bool = true;
        while matched && j < nn
            invariant
                nh == hay@.len(),
                nn == needle@.len(),
                i + nn <= nh,
                j <= nn,
                matched ==> forall|jj: int| 0 <= jj < j ==> hay@[i + jj] == needle@[jj],
                !matched ==> 0 < nn,
                !matched ==> hay@.subrange(i as int, i + needle@.len()) != needle@,
            decreases nn - j,
        {
            if hay.get_char(i + j) != needle.get_char(j) {
                proof {
                    assert(hay@.subrange(i as int, i + needle@.len())[j as int]
                        == hay@[i + j]);
                }
                matched = false;
                j = nn;
            } else {
                j = j + 1;
            }
        }
        if matched {
            proof {
                assert(hay@.subrange(i as int, i + needle@.len()) =~= needle@);
            }
            return true;
        }
        i = i + 1;
    }
    false
}

/// The segments of `s` between occurrences of `sep`, in order.  Splitting
/// never yields an empty list: a string without a separator is one segment,
/// and the empty string is one empty segment.
pub open spec fn split_at(s: Seq<char>, sep: char) -> Seq<Seq<char>>
    decreases s.len(),
{
    if s.len() == 0 {
        seq![Seq::<char>::empty()]
    } else if s[0] == sep {
        seq![Seq::<char>::empty()] + split_at(s.drop_first(), sep)
    } else {
        let rest = split_at(s.drop_first(), sep);
        seq![seq![s[0]] + rest[0]] + rest.drop_first()
    }
}

pub proof fn lemma_split_at_len(s: Seq<char>, sep: char)
    ensures
        split_at(s, sep).len() >= 1,
    decreases s.len(),
{
    if s.len() == 0 {
    } else {
        lemma_split_at_len(s.drop_first(), sep);
    }
}

/// Unrolls `split_at` at the first separator: if the first `k` characters are
/// separator-free and position `k` (if any) holds a separator, the split is
/// the prefix followed by the split of the remainder.
pub proof fn lemma_split_at_step(s: Seq<char>, sep: char, k: int)
    requires
        0 <= k <= s.len(),
        forall|j: int| 0 <= j < k ==> s[j] != sep,
        k < s.len() ==> s[k] == sep,
    ensures
        k < s.len() ==> split_at(s, sep) == seq![s.take(k)] + split_at(s.skip(k + 1), sep),
        k == s.len() ==> split_at(s, sep) == seq![s],
    decreases s.len(),
{
    if s.len() == 0 {
        assert(s =~= Seq::<char>::empty());
        assert(split_at(s, sep) =~= seq![s]);
    } else if k == 0 {
        if k < s.len() {
            assert(s.take(0) =~= Seq::<char>::empty());
            assert(s.skip(1) =~= s.drop_first());
            assert(split_at(s, sep) =~= seq![s.take(0)] + split_at(s.skip(1), sep));
        }
    } else {
        let t = s.drop_first();
        assert(forall|j: int| 0 <= j < k - 1 ==> t[j] == s[j + 1]);
        lemma_split_at_step(t, sep, k - 1);
        lemma_split_at_len(t, sep);
        let rest = split_at(t, sep);
        if k < s.len() {
            assert(rest == seq![t.take(k - 1)] + split_at(t.skip(k), sep));
            assert(rest[0] == t.take(k - 1));
            assert(rest.drop_first() =~= split_at(t.skip(k), sep));
            assert(seq![s[0]] + t.take(k - 1) =~= s.take(k));
            assert(t.skip(k) =~= s.skip(k + 1));
            assert(split_at(s, sep) =~= seq![s.take(k)] + split_at(s.skip(k + 1), sep));
        } else {
            assert(rest == seq![t]);
            assert(rest[0] == t);
            assert(rest.drop_first() =~= Seq::<Seq<char>>::empty());
            assert(seq![s[0]] + t =~= s);
            assert(split_at(s, sep) =~= seq![s]);
        }
    }
}

/// The views of a sequence of owned strings.
pub open spec fn seg_views(v: Seq<String>) -> Seq<Seq<char>> {
    v.map_values(|t: String| t@)
}

/// Splits `s` on the character `sep`, yielding the segments in order.
pub fn split_at_char(s: &str, sep: char) -> (r: Vec<String>)
    ensures
        seg_views(r@) == split_at(s@, sep),
{
    let n: usize = s.unicode_len();
    let mut r: Vec<String> = Vec::new();
    let mut start: usize = 0;
    let mut i: usize = 0;
    proof {
        assert(s@.skip(0) =~= s@);
    }
    while i < n
        invariant
            n == s@.len(),
            start <= i <= n,
            forall|j: int| start <= j < i ==> s@[j] != sep,
            split_at(s@, sep) == seg_views(r@) + split_at(s@.skip(start as int), sep),
        decreases n - i,
    {
        if s.get_char(i) == sep {
            let piece = s.substring_char(start, i).to_owned();
            proof {
                let rem = s@.skip(start as int);
                let k = i - start;
                assert(forall|j: int| 0 <= j < k ==> rem[j] == s@[start + j]);
                lemma_split_at_step(rem, sep, k);
                assert(rem.take(k) =~= s@.subrange(start as int, i as int));
                assert(rem.skip(k + 1) =~= s@.skip(i + 1));
                assert(seg_views(r@.push(piece)) =~= seg_views(r@).push(piece@));
                assert(seg_views(r@) + seq![s@.subrange(start as int, i as int)]
                    =~= seg_views(r@.push(piece)));
            }
            r.push(piece);
            start = i + 1;
        }
        i = i + 1;
    }
    let tail = s.substring_char(start, n).to_owned();
    proof {
        let rem = s@.skip(start as int);
        let k = n - start;
        assert(forall|j: int| 0 <= j < k ==> rem[j] == s@[start + j]);
        lemma_split_at_step(rem, sep, k);
        assert(rem =~= s@.subrange(start as int, n as int));
        assert(seg_views(r@.push(tail)) =~= seg_views(r@).push(tail@));
        assert(seg_views(r@) + seq![rem] =~= seg_views(r@.push(tail)));
    }
    r.push(tail);
    r
}

/// The index of the last canonical separator in `s`, or `-1` if none occurs.
pub open spec fn last_sep(s: Seq<char>) -> int
    decreases s.len(),
{
    if s.len() == 0 {
        -1
    } else if s[s.len() - 1] == sep_char() {
        s.len() - 1
    } else {
        last_sep(s.drop_last())
    }
}

pub proof fn lemma_last_sep_bounds(s: Seq<char>)
    ensures
        -1 <= last_sep(s) < s.len(),
    decreases s.len(),
{
    if s.len() == 0 {
    } else if s[s.len() - 1] == sep_char() {
    } else {
        lemma_last_sep_bounds(s.drop_last());
    }
}

/// Everything before the last separator: the directory that holds the path's
/// final component.  `None` when the path has no separator at all.
pub fn parent_dir(path: &str) -> (r: Option<String>)
    ensures
        last_sep(path@) >= 0 ==> (r matches Some(p) && p@ == path@.take(last_sep(path@))),
        last_sep(path@) < 0 ==> r is None,
{
    let n: usize = path.unicode_len();
    let mut i: usize = n;
    proof {
        assert(path@.take(n as int) =~= path@);
    }
    while i > 0
        invariant
            n == path@.len(),
            i <= n,
            last_sep(path@) == last_sep(path@.take(i as int)),
        decreases i,
    {
        if path.get_char(i - 1) == '\\' {
            proof {
                lemma_last_sep_bounds(path@.take(i as int));
                assert(path@.take(i as int)[i - 1] == path@[i - 1]);
                assert(last_sep(path@.take(i as int)) == i - 1);
            }
            return Some(path.substring_char(0, i - 1).to_owned());
        }
        proof {
            assert(path@.take(i as int).drop_last() =~= path@.take(i - 1));
            assert(path@.take(i as int)[i - 1] == path@[i - 1]);
        }
        i = i - 1;
    }
    proof {
        assert(path@.take(0) =~= Seq::<char>::empty());
    }
    None
}

/// The text after the last separator: the path's final component, or the
/// whole string when no separator occurs.
pub fn last_segment(path: &str) -> (r: String)
    ensures
        r@ == path@.skip(last_sep(path@) + 1),
{
    let n: usize = path.unicode_len();
    let mut i: usize = n;
    proof {
        assert(path@.take(n as int) =~= path@);
    }
    while i > 0
        invariant
            n == path@.len(),
            i <= n,
            last_sep(path@) == last_sep(path@.take(i as int)),
        decreases i,
    {
        if path.get_char(i - 1) == '\\' {
            proof {
                lemma_last_sep_bounds(path@.take(i as int));
                assert(path@.take(i as int)[i - 1] == path@[i - 1]);
                assert(last_sep(path@.take(i as int)) == i - 1);
                assert(path@.subrange(i as int, n as int) =~= path@.skip(i as int));
            }
            return path.substring_char(i, n).to_owned();
        }
        proof {
            assert(path@.take(i as int).drop_last() =~= path@.take(i - 1));
            assert(path@.take(i as int)[i - 1] == path@[i - 1]);
        }
        i = i - 1;
    }
    proof {
        assert(path@.take(0) =~= Seq::<char>::empty());
        assert(path@.subrange(0, n as int) =~= path@.skip(0));
    }
    path.substring_char(0, n).to_owned()
}

} // verus!
