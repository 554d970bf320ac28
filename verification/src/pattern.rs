//! Decomposes a path pattern with one wildcard segment into a search plan:
//! the directory to scan, the fragment a matching directory name must
//! contain, and the sub-path to append under the winning directory.

use crate::platform::{drive_prefixed, fold_case, is_drive_rooted, lower_of};
use crate::text::{
    contains_char, norm_seps, normalize_separators, seg_views, sep_char, sep_str, split_at,
    split_at_char,
};
use vstd::prelude::*;
use vstd::string::*;

verus! {

/// The wildcard marker of a pattern segment.
pub open spec fn star_char() -> char {
    '*'
}

/// The drive indicator: a segment holding a colon replaces the search root.
pub open spec fn colon_char() -> char {
    ':'
}

/// `s` with every wildcard marker removed.
pub open spec fn strip_stars(s: Seq<char>) -> Seq<char>
    decreases s.len(),
{
    if s.len() == 0 {
        Seq::empty()
    } else if s.last() == star_char() {
        strip_stars(s.drop_last())
    } else {
        strip_stars(s.drop_last()) + seq![s.last()]
    }
}

/// Removes every `*` from `s`.
pub fn remove_stars(s: &str) -> (r: String)
    ensures
        r@ == strip_stars(s@),
{
    let n: usize = s.unicode_len();
    let mut r = String::new();
    let mut i: usize = 0;
    while i < n
        invariant
            i <= n,
            n == s@.len(),
            r@ == strip_stars(s@.take(i as int)),
        decreases n - i,
    {
        let c = s.get_char(i);
        proof {
            assert(s@.take(i + 1).drop_last() =~= s@.take(i as int));
            assert(s@.take(i + 1).last() == s@[i as int]);
        }
        if c != '*' {
            let piece = s.substring_char(i, i + 1);
            proof {
                assert(s@.subrange(i as int, i + 1) =~= seq![s@[i as int]]);
            }
            r.append(piece);
        }
        i = i + 1;
    }
    proof {
        assert(s@.take(n as int) =~= s@);
    }
    r
}

/// The three accumulating parts of a pattern walk, at the specification
/// level: the search root gathered before the wildcard segment, the fragment
/// taken from the wildcard segment, and the sub-path gathered after it.
pub struct PatternParts {
    pub search: Seq<char>,
    pub fragment: Seq<char>,
    pub found: bool,
    pub sub: Seq<char>,
}

pub open spec fn empty_parts() -> PatternParts {
    PatternParts { search: Seq::empty(), fragment: Seq::empty(), found: false, sub: Seq::empty() }
}

/// One step of the segment walk.  Only the first wildcard segment sets the
/// fragment; a later one is an ordinary sub-path segment, kept as it stands.
/// Before the wildcard, a segment holding a colon replaces the search root
/// outright; any other segment is appended behind a separator.  After the
/// wildcard, segments accumulate into the sub-path, each behind a separator.
pub open spec fn classify_step(st: PatternParts, seg: Seq<char>) -> PatternParts {
    if !st.found && seg.contains(star_char()) {
        PatternParts { search: st.search, fragment: strip_stars(seg), found: true, sub: st.sub }
    } else if !st.found {
        if seg.contains(colon_char()) {
            PatternParts { search: seg, fragment: st.fragment, found: false, sub: st.sub }
        } else {
            PatternParts {
                search: st.search + seq![sep_char()] + seg,
                fragment: st.fragment,
                found: false,
                sub: st.sub,
            }
        }
    } else {
        PatternParts {
            search: st.search,
            fragment: st.fragment,
            found: true,
            sub: st.sub + seq![sep_char()] + seg,
        }
    }
}

/// The segment walk over a whole pattern, left to right.
pub open spec fn classify(segs: Seq<Seq<char>>) -> PatternParts
    decreases segs.len(),
{
    if segs.len() == 0 {
        empty_parts()
    } else {
        classify_step(classify(segs.drop_last()), segs.last())
    }
}

/// The directory to scan, before case folding: an empty search root means
/// the current working directory; a drive-rooted search root stands alone;
/// anything else is taken relative to the current working directory.
pub open spec fn composed_root(search: Seq<char>, cwd: Seq<char>) -> Seq<char> {
    if search.len() == 0 {
        cwd + seq![sep_char()]
    } else if drive_prefixed(search) {
        search
    } else {
        cwd + search + seq![sep_char()]
    }
}

/// A resolved search plan.  `Direct` is the degenerate form for a pattern
/// without a wildcard: the normalized pattern itself is the candidate path,
/// and resolution is a bare existence check.  `Scan` names the directory to
/// list, the fragment a directory name must contain, and the sub-path to
/// append under the winning directory.
pub enum SearchPlan {
    Direct { path: String },
    Scan { root: String, fragment: String, sub_path: String },
}

/// The specification-level shape of a search plan.
pub enum PlanShape {
    Direct { path: Seq<char> },
    Scan { root: Seq<char>, fragment: Seq<char>, sub_path: Seq<char> },
}

impl View for SearchPlan {
    type V = PlanShape;

    open spec fn view(&self) -> PlanShape {
        match self {
            SearchPlan::Direct { path } => PlanShape::Direct { path: path@ },
            SearchPlan::Scan { root, fragment, sub_path } => PlanShape::Scan {
                root: root@,
                fragment: fragment@,
                sub_path: sub_path@,
            },
        }
    }
}

/// What `plan` computes: the pattern is separator-normalized and
/// case-folded, split into segments, and walked; a wildcard-free pattern
/// degenerates to its own normalized text, and otherwise the search root is
/// resolved against the working directory and case-folded once more.
pub open spec fn spec_plan(pattern: Seq<char>, cwd: Seq<char>) -> PlanShape {
    let normalized = lower_of(norm_seps(pattern));
    let parts = classify(split_at(normalized, sep_char()));
    if !parts.found {
        PlanShape::Direct { path: normalized }
    } else {
        PlanShape::Scan {
            root: lower_of(composed_root(parts.search, cwd)),
            fragment: parts.fragment,
            sub_path: parts.sub,
        }
    }
}

/// Builds the search plan for `pattern`, resolving a relative search root
/// against `cwd`.  The whole pattern is matched case-insensitively: it is
/// case-folded here, and directory names are case-folded before the
/// fragment filter is applied.
pub fn plan(pattern: &str, cwd: &str) -> (p: SearchPlan)
    ensures
        p@ == spec_plan(pattern@, cwd@),
{
    let replaced = normalize_separators(pattern);
    let folded = fold_case(replaced.as_str());
    let ghost normalized = lower_of(norm_seps(pattern@));
    let segs = split_at_char(folded.as_str(), '\\');
    let ghost sv = split_at(normalized, sep_char());

    let mut search = String::new();
    let mut fragment = String::new();
    let mut found: bool = false;
    let mut sub = String::new();
    let mut k: usize = 0;
    proof {
        assert(sv.take(0) =~= Seq::<Seq<char>>::empty());
    }
    while k < segs.len()
        invariant
            folded@ == normalized,
            seg_views(segs@) == sv,
            sv == split_at(normalized, sep_char()),
            k <= segs.len(),
            classify(sv.take(k as int)) == (PatternParts {
                search: search@,
                fragment: fragment@,
                found: found,
                sub: sub@,
            }),
        decreases segs.len() - k,
    {
        proof {
            assert(sv.take(k + 1).drop_last() =~= sv.take(k as int));
            assert(sv.take(k + 1).last() == sv[k as int]);
            assert(sv[k as int] == segs@[k as int]@);
        }
        let seg = &segs[k];
        if !found && contains_char(seg.as_str(), '*') {
            fragment = remove_stars(seg.as_str());
            found = true;
        } else if !found {
            if contains_char(seg.as_str(), ':') {
                search = seg.clone();
            } else {
                search.append(sep_str());
                search.append(seg.as_str());
            }
        } else {
            sub.append(sep_str());
            sub.append(seg.as_str());
        }
        k = k + 1;
    }
    proof {
        assert(sv.take(segs@.len() as int) =~= sv);
    }
    if !found {
        SearchPlan::Direct { path: folded }
    } else {
        let mut root: String;
        if search.unicode_len() == 0 {
            root = cwd.to_owned();
            root.append(sep_str());
        } else if is_drive_rooted(search.as_str()) {
            root = search;
        } else {
            root = cwd.to_owned();
            root.append(search.as_str());
            root.append(sep_str());
        }
        let folded_root = fold_case(root.as_str());
        SearchPlan::Scan { root: folded_root, fragment, sub_path: sub }
    }
}

/// A pattern without a wildcard degenerates to the literal path: its plan is
/// `Direct` with the normalized, case-folded pattern itself, and resolution
/// is then a bare existence check of that path, with no directory scan.
/// Case folding leaves `*` in place, so the hypothesis holds exactly of
/// patterns that spell no wildcard.
pub proof fn lemma_no_wildcard_is_direct(pattern: Seq<char>, cwd: Seq<char>)
    requires
        !lower_of(norm_seps(pattern)).contains(star_char()),
    ensures
        spec_plan(pattern, cwd) == (PlanShape::Direct { path: lower_of(norm_seps(pattern)) }),
{
    let n = lower_of(norm_seps(pattern));
    lemma_split_no_char(n, sep_char(), star_char());
    lemma_no_star_not_found(split_at(n, sep_char()));
}

/// No segment of a split holds a character that the whole string does not.
proof fn lemma_split_no_char(s: Seq<char>, sep: char, c: char)
    requires
        !s.contains(c),
    ensures
        forall|k: int|
            0 <= k < split_at(s, sep).len() ==> !(#[trigger] split_at(s, sep)[k]).contains(c),
    decreases s.len(),
{
    if s.len() == 0 {
    } else {
        let t = s.drop_first();
        assert(!t.contains(c)) by {
            if t.contains(c) {
                let w = choose|w: int| 0 <= w < t.len() && t[w] == c;
                assert(s[w + 1] == c);
            }
        }
        lemma_split_no_char(t, sep, c);
        if s[0] == sep {
            assert(forall|k: int|
                1 <= k < split_at(s, sep).len() ==> split_at(s, sep)[k] == #[trigger] split_at(
                    t,
                    sep,
                )[k - 1]);
            assert(!split_at(s, sep)[0].contains(c));
        } else {
            let rest = split_at(t, sep);
            let first = seq![s[0]] + rest[0];
            assert(!first.contains(c)) by {
                if first.contains(c) {
                    let w = choose|w: int| 0 <= w < first.len() && first[w] == c;
                    if w == 0 {
                        assert(s[0] == c);
                        assert(s.contains(c));
                    } else {
                        assert(rest[0][w - 1] == c);
                        assert(rest[0].contains(c));
                    }
                }
            }
            assert(forall|k: int|
                1 <= k < split_at(s, sep).len() ==> split_at(s, sep)[k]
                    == #[trigger] rest.drop_first()[k - 1]);
            assert(forall|k: int|
                1 <= k < split_at(s, sep).len() ==> rest.drop_first()[k - 1] == rest[k]);
        }
    }
}

/// A walk over wildcard-free segments never finds a wildcard.
proof fn lemma_no_star_not_found(segs: Seq<Seq<char>>)
    requires
        forall|k: int| 0 <= k < segs.len() ==> !(#[trigger] segs[k]).contains(star_char()),
    ensures
        !classify(segs).found,
    decreases segs.len(),
{
    if segs.len() > 0 {
        assert(forall|k: int|
            0 <= k < segs.len() - 1 ==> segs.drop_last()[k] == #[trigger] segs[k]);
        lemma_no_star_not_found(segs.drop_last());
        assert(segs.last() == segs[segs.len() - 1]);
    }
}

} // verus!
