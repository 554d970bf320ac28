//! Picks, among the entries of the search root, the directory with the
//! highest version key that matches the fragment, and forms the candidate
//! path; then the candidate's existence answer decides the outcome.

use crate::pattern::{spec_plan, PlanShape};
use crate::platform::{fold_case, lower_of};
use crate::text::{contains_sub, has_substring, sep_char, sep_str};
use crate::version::{key_less, key_lt, parse_version, version_key};
use vstd::prelude::*;
use vstd::string::*;

verus! {

/// What resolution can report: no directory survived the name filter, or a
/// winner was found but the path formed under it does not exist.
#[derive(Clone, Copy, Debug, PartialEq, Eq, Structural)]
pub enum ResolveError {
    NoDirectories,
    NoValidPath,
}

impl ResolveError {
    /// The diagnostic text of each failure, kept distinct so a reader can
    /// tell a fruitless scan from a wrong sub-path.
    pub fn message(&self) -> (r: &'static str)
        ensures
            self is NoDirectories ==> r@ == "No directories found"@,
            self is NoValidPath ==> r@ == "No valid path found"@,
    {
        match self {
            ResolveError::NoDirectories => "No directories found",
            ResolveError::NoValidPath => "No valid path found",
        }
    }
}

/// One entry of the listed search root: its name and whether it is itself a
/// directory.
pub struct FsEntry {
    pub name: String,
    pub is_dir: bool,
}

/// The specification-level shape of a directory entry.
pub struct EntryShape {
    pub name: Seq<char>,
    pub is_dir: bool,
}

impl View for FsEntry {
    type V = EntryShape;

    open spec fn view(&self) -> EntryShape {
        EntryShape { name: self.name@, is_dir: self.is_dir }
    }
}

pub open spec fn entry_views(es: Seq<FsEntry>) -> Seq<EntryShape> {
    es.map_values(|e: FsEntry| e@)
}

/// Whether the fragment filter accepts a directory name: the case-folded
/// name must contain the (already folded) fragment as a substring.
pub open spec fn name_matches(name: Seq<char>, fragment: Seq<char>) -> bool {
    has_substring(lower_of(name), fragment)
}

/// A candidate entry: a directory whose folded name contains the fragment
/// and whose name parses into a version key.  An entry whose name does not
/// parse is skipped, never a reason to abort the scan.
pub open spec fn is_candidate(e: EntryShape, fragment: Seq<char>) -> bool {
    e.is_dir && name_matches(e.name, fragment) && version_key(e.name) is Some
}

/// The ordering key of a candidate (the empty key for non-candidates, which
/// never compete).
pub open spec fn key_of(e: EntryShape) -> Seq<u32> {
    match version_key(e.name) {
        Some(k) => k,
        None => Seq::empty(),
    }
}

/// The index of the winning entry among the first `n`: the candidate with
/// the greatest key, the later one when keys tie.  `None` when no candidate
/// stands among them.
pub open spec fn best_upto(es: Seq<EntryShape>, fragment: Seq<char>, n: int) -> Option<int>
    decreases n,
{
    if n <= 0 {
        None
    } else if !is_candidate(es[n - 1], fragment) {
        best_upto(es, fragment, n - 1)
    } else {
        match best_upto(es, fragment, n - 1) {
            None => Some(n - 1),
            Some(j) => if key_lt(key_of(es[n - 1]), key_of(es[j])) {
                Some(j)
            } else {
                Some(n - 1)
            },
        }
    }
}

/// The winner's path: the root, a separator unless the root already ends in
/// one, the winning directory's name, then the sub-path.
pub open spec fn join_path(root: Seq<char>, name: Seq<char>, sub: Seq<char>) -> Seq<char> {
    if root.len() > 0 && root.last() == sep_char() {
        root + name + sub
    } else {
        root + seq![sep_char()] + name + sub
    }
}

/// What `select_candidate` computes over the listing.
pub open spec fn spec_select(
    root: Seq<char>,
    fragment: Seq<char>,
    es: Seq<EntryShape>,
    sub: Seq<char>,
) -> Result<Seq<char>, ResolveError> {
    match best_upto(es, fragment, es.len() as int) {
        None => Err(ResolveError::NoDirectories),
        Some(i) => Ok(join_path(root, es[i].name, sub)),
    }
}

/// Scans the listed entries of the search root and forms the candidate path
/// under the highest-versioned matching directory, or reports that no
/// directory matched.
pub fn select_candidate(
    root: &str,
    fragment: &str,
    sub_path: &str,
    entries: &Vec<FsEntry>,
) -> (r: Result<String, ResolveError>)
    ensures
        match r {
            Ok(p) => (spec_select(root@, fragment@, entry_views(entries@), sub_path@) matches Ok(
                q,
            ) && p@ == q),
            Err(e) => spec_select(root@, fragment@, entry_views(entries@), sub_path@)
                == Err::<Seq<char>, ResolveError>(e),
        },
{
    let ghost ev = entry_views(entries@);
    let n: usize = entries.len();
    let mut have: bool = false;
    let mut best_idx: usize = 0;
    let mut best_key: Vec<u32> = Vec::new();
    let mut i: usize = 0;
    while i < n
        invariant
            ev == entry_views(entries@),
            n == entries@.len(),
            i <= n,
            !have ==> best_upto(ev, fragment@, i as int) is None,
            have ==> best_upto(ev, fragment@, i as int) == Some(best_idx as int),
            have ==> best_idx < i,
            have ==> best_key@ == key_of(ev[best_idx as int]),
        decreases n - i,
    {
        proof {
            assert(ev[i as int] == entries@[i as int]@);
        }
        let e = &entries[i];
        let folded = fold_case(e.name.as_str());
        let matches_frag = contains_sub(folded.as_str(), fragment);
        if e.is_dir && matches_frag {
            match parse_version(e.name.as_str()) {
                Some(k) => {
                    proof {
                        assert(is_candidate(ev[i as int], fragment@));
                        assert(key_of(ev[i as int]) == k@);
                    }
                    if !have {
                        have = true;
                        best_idx = i;
                        best_key = k;
                    } else {
                        let keep = key_less(&k, &best_key);
                        if !keep {
                            best_idx = i;
                            best_key = k;
                        }
                    }
                },
                None => {
                    proof {
                        assert(!is_candidate(ev[i as int], fragment@));
                    }
                },
            }
        } else {
            proof {
                assert(!is_candidate(ev[i as int], fragment@));
            }
        }
        i = i + 1;
    }
    if !have {
        return Err(ResolveError::NoDirectories);
    }
    let name = &entries[best_idx].name;
    let mut out = root.to_owned();
    let rn: usize = root.unicode_len();
    if rn == 0 || root.get_char(rn - 1) != '\\' {
        out.append(sep_str());
    }
    out.append(name.as_str());
    out.append(sub_path);
    proof {
        assert(ev[best_idx as int] == entries@[best_idx as int]@);
        assert(out@ =~= join_path(root@, ev[best_idx as int].name, sub_path@));
    }
    Ok(out)
}

/// The final gate of resolution: the candidate survives only if it exists
/// on disk; an absent candidate is the "no valid path" failure, distinct
/// from a fruitless scan.
pub fn confirm_exists(candidate: String, exists: bool) -> (r: Result<String, ResolveError>)
    ensures
        exists ==> (r matches Ok(p) && p@ == candidate@),
        !exists ==> r == Err::<String, ResolveError>(ResolveError::NoValidPath),
{
    if exists {
        Ok(candidate)
    } else {
        Err(ResolveError::NoValidPath)
    }
}

/// The candidate that resolution forms before the final existence check: a
/// wildcard-free pattern stands for itself; otherwise the listing of the
/// planned search root is scanned.
pub open spec fn spec_candidate(
    pattern: Seq<char>,
    cwd: Seq<char>,
    es: Seq<EntryShape>,
) -> Result<Seq<char>, ResolveError> {
    match spec_plan(pattern, cwd) {
        PlanShape::Direct { path } => Ok(path),
        PlanShape::Scan { root, fragment, sub_path } => spec_select(root, fragment, es, sub_path),
    }
}

/// The outcome of a whole resolution, given the existence answer for the
/// candidate path.
pub open spec fn spec_outcome(
    pattern: Seq<char>,
    cwd: Seq<char>,
    es: Seq<EntryShape>,
    cand_exists: bool,
) -> Result<Seq<char>, ResolveError> {
    match spec_candidate(pattern, cwd, es) {
        Ok(p) => if cand_exists {
            Ok(p)
        } else {
            Err(ResolveError::NoValidPath)
        },
        Err(e) => Err(e),
    }
}

/// Idempotence: resolution is a mathematical function of the pattern, the
/// working directory, the listing of the search root, and the existence
/// answer for the candidate.  Two resolutions against an unchanged
/// filesystem therefore yield the same resolved path, or the same failure.
pub proof fn lemma_resolution_idempotent(
    pattern: Seq<char>,
    cwd: Seq<char>,
    es: Seq<EntryShape>,
    cand_exists: bool,
    r1: Result<Seq<char>, ResolveError>,
    r2: Result<Seq<char>, ResolveError>,
)
    requires
        r1 == spec_outcome(pattern, cwd, es, cand_exists),
        r2 == spec_outcome(pattern, cwd, es, cand_exists),
    ensures
        r1 == r2,
{
}

/// Case-insensitivity of the name filter: two directory names that fold to
/// the same characters are accepted or rejected alike, whatever letter case
/// either spells.
pub proof fn lemma_match_case_insensitive(n1: Seq<char>, n2: Seq<char>, fragment: Seq<char>)
    requires
        lower_of(n1) == lower_of(n2),
    ensures
        name_matches(n1, fragment) == name_matches(n2, fragment),
{
}

/// Case-insensitivity of the pattern: two patterns whose normalized forms
/// fold to the same characters produce the same plan, and so the same
/// resolution.
pub proof fn lemma_plan_case_insensitive(p1: Seq<char>, p2: Seq<char>, cwd: Seq<char>)
    requires
        lower_of(crate::text::norm_seps(p1)) == lower_of(crate::text::norm_seps(p2)),
    ensures
        spec_plan(p1, cwd) == spec_plan(p2, cwd),
{
}

/// The selection picks a true maximum: the winner is a candidate, no
/// candidate's key exceeds the winner's, and every later candidate's key is
/// strictly below it — on a tie of keys the later entry wins.
pub proof fn lemma_best_is_max(es: Seq<EntryShape>, fragment: Seq<char>, n: int)
    requires
        0 <= n <= es.len(),
    ensures
        match best_upto(es, fragment, n) {
            None => forall|j: int| 0 <= j < n ==> !is_candidate(#[trigger] es[j], fragment),
            Some(i) => 0 <= i < n && is_candidate(es[i], fragment) && (forall|j: int|
                0 <= j < n && is_candidate(#[trigger] es[j], fragment) ==> !key_lt(
                    key_of(es[i]),
                    key_of(es[j]),
                )) && (forall|j: int|
                i < j < n && is_candidate(#[trigger] es[j], fragment) ==> key_lt(
                    key_of(es[j]),
                    key_of(es[i]),
                )),
        },
    decreases n,
{
    if n > 0 {
        lemma_best_is_max(es, fragment, n - 1);
        let c = es[n - 1];
        if is_candidate(c, fragment) {
            match best_upto(es, fragment, n - 1) {
                None => {
                    if key_lt(key_of(c), key_of(c)) {
                        crate::version::lemma_key_lt_asym(key_of(c), key_of(c));
                    }
                },
                Some(j0) => {
                    if key_lt(key_of(c), key_of(es[j0])) {
                        crate::version::lemma_key_lt_asym(key_of(c), key_of(es[j0]));
                    } else {
                        if key_lt(key_of(c), key_of(c)) {
                            crate::version::lemma_key_lt_asym(key_of(c), key_of(c));
                        }
                        assert forall|j: int|
                            0 <= j < n && is_candidate(#[trigger] es[j], fragment) implies !key_lt(
                            key_of(c),
                            key_of(es[j]),
                        ) by {
                            if j < n - 1 {
                                crate::version::lemma_key_le_trans(
                                    key_of(es[j]),
                                    key_of(es[j0]),
                                    key_of(c),
                                );
                            }
                        }
                    }
                },
            }
        }
    }
}

} // verus!
