//! Version-directory names: a name is ordered by the dot-separated sequence
//! of non-negative integers it spells, compared element by element as
//! numbers, never as text.

use crate::text::{split_at, split_at_char, seg_views};
use vstd::prelude::*;

verus! {

/// The dot that separates the numeric components of a version name.
pub open spec fn dot_char() -> char {
    '.'
}

pub open spec fn is_digit(c: char) -> bool {
    48 <= c as u32 <= 57
}

pub open spec fn all_digits(s: Seq<char>) -> bool {
    forall|i: int| 0 <= i < s.len() ==> is_digit(#[trigger] s[i])
}

/// The value of `s` read as a decimal numeral, most significant digit first.
pub open spec fn dec_val(s: Seq<char>) -> int
    decreases s.len(),
{
    if s.len() == 0 {
        0
    } else {
        dec_val(s.drop_last()) * 10 + (s.last() as u32 - 48)
    }
}

/// A well-formed version component: a non-empty run of digits whose value
/// fits in `u32`.
pub open spec fn comp_ok(s: Seq<char>) -> bool {
    s.len() > 0 && all_digits(s) && dec_val(s) <= u32::MAX
}

/// The ordering key of a version-directory name: the values of its
/// dot-separated components, or `None` when any component is malformed.
pub open spec fn version_key(name: Seq<char>) -> Option<Seq<u32>> {
    let comps = split_at(name, dot_char());
    if forall|i: int| 0 <= i < comps.len() ==> comp_ok(#[trigger] comps[i]) {
        Some(comps.map_values(|c: Seq<char>| dec_val(c) as u32))
    } else {
        None
    }
}

pub proof fn lemma_dec_val_nonneg(s: Seq<char>)
    requires
        all_digits(s),
    ensures
        dec_val(s) >= 0,
    decreases s.len(),
{
    if s.len() > 0 {
        assert(all_digits(s.drop_last()));
        lemma_dec_val_nonneg(s.drop_last());
    }
}

/// Appending digits never shrinks the decimal value: the value of a prefix
/// bounds the value of the whole numeral.
pub proof fn lemma_dec_val_prefix(s: Seq<char>, i: int)
    requires
        all_digits(s),
        0 <= i <= s.len(),
    ensures
        dec_val(s.take(i)) <= dec_val(s),
    decreases s.len() - i,
{
    if i == s.len() {
        assert(s.take(i) =~= s);
    } else {
        assert(s.take(i + 1).drop_last() =~= s.take(i));
        assert(all_digits(s.take(i)));
        lemma_dec_val_nonneg(s.take(i));
        assert(dec_val(s.take(i + 1)) == dec_val(s.take(i)) * 10 + (s[i] as u32 - 48));
        lemma_dec_val_prefix(s, i + 1);
    }
}

/// Parses one version component: `Some` exactly on a non-empty digit run
/// whose value fits in `u32`, and then the numeric value of the run.
pub fn parse_component(s: &str) -> (r: Option<u32>)
    ensures
        match r {
            Some(v) => comp_ok(s@) && v == dec_val(s@),
            None => !comp_ok(s@),
        },
{
    let n: usize = s.unicode_len();
    if n == 0 {
        return None;
    }
    let mut acc: u64 = 0;
    let mut i: usize = 0;
    while i < n
        invariant
            n == s@.len(),
            i <= n,
            all_digits(s@.take(i as int)),
            acc == dec_val(s@.take(i as int)),
            acc <= u32::MAX,
        decreases n - i,
    {
        let c = s.get_char(i);
        let d: u32 = c as u32;
        if d < 48 || d > 57 {
            proof {
                assert(!is_digit(s@[i as int]));
            }
            return None;
        }
        let nxt: u64 = acc * 10 + ((d - 48) as u64);
        proof {
            assert(s@.take(i + 1).drop_last() =~= s@.take(i as int));
            assert(s@.take(i + 1).last() == s@[i as int]);
            assert(all_digits(s@.take(i + 1)));
        }
        if nxt > 0xffff_ffffu64 {
            proof {
                assert(dec_val(s@.take(i + 1)) == nxt);
                if comp_ok(s@) {
                    lemma_dec_val_prefix(s@, i + 1);
                }
            }
            return None;
        }
        acc = nxt;
        i = i + 1;
    }
    proof {
        assert(s@.take(n as int) =~= s@);
    }
    Some(acc as u32)
}

/// Parses a whole version name: `Some` exactly when every dot-separated
/// component is well-formed, and then the sequence of component values.
pub fn parse_version(name: &str) -> (r: Option<Vec<u32>>)
    ensures
        match r {
            Some(v) => version_key(name@) == Some(v@),
            None => version_key(name@) is None,
        },
{
    let comps = split_at_char(name, '.');
    let ghost cvs = split_at(name@, dot_char());
    proof {
        assert(seg_views(comps@) == cvs);
    }
    let mut out: Vec<u32> = Vec::new();
    let mut i: usize = 0;
    while i < comps.len()
        invariant
            cvs == split_at(name@, dot_char()),
            seg_views(comps@) == cvs,
            i <= comps.len(),
            out@.len() == i,
            forall|j: int| 0 <= j < i ==> comp_ok(#[trigger] cvs[j]),
            forall|j: int| 0 <= j < i ==> out@[j] == dec_val(cvs[j]),
        decreases comps.len() - i,
    {
        proof {
            assert(cvs[i as int] == comps@[i as int]@);
        }
        match parse_component(comps[i].as_str()) {
            Some(v) => {
                out.push(v);
            },
            None => {
                proof {
                    assert(!comp_ok(split_at(name@, dot_char())[i as int]));
                    assert(version_key(name@) is None);
                }
                return None;
            },
        }
        i = i + 1;
    }
    proof {
        assert(out@ =~= cvs.map_values(|c: Seq<char>| dec_val(c) as u32));
    }
    Some(out)
}

/// Strict ordering of version keys: element by element, left to right, as
/// numbers; a strict prefix orders before any extension of it.
pub open spec fn key_lt(a: Seq<u32>, b: Seq<u32>) -> bool
    decreases a.len(),
{
    if b.len() == 0 {
        false
    } else if a.len() == 0 {
        true
    } else if a.first() < b.first() {
        true
    } else if a.first() > b.first() {
        false
    } else {
        key_lt(a.drop_first(), b.drop_first())
    }
}

/// Compares two version keys.
pub fn key_less(a: &Vec<u32>, b: &Vec<u32>) -> (r: bool)
    ensures
        r == key_lt(a@, b@),
{
    let mut i: usize = 0;
    proof {
        assert(a@.skip(0) =~= a@);
        assert(b@.skip(0) =~= b@);
    }
    while i < a.len() && i < b.len()
        invariant
            i <= a.len(),
            i <= b.len(),
            key_lt(a@, b@) == key_lt(a@.skip(i as int), b@.skip(i as int)),
        decreases a.len() - i,
    {
        let x = a[i];
        let y = b[i];
        proof {
            assert(a@.skip(i as int).first() == a@[i as int]);
            assert(b@.skip(i as int).first() == b@[i as int]);
        }
        if x < y {
            return true;
        }
        if x > y {
            return false;
        }
        proof {
            assert(a@.skip(i as int).drop_first() =~= a@.skip(i + 1));
            assert(b@.skip(i as int).drop_first() =~= b@.skip(i + 1));
        }
        i = i + 1;
    }
    proof {
        if a.len() <= b.len() {
            assert(a@.skip(i as int).len() == 0);
        } else {
            assert(b@.skip(i as int).len() == 0);
        }
    }
    a.len() < b.len()
}

/// The order is asymmetric: keys never order strictly both ways.
pub proof fn lemma_key_lt_asym(a: Seq<u32>, b: Seq<u32>)
    requires
        key_lt(a, b),
    ensures
        !key_lt(b, a),
    decreases a.len(),
{
    if b.len() == 0 {
    } else if a.len() == 0 {
    } else if a.first() < b.first() {
    } else if a.first() > b.first() {
    } else {
        lemma_key_lt_asym(a.drop_first(), b.drop_first());
    }
}

/// The reflexive order `!key_lt(b, a)` ("a is at most b") is transitive.
pub proof fn lemma_key_le_trans(a: Seq<u32>, b: Seq<u32>, c: Seq<u32>)
    requires
        !key_lt(b, a),
        !key_lt(c, b),
    ensures
        !key_lt(c, a),
    decreases a.len(),
{
    if a.len() == 0 {
    } else if b.len() == 0 {
    } else if c.len() == 0 {
    } else {
        if a.first() == b.first() && b.first() == c.first() {
            lemma_key_le_trans(a.drop_first(), b.drop_first(), c.drop_first());
        }
    }
}

/// Any two keys compare: they are equal, or one strictly precedes the other.
pub proof fn lemma_key_lt_total(a: Seq<u32>, b: Seq<u32>)
    ensures
        a == b || key_lt(a, b) || key_lt(b, a),
    decreases a.len(),
{
    if a.len() == 0 && b.len() == 0 {
        assert(a =~= b);
    } else if a.len() == 0 || b.len() == 0 {
    } else if a.first() == b.first() {
        let at = a.drop_first();
        let bt = b.drop_first();
        lemma_key_lt_total(at, bt);
        if at == bt {
            assert(at.len() == bt.len());
            assert(a.len() == at.len() + 1);
            assert(b.len() == bt.len() + 1);
            assert(forall|j: int| 1 <= j < a.len() ==> #[trigger] a[j] == at[j - 1]);
            assert(forall|j: int| 1 <= j < b.len() ==> #[trigger] b[j] == bt[j - 1]);
            assert(a =~= b);
        }
    }
}

/// Ordering is numeric, not textual: whatever stands in the later
/// components, the key whose first differing component is the smaller
/// number orders first.
pub proof fn lemma_key_order_numeric(a: Seq<u32>, b: Seq<u32>, i: int)
    requires
        0 <= i < a.len(),
        i < b.len(),
        forall|j: int| 0 <= j < i ==> a[j] == b[j],
        a[i] < b[i],
    ensures
        key_lt(a, b),
    decreases i,
{
    if i == 0 {
    } else {
        assert(forall|j: int| 0 <= j < i - 1 ==> a.drop_first()[j] == b.drop_first()[j]);
        assert(a.drop_first()[i - 1] == a[i]);
        assert(b.drop_first()[i - 1] == b[i]);
        lemma_key_order_numeric(a.drop_first(), b.drop_first(), i - 1);
    }
}

/// A key strictly extended by further components orders before the
/// extension: `1.2` precedes `1.2.x` for every `x`.
pub proof fn lemma_key_prefix_lt(a: Seq<u32>, b: Seq<u32>)
    requires
        a.len() < b.len(),
        a == b.take(a.len() as int),
    ensures
        key_lt(a, b),
    decreases a.len(),
{
    if a.len() > 0 {
        assert(a.first() == b.first());
        assert(a.drop_first() =~= b.drop_first().take(a.len() - 1));
        lemma_key_prefix_lt(a.drop_first(), b.drop_first());
    }
}

} // verus!
