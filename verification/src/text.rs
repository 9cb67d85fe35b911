//! Case-insensitive substring matching, as used by the name searches.
//!
//! Case folding is Unicode work done by the standard library; its result is
//! named `lower_of` and everything after the fold — the substring scan and
//! the search predicates built on it — is verified.

use vstd::prelude::*;
use vstd::string::StrSliceExecFns;

verus! {

/// The lower-case fold of a character sequence, as `str::to_lowercase`
/// computes it.
pub uninterp spec fn lower_of(s: Seq<char>) -> Seq<char>;

/// The lower-case fold of a string.
///
/// Relies on `str::to_lowercase`: the result is the Unicode lowercase
/// mapping of the input's characters and depends on those characters alone.
#[verifier::external_body]
fn lowercase(s: &str) -> (r: String)
    ensures
        r@ == lower_of(s@),
{
    s.to_lowercase()
}

/// Whether `sub` occurs contiguously inside `s`.
pub open spec fn contains_seq(s: Seq<char>, sub: Seq<char>) -> bool {
    exists|k: int|
        0 <= k && k + sub.len() <= s.len() && #[trigger] s.subrange(k, k + sub.len()) == sub
}

/// Scans `hay` for `needle`, character by character.
pub fn seq_contains(hay: &str, needle: &str) -> (r: bool)
    ensures
        r == contains_seq(hay@, needle@),
{
    let n = hay.unicode_len();
    let m = needle.unicode_len();
    if m > n {
        assert(!contains_seq(hay@, needle@));
        return false;
    }
    let mut k: usize = 0;
    while k <= n - m
        invariant
            n == hay@.len(),
            m == needle@.len(),
            m <= n,
            k <= n - m + 1,
            forall|p: int|
                0 <= p < k ==> #[trigger] hay@.subrange(p, p + needle@.len()) != needle@,
        decreases n - m - k + 1,
    {
        let mut j: usize = 0;
        let mut ok = true;
        while j < m && ok
            invariant
                n == hay@.len(),
                m == needle@.len(),
                k + m <= n,
                j <= m,
                ok ==> forall|l: int| 0 <= l < j ==> hay@[k + l] == needle@[l],
                !ok ==> j < m && hay@[k + j] != needle@[j as int],
            decreases m - j + (if ok {
                1int
            } else {
                0int
            }),
        {
            if hay.get_char(k + j) != needle.get_char(j) {
                ok = false;
            } else {
                j = j + 1;
            }
        }
        if ok {
            assert(hay@.subrange(k as int, k + needle@.len()) =~= needle@);
            return true;
        }
        proof {
            assert(hay@.subrange(k as int, k + needle@.len())[j as int] != needle@[j as int]);
        }
        k = k + 1;
    }
    proof {
        assert forall|p: int| 0 <= p && p + needle@.len() <= hay@.len() implies #[trigger] hay@
            .subrange(p, p + needle@.len()) != needle@ by {
            assert(p < k);
        }
    }
    false
}

/// Whether a record's name matches a free-text query: true when the
/// lower-case fold of the query occurs inside the lower-case fold of the
/// name.
pub fn name_matches(name: &str, query: &str) -> (r: bool)
    ensures
        r == contains_seq(lower_of(name@), lower_of(query@)),
{
    let folded_name = lowercase(name);
    let folded_query = lowercase(query);
    seq_contains(folded_name.as_str(), folded_query.as_str())
}

} // verus!
