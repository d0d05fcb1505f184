//! Text primitives for the query layer: lexicographic ordering of names,
//! case folding, and substring matching.

use vstd::prelude::*;
use vstd::string::StrSliceExecFns;

verus! {

/// Lexicographic "less than or equal" on character sequences, ordered by
/// code point.  This is the order every listing of the store uses.
pub open spec fn lex_le(a: Seq<char>, b: Seq<char>) -> bool
    decreases a.len(),
{
    if a.len() == 0 {
        true
    } else if b.len() == 0 {
        false
    } else if (a[0] as u32) < (b[0] as u32) {
        true
    } else if (b[0] as u32) < (a[0] as u32) {
        false
    } else {
        lex_le(a.drop_first(), b.drop_first())
    }
}

/// Any two character sequences are comparable under [`lex_le`].
pub proof fn lemma_lex_le_total(a: Seq<char>, b: Seq<char>)
    ensures
        lex_le(a, b) || lex_le(b, a),
    decreases a.len(),
{
    if a.len() > 0 && b.len() > 0 && a[0] as u32 == b[0] as u32 {
        lemma_lex_le_total(a.drop_first(), b.drop_first());
    }
}

/// [`lex_le`] is transitive.
pub proof fn lemma_lex_le_trans(a: Seq<char>, b: Seq<char>, c: Seq<char>)
    requires
        lex_le(a, b),
        lex_le(b, c),
    ensures
        lex_le(a, c),
    decreases a.len(),
{
    if a.len() > 0 && b.len() > 0 && c.len() > 0 && a[0] as u32 == b[0] as u32 && b[0] as u32
        == c[0] as u32 {
        lemma_lex_le_trans(a.drop_first(), b.drop_first(), c.drop_first());
    }
}

/// Compares two strings in the order of [`lex_le`].
pub fn str_le(a: &str, b: &str) -> (r: bool)
    ensures
        r == lex_le(a@, b@),
{
    let an = a.unicode_len();
    let bn = b.unicode_len();
    let mut i: usize = 0;
    proof {
        assert(a@.skip(0) =~= a@);
        assert(b@.skip(0) =~= b@);
    }
    loop
        invariant
            i <= an == a@.len(),
            i <= bn == b@.len(),
            lex_le(a@, b@) == lex_le(a@.skip(i as int), b@.skip(i as int)),
        decreases an - i,
    {
        if i == an {
            return true;
        }
        if i == bn {
            return false;
        }
        let ca = a.get_char(i);
        let cb = b.get_char(i);
        if (ca as u32) < (cb as u32) {
            return true;
        }
        if (cb as u32) < (ca as u32) {
            return false;
        }
        proof {
            assert(a@.skip(i as int).drop_first() =~= a@.skip(i as int + 1));
            assert(b@.skip(i as int).drop_first() =~= b@.skip(i as int + 1));
        }
        i = i + 1;
    }
}

/// Whether `needle` occurs contiguously inside `hay`.
pub open spec fn seq_contains(hay: Seq<char>, needle: Seq<char>) -> bool {
    exists|k: int|
        0 <= k && k + needle.len() <= hay.len() && #[trigger] hay.subrange(k, k + needle.len())
            == needle
}

/// Plain substring test, the matcher behind every text query.
pub fn str_contains(hay: &str, needle: &str) -> (r: bool)
    ensures
        r == seq_contains(hay@, needle@),
{
    let hn = hay.unicode_len();
    let nn = needle.unicode_len();
    if nn > hn {
        return false;
    }
    if nn == 0 {
        proof {
            assert(hay@.subrange(0, 0 + needle@.len() as int) =~= needle@);
        }
        return true;
    }
    let mut k: usize = 0;
    while k <= hn - nn
        invariant
            1 <= nn <= hn == hay@.len(),
            nn == needle@.len(),
            k <= hn - nn + 1,
            forall|k0: int|
                0 <= k0 < k ==> #[trigger] hay@.subrange(k0, k0 + needle@.len()) != needle@,
        decreases hn - nn + 1 - k,
    {
        let mut j: usize = 0;
        let mut mismatch = false;
        while j < nn
            invariant
                1 <= nn,
                k + nn <= hn == hay@.len(),
                nn == needle@.len(),
                j <= nn,
                !mismatch ==> forall|j0: int|
                    0 <= j0 < j ==> hay@[k + j0] == #[trigger] needle@[j0],
                mismatch ==> hay@.subrange(k as int, k as int + needle@.len()) != needle@,
            decreases nn - j,
        {
            let hc = hay.get_char(k + j);
            let nc = needle.get_char(j);
            if hc as u32 != nc as u32 {
                proof {
                    let sub = hay@.subrange(k as int, k as int + needle@.len());
                    assert(sub[j as int] == hay@[k as int + j]);
                }
                mismatch = true;
                j = nn;
            } else {
                j = j + 1;
            }
        }
        if !mismatch {
            proof {
                assert(hay@.subrange(k as int, k as int + needle@.len()) =~= needle@);
            }
            return true;
        }
        k = k + 1;
    }
    proof {
        assert(forall|k0: int|
            0 <= k0 && k0 + needle@.len() <= hay@.len() ==> #[trigger] hay@.subrange(
                k0,
                k0 + needle@.len(),
            ) != needle@);
    }
    false
}

/// The case-folded form of a character sequence, as `str::to_lowercase`
/// yields it.  The folding rules fill pages, so the result only carries a
/// name here; [`lowercase`] is the sole way a value of it comes to exist.
pub uninterp spec fn lower_of(s: Seq<char>) -> Seq<char>;

/// Relies on str::to_lowercase: the result depends on the characters alone,
/// and an empty string folds to an empty string.
#[verifier::external_body]
pub(crate) fn lowercase(s: &str) -> (r: String)
    ensures
        r@ == lower_of(s@),
        s@.len() == 0 ==> r@.len() == 0,
{
    s.to_lowercase()
}

/// Whether a record with the given name and path matches the case-folded
/// query `q`: the fold of either field has `q` as a substring.
pub open spec fn spec_matches(name: Seq<char>, path: Seq<char>, q: Seq<char>) -> bool {
    seq_contains(lower_of(name), q) || seq_contains(lower_of(path), q)
}

/// Case-insensitive matcher: `q_lower` must already be case-folded.
pub fn name_or_path_matches(name: &str, path: &str, q_lower: &str) -> (r: bool)
    ensures
        r == spec_matches(name@, path@, q_lower@),
{
    let folded_name = lowercase(name);
    if str_contains(folded_name.as_str(), q_lower) {
        true
    } else {
        let folded_path = lowercase(path);
        str_contains(folded_path.as_str(), q_lower)
    }
}

} // verus!
