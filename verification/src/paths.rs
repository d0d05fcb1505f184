//! Canonical path strings: normalization and the derived parent / base name.
//!
//! A canonical path carries no trailing separator, except for the root path
//! `"/"` itself.  Every lookup and every write into the store normalizes
//! first, so records observed with and without a trailing separator collapse
//! onto one key.

use vstd::prelude::*;
use vstd::string::StrSliceExecFns;

verus! {

/// The canonical form of a path: trailing `'/'` characters are stripped,
/// except that the one-character path `"/"` stays as it is.
pub open spec fn spec_normalize(p: Seq<char>) -> Seq<char>
    decreases p.len(),
{
    if p.len() > 1 && p.last() == '/' {
        spec_normalize(p.drop_last())
    } else {
        p
    }
}

/// Whether a path is already in canonical form.
pub open spec fn is_normalized(p: Seq<char>) -> bool {
    spec_normalize(p) == p
}

/// Normalization never needs a second pass.
pub proof fn lemma_normalize_idempotent(p: Seq<char>)
    ensures
        spec_normalize(spec_normalize(p)) == spec_normalize(p),
    decreases p.len(),
{
    if p.len() > 1 && p.last() == '/' {
        lemma_normalize_idempotent(p.drop_last());
    }
}

/// Strips trailing separators from `path`, keeping a lone `"/"` intact.
pub fn normalize_path(path: &str) -> (r: String)
    ensures
        r@ == spec_normalize(path@),
{
    let n = path.unicode_len();
    let mut end: usize = n;
    proof {
        assert(path@.subrange(0, path@.len() as int) =~= path@);
    }
    while end > 1 && path.get_char(end - 1) == '/'
        invariant
            end <= path@.len(),
            spec_normalize(path@) == spec_normalize(path@.subrange(0, end as int)),
        decreases end,
    {
        proof {
            let cur = path@.subrange(0, end as int);
            assert(cur.drop_last() =~= path@.subrange(0, end as int - 1));
        }
        end = end - 1;
    }
    let s = path.substring_char(0, end);
    proof {
        assert(path@.subrange(0, path@.len() as int) =~= path@);
    }
    s.to_owned()
}

/// The index of the last `'/'` in `p`, or `-1` if `p` holds none.
pub open spec fn rfind_slash(p: Seq<char>) -> int
    decreases p.len(),
{
    if p.len() == 0 {
        -1
    } else if p.last() == '/' {
        p.len() - 1
    } else {
        rfind_slash(p.drop_last())
    }
}

/// The containing directory of a path, or `None` for the root path and for
/// paths without any separator.
pub open spec fn spec_parent(p: Seq<char>) -> Option<Seq<char>> {
    let j = rfind_slash(p);
    if j < 0 || p.len() <= 1 {
        None
    } else if j == 0 {
        Some(seq!['/'])
    } else {
        Some(p.subrange(0, j))
    }
}

/// The base name component of a path: everything after the last separator,
/// or the whole path when it holds none.  The root path has the empty name.
pub open spec fn spec_base_name(p: Seq<char>) -> Seq<char> {
    let j = rfind_slash(p);
    if j < 0 {
        p
    } else {
        p.subrange(j + 1, p.len() as int)
    }
}

/// Scans `path` backwards for its last separator; returns its index plus
/// one, or `0` when there is none.
fn slash_scan(path: &str) -> (i: usize)
    ensures
        i as int - 1 == rfind_slash(path@),
        i <= path@.len(),
{
    let n = path.unicode_len();
    let mut i: usize = n;
    proof {
        assert(path@.subrange(0, path@.len() as int) =~= path@);
    }
    while i > 0 && path.get_char(i - 1) != '/'
        invariant
            i <= path@.len(),
            rfind_slash(path@) == rfind_slash(path@.subrange(0, i as int)),
        decreases i,
    {
        proof {
            let cur = path@.subrange(0, i as int);
            assert(cur.drop_last() =~= path@.subrange(0, i as int - 1));
        }
        i = i - 1;
    }
    proof {
        assert(path@.subrange(0, path@.len() as int) =~= path@);
        if i > 0 {
            let cur = path@.subrange(0, i as int);
            assert(cur.last() == '/');
        }
    }
    i
}

/// The containing directory of `path`, as [`spec_parent`] gives it.
pub fn parent_of(path: &str) -> (r: Option<String>)
    ensures
        match r {
            Some(s) => spec_parent(path@) == Some(s@),
            None => spec_parent(path@) is None,
        },
{
    let n = path.unicode_len();
    let i = slash_scan(path);
    if i == 0 || n <= 1 {
        None
    } else if i == 1 {
        let root = "/";
        proof {
            reveal_strlit("/");
            assert(root@ =~= seq!['/']);
        }
        Some(root.to_owned())
    } else {
        Some(path.substring_char(0, i - 1).to_owned())
    }
}

/// The base name component of `path`, as [`spec_base_name`] gives it.
pub fn base_name_of(path: &str) -> (r: String)
    ensures
        r@ == spec_base_name(path@),
{
    let n = path.unicode_len();
    let i = slash_scan(path);
    path.substring_char(i, n).to_owned()
}

} // verus!
