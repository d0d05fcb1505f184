//! The orders every listing uses, and verified sorting under them.
//!
//! Query results are ordered by name ascending; directory-scoped listings
//! put all directory records before all file records first.  Tag listings
//! are ordered by tag name.

use vstd::prelude::*;
use vstd::relations::sorted_by;
use vstd::seq_lib::lemma_multiset_commutative;
use crate::tag_db::{metas, tag_metas, FileEntry, FileMeta, FileType, Tag, TagMeta};
use crate::text::{lemma_lex_le_total, lemma_lex_le_trans, lex_le, str_le};

verus! {

/// Directory records order before file records in directory-scoped views.
pub open spec fn rank(k: FileType) -> int {
    if k is Directory {
        0
    } else {
        1
    }
}

/// The order of a listing: by name ascending, and, when `dirs_first` is
/// set, all directories before all files.
pub open spec fn ord_le(a: FileMeta, b: FileMeta, dirs_first: bool) -> bool {
    if dirs_first {
        rank(a.kind) < rank(b.kind) || (rank(a.kind) == rank(b.kind) && lex_le(a.name, b.name))
    } else {
        lex_le(a.name, b.name)
    }
}

/// [`ord_le`] with the flag fixed, in the shape [`sorted_by`] takes.
pub open spec fn ord_le_f(dirs_first: bool) -> spec_fn(FileMeta, FileMeta) -> bool {
    |a: FileMeta, b: FileMeta| ord_le(a, b, dirs_first)
}

/// Tag listings are ordered by tag name ascending.
pub open spec fn tag_le(a: TagMeta, b: TagMeta) -> bool {
    lex_le(a.name, b.name)
}

/// [`tag_le`] in the shape [`sorted_by`] takes.
pub open spec fn tag_le_f() -> spec_fn(TagMeta, TagMeta) -> bool {
    |a: TagMeta, b: TagMeta| tag_le(a, b)
}

/// Law: in a listing sorted with directories first, every directory
/// record stands before every file record, whatever the names say.
pub proof fn lemma_dirs_precede_files(s: Seq<FileMeta>)
    requires
        sorted_by(s, ord_le_f(true)),
    ensures
        forall|i: int, j: int|
            0 <= i < j < s.len() ==> !((#[trigger] s[i]).kind == FileType::File && (
            #[trigger] s[j]).kind == FileType::Directory),
{
    assert forall|i: int, j: int| 0 <= i < j < s.len() implies !((#[trigger] s[i]).kind
        == FileType::File && (#[trigger] s[j]).kind == FileType::Directory) by {
        assert(ord_le_f(true)(s[i], s[j]));
    }
}

proof fn lemma_ord_le_total(a: FileMeta, b: FileMeta, dirs_first: bool)
    ensures
        ord_le(a, b, dirs_first) || ord_le(b, a, dirs_first),
{
    lemma_lex_le_total(a.name, b.name);
}

proof fn lemma_ord_le_trans(a: FileMeta, b: FileMeta, c: FileMeta, dirs_first: bool)
    requires
        ord_le(a, b, dirs_first),
        ord_le(b, c, dirs_first),
    ensures
        ord_le(a, c, dirs_first),
{
    if !dirs_first || (rank(a.kind) == rank(b.kind) && rank(b.kind) == rank(c.kind)) {
        lemma_lex_le_trans(a.name, b.name, c.name);
    }
}

/// Inserting an element anywhere adds exactly it to the multiset.
proof fn lemma_insert_multiset<A>(s: Seq<A>, i: int, x: A)
    requires
        0 <= i <= s.len(),
    ensures
        s.insert(i, x).to_multiset() == s.to_multiset().insert(x),
{
    let a = s.subrange(0, i);
    let b = s.subrange(i, s.len() as int);
    assert(s.insert(i, x) =~= a.push(x) + b);
    assert(s =~= a + b);
    lemma_multiset_commutative(a.push(x), b);
    lemma_multiset_commutative(a, b);
    a.to_multiset_ensures();
    assert(s.insert(i, x).to_multiset() =~= s.to_multiset().insert(x));
}

/// Mapping a function over a sequence commutes with inserting.
proof fn lemma_map_values_insert<A, B>(s: Seq<A>, i: int, x: A, f: spec_fn(A) -> B)
    requires
        0 <= i <= s.len(),
    ensures
        s.insert(i, x).map_values(f) == s.map_values(f).insert(i, f(x)),
{
    s.insert_ensures(i, x);
    s.map_values(f).insert_ensures(i, f(x));
    assert(s.insert(i, x).map_values(f) =~= s.map_values(f).insert(i, f(x)));
}

/// Exec comparator deciding [`ord_le`].
fn entry_le(a: &FileEntry, b: &FileEntry, dirs_first: bool) -> (r: bool)
    ensures
        r == ord_le(a@, b@, dirs_first),
{
    if dirs_first {
        let ra: u8 = match a.file_type {
            FileType::Directory => 0,
            FileType::File => 1,
        };
        let rb: u8 = match b.file_type {
            FileType::Directory => 0,
            FileType::File => 1,
        };
        if ra < rb {
            true
        } else if rb < ra {
            false
        } else {
            str_le(a.name.as_str(), b.name.as_str())
        }
    } else {
        str_le(a.name.as_str(), b.name.as_str())
    }
}

/// Inserts `x` into a vector sorted under [`ord_le`], keeping it sorted.
fn insert_entry_sorted(out: &mut Vec<FileEntry>, x: FileEntry, dirs_first: bool)
    requires
        sorted_by(metas(old(out)@), ord_le_f(dirs_first)),
    ensures
        sorted_by(metas(final(out)@), ord_le_f(dirs_first)),
        metas(final(out)@).to_multiset() == metas(old(out)@).to_multiset().insert(x@),
{
    let ghost s = metas(out@);
    let mut j: usize = 0;
    while j < out.len() && entry_le(&out[j], &x, dirs_first)
        invariant
            j <= out@.len(),
            s == metas(out@),
            forall|k: int| 0 <= k < j ==> ord_le(#[trigger] s[k], x@, dirs_first),
        decreases out@.len() - j,
    {
        j = j + 1;
    }
    proof {
        if (j as int) < s.len() {
            lemma_ord_le_total(s[j as int], x@, dirs_first);
        }
    }
    out.insert(j, x);
    proof {
        lemma_map_values_insert(old(out)@, j as int, x, |e: FileEntry| e@);
        lemma_insert_multiset(s, j as int, x@);
        let s2 = metas(final(out)@);
        assert(s2 == s.insert(j as int, x@));
        s.insert_ensures(j as int, x@);
        assert forall|a: int, b: int| 0 <= a < b < s2.len() implies #[trigger] ord_le_f(
            dirs_first,
        )(s2[a], s2[b]) by {
            if b < j {
                assert(ord_le_f(dirs_first)(s[a], s[b]));
            } else if b == j {
                assert(ord_le(s[a], x@, dirs_first));
            } else if a < j {
                assert(ord_le_f(dirs_first)(s[a], s[b - 1]));
            } else if a == j {
                if j as int == b - 1 {
                } else {
                    assert(ord_le_f(dirs_first)(s[j as int], s[b - 1]));
                    lemma_ord_le_trans(x@, s[j as int], s[b - 1], dirs_first);
                }
            } else {
                assert(ord_le_f(dirs_first)(s[a - 1], s[b - 1]));
            }
        }
    }
}

/// Sorts file records under [`ord_le`]: by name, with directories first
/// when `dirs_first` is set.  The records themselves are only rearranged.
pub fn sort_entries(v: Vec<FileEntry>, dirs_first: bool) -> (r: Vec<FileEntry>)
    ensures
        sorted_by(metas(r@), ord_le_f(dirs_first)),
        metas(r@).to_multiset() == metas(v@).to_multiset(),
{
    let ghost orig = metas(v@);
    let mut src = v;
    let mut out: Vec<FileEntry> = Vec::new();
    proof {
        assert(metas(out@) =~= Seq::<FileMeta>::empty());
        metas(out@).to_multiset_ensures();
        orig.to_multiset_ensures();
        assert(metas(out@).to_multiset().add(metas(src@).to_multiset()) =~= orig.to_multiset());
    }
    while src.len() > 0
        invariant
            sorted_by(metas(out@), ord_le_f(dirs_first)),
            metas(out@).to_multiset().add(metas(src@).to_multiset()) == orig.to_multiset(),
        decreases src@.len(),
    {
        let ghost pre = metas(src@);
        let x = src.pop().unwrap();
        proof {
            assert(pre =~= metas(src@).push(x@));
            metas(src@).to_multiset_ensures();
            assert(pre.to_multiset() =~= metas(src@).to_multiset().insert(x@));
        }
        insert_entry_sorted(&mut out, x, dirs_first);
        proof {
            assert(metas(out@).to_multiset().add(metas(src@).to_multiset()) =~= orig.to_multiset());
        }
    }
    proof {
        assert(metas(src@) =~= Seq::<FileMeta>::empty());
        metas(src@).to_multiset_ensures();
        assert(metas(out@).to_multiset() =~= orig.to_multiset());
    }
    out
}

proof fn lemma_tag_le_total(a: TagMeta, b: TagMeta)
    ensures
        tag_le(a, b) || tag_le(b, a),
{
    lemma_lex_le_total(a.name, b.name);
}

proof fn lemma_tag_le_trans(a: TagMeta, b: TagMeta, c: TagMeta)
    requires
        tag_le(a, b),
        tag_le(b, c),
    ensures
        tag_le(a, c),
{
    lemma_lex_le_trans(a.name, b.name, c.name);
}

/// Inserts `x` into a vector of tags sorted by name, keeping it sorted.
fn insert_tag_sorted(out: &mut Vec<Tag>, x: Tag)
    requires
        sorted_by(tag_metas(old(out)@), tag_le_f()),
    ensures
        sorted_by(tag_metas(final(out)@), tag_le_f()),
        tag_metas(final(out)@).to_multiset() == tag_metas(old(out)@).to_multiset().insert(x@),
{
    let ghost s = tag_metas(out@);
    let mut j: usize = 0;
    while j < out.len() && str_le(out[j].name.as_str(), x.name.as_str())
        invariant
            j <= out@.len(),
            s == tag_metas(out@),
            forall|k: int| 0 <= k < j ==> tag_le(#[trigger] s[k], x@),
        decreases out@.len() - j,
    {
        j = j + 1;
    }
    proof {
        if (j as int) < s.len() {
            lemma_tag_le_total(s[j as int], x@);
        }
    }
    out.insert(j, x);
    proof {
        lemma_map_values_insert(old(out)@, j as int, x, |t: Tag| t@);
        lemma_insert_multiset(s, j as int, x@);
        let s2 = tag_metas(final(out)@);
        assert(s2 == s.insert(j as int, x@));
        s.insert_ensures(j as int, x@);
        assert forall|a: int, b: int| 0 <= a < b < s2.len() implies #[trigger] tag_le_f()(
            s2[a],
            s2[b],
        ) by {
            if b < j {
                assert(tag_le_f()(s[a], s[b]));
            } else if b == j {
                assert(tag_le(s[a], x@));
            } else if a < j {
                assert(tag_le_f()(s[a], s[b - 1]));
            } else if a == j {
                if j as int == b - 1 {
                } else {
                    assert(tag_le_f()(s[j as int], s[b - 1]));
                    lemma_tag_le_trans(x@, s[j as int], s[b - 1]);
                }
            } else {
                assert(tag_le_f()(s[a - 1], s[b - 1]));
            }
        }
    }
}

/// Sorts tags by name ascending; the tags themselves are only rearranged.
pub fn sort_tags(v: Vec<Tag>) -> (r: Vec<Tag>)
    ensures
        sorted_by(tag_metas(r@), tag_le_f()),
        tag_metas(r@).to_multiset() == tag_metas(v@).to_multiset(),
{
    let ghost orig = tag_metas(v@);
    let mut src = v;
    let mut out: Vec<Tag> = Vec::new();
    proof {
        assert(tag_metas(out@) =~= Seq::<TagMeta>::empty());
        tag_metas(out@).to_multiset_ensures();
        orig.to_multiset_ensures();
        assert(tag_metas(out@).to_multiset().add(tag_metas(src@).to_multiset())
            =~= orig.to_multiset());
    }
    while src.len() > 0
        invariant
            sorted_by(tag_metas(out@), tag_le_f()),
            tag_metas(out@).to_multiset().add(tag_metas(src@).to_multiset()) == orig.to_multiset(),
        decreases src@.len(),
    {
        let ghost pre = tag_metas(src@);
        let x = src.pop().unwrap();
        proof {
            assert(pre =~= tag_metas(src@).push(x@));
            tag_metas(src@).to_multiset_ensures();
            assert(pre.to_multiset() =~= tag_metas(src@).to_multiset().insert(x@));
        }
        insert_tag_sorted(&mut out, x);
        proof {
            assert(tag_metas(out@).to_multiset().add(tag_metas(src@).to_multiset())
                =~= orig.to_multiset());
        }
    }
    proof {
        assert(tag_metas(src@) =~= Seq::<TagMeta>::empty());
        tag_metas(src@).to_multiset_ensures();
        assert(tag_metas(out@).to_multiset() =~= orig.to_multiset());
    }
    out
}

} // verus!
