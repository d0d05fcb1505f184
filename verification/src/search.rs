//! The query layer: global, directory-scoped and tag-scoped substring
//! search against one index store.
//!
//! Matching is a plain case-insensitive substring test against a record's
//! name or path; interactive queries are capped at [`SEARCH_CAP`] rows.

use vstd::prelude::*;
use vstd::relations::sorted_by;
use crate::ordering::{ord_le_f, sort_entries};
use crate::tag_db::{children_of, metas, tagged_files, FileEntry, FileMeta, TagDatabase};
use crate::text::{lower_of, lowercase, name_or_path_matches, spec_matches};

verus! {

/// Interactive queries return at most this many rows.
pub const SEARCH_CAP: usize = 1000;

/// The records matching the case-folded query `q`, in the order given.
pub open spec fn matching(files: Seq<FileMeta>, q: Seq<char>) -> Seq<FileMeta> {
    files.filter(|m: FileMeta| spec_matches(m.name, m.path, q))
}

/// The records under the canonical directory `dir` matching the
/// case-folded query `q`, in the order given.
pub open spec fn dir_matching(files: Seq<FileMeta>, dir: Seq<char>, q: Seq<char>) -> Seq<
    FileMeta,
> {
    files.filter(
        |m: FileMeta| m.parent == Some(dir) && spec_matches(m.name, m.path, q),
    )
}

/// An ordered result cut to the first [`SEARCH_CAP`] rows.
pub open spec fn capped(s: Seq<FileMeta>) -> Seq<FileMeta> {
    if s.len() <= SEARCH_CAP as int {
        s
    } else {
        s.take(SEARCH_CAP as int)
    }
}

/// Keeping only the matches of a sorted sequence leaves it sorted, and
/// every kept record comes from the sequence.
proof fn lemma_matching_sorted(s: Seq<FileMeta>, q: Seq<char>, dirs_first: bool)
    requires
        sorted_by(s, ord_le_f(dirs_first)),
    ensures
        sorted_by(matching(s, q), ord_le_f(dirs_first)),
        forall|i: int| 0 <= i < matching(s, q).len() ==> s.contains(#[trigger] matching(s, q)[i]),
    decreases s.len(),
{
    reveal(Seq::filter);
    if s.len() > 0 {
        let prefix = s.drop_last();
        assert(sorted_by(prefix, ord_le_f(dirs_first))) by {
            assert forall|a: int, b: int| 0 <= a < b < prefix.len() implies #[trigger] ord_le_f(
                dirs_first,
            )(prefix[a], prefix[b]) by {
                assert(ord_le_f(dirs_first)(s[a], s[b]));
            }
        }
        lemma_matching_sorted(prefix, q, dirs_first);
        let f = matching(s, q);
        let fp = matching(prefix, q);
        assert forall|i: int| 0 <= i < f.len() implies s.contains(#[trigger] f[i]) by {
            if i < fp.len() {
                assert(f[i] == fp[i]);
                assert(prefix.contains(fp[i]));
                let j = choose|j: int| 0 <= j < prefix.len() && prefix[j] == fp[i];
                assert(s[j] == f[i]);
            } else {
                assert(f[i] == s.last());
                assert(s[s.len() - 1] == s.last());
            }
        }
        assert forall|a: int, b: int| 0 <= a < b < f.len() implies #[trigger] ord_le_f(dirs_first)(
            f[a],
            f[b],
        ) by {
            if b < fp.len() {
                assert(f[a] == fp[a]);
                assert(f[b] == fp[b]);
                assert(ord_le_f(dirs_first)(fp[a], fp[b]));
            } else {
                assert(f[a] == fp[a]);
                assert(prefix.contains(fp[a]));
                let j = choose|j: int| 0 <= j < prefix.len() && prefix[j] == fp[a];
                assert(ord_le_f(dirs_first)(s[j], s[s.len() - 1]));
            }
        }
    }
}

/// A prefix of a sorted sequence is sorted.
proof fn lemma_capped_sorted(s: Seq<FileMeta>, dirs_first: bool)
    requires
        sorted_by(s, ord_le_f(dirs_first)),
    ensures
        sorted_by(capped(s), ord_le_f(dirs_first)),
{
    let c = capped(s);
    assert forall|a: int, b: int| 0 <= a < b < c.len() implies #[trigger] ord_le_f(dirs_first)(
        c[a],
        c[b],
    ) by {
        assert(ord_le_f(dirs_first)(s[a], s[b]));
    }
}

/// The query layer.  It holds no state of its own; every call reads one
/// store, which the caller keeps for no longer than that call.
pub struct SearchEngine {}

impl SearchEngine {
    /// Creates a query layer.
    pub fn new() -> (s: SearchEngine) {
        SearchEngine {  }
    }

    /// Global substring search: an empty query yields an empty result;
    /// otherwise every record whose name or path contains `query`
    /// case-insensitively, ordered by name ascending, capped at
    /// [`SEARCH_CAP`] rows.
    pub fn search(&self, db: &TagDatabase, query: &String) -> (r: Vec<FileEntry>)
        requires
            db.wf(),
        ensures
            query@.len() == 0 ==> r@.len() == 0,
            query@.len() > 0 ==> exists|s: Seq<FileMeta>|
                {
                    &&& sorted_by(s, ord_le_f(false))
                    &&& s.to_multiset() == matching(db.files(), lower_of(query@)).to_multiset()
                    &&& metas(r@) == capped(s)
                },
            sorted_by(metas(r@), ord_le_f(false)),
            r@.len() <= SEARCH_CAP,
            query@.len() > 0 ==> r@.len() as int == vstd::math::min(
                matching(db.files(), lower_of(query@)).len() as int,
                SEARCH_CAP as int,
            ),
    {
        if query.as_str().is_empty() {
            let empty: Vec<FileEntry> = Vec::new();
            proof {
                assert(metas(empty@) =~= Seq::<FileMeta>::empty());
            }
            return empty;
        }
        let ql = lowercase(query.as_str());
        let rows = db.entries();
        let mut picked: Vec<FileEntry> = Vec::new();
        let mut i: usize = 0;
        proof {
            reveal(Seq::filter);
            assert(db.files().take(0) =~= Seq::<FileMeta>::empty());
            assert(metas(picked@) =~= matching(db.files().take(0), ql@));
        }
        while i < rows.len()
            invariant
                i <= rows@.len(),
                metas(rows@) == db.files(),
                ql@ == lower_of(query@),
                metas(picked@) == matching(db.files().take(i as int), ql@),
            decreases rows@.len() - i,
        {
            let e = &rows[i];
            let hit = name_or_path_matches(e.name.as_str(), e.path.as_str(), ql.as_str());
            proof {
                broadcast use Seq::lemma_filter_push;

                assert(db.files()[i as int] == e@);
                assert(db.files().take(i as int + 1) =~= db.files().take(i as int).push(e@));
            }
            if hit {
                let ghost pre = metas(picked@);
                picked.push(e.clone());
                proof {
                    assert(metas(picked@) =~= pre.push(e@));
                }
            }
            i = i + 1;
        }
        proof {
            assert(db.files().take(rows@.len() as int) =~= db.files());
        }
        let sorted = sort_entries(picked, false);
        let ghost s = metas(sorted@);
        let mut out = sorted;
        out.truncate(SEARCH_CAP);
        proof {
            if s.len() <= SEARCH_CAP as int {
                assert(out@ =~= sorted@);
                assert(metas(out@) =~= capped(s));
            } else {
                assert(metas(out@) =~= s.take(SEARCH_CAP as int));
            }
            lemma_capped_sorted(s, false);
            s.to_multiset_ensures();
            matching(db.files(), ql@).to_multiset_ensures();
            assert(s.len() == matching(db.files(), ql@).len());
        }
        out
    }

    /// Directory-scoped search: an empty query is the directories-first
    /// listing of the directory; otherwise the substring match restricted
    /// to records whose parent is the normalized `dir_path`, ordered
    /// directories first then by name, capped at [`SEARCH_CAP`] rows.
    pub fn search_in_directory(&self, db: &TagDatabase, dir_path: &String, query: &String) -> (r:
        Vec<FileEntry>)
        requires
            db.wf(),
        ensures
            query@.len() == 0 ==> sorted_by(metas(r@), ord_le_f(true)) && metas(r@).to_multiset()
                == children_of(db.files(), crate::paths::spec_normalize(dir_path@)).to_multiset(),
            query@.len() > 0 ==> exists|s: Seq<FileMeta>|
                {
                    &&& sorted_by(s, ord_le_f(true))
                    &&& s.to_multiset() == dir_matching(
                        db.files(),
                        crate::paths::spec_normalize(dir_path@),
                        lower_of(query@),
                    ).to_multiset()
                    &&& metas(r@) == capped(s)
                },
            sorted_by(metas(r@), ord_le_f(true)),
            query@.len() > 0 ==> r@.len() as int == vstd::math::min(
                dir_matching(
                    db.files(),
                    crate::paths::spec_normalize(dir_path@),
                    lower_of(query@),
                ).len() as int,
                SEARCH_CAP as int,
            ),
    {
        if query.as_str().is_empty() {
            return db.get_files_in_directory(dir_path);
        }
        let ndir = crate::paths::normalize_path(dir_path.as_str());
        let ql = lowercase(query.as_str());
        let rows = db.entries();
        let mut picked: Vec<FileEntry> = Vec::new();
        let mut i: usize = 0;
        proof {
            reveal(Seq::filter);
            assert(db.files().take(0) =~= Seq::<FileMeta>::empty());
            assert(metas(picked@) =~= dir_matching(db.files().take(0), ndir@, ql@));
        }
        while i < rows.len()
            invariant
                i <= rows@.len(),
                metas(rows@) == db.files(),
                ql@ == lower_of(query@),
                ndir@ == crate::paths::spec_normalize(dir_path@),
                metas(picked@) == dir_matching(db.files().take(i as int), ndir@, ql@),
            decreases rows@.len() - i,
        {
            let e = &rows[i];
            let in_dir = TagDatabase::parent_is(e, &ndir);
            let hit = if in_dir {
                name_or_path_matches(e.name.as_str(), e.path.as_str(), ql.as_str())
            } else {
                false
            };
            proof {
                broadcast use Seq::lemma_filter_push;

                assert(db.files()[i as int] == e@);
                assert(db.files().take(i as int + 1) =~= db.files().take(i as int).push(e@));
            }
            if hit {
                let ghost pre = metas(picked@);
                picked.push(e.clone());
                proof {
                    assert(metas(picked@) =~= pre.push(e@));
                }
            }
            i = i + 1;
        }
        proof {
            assert(db.files().take(rows@.len() as int) =~= db.files());
        }
        let sorted = sort_entries(picked, true);
        let ghost s = metas(sorted@);
        let mut out = sorted;
        out.truncate(SEARCH_CAP);
        proof {
            if s.len() <= SEARCH_CAP as int {
                assert(out@ =~= sorted@);
                assert(metas(out@) =~= capped(s));
            } else {
                assert(metas(out@) =~= s.take(SEARCH_CAP as int));
            }
            lemma_capped_sorted(s, true);
            s.to_multiset_ensures();
            dir_matching(db.files(), ndir@, ql@).to_multiset_ensures();
            assert(s.len() == dir_matching(db.files(), ndir@, ql@).len());
        }
        out
    }

    /// Tag-scoped search: starts from the files linked to `tag_name`
    /// (ordered by name) and, for a non-empty query, keeps only the
    /// substring matches, in that order and with no further cap.
    pub fn search_by_tag(&self, db: &TagDatabase, tag_name: &String, query: &String) -> (r: Vec<
        FileEntry,
    >)
        requires
            db.wf(),
        ensures
            exists|s: Seq<FileMeta>|
                {
                    &&& sorted_by(s, ord_le_f(false))
                    &&& s.to_multiset() == tagged_files(
                        db.files(),
                        db.links(),
                        tag_name@,
                    ).to_multiset()
                    &&& metas(r@) == (if query@.len() == 0 {
                        s
                    } else {
                        matching(s, lower_of(query@))
                    })
                },
            sorted_by(metas(r@), ord_le_f(false)),
    {
        let base = db.get_files_by_tag(tag_name);
        let ghost s = metas(base@);
        if query.as_str().is_empty() {
            return base;
        }
        let ql = lowercase(query.as_str());
        let mut out: Vec<FileEntry> = Vec::new();
        let mut i: usize = 0;
        proof {
            reveal(Seq::filter);
            assert(s.take(0) =~= Seq::<FileMeta>::empty());
            assert(metas(out@) =~= matching(s.take(0), ql@));
        }
        while i < base.len()
            invariant
                i <= base@.len(),
                s == metas(base@),
                ql@ == lower_of(query@),
                metas(out@) == matching(s.take(i as int), ql@),
            decreases base@.len() - i,
        {
            let e = &base[i];
            let hit = name_or_path_matches(e.name.as_str(), e.path.as_str(), ql.as_str());
            proof {
                broadcast use Seq::lemma_filter_push;

                assert(s[i as int] == e@);
                assert(s.take(i as int + 1) =~= s.take(i as int).push(e@));
            }
            if hit {
                let ghost pre = metas(out@);
                out.push(e.clone());
                proof {
                    assert(metas(out@) =~= pre.push(e@));
                }
            }
            i = i + 1;
        }
        proof {
            assert(s.take(base@.len() as int) =~= s);
            lemma_matching_sorted(s, ql@, false);
        }
        out
    }
}

} // verus!
