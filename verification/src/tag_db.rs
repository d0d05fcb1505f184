//! The index store: file records, tags, file-tag links, and the text index
//! kept in lockstep with the file records.
//!
//! The store is the single point of mutation and the single point of truth
//! for every derived read.  Its state is modelled by four sequences of
//! mathematical values; every operation's contract says exactly how those
//! sequences change.

use vstd::prelude::*;
use vstd::pervasive::VecAdditionalExecFns;
use vstd::relations::sorted_by;
use crate::ordering::{ord_le_f, sort_entries, sort_tags, tag_le_f};
use crate::paths::{normalize_path, spec_normalize};

verus! {

/// The kind of a file record.
#[derive(Debug, Clone, Copy, PartialEq, Eq, Structural)]
pub enum FileType {
    File,
    Directory,
}

/// One row per filesystem path ever observed.
#[derive(Debug, PartialEq)]
pub struct FileEntry {
    /// Canonical absolute path; the unique key.
    pub path: String,
    /// Base name component.
    pub name: String,
    /// Whether the path is a plain file or a directory.
    pub file_type: FileType,
    /// Byte length; `0` for directories or when unreadable.
    pub size: u64,
    /// Seconds since the epoch; `0` when unreadable.
    pub modified: i64,
    /// Canonical path of the containing directory, absent for the root.
    pub parent: Option<String>,
}

/// The mathematical value of a [`FileEntry`].
pub ghost struct FileMeta {
    pub path: Seq<char>,
    pub name: Seq<char>,
    pub kind: FileType,
    pub size: u64,
    pub modified: i64,
    pub parent: Option<Seq<char>>,
}

impl View for FileEntry {
    type V = FileMeta;

    open spec fn view(&self) -> FileMeta {
        FileMeta {
            path: self.path@,
            name: self.name@,
            kind: self.file_type,
            size: self.size,
            modified: self.modified,
            parent: match self.parent {
                Some(p) => Some(p@),
                None => None,
            },
        }
    }
}

impl Clone for FileEntry {
    fn clone(&self) -> (r: Self)
        ensures
            r == *self,
    {
        FileEntry {
            path: self.path.clone(),
            name: self.name.clone(),
            file_type: self.file_type,
            size: self.size,
            modified: self.modified,
            parent: match &self.parent {
                Some(p) => Some(p.clone()),
                None => None,
            },
        }
    }
}

/// A named label with its live link count, as listings return it.
#[derive(Debug, PartialEq)]
pub struct Tag {
    /// The unique tag name.
    pub name: String,
    /// Optional display hint; the query logic never reads it.
    pub color: Option<String>,
    /// Count of file-tag links carrying this name, computed at read time.
    pub file_count: usize,
}

/// The mathematical value of a [`Tag`].
pub ghost struct TagMeta {
    pub name: Seq<char>,
    pub color: Option<Seq<char>>,
    pub file_count: nat,
}

impl View for Tag {
    type V = TagMeta;

    open spec fn view(&self) -> TagMeta {
        TagMeta {
            name: self.name@,
            color: match self.color {
                Some(c) => Some(c@),
                None => None,
            },
            file_count: self.file_count as nat,
        }
    }
}

impl Clone for Tag {
    fn clone(&self) -> (r: Self)
        ensures
            r == *self,
    {
        Tag {
            name: self.name.clone(),
            color: match &self.color {
                Some(c) => Some(c.clone()),
                None => None,
            },
            file_count: self.file_count,
        }
    }
}

/// One denormalized `(name, path)` pair of the text index, kept row for row
/// with the file relation.
#[derive(Debug, PartialEq)]
pub struct TextEntry {
    pub name: String,
    pub path: String,
}

/// The mathematical value of a [`TextEntry`].
pub ghost struct TextMeta {
    pub name: Seq<char>,
    pub path: Seq<char>,
}

impl View for TextEntry {
    type V = TextMeta;

    open spec fn view(&self) -> TextMeta {
        TextMeta { name: self.name@, path: self.path@ }
    }
}

/// A stored tag row: the name and the optional color, without the derived
/// count.
struct TagRow {
    name: String,
    color: Option<String>,
}

/// One file-tag association; the pair is unique.
struct LinkRow {
    path: String,
    tag: String,
}

/// The mathematical values of a sequence of file records.
pub open spec fn metas(s: Seq<FileEntry>) -> Seq<FileMeta> {
    s.map_values(|e: FileEntry| e@)
}

/// The mathematical values of a sequence of tag listings.
pub open spec fn tag_metas(s: Seq<Tag>) -> Seq<TagMeta> {
    s.map_values(|t: Tag| t@)
}

/// The text index mirrors the file relation row for row.
pub open spec fn lockstep(texts: Seq<TextMeta>, files: Seq<FileMeta>) -> bool {
    &&& texts.len() == files.len()
    &&& forall|i: int|
        0 <= i < files.len() ==> (#[trigger] texts[i]).path == files[i].path && texts[i].name
            == files[i].name
}

/// No two tag rows share a name.
pub open spec fn unique_tags(tags: Seq<(Seq<char>, Option<Seq<char>>)>) -> bool {
    forall|i: int, j: int|
        0 <= i < j < tags.len() ==> (#[trigger] tags[i]).0 != (#[trigger] tags[j]).0
}

/// No `(path, tag)` pair occurs twice.
pub open spec fn unique_links(links: Seq<(Seq<char>, Seq<char>)>) -> bool {
    forall|i: int, j: int| 0 <= i < j < links.len() ==> #[trigger] links[i] != #[trigger] links[j]
}

/// Every link names a tag that the tag relation holds.
pub open spec fn links_cover(
    tags: Seq<(Seq<char>, Option<Seq<char>>)>,
    links: Seq<(Seq<char>, Seq<char>)>,
) -> bool {
    forall|i: int|
        0 <= i < links.len() ==> exists|t: int|
            0 <= t < tags.len() && (#[trigger] tags[t]).0 == (#[trigger] links[i]).1
}

/// No two file records share a path.
pub open spec fn unique_paths(s: Seq<FileMeta>) -> bool {
    forall|i: int, j: int|
        0 <= i < j < s.len() ==> (#[trigger] s[i]).path != (#[trigger] s[j]).path
}

/// Some record in `s` has path `p`.
pub open spec fn has_file_at(s: Seq<FileMeta>, p: Seq<char>) -> bool {
    exists|i: int| 0 <= i < s.len() && (#[trigger] s[i]).path == p
}

/// The index of the record with path `p`; meaningful only under
/// [`has_file_at`], and unique under [`unique_paths`].
pub open spec fn file_index_of(s: Seq<FileMeta>, p: Seq<char>) -> int {
    choose|i: int| 0 <= i < s.len() && (#[trigger] s[i]).path == p
}

/// Insert-or-replace by path: the model of one `insert_file` step on the
/// file relation.
pub open spec fn upsert(s: Seq<FileMeta>, m: FileMeta) -> Seq<FileMeta> {
    if has_file_at(s, m.path) {
        s.update(file_index_of(s, m.path), m)
    } else {
        s.push(m)
    }
}

/// Some text-index row in `s` has path `p`.
pub open spec fn has_text_at(s: Seq<TextMeta>, p: Seq<char>) -> bool {
    exists|i: int| 0 <= i < s.len() && (#[trigger] s[i]).path == p
}

/// The index of the text-index row with path `p`.
pub open spec fn text_index_of(s: Seq<TextMeta>, p: Seq<char>) -> int {
    choose|i: int| 0 <= i < s.len() && (#[trigger] s[i]).path == p
}

/// Insert-or-replace by path on the text index.
pub open spec fn text_upsert(s: Seq<TextMeta>, m: TextMeta) -> Seq<TextMeta> {
    if has_text_at(s, m.path) {
        s.update(text_index_of(s, m.path), m)
    } else {
        s.push(m)
    }
}

/// The record `entry` as the store keeps it: path and parent in canonical
/// form, every other field as given.
pub open spec fn norm_meta(m: FileMeta) -> FileMeta {
    FileMeta {
        path: spec_normalize(m.path),
        name: m.name,
        kind: m.kind,
        size: m.size,
        modified: m.modified,
        parent: match m.parent {
            Some(p) => Some(spec_normalize(p)),
            None => None,
        },
    }
}

/// The text-index row that accompanies the stored form of `m`.
pub open spec fn norm_text_meta(m: FileMeta) -> TextMeta {
    TextMeta { name: m.name, path: spec_normalize(m.path) }
}

/// If `s` has unique paths, the chosen index of any present path is the one
/// index where it sits.
pub proof fn lemma_file_index_unique(s: Seq<FileMeta>, p: Seq<char>, i: int)
    requires
        unique_paths(s),
        0 <= i < s.len(),
        s[i].path == p,
    ensures
        has_file_at(s, p),
        file_index_of(s, p) == i,
{
    assert(has_file_at(s, p));
    let j = file_index_of(s, p);
    if i < j {
        assert(s[i].path != s[j].path);
    } else if j < i {
        assert(s[j].path != s[i].path);
    }
}

/// Upserting keeps paths unique and leaves the upserted path present: the
/// relation holds exactly one record for that path afterwards.
pub proof fn lemma_upsert_unique(s: Seq<FileMeta>, m: FileMeta)
    requires
        unique_paths(s),
    ensures
        unique_paths(upsert(s, m)),
        has_file_at(upsert(s, m), m.path),
{
    let r = upsert(s, m);
    if has_file_at(s, m.path) {
        let i = file_index_of(s, m.path);
        assert(s[i].path == m.path);
        assert(r[i].path == m.path);
        assert forall|a: int, b: int| 0 <= a < b < r.len() implies (#[trigger] r[a]).path != (
        #[trigger] r[b]).path by {
            assert(s[a].path != s[b].path);
        }
    } else {
        assert(r[s.len() as int].path == m.path);
        assert forall|a: int, b: int| 0 <= a < b < r.len() implies (#[trigger] r[a]).path != (
        #[trigger] r[b]).path by {
            if b < s.len() {
                assert(s[a].path != s[b].path);
            } else {
                assert(!(exists|k: int| 0 <= k < s.len() && (#[trigger] s[k]).path == m.path));
                assert(r[a] == s[a]);
            }
        }
    }
}

/// Law: re-observing a path is an idempotent upsert.  Writing the same
/// record twice leaves the very file relation that writing it once leaves.
pub proof fn lemma_upsert_idempotent(s: Seq<FileMeta>, m: FileMeta)
    requires
        unique_paths(s),
    ensures
        upsert(upsert(s, m), m) == upsert(s, m),
{
    let r = upsert(s, m);
    lemma_upsert_unique(s, m);
    if has_file_at(s, m.path) {
        let i = file_index_of(s, m.path);
        lemma_file_index_unique(s, m.path, i);
        assert(r[i].path == m.path);
        lemma_file_index_unique(r, m.path, i);
        assert(upsert(r, m) =~= r);
    } else {
        let i = s.len() as int;
        assert(r[i].path == m.path);
        lemma_file_index_unique(r, m.path, i);
        assert(upsert(r, m) =~= r);
    }
}

/// Law: the text index never duplicates an entry either — the same upsert
/// applied twice leaves the text index of one application.
pub proof fn lemma_text_upsert_idempotent(s: Seq<TextMeta>, m: TextMeta)
    requires
        forall|i: int, j: int|
            0 <= i < j < s.len() ==> (#[trigger] s[i]).path != (#[trigger] s[j]).path,
    ensures
        text_upsert(text_upsert(s, m), m) == text_upsert(s, m),
{
    let r = text_upsert(s, m);
    if has_text_at(s, m.path) {
        let i = text_index_of(s, m.path);
        assert(0 <= i < s.len() && s[i].path == m.path);
        assert(r[i].path == m.path);
        assert(has_text_at(r, m.path));
        let j = text_index_of(r, m.path);
        assert(0 <= j < r.len() && r[j].path == m.path);
        if i < j {
            assert(s[i].path != s[j].path);
        } else if j < i {
            assert(s[j].path != s[i].path);
        }
        assert(text_upsert(r, m) =~= r);
    } else {
        let i = s.len() as int;
        assert(r[i].path == m.path);
        assert(has_text_at(r, m.path));
        let j = text_index_of(r, m.path);
        if j != i {
            assert(s[j] == r[j]);
            assert(!(exists|k: int| 0 <= k < s.len() && (#[trigger] s[k]).path == m.path));
        }
        assert(text_upsert(r, m) =~= r);
    }
}

/// The in-process index store.  One instance owns all four relations; a
/// caller that shares it between a crawler and a query path wraps it in its
/// own lock and holds that lock for one operation at a time.
pub struct TagDatabase {
    file_rows: Vec<FileEntry>,
    text_rows: Vec<TextEntry>,
    tag_rows: Vec<TagRow>,
    link_rows: Vec<LinkRow>,
}

impl TagDatabase {
    /// The file relation: one [`FileMeta`] per observed path.
    pub closed spec fn files(&self) -> Seq<FileMeta> {
        self.file_rows@.map_values(|e: FileEntry| e@)
    }

    /// The text index: one `(name, path)` row per file record.
    pub closed spec fn texts(&self) -> Seq<TextMeta> {
        self.text_rows@.map_values(|e: TextEntry| e@)
    }

    /// The tag relation: `(name, color)` per known tag.
    pub closed spec fn tags(&self) -> Seq<(Seq<char>, Option<Seq<char>>)> {
        self.tag_rows@.map_values(
            |t: TagRow|
                (
                    t.name@,
                    match t.color {
                        Some(c) => Some(c@),
                        None => None,
                    },
                ),
        )
    }

    /// The link relation: `(path, tag name)` pairs.
    pub closed spec fn links(&self) -> Seq<(Seq<char>, Seq<char>)> {
        self.link_rows@.map_values(|l: LinkRow| (l.path@, l.tag@))
    }

    /// The store's internal consistency: unique file paths, the text index
    /// row-synchronized with the file relation, unique tag names, unique
    /// link pairs, and every link naming a known tag.
    pub open spec fn wf(&self) -> bool {
        &&& unique_paths(self.files())
        &&& lockstep(self.texts(), self.files())
        &&& unique_tags(self.tags())
        &&& unique_links(self.links())
        &&& links_cover(self.tags(), self.links())
    }

    /// Creates an empty store.
    pub fn new() -> (db: TagDatabase)
        ensures
            db.wf(),
            db.files() == Seq::<FileMeta>::empty(),
            db.texts() == Seq::<TextMeta>::empty(),
            db.tags() == Seq::<(Seq<char>, Option<Seq<char>>)>::empty(),
            db.links() == Seq::<(Seq<char>, Seq<char>)>::empty(),
    {
        let db = TagDatabase {
            file_rows: Vec::new(),
            text_rows: Vec::new(),
            tag_rows: Vec::new(),
            link_rows: Vec::new(),
        };
        proof {
            assert(db.files() =~= Seq::<FileMeta>::empty());
            assert(db.texts() =~= Seq::<TextMeta>::empty());
            assert(db.tags() =~= Seq::<(Seq<char>, Option<Seq<char>>)>::empty());
            assert(db.links() =~= Seq::<(Seq<char>, Seq<char>)>::empty());
        }
        db
    }

    /// Scans the file relation for a normalized path.
    fn find_file_index(rows: &Vec<FileEntry>, p: &String) -> (r: Option<usize>)
        ensures
            match r {
                Some(i) => i < rows@.len() && rows@[i as int]@.path == p@,
                None => forall|j: int| 0 <= j < rows@.len() ==> (#[trigger] rows@[j])@.path != p@,
            },
    {
        let mut i: usize = 0;
        while i < rows.len()
            invariant
                i <= rows@.len(),
                forall|j: int| 0 <= j < i ==> (#[trigger] rows@[j])@.path != p@,
            decreases rows@.len() - i,
        {
            if rows[i].path == *p {
                return Some(i);
            }
            i = i + 1;
        }
        None
    }

    /// Inserts or replaces the record at `entry`'s normalized path, and
    /// synchronizes the text-index row for that identity in the same step.
    /// The tag and link relations are untouched.
    pub fn insert_file(&mut self, entry: &FileEntry)
        requires
            old(self).wf(),
        ensures
            final(self).wf(),
            final(self).files() == upsert(old(self).files(), norm_meta(entry@)),
            final(self).texts() == text_upsert(old(self).texts(), norm_text_meta(entry@)),
            final(self).tags() == old(self).tags(),
            final(self).links() == old(self).links(),
    {
        let npath = normalize_path(entry.path.as_str());
        let nparent = match &entry.parent {
            Some(p) => Some(normalize_path(p.as_str())),
            None => None,
        };
        let stored = FileEntry {
            path: npath.clone(),
            name: entry.name.clone(),
            file_type: entry.file_type,
            size: entry.size,
            modified: entry.modified,
            parent: nparent,
        };
        let text_row = TextEntry { name: entry.name.clone(), path: npath.clone() };
        proof {
            assert(stored@ == norm_meta(entry@));
            assert(text_row@ == norm_text_meta(entry@));
        }
        let found = Self::find_file_index(&self.file_rows, &npath);
        match found {
            Some(i) => {
                proof {
                    lemma_file_index_unique(self.files(), stored@.path, i as int);
                    assert(self.texts()[i as int].path == self.files()[i as int].path);
                    lemma_text_index_unique(self.texts(), stored@.path, i as int);
                }
                self.file_rows.set(i, stored);
                self.text_rows.set(i, text_row);
                proof {
                    assert(final(self).files() =~= old(self).files().update(
                        i as int,
                        norm_meta(entry@),
                    ));
                    assert(final(self).texts() =~= old(self).texts().update(
                        i as int,
                        norm_text_meta(entry@),
                    ));
                    lemma_upsert_unique(old(self).files(), norm_meta(entry@));
                    assert(final(self).tags() =~= old(self).tags());
                    assert(final(self).links() =~= old(self).links());
                    assert forall|j: int|
                        0 <= j < final(self).files().len() implies ((#[trigger] final(self).texts()[j]).path
                        == final(self).files()[j].path && final(self).texts()[j].name
                        == final(self).files()[j].name) by {
                        if j != i as int {
                            assert(old(self).texts()[j].path == old(self).files()[j].path);
                        }
                    }
                }
            },
            None => {
                proof {
                    assert(!has_file_at(self.files(), stored@.path));
                    assert forall|j: int|
                        0 <= j < self.texts().len() implies (#[trigger] self.texts()[j]).path
                        != stored@.path by {
                        assert(self.texts()[j].path == self.files()[j].path);
                    }
                    assert(!has_text_at(self.texts(), stored@.path));
                }
                self.file_rows.push(stored);
                self.text_rows.push(text_row);
                proof {
                    assert(final(self).files() =~= old(self).files().push(norm_meta(entry@)));
                    assert(final(self).texts() =~= old(self).texts().push(norm_text_meta(entry@)));
                    lemma_upsert_unique(old(self).files(), norm_meta(entry@));
                    assert(final(self).tags() =~= old(self).tags());
                    assert(final(self).links() =~= old(self).links());
                }
            },
        }
    }
}

/// Some tag row carries `name`.
pub open spec fn has_tag(tags: Seq<(Seq<char>, Option<Seq<char>>)>, name: Seq<char>) -> bool {
    exists|i: int| 0 <= i < tags.len() && (#[trigger] tags[i]).0 == name
}

/// Create-if-absent on the tag relation: the model of the first half of one
/// `add_tag_to_file` step.  An existing tag keeps its color.
pub open spec fn tag_attach(tags: Seq<(Seq<char>, Option<Seq<char>>)>, name: Seq<char>) -> Seq<
    (Seq<char>, Option<Seq<char>>),
> {
    if has_tag(tags, name) {
        tags
    } else {
        tags.push((name, None))
    }
}

/// Insert-if-absent on the link relation: the model of the second half of
/// one `add_tag_to_file` step.
pub open spec fn link_attach(links: Seq<(Seq<char>, Seq<char>)>, pair: (Seq<char>, Seq<char>)) -> Seq<
    (Seq<char>, Seq<char>),
> {
    if links.contains(pair) {
        links
    } else {
        links.push(pair)
    }
}

/// The live number of links carrying a tag name; never stored, always
/// derived.
pub open spec fn link_count(links: Seq<(Seq<char>, Seq<char>)>, name: Seq<char>) -> nat {
    links.filter(|l: (Seq<char>, Seq<char>)| l.1 == name).len()
}

/// What a tag listing shows: every tag row with its live link count.
pub open spec fn tag_listing(
    tags: Seq<(Seq<char>, Option<Seq<char>>)>,
    links: Seq<(Seq<char>, Seq<char>)>,
) -> Seq<TagMeta> {
    tags.map_values(
        |t: (Seq<char>, Option<Seq<char>>)|
            TagMeta { name: t.0, color: t.1, file_count: link_count(links, t.0) },
    )
}

/// The file records linked to a tag name, in store order.
pub open spec fn tagged_files(
    files: Seq<FileMeta>,
    links: Seq<(Seq<char>, Seq<char>)>,
    name: Seq<char>,
) -> Seq<FileMeta> {
    files.filter(|m: FileMeta| links.contains((m.path, name)))
}

/// The file records whose parent is the canonical directory `dir`, in
/// store order.
pub open spec fn children_of(files: Seq<FileMeta>, dir: Seq<char>) -> Seq<FileMeta> {
    files.filter(|m: FileMeta| m.parent == Some(dir))
}

/// Some record has path `p` and is a directory.
pub open spec fn has_dir_at(files: Seq<FileMeta>, p: Seq<char>) -> bool {
    exists|i: int|
        0 <= i < files.len() && (#[trigger] files[i]).path == p && files[i].kind
            == FileType::Directory
}

/// Law: attaching a tag to a file twice has the effect of attaching it
/// once — neither the tag relation nor the link relation changes again.
pub proof fn lemma_attach_idempotent(
    tags: Seq<(Seq<char>, Option<Seq<char>>)>,
    links: Seq<(Seq<char>, Seq<char>)>,
    name: Seq<char>,
    pair: (Seq<char>, Seq<char>),
)
    ensures
        tag_attach(tag_attach(tags, name), name) == tag_attach(tags, name),
        link_attach(link_attach(links, pair), pair) == link_attach(links, pair),
{
    if !has_tag(tags, name) {
        let t2 = tags.push((name, None));
        assert(t2[tags.len() as int].0 == name);
        assert(has_tag(t2, name));
    }
    if !links.contains(pair) {
        let l2 = links.push(pair);
        assert(l2[links.len() as int] == pair);
        assert(l2.contains(pair));
    }
}

/// Law: how one attach moves a live count.  A pair already present moves
/// no count; a fresh pair raises exactly the count of its own tag by one.
pub proof fn lemma_link_count_attach(
    links: Seq<(Seq<char>, Seq<char>)>,
    pair: (Seq<char>, Seq<char>),
    name: Seq<char>,
)
    ensures
        links.contains(pair) ==> link_count(link_attach(links, pair), name) == link_count(
            links,
            name,
        ),
        !links.contains(pair) && pair.1 == name ==> link_count(link_attach(links, pair), name)
            == link_count(links, name) + 1,
        !links.contains(pair) && pair.1 != name ==> link_count(link_attach(links, pair), name)
            == link_count(links, name),
{
    broadcast use Seq::lemma_filter_push;

    if !links.contains(pair) {
        if pair.1 == name {
            assert(link_count(links.push(pair), name) == link_count(links, name) + 1);
        } else {
            assert(link_count(links.push(pair), name) == link_count(links, name));
        }
    }
}

/// Extending the tag relation for `pair`'s own tag keeps every link,
/// old or new, covered by a known tag.
proof fn lemma_cover_extend(
    tags0: Seq<(Seq<char>, Option<Seq<char>>)>,
    links0: Seq<(Seq<char>, Seq<char>)>,
    pair: (Seq<char>, Seq<char>),
)
    requires
        links_cover(tags0, links0),
        has_tag(tag_attach(tags0, pair.1), pair.1),
    ensures
        links_cover(tag_attach(tags0, pair.1), link_attach(links0, pair)),
{
    let tags1 = tag_attach(tags0, pair.1);
    let links1 = link_attach(links0, pair);
    assert forall|i: int| 0 <= i < links1.len() implies exists|t: int|
        0 <= t < tags1.len() && (#[trigger] tags1[t]).0 == (#[trigger] links1[i]).1 by {
        if i < links0.len() {
            let t = choose|t: int|
                0 <= t < tags0.len() && (#[trigger] tags0[t]).0 == (links0[i]).1;
            assert(tags1[t].0 == links1[i].1);
        } else {
            assert(links1[i] == pair);
            let t = choose|t: int| 0 <= t < tags1.len() && (#[trigger] tags1[t]).0 == pair.1;
            assert(tags1[t].0 == links1[i].1);
        }
    }
}

impl TagDatabase {
    /// Scans the tag relation for a name.
    fn find_tag_index(rows: &Vec<TagRow>, name: &String) -> (r: Option<usize>)
        ensures
            match r {
                Some(i) => i < rows@.len() && rows@[i as int].name@ == name@,
                None => forall|j: int|
                    0 <= j < rows@.len() ==> (#[trigger] rows@[j]).name@ != name@,
            },
    {
        let mut i: usize = 0;
        while i < rows.len()
            invariant
                i <= rows@.len(),
                forall|j: int| 0 <= j < i ==> (#[trigger] rows@[j]).name@ != name@,
            decreases rows@.len() - i,
        {
            if rows[i].name == *name {
                return Some(i);
            }
            i = i + 1;
        }
        None
    }

    /// Scans the link relation for an exact `(path, tag)` pair.
    fn has_link_row(rows: &Vec<LinkRow>, path: &String, tag: &String) -> (r: bool)
        ensures
            r == rows@.map_values(|l: LinkRow| (l.path@, l.tag@)).contains((path@, tag@)),
    {
        let ghost model = rows@.map_values(|l: LinkRow| (l.path@, l.tag@));
        let mut i: usize = 0;
        while i < rows.len()
            invariant
                i <= rows@.len(),
                model == rows@.map_values(|l: LinkRow| (l.path@, l.tag@)),
                forall|j: int| 0 <= j < i ==> #[trigger] model[j] != (path@, tag@),
            decreases rows@.len() - i,
        {
            if rows[i].path == *path && rows[i].tag == *tag {
                proof {
                    assert(model[i as int] == (path@, tag@));
                }
                return true;
            }
            i = i + 1;
        }
        false
    }

    /// Counts the links that carry `name`, the live `file_count` of that
    /// tag.
    fn count_links(rows: &Vec<LinkRow>, name: &String) -> (c: usize)
        ensures
            c as nat == link_count(rows@.map_values(|l: LinkRow| (l.path@, l.tag@)), name@),
    {
        let ghost model = rows@.map_values(|l: LinkRow| (l.path@, l.tag@));
        let mut c: usize = 0;
        let mut i: usize = 0;
        proof {
            assert(model.take(0) =~= Seq::<(Seq<char>, Seq<char>)>::empty());
            reveal(Seq::filter);
            assert(link_count(model.take(0), name@) == 0);
        }
        while i < rows.len()
            invariant
                c <= i <= rows@.len(),
                model == rows@.map_values(|l: LinkRow| (l.path@, l.tag@)),
                c as nat == link_count(model.take(i as int), name@),
            decreases rows@.len() - i,
        {
            proof {
                broadcast use Seq::lemma_filter_push;

                assert(model.take(i as int + 1) =~= model.take(i as int).push(model[i as int]));
                assert(link_count(model.take(i as int).push(model[i as int]), name@)
                    == if model[i as int].1 == name@ {
                    link_count(model.take(i as int), name@) + 1
                } else {
                    link_count(model.take(i as int), name@)
                });
            }
            if rows[i].tag == *name {
                c = c + 1;
            }
            i = i + 1;
        }
        proof {
            assert(model.take(rows@.len() as int) =~= model);
        }
        c
    }

    /// Ensures the tag exists (create-if-absent, keeping any existing
    /// color), then ensures the `(path, tagName)` link exists.  Calling it
    /// twice has the effect of calling it once.
    pub fn add_tag_to_file(&mut self, file_path: &String, tag_name: &String)
        requires
            old(self).wf(),
        ensures
            final(self).wf(),
            final(self).files() == old(self).files(),
            final(self).texts() == old(self).texts(),
            final(self).tags() == tag_attach(old(self).tags(), tag_name@),
            final(self).links() == link_attach(
                old(self).links(),
                (spec_normalize(file_path@), tag_name@),
            ),
    {
        let found = Self::find_tag_index(&self.tag_rows, tag_name);
        match found {
            Some(i) => {
                proof {
                    assert(self.tags()[i as int].0 == tag_name@);
                    assert(has_tag(self.tags(), tag_name@));
                }
            },
            None => {
                proof {
                    assert forall|j: int| 0 <= j < self.tags().len() implies (
                    #[trigger] self.tags()[j]).0 != tag_name@ by {
                        assert(self.tags()[j].0 == self.tag_rows@[j].name@);
                    }
                    assert(!has_tag(self.tags(), tag_name@));
                }
                self.tag_rows.push(TagRow { name: tag_name.clone(), color: None });
                proof {
                    assert(self.tags() =~= old(self).tags().push((tag_name@, None)));
                    assert(self.files() =~= old(self).files());
                    assert(self.texts() =~= old(self).texts());
                    assert(self.links() =~= old(self).links());
                }
            },
        }
        proof {
            assert(self.tags() == tag_attach(old(self).tags(), tag_name@));
            if has_tag(old(self).tags(), tag_name@) {
                let t = choose|t: int|
                    0 <= t < old(self).tags().len() && (#[trigger] old(self).tags()[t]).0
                        == tag_name@;
                assert(self.tags()[t].0 == tag_name@);
            } else {
                assert(self.tags()[old(self).tags().len() as int].0 == tag_name@);
            }
            assert(has_tag(self.tags(), tag_name@));
            assert forall|a: int, b: int| 0 <= a < b < self.tags().len() implies (
            #[trigger] self.tags()[a]).0 != (#[trigger] self.tags()[b]).0 by {
                if b < old(self).tags().len() {
                    assert(old(self).tags()[a].0 != old(self).tags()[b].0);
                } else {
                    assert(!has_tag(old(self).tags(), tag_name@));
                    assert(self.tags()[a] == old(self).tags()[a]);
                }
            }
            assert(unique_tags(self.tags()));
        }
        let ghost mid_tags = self.tags();
        let npath = normalize_path(file_path.as_str());
        let linked = Self::has_link_row(&self.link_rows, &npath, tag_name);
        let ghost pair = (spec_normalize(file_path@), tag_name@);
        if !linked {
            self.link_rows.push(LinkRow { path: npath, tag: tag_name.clone() });
            proof {
                assert(self.links() =~= old(self).links().push(pair));
                assert(self.files() =~= old(self).files());
                assert(self.texts() =~= old(self).texts());
                assert(self.tags() =~= mid_tags);
            }
        }
        proof {
            assert(self.links() == link_attach(old(self).links(), pair));
            assert forall|a: int, b: int| 0 <= a < b < self.links().len() implies #[trigger] self.links()[a]
                != #[trigger] self.links()[b] by {
                if b < old(self).links().len() {
                    assert(old(self).links()[a] != old(self).links()[b]);
                } else {
                    assert(!old(self).links().contains(pair));
                    assert(self.links()[a] == old(self).links()[a]);
                    assert(old(self).links().contains(old(self).links()[a]));
                }
            }
            assert(unique_links(self.links()));
            lemma_cover_extend(old(self).tags(), old(self).links(), pair);
        }
    }
}

impl TagDatabase {
    /// Read-only view of the stored file records, in store order.
    pub fn entries(&self) -> (r: &Vec<FileEntry>)
        ensures
            metas(r@) == self.files(),
    {
        &self.file_rows
    }

    /// Read-only view of the text index, in store order.
    pub fn text_entries(&self) -> (r: &Vec<TextEntry>)
        ensures
            r@.map_values(|t: TextEntry| t@) == self.texts(),
    {
        &self.text_rows
    }

    /// Whether a record's parent field equals the canonical directory
    /// `dir`.
    pub(crate) fn parent_is(e: &FileEntry, dir: &String) -> (r: bool)
        ensures
            r == (e@.parent == Some(dir@)),
    {
        match &e.parent {
            Some(p) => {
                let eq = *p == *dir;
                proof {
                    assert(e@.parent == Some(p@));
                    if !eq {
                        assert(p@ != dir@);
                        assert(Some::<Seq<char>>(p@) != Some::<Seq<char>>(dir@));
                    }
                }
                eq
            },
            None => false,
        }
    }

    /// Returns every record whose `parent` is the normalized `dir_path`,
    /// with all directories before all files and by name ascending within
    /// each group.
    pub fn get_files_in_directory(&self, dir_path: &String) -> (r: Vec<FileEntry>)
        requires
            self.wf(),
        ensures
            sorted_by(metas(r@), ord_le_f(true)),
            metas(r@).to_multiset() == children_of(
                self.files(),
                spec_normalize(dir_path@),
            ).to_multiset(),
    {
        let ndir = normalize_path(dir_path.as_str());
        let ghost nd = ndir@;
        let mut picked: Vec<FileEntry> = Vec::new();
        let mut i: usize = 0;
        proof {
            reveal(Seq::filter);
            assert(self.files().take(0) =~= Seq::<FileMeta>::empty());
            assert(metas(picked@) =~= children_of(self.files().take(0), nd));
        }
        while i < self.file_rows.len()
            invariant
                i <= self.file_rows@.len(),
                nd == ndir@ && nd == spec_normalize(dir_path@),
                metas(picked@) == children_of(self.files().take(i as int), nd),
            decreases self.file_rows@.len() - i,
        {
            let e = &self.file_rows[i];
            let keep = Self::parent_is(e, &ndir);
            proof {
                broadcast use Seq::lemma_filter_push;

                assert(self.files()[i as int] == e@);
                assert(self.files().take(i as int + 1) =~= self.files().take(i as int).push(e@));
                assert(keep == (e@.parent == Some(nd)));
            }
            if keep {
                let ghost pre = metas(picked@);
                picked.push(e.clone());
                proof {
                    assert(metas(picked@) =~= pre.push(e@));
                }
            }
            i = i + 1;
        }
        proof {
            assert(self.files().take(self.file_rows@.len() as int) =~= self.files());
        }
        sort_entries(picked, true)
    }

    /// Returns every record linked to `tag_name`, ordered by name
    /// ascending.  An unknown tag name yields an empty result.
    pub fn get_files_by_tag(&self, tag_name: &String) -> (r: Vec<FileEntry>)
        requires
            self.wf(),
        ensures
            sorted_by(metas(r@), ord_le_f(false)),
            metas(r@).to_multiset() == tagged_files(
                self.files(),
                self.links(),
                tag_name@,
            ).to_multiset(),
    {
        let mut picked: Vec<FileEntry> = Vec::new();
        let mut i: usize = 0;
        proof {
            reveal(Seq::filter);
            assert(self.files().take(0) =~= Seq::<FileMeta>::empty());
            assert(metas(picked@) =~= tagged_files(self.files().take(0), self.links(), tag_name@));
        }
        while i < self.file_rows.len()
            invariant
                i <= self.file_rows@.len(),
                metas(picked@) == tagged_files(self.files().take(i as int), self.links(), tag_name@),
            decreases self.file_rows@.len() - i,
        {
            let e = &self.file_rows[i];
            let keep = Self::has_link_row(&self.link_rows, &e.path, tag_name);
            proof {
                broadcast use Seq::lemma_filter_push;

                assert(self.files()[i as int] == e@);
                assert(self.files().take(i as int + 1) =~= self.files().take(i as int).push(e@));
                assert(keep == self.links().contains((e@.path, tag_name@)));
            }
            if keep {
                let ghost pre = metas(picked@);
                picked.push(e.clone());
                proof {
                    assert(metas(picked@) =~= pre.push(e@));
                }
            }
            i = i + 1;
        }
        proof {
            assert(self.files().take(self.file_rows@.len() as int) =~= self.files());
        }
        sort_entries(picked, false)
    }

    /// Returns every tag with its live link count, ordered by name
    /// ascending.
    pub fn get_all_tags(&self) -> (r: Vec<Tag>)
        requires
            self.wf(),
        ensures
            sorted_by(tag_metas(r@), tag_le_f()),
            tag_metas(r@).to_multiset() == tag_listing(self.tags(), self.links()).to_multiset(),
    {
        let ghost listing = tag_listing(self.tags(), self.links());
        let mut acc: Vec<Tag> = Vec::new();
        let mut i: usize = 0;
        proof {
            assert(tag_metas(acc@) =~= listing.take(0));
        }
        while i < self.tag_rows.len()
            invariant
                i <= self.tag_rows@.len(),
                listing == tag_listing(self.tags(), self.links()),
                listing.len() == self.tag_rows@.len(),
                tag_metas(acc@) == listing.take(i as int),
            decreases self.tag_rows@.len() - i,
        {
            let row = &self.tag_rows[i];
            let c = Self::count_links(&self.link_rows, &row.name);
            let tag = Tag {
                name: row.name.clone(),
                color: match &row.color {
                    Some(col) => Some(col.clone()),
                    None => None,
                },
                file_count: c,
            };
            let ghost pre = tag_metas(acc@);
            proof {
                assert(tag@ == listing[i as int]);
            }
            acc.push(tag);
            proof {
                assert(tag_metas(acc@) =~= pre.push(listing[i as int]));
                assert(listing.take(i as int + 1) =~= listing.take(i as int).push(
                    listing[i as int],
                ));
            }
            i = i + 1;
        }
        proof {
            assert(listing.take(self.tag_rows@.len() as int) =~= listing);
        }
        sort_tags(acc)
    }

    /// Returns the single record at the normalized `dir_path` if it exists
    /// and is a directory; reports absence otherwise, never an error.
    pub fn get_directory(&self, dir_path: &String) -> (r: Option<FileEntry>)
        requires
            self.wf(),
        ensures
            match r {
                Some(e) => {
                    &&& has_file_at(self.files(), spec_normalize(dir_path@))
                    &&& e@ == self.files()[file_index_of(
                        self.files(),
                        spec_normalize(dir_path@),
                    )]
                    &&& e@.kind == FileType::Directory
                },
                None => !has_dir_at(self.files(), spec_normalize(dir_path@)),
            },
    {
        let npath = normalize_path(dir_path.as_str());
        let found = Self::find_file_index(&self.file_rows, &npath);
        match found {
            Some(i) => {
                proof {
                    lemma_file_index_unique(self.files(), npath@, i as int);
                }
                let e = &self.file_rows[i];
                match e.file_type {
                    FileType::Directory => Some(e.clone()),
                    FileType::File => {
                        proof {
                            assert forall|j: int|
                                0 <= j < self.files().len() && (#[trigger] self.files()[j]).path
                                    == npath@ implies self.files()[j].kind != FileType::Directory by {
                                if j < i as int {
                                    assert(self.files()[j].path != self.files()[i as int].path);
                                } else if j > i as int {
                                    assert(self.files()[i as int].path != self.files()[j].path);
                                }
                            }
                        }
                        None
                    },
                }
            },
            None => {
                proof {
                    assert(!has_dir_at(self.files(), npath@));
                }
                None
            },
        }
    }
}

/// Counterpart of [`lemma_file_index_unique`] for the text index.
pub proof fn lemma_text_index_unique(s: Seq<TextMeta>, p: Seq<char>, i: int)
    requires
        forall|a: int, b: int|
            0 <= a < b < s.len() ==> (#[trigger] s[a]).path != (#[trigger] s[b]).path,
        0 <= i < s.len(),
        s[i].path == p,
    ensures
        has_text_at(s, p),
        text_index_of(s, p) == i,
{
    assert(has_text_at(s, p));
    let j = text_index_of(s, p);
    if i < j {
        assert(s[i].path != s[j].path);
    } else if j < i {
        assert(s[j].path != s[i].path);
    }
}

} // verus!
