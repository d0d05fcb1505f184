//! The crawler's per-path logic: build a record from observed metadata,
//! upsert it, and attach any tags found in the path's serialized tag
//! attribute.
//!
//! Reading the filesystem itself — metadata, directory listings, the
//! extended attribute's bytes — happens outside; this module takes those
//! observations as plain values and decides everything that follows.

use vstd::prelude::*;
use crate::paths::{
    base_name_of, lemma_normalize_idempotent, normalize_path, parent_of, spec_base_name,
    spec_normalize, spec_parent,
};
use crate::tag_db::{
    link_attach, norm_meta, norm_text_meta, tag_attach, text_upsert, upsert, FileEntry, FileMeta,
    FileType, TagDatabase, TextMeta,
};

verus! {

/// The tag names serialized in a property-list byte buffer, as
/// `plist::Value::from_reader` decodes them: the string elements of the
/// top-level array, in order, and nothing for any other or unreadable
/// content.  The decoding rules are the plist format's own, so the result
/// only carries a name here; [`decode_tag_names`] is the sole way a value
/// of it comes to exist.
pub uninterp spec fn plist_tags_of(b: Seq<u8>) -> Seq<Seq<char>>;

/// Relies on plist::Value::from_reader: what a byte buffer decodes to
/// depends on the bytes alone.
#[verifier::external_body]
fn decode_tag_names(bytes: &[u8]) -> (r: Vec<String>)
    ensures
        r@.map_values(|t: String| t@) == plist_tags_of(bytes@),
{
    let mut out: Vec<String> = Vec::new();
    if let Ok(plist::Value::Array(items)) = plist::Value::from_reader(std::io::Cursor::new(bytes)) {
        for item in items {
            if let plist::Value::String(s) = item {
                out.push(s);
            }
        }
    }
    out
}

/// The record that indexing `path` with the observed metadata stores: the
/// canonical path, the name and parent derived from it, and the metadata
/// as given — except that a directory record always carries size `0`,
/// whatever length was observed for it.
pub open spec fn indexed_meta(path: Seq<char>, kind: FileType, size: u64, modified: i64) -> FileMeta {
    let np = spec_normalize(path);
    FileMeta {
        path: np,
        name: spec_base_name(np),
        kind: kind,
        size: if kind is Directory {
            0
        } else {
            size
        },
        modified: modified,
        parent: match spec_parent(np) {
            Some(p) => Some(spec_normalize(p)),
            None => None,
        },
    }
}

/// Attaching a list of tag names to one path, first to last: the model of
/// the tag phase of one `index_file` step.
pub open spec fn attach_all(
    tags: Seq<(Seq<char>, Option<Seq<char>>)>,
    links: Seq<(Seq<char>, Seq<char>)>,
    path: Seq<char>,
    names: Seq<Seq<char>>,
) -> (Seq<(Seq<char>, Option<Seq<char>>)>, Seq<(Seq<char>, Seq<char>)>)
    decreases names.len(),
{
    if names.len() == 0 {
        (tags, links)
    } else {
        let prev = attach_all(tags, links, path, names.drop_last());
        (tag_attach(prev.0, names.last()), link_attach(prev.1, (path, names.last())))
    }
}

/// The crawler's store-facing half.  It holds no state of its own; the
/// caller hands it one store and the per-path observations.
pub struct FileIndexer {}

impl FileIndexer {
    /// Creates an indexer.
    pub fn new() -> (r: FileIndexer) {
        FileIndexer {  }
    }

    /// Indexes one observed path: upserts the record built from the given
    /// metadata, then attaches every tag name decoded from the path's tag
    /// attribute bytes, if any were readable.  A directory is stored with
    /// size `0` regardless of the observed length.
    pub fn index_file(
        &self,
        db: &mut TagDatabase,
        path: &String,
        kind: FileType,
        size: u64,
        modified: i64,
        tag_attr: Option<Vec<u8>>,
    )
        requires
            old(db).wf(),
        ensures
            final(db).wf(),
            ({
                let m = indexed_meta(path@, kind, size, modified);
                let names = match tag_attr {
                    Some(b) => plist_tags_of(b@),
                    None => Seq::<Seq<char>>::empty(),
                };
                &&& final(db).files() == upsert(old(db).files(), m)
                &&& final(db).texts() == text_upsert(
                    old(db).texts(),
                    TextMeta { name: m.name, path: m.path },
                )
                &&& (final(db).tags(), final(db).links()) == attach_all(
                    old(db).tags(),
                    old(db).links(),
                    m.path,
                    names,
                )
            }),
    {
        let ghost m = indexed_meta(path@, kind, size, modified);
        let npath = normalize_path(path.as_str());
        let name = base_name_of(npath.as_str());
        let parent = parent_of(npath.as_str());
        let stored_size: u64 = match kind {
            FileType::Directory => 0,
            FileType::File => size,
        };
        let entry = FileEntry {
            path: npath.clone(),
            name: name,
            file_type: kind,
            size: stored_size,
            modified: modified,
            parent: parent,
        };
        proof {
            lemma_normalize_idempotent(path@);
            match spec_parent(npath@) {
                Some(p) => {
                    assert(norm_meta(entry@).parent == Some(spec_normalize(p)));
                },
                None => {},
            }
            assert(norm_meta(entry@) == m);
            assert(norm_text_meta(entry@) == (TextMeta { name: m.name, path: m.path }));
        }
        db.insert_file(&entry);
        let names: Vec<String> = match &tag_attr {
            Some(b) => decode_tag_names(b.as_slice()),
            None => Vec::new(),
        };
        let ghost ns = names@.map_values(|t: String| t@);
        proof {
            match tag_attr {
                Some(b) => {
                    assert(ns == plist_tags_of(b@));
                },
                None => {
                    assert(ns =~= Seq::<Seq<char>>::empty());
                },
            }
        }
        let ghost tags1 = db.tags();
        let ghost links1 = db.links();
        let mut t: usize = 0;
        proof {
            assert(ns.take(0) =~= Seq::<Seq<char>>::empty());
            assert((db.tags(), db.links()) == attach_all(tags1, links1, m.path, ns.take(0)));
        }
        while t < names.len()
            invariant
                t <= names@.len(),
                db.wf(),
                ns == names@.map_values(|s: String| s@),
                m == indexed_meta(path@, kind, size, modified),
                npath@ == m.path,
                (db.tags(), db.links()) == attach_all(tags1, links1, m.path, ns.take(t as int)),
                db.files() == upsert(old(db).files(), m),
                db.texts() == text_upsert(old(db).texts(), TextMeta { name: m.name, path: m.path }),
            decreases names@.len() - t,
        {
            let ghost pre_tags = db.tags();
            let ghost pre_links = db.links();
            db.add_tag_to_file(&npath, &names[t]);
            proof {
                lemma_normalize_idempotent(path@);
                assert(pre_tags == attach_all(tags1, links1, m.path, ns.take(t as int)).0);
                assert(pre_links == attach_all(tags1, links1, m.path, ns.take(t as int)).1);
                assert(db.tags() == tag_attach(pre_tags, ns[t as int]));
                assert(db.links() == link_attach(pre_links, (m.path, ns[t as int])));
                assert(ns.take(t as int + 1).drop_last() =~= ns.take(t as int));
                assert(ns.take(t as int + 1).last() == ns[t as int]);
                assert(attach_all(tags1, links1, m.path, ns.take(t as int + 1)) == (
                    tag_attach(pre_tags, ns[t as int]),
                    link_attach(pre_links, (m.path, ns[t as int])),
                ));
            }
            t = t + 1;
        }
        proof {
            assert(ns.take(names@.len() as int) =~= ns);
        }
    }
}

} // verus!
