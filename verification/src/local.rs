//! The local index: files, tags, the tag map, images and thumbnails.
//!
//! The store keeps one table per entity, each a sequence of rows in
//! insertion order.  Every mutation is an insert that ignores rows already
//! present under the table's uniqueness key, as the relational schema's
//! `INSERT OR IGNORE` does; the uniqueness keys are the well-formedness
//! invariant `wf`.

use vstd::prelude::*;

use crate::tag::{Tag, TagV};
use crate::VaultError;

verus! {

// ---------------------------------------------------------------------------
// Rows and their mathematical views
// ---------------------------------------------------------------------------

#[derive(Debug)]
pub struct TagRow {
    pub id: i32,
    pub namespace: String,
    pub descriptor: String,
}

pub ghost struct TagRowV {
    pub id: int,
    pub namespace: Seq<char>,
    pub descriptor: Seq<char>,
}

impl View for TagRow {
    type V = TagRowV;

    open spec fn view(&self) -> TagRowV {
        TagRowV { id: self.id as int, namespace: self.namespace@, descriptor: self.descriptor@ }
    }
}

#[derive(Debug)]
pub struct FileRow {
    pub cid: Vec<u8>,
    pub size: i64,
    pub mimetype: Option<String>,
}

pub ghost struct FileRowV {
    pub cid: Seq<u8>,
    pub size: int,
    pub mimetype: Option<Seq<char>>,
}

impl View for FileRow {
    type V = FileRowV;

    open spec fn view(&self) -> FileRowV {
        FileRowV {
            cid: self.cid@,
            size: self.size as int,
            mimetype: match self.mimetype {
                Some(ref m) => Some(m@),
                None => None,
            },
        }
    }
}

#[derive(Debug)]
pub struct TagMapRow {
    pub file_cid: Vec<u8>,
    pub tag_id: i32,
    pub added: Option<String>,
    pub reason: u32,
}

pub ghost struct TagMapRowV {
    pub file_cid: Seq<u8>,
    pub tag_id: int,
    pub added: Option<Seq<char>>,
    pub reason: int,
}

impl View for TagMapRow {
    type V = TagMapRowV;

    open spec fn view(&self) -> TagMapRowV {
        TagMapRowV {
            file_cid: self.file_cid@,
            tag_id: self.tag_id as int,
            added: match self.added {
                Some(ref a) => Some(a@),
                None => None,
            },
            reason: self.reason as int,
        }
    }
}

#[derive(Debug)]
pub struct ImageRow {
    pub cid: Vec<u8>,
    pub height: u32,
    pub width: u32,
    pub primary_color: Vec<u8>,
    pub colors: Vec<u8>,
}

pub ghost struct ImageRowV {
    pub cid: Seq<u8>,
    pub height: u32,
    pub width: u32,
    pub primary_color: Seq<u8>,
    pub colors: Seq<u8>,
}

impl View for ImageRow {
    type V = ImageRowV;

    open spec fn view(&self) -> ImageRowV {
        ImageRowV {
            cid: self.cid@,
            height: self.height,
            width: self.width,
            primary_color: self.primary_color@,
            colors: self.colors@,
        }
    }
}

#[derive(Debug)]
pub struct ThumbnailRow {
    pub cid: Vec<u8>,
    pub size: i64,
    pub mimetype: String,
    pub source_cid: Vec<u8>,
    pub height: i64,
    pub width: i64,
    pub is_animated: bool,
}

pub ghost struct ThumbnailRowV {
    pub cid: Seq<u8>,
    pub size: int,
    pub mimetype: Seq<char>,
    pub source_cid: Seq<u8>,
    pub height: int,
    pub width: int,
    pub is_animated: bool,
}

impl View for ThumbnailRow {
    type V = ThumbnailRowV;

    open spec fn view(&self) -> ThumbnailRowV {
        ThumbnailRowV {
            cid: self.cid@,
            size: self.size as int,
            mimetype: self.mimetype@,
            source_cid: self.source_cid@,
            height: self.height as int,
            width: self.width as int,
            is_animated: self.is_animated,
        }
    }
}

pub open spec fn files_v(s: Seq<FileRow>) -> Seq<FileRowV> {
    s.map_values(|r: FileRow| r@)
}

pub open spec fn tags_v(s: Seq<TagRow>) -> Seq<TagRowV> {
    s.map_values(|r: TagRow| r@)
}

pub open spec fn maps_v(s: Seq<TagMapRow>) -> Seq<TagMapRowV> {
    s.map_values(|r: TagMapRow| r@)
}

pub open spec fn images_v(s: Seq<ImageRow>) -> Seq<ImageRowV> {
    s.map_values(|r: ImageRow| r@)
}

pub open spec fn thumbs_v(s: Seq<ThumbnailRow>) -> Seq<ThumbnailRowV> {
    s.map_values(|r: ThumbnailRow| r@)
}

pub open spec fn tag_views(s: Seq<Tag>) -> Seq<TagV> {
    s.map_values(|t: Tag| t@)
}

// ---------------------------------------------------------------------------
// Membership and lookups
// ---------------------------------------------------------------------------

pub open spec fn has_file(files: Seq<FileRowV>, cid: Seq<u8>) -> bool {
    exists|i: int| 0 <= i < files.len() && #[trigger] files[i].cid == cid
}

pub open spec fn file_idx(files: Seq<FileRowV>, cid: Seq<u8>) -> int {
    choose|i: int| 0 <= i < files.len() && #[trigger] files[i].cid == cid
}

pub open spec fn has_tag(vocab: Seq<TagRowV>, namespace: Seq<char>, descriptor: Seq<char>) -> bool {
    exists|i: int|
        0 <= i < vocab.len() && #[trigger] vocab[i].namespace == namespace && vocab[i].descriptor
            == descriptor
}

pub open spec fn has_tag_id(vocab: Seq<TagRowV>, id: int) -> bool {
    exists|i: int| 0 <= i < vocab.len() && #[trigger] vocab[i].id == id
}

pub open spec fn tag_idx_of_id(vocab: Seq<TagRowV>, id: int) -> int {
    choose|i: int| 0 <= i < vocab.len() && #[trigger] vocab[i].id == id
}

pub open spec fn has_map(maps: Seq<TagMapRowV>, file_cid: Seq<u8>, tag_id: int) -> bool {
    exists|i: int|
        0 <= i < maps.len() && #[trigger] maps[i].file_cid == file_cid && maps[i].tag_id == tag_id
}

pub open spec fn has_image(images: Seq<ImageRowV>, cid: Seq<u8>) -> bool {
    exists|i: int| 0 <= i < images.len() && #[trigger] images[i].cid == cid
}

pub open spec fn has_thumb(thumbs: Seq<ThumbnailRowV>, cid: Seq<u8>) -> bool {
    exists|i: int| 0 <= i < thumbs.len() && #[trigger] thumbs[i].cid == cid
}

/// The long edge a thumbnail row was rendered for.
pub open spec fn thumb_long_edge(t: ThumbnailRowV) -> int {
    vstd::math::max(t.height, t.width)
}

pub open spec fn has_thumb_rung(thumbs: Seq<ThumbnailRowV>, source_cid: Seq<u8>, rung: int) -> bool {
    exists|i: int|
        0 <= i < thumbs.len() && #[trigger] thumbs[i].source_cid == source_cid && thumb_long_edge(
            thumbs[i],
        ) == rung
}

/// Whether one of the wanted tags names this `(namespace, descriptor)`.
pub open spec fn wanted_has(ts: Seq<TagV>, namespace: Seq<char>, descriptor: Seq<char>) -> bool {
    exists|i: int|
        0 <= i < ts.len() && #[trigger] ts[i].namespace == namespace && ts[i].descriptor
            == descriptor
}

/// The vocabulary rows whose `(namespace, descriptor)` is among `ts`, in
/// table order.
pub open spec fn spec_lookup(vocab: Seq<TagRowV>, ts: Seq<TagV>) -> Seq<TagRowV>
    decreases vocab.len(),
{
    if vocab.len() == 0 {
        Seq::empty()
    } else {
        let init = spec_lookup(vocab.drop_last(), ts);
        if wanted_has(ts, vocab.last().namespace, vocab.last().descriptor) {
            init.push(vocab.last())
        } else {
            init
        }
    }
}

/// One vocabulary insert, ignored when the pair is already present.
pub open spec fn spec_add_tag(vocab: Seq<TagRowV>, next: int, t: TagV) -> (Seq<TagRowV>, int) {
    if has_tag(vocab, t.namespace, t.descriptor) {
        (vocab, next)
    } else {
        (vocab.push(TagRowV { id: next, namespace: t.namespace, descriptor: t.descriptor }),
        next + 1)
    }
}

/// Vocabulary inserts for each tag in order, each ignored on conflict.
pub open spec fn spec_add_vocab(vocab: Seq<TagRowV>, next: int, ts: Seq<TagV>) -> (Seq<TagRowV>, int)
    decreases ts.len(),
{
    if ts.len() == 0 {
        (vocab, next)
    } else {
        let prev = spec_add_vocab(vocab, next, ts.drop_last());
        spec_add_tag(prev.0, prev.1, ts.last())
    }
}

/// One tag-map insert, ignored when `(file_cid, tag_id)` is already mapped.
pub open spec fn spec_add_map(maps: Seq<TagMapRowV>, r: TagMapRowV) -> Seq<TagMapRowV> {
    if has_map(maps, r.file_cid, r.tag_id) {
        maps
    } else {
        maps.push(r)
    }
}

/// Tag-map inserts for each row in order, each ignored on conflict.
pub open spec fn spec_add_maps(maps: Seq<TagMapRowV>, rows: Seq<TagMapRowV>) -> Seq<TagMapRowV>
    decreases rows.len(),
{
    if rows.len() == 0 {
        maps
    } else {
        spec_add_map(spec_add_maps(maps, rows.drop_last()), rows.last())
    }
}

/// The inner join of the tag map with the vocabulary, filtered by file:
/// for each map row of `cid` in order, the vocabulary row with its id.
pub open spec fn spec_file_tags(
    maps: Seq<TagMapRowV>,
    vocab: Seq<TagRowV>,
    cid: Seq<u8>,
) -> Seq<TagRowV>
    decreases maps.len(),
{
    if maps.len() == 0 {
        Seq::empty()
    } else {
        let init = spec_file_tags(maps.drop_last(), vocab, cid);
        let m = maps.last();
        if m.file_cid == cid && has_tag_id(vocab, m.tag_id) {
            init.push(vocab[tag_idx_of_id(vocab, m.tag_id)])
        } else {
            init
        }
    }
}

/// One page of an ordering: `count` rows starting at `offset`, clamped to
/// the end.
pub open spec fn spec_page(s: Seq<FileRowV>, count: int, offset: int) -> Seq<FileRowV>
    recommends
        count >= 0,
        offset >= 0,
{
    let lo = vstd::math::min(offset, s.len() as int);
    let hi = vstd::math::min(lo + count, s.len() as int);
    s.subrange(lo, hi)
}

/// A sample of `out.len()` pairwise-distinct positions of `files`,
/// `out[k]` being the row at the `k`-th drawn position.
pub open spec fn valid_sample(picks: Seq<int>, files: Seq<FileRowV>, out: Seq<FileRowV>) -> bool {
    &&& picks.no_duplicates()
    &&& picks.len() == out.len()
    &&& forall|k: int|
        0 <= k < picks.len() ==> 0 <= #[trigger] picks[k] < files.len() && out[k]
            == files[picks[k]]
}

// ---------------------------------------------------------------------------
// The store
// ---------------------------------------------------------------------------

pub struct Db {
    pub files: Vec<FileRow>,
    pub tags: Vec<TagRow>,
    pub tag_map: Vec<TagMapRow>,
    pub images: Vec<ImageRow>,
    pub thumbnails: Vec<ThumbnailRow>,
    pub next_tag_id: i32,
}

impl Db {
    /// The uniqueness keys of the schema: file and image CIDs unique,
    /// `(namespace, descriptor)` and ids unique in the vocabulary,
    /// `(file_cid, tag_id)` unique in the tag map, thumbnail CIDs unique
    /// and at most one thumbnail per source and rung; vocabulary ids grow
    /// below `next_tag_id`.
    pub open spec fn wf(&self) -> bool {
        &&& forall|i: int, j: int|
            0 <= i < j < self.files@.len() ==> #[trigger] self.files@[i]@.cid
                != #[trigger] self.files@[j]@.cid
        &&& forall|i: int, j: int|
            0 <= i < j < self.tags@.len() ==> #[trigger] self.tags@[i]@.id
                != #[trigger] self.tags@[j]@.id
        &&& forall|i: int, j: int|
            0 <= i < j < self.tags@.len() ==> !(#[trigger] self.tags@[i]@.namespace
                == #[trigger] self.tags@[j]@.namespace && self.tags@[i]@.descriptor
                == self.tags@[j]@.descriptor)
        &&& forall|i: int|
            0 <= i < self.tags@.len() ==> 1 <= #[trigger] self.tags@[i]@.id
                < self.next_tag_id as int
        &&& self.next_tag_id >= 1
        &&& forall|i: int, j: int|
            0 <= i < j < self.tag_map@.len() ==> !(#[trigger] self.tag_map@[i]@.file_cid
                == #[trigger] self.tag_map@[j]@.file_cid && self.tag_map@[i]@.tag_id
                == self.tag_map@[j]@.tag_id)
        &&& forall|i: int, j: int|
            0 <= i < j < self.images@.len() ==> #[trigger] self.images@[i]@.cid
                != #[trigger] self.images@[j]@.cid
        &&& forall|i: int, j: int|
            0 <= i < j < self.thumbnails@.len() ==> #[trigger] self.thumbnails@[i]@.cid
                != #[trigger] self.thumbnails@[j]@.cid
        &&& forall|i: int, j: int|
            0 <= i < j < self.thumbnails@.len() ==> !(#[trigger] self.thumbnails@[i]@.source_cid
                == #[trigger] self.thumbnails@[j]@.source_cid && thumb_long_edge(
                self.thumbnails@[i]@,
            ) == thumb_long_edge(self.thumbnails@[j]@))
    }

    /// An empty index, as `CREATE TABLE IF NOT EXISTS` leaves a fresh one.
    pub fn new() -> (r: Db)
        ensures
            r.wf(),
            r.files@.len() == 0,
            r.tags@.len() == 0,
            r.tag_map@.len() == 0,
            r.images@.len() == 0,
            r.thumbnails@.len() == 0,
            r.next_tag_id == 1,
    {
        Db {
            files: Vec::new(),
            tags: Vec::new(),
            tag_map: Vec::new(),
            images: Vec::new(),
            thumbnails: Vec::new(),
            next_tag_id: 1,
        }
    }

    /// Insert a file row; a row with the same CID already present leaves
    /// the table unchanged.
    pub fn new_file(&mut self, f: FileRow)
        requires
            old(self).wf(),
        ensures
            final(self).wf(),
            final(self).tags == old(self).tags,
            final(self).tag_map == old(self).tag_map,
            final(self).images == old(self).images,
            final(self).thumbnails == old(self).thumbnails,
            final(self).next_tag_id == old(self).next_tag_id,
            has_file(files_v(old(self).files@), f@.cid) ==> final(self).files == old(self).files,
            !has_file(files_v(old(self).files@), f@.cid) ==> files_v(final(self).files@)
                == files_v(old(self).files@).push(f@),
            has_file(files_v(final(self).files@), f@.cid),
    {
        let n = self.files.len();
        let mut i: usize = 0;
        while i < n
            invariant
                i <= n,
                n == self.files@.len(),
                forall|k: int| 0 <= k < i ==> #[trigger] self.files@[k]@.cid != f@.cid,
            decreases n - i,
        {
            if crate::text::bytes_eq(&self.files[i].cid, &f.cid) {
                proof {
                    assert(files_v(self.files@)[i as int].cid == f@.cid);
                }
                return ;
            }
            i = i + 1;
        }
        proof {
            assert forall|k: int|
                0 <= k < files_v(self.files@).len() implies #[trigger] files_v(self.files@)[k].cid
                != f@.cid by {
                assert(self.files@[k]@.cid != f@.cid);
            }
        }
        let ghost prev = self.files@;
        self.files.push(f);
        proof {
            assert(files_v(self.files@) =~= files_v(prev).push(self.files@.last()@));
            assert(files_v(self.files@)[files_v(self.files@).len() - 1].cid == f@.cid);
        }
    }

    /// The file row for a CID, or `NotFound`.
    pub fn file_row(&self, cid: &Vec<u8>) -> (r: Result<FileRow, VaultError>)
        requires
            self.wf(),
        ensures
            r matches Ok(f) ==> has_file(files_v(self.files@), cid@) && f@ == files_v(
                self.files@,
            )[file_idx(files_v(self.files@), cid@)],
            r is Err ==> !has_file(files_v(self.files@), cid@) && (r matches Err(e) && e
                == VaultError::NotFound),
    {
        let n = self.files.len();
        let mut i: usize = 0;
        while i < n
            invariant
                i <= n,
                n == self.files@.len(),
                self.wf(),
                forall|k: int| 0 <= k < i ==> #[trigger] self.files@[k]@.cid != cid@,
            decreases n - i,
        {
            if crate::text::bytes_eq(&self.files[i].cid, &cid) {
                let found = clone_file_row(&self.files[i]);
                proof {
                    let fv = files_v(self.files@);
                    assert(fv[i as int].cid == cid@);
                    let w = file_idx(fv, cid@);
                    assert(fv[w].cid == cid@);
                    if w != i as int {
                        assert(self.files@[w]@.cid == self.files@[i as int]@.cid);
                        assert(false);
                    }
                }
                return Ok(found);
            }
            i = i + 1;
        }
        proof {
            assert forall|k: int|
                0 <= k < files_v(self.files@).len() implies #[trigger] files_v(self.files@)[k].cid
                != cid@ by {
                assert(self.files@[k]@.cid != cid@);
            }
        }
        Err(VaultError::NotFound)
    }

    /// Insert each `(namespace, descriptor)` of `tags` in order, assigning
    /// ids in sequence; pairs already in the vocabulary are ignored.
    pub fn new_tag_vocab(&mut self, tags: &Vec<Tag>)
        requires
            old(self).wf(),
            old(self).next_tag_id as int + tags@.len() <= i32::MAX,
        ensures
            final(self).wf(),
            final(self).files == old(self).files,
            final(self).tag_map == old(self).tag_map,
            final(self).images == old(self).images,
            final(self).thumbnails == old(self).thumbnails,
            (tags_v(final(self).tags@), final(self).next_tag_id as int) == spec_add_vocab(
                tags_v(old(self).tags@),
                old(self).next_tag_id as int,
                tag_views(tags@),
            ),
    {
        let n = tags.len();
        let mut i: usize = 0;
        proof {
            assert(tag_views(tags@).take(0) =~= Seq::<TagV>::empty());
        }
        while i < n
            invariant
                i <= n,
                n == tags@.len(),
                self.wf(),
                self.files == old(self).files,
                self.tag_map == old(self).tag_map,
                self.images == old(self).images,
                self.thumbnails == old(self).thumbnails,
                old(self).next_tag_id as int + tags@.len() <= i32::MAX,
                self.next_tag_id as int <= old(self).next_tag_id as int + i,
                (tags_v(self.tags@), self.next_tag_id as int) == spec_add_vocab(
                    tags_v(old(self).tags@),
                    old(self).next_tag_id as int,
                    tag_views(tags@).take(i as int),
                ),
            decreases n - i,
        {
            let t = &tags[i];
            let ghost before = tags_v(self.tags@);
            let ghost next_before = self.next_tag_id as int;
            let found = self.has_tag_pair(&t.namespace, &t.descriptor);
            if !found {
                let row = TagRow {
                    id: self.next_tag_id,
                    namespace: crate::text::clone_string(&t.namespace),
                    descriptor: crate::text::clone_string(&t.descriptor),
                };
                proof {
                    assert(row@ == TagRowV {
                        id: next_before,
                        namespace: t@.namespace,
                        descriptor: t@.descriptor,
                    });
                }
                self.tags.push(row);
                self.next_tag_id = self.next_tag_id + 1;
                proof {
                    assert(tags_v(self.tags@) =~= before.push(self.tags@.last()@));
                    let m = self.tags@.len() - 1;
                    assert forall|x: int, y: int|
                        0 <= x < y < self.tags@.len() implies #[trigger] self.tags@[x]@.id
                        != #[trigger] self.tags@[y]@.id by {
                        if y == m {
                            assert(self.tags@[x]@.id < next_before);
                            assert(self.tags@[y]@.id == next_before);
                        }
                    }
                    assert forall|x: int, y: int|
                        0 <= x < y < self.tags@.len() implies !(#[trigger] self.tags@[x]@.namespace
                        == #[trigger] self.tags@[y]@.namespace && self.tags@[x]@.descriptor
                        == self.tags@[y]@.descriptor) by {
                        if y == m {
                            assert(before[x] == self.tags@[x]@);
                            assert(!(before[x].namespace == t@.namespace && before[x].descriptor
                                == t@.descriptor));
                        }
                    }
                }
            }
            i = i + 1;
            proof {
                let ts = tag_views(tags@);
                assert(ts.take(i as int).drop_last() =~= ts.take(i as int - 1));
                assert(ts.take(i as int).last() == ts[i as int - 1]);
                assert(ts[i as int - 1] == t@);
            }
        }
        proof {
            assert(tag_views(tags@).take(n as int) =~= tag_views(tags@));
        }
    }

    /// Whether the vocabulary holds this pair.
    pub fn has_tag_pair(&self, namespace: &String, descriptor: &String) -> (r: bool)
        ensures
            r == has_tag(tags_v(self.tags@), namespace@, descriptor@),
    {
        let n = self.tags.len();
        let mut i: usize = 0;
        while i < n
            invariant
                i <= n,
                n == self.tags@.len(),
                forall|k: int|
                    0 <= k < i ==> !(#[trigger] self.tags@[k]@.namespace == namespace@
                        && self.tags@[k]@.descriptor == descriptor@),
            decreases n - i,
        {
            if crate::text::str_eq(self.tags[i].namespace.as_str(), namespace.as_str())
                && crate::text::str_eq(self.tags[i].descriptor.as_str(), descriptor.as_str()) {
                proof {
                    assert(tags_v(self.tags@)[i as int].namespace == namespace@);
                }
                return true;
            }
            i = i + 1;
        }
        proof {
            assert forall|k: int|
                0 <= k < tags_v(self.tags@).len() implies !(#[trigger] tags_v(
                self.tags@,
            )[k].namespace == namespace@ && tags_v(self.tags@)[k].descriptor == descriptor@) by {
                assert(!(self.tags@[k]@.namespace == namespace@ && self.tags@[k]@.descriptor
                    == descriptor@));
            }
        }
        false
    }

    /// Resolve `tags` to vocabulary rows: every row whose pair is among
    /// `tags`, in table order.  Empty input resolves to nothing.
    pub fn lookup_tag_id(&self, tags: &Vec<Tag>) -> (r: Vec<TagRow>)
        ensures
            tags_v(r@) == spec_lookup(tags_v(self.tags@), tag_views(tags@)),
    {
        let n = self.tags.len();
        let mut out: Vec<TagRow> = Vec::new();
        let mut i: usize = 0;
        proof {
            assert(tags_v(self.tags@).take(0) =~= Seq::<TagRowV>::empty());
            assert(tags_v(out@) =~= spec_lookup(tags_v(self.tags@).take(0), tag_views(tags@)));
        }
        while i < n
            invariant
                i <= n,
                n == self.tags@.len(),
                tags_v(out@) == spec_lookup(tags_v(self.tags@).take(i as int), tag_views(tags@)),
            decreases n - i,
        {
            let row = &self.tags[i];
            let ghost before = tags_v(out@);
            let mut wanted = false;
            let m = tags.len();
            let mut j: usize = 0;
            while j < m
                invariant
                    j <= m,
                    m == tags@.len(),
                    i < n,
                    n == self.tags@.len(),
                    !wanted ==> forall|k: int|
                        0 <= k < j ==> !(#[trigger] tags@[k]@.namespace
                            == self.tags@[i as int]@.namespace && tags@[k]@.descriptor
                            == self.tags@[i as int]@.descriptor),
                    wanted ==> wanted_has(
                        tag_views(tags@),
                        self.tags@[i as int]@.namespace,
                        self.tags@[i as int]@.descriptor,
                    ),
                decreases m - j,
            {
                if crate::text::str_eq(tags[j].namespace.as_str(), row.namespace.as_str())
                    && crate::text::str_eq(tags[j].descriptor.as_str(), row.descriptor.as_str()) {
                    wanted = true;
                    proof {
                        assert(tag_views(tags@)[j as int].namespace
                            == self.tags@[i as int]@.namespace);
                    }
                    break ;
                }
                j = j + 1;
            }
            proof {
                if !wanted {
                    assert forall|k: int|
                        0 <= k < tag_views(tags@).len() implies !(#[trigger] tag_views(
                        tags@,
                    )[k].namespace == self.tags@[i as int]@.namespace && tag_views(
                        tags@,
                    )[k].descriptor == self.tags@[i as int]@.descriptor) by {
                        assert(!(tags@[k]@.namespace == self.tags@[i as int]@.namespace
                            && tags@[k]@.descriptor == self.tags@[i as int]@.descriptor));
                    }
                }
            }
            if wanted {
                out.push(clone_tag_row(row));
                proof {
                    assert(tags_v(out@) =~= before.push(self.tags@[i as int]@));
                }
            }
            i = i + 1;
            proof {
                let vv = tags_v(self.tags@);
                assert(vv.take(i as int).drop_last() =~= vv.take(i as int - 1));
                assert(vv.take(i as int).last() == vv[i as int - 1]);
            }
        }
        proof {
            assert(tags_v(self.tags@).take(n as int) =~= tags_v(self.tags@));
        }
        out
    }

    /// Insert each tag-map row in order; rows whose `(file_cid, tag_id)`
    /// is already mapped are ignored.
    pub fn new_tag_map(&mut self, rows: &Vec<TagMapRow>)
        requires
            old(self).wf(),
        ensures
            final(self).wf(),
            final(self).files == old(self).files,
            final(self).tags == old(self).tags,
            final(self).images == old(self).images,
            final(self).thumbnails == old(self).thumbnails,
            final(self).next_tag_id == old(self).next_tag_id,
            maps_v(final(self).tag_map@) == spec_add_maps(
                maps_v(old(self).tag_map@),
                maps_v(rows@),
            ),
    {
        let n = rows.len();
        let mut i: usize = 0;
        proof {
            assert(maps_v(rows@).take(0) =~= Seq::<TagMapRowV>::empty());
        }
        while i < n
            invariant
                i <= n,
                n == rows@.len(),
                self.wf(),
                self.files == old(self).files,
                self.tags == old(self).tags,
                self.images == old(self).images,
                self.thumbnails == old(self).thumbnails,
                self.next_tag_id == old(self).next_tag_id,
                maps_v(self.tag_map@) == spec_add_maps(
                    maps_v(old(self).tag_map@),
                    maps_v(rows@).take(i as int),
                ),
            decreases n - i,
        {
            let r = &rows[i];
            let ghost before = maps_v(self.tag_map@);
            let found = self.has_map_pair(&r.file_cid, r.tag_id);
            if !found {
                self.tag_map.push(clone_tag_map_row(r));
                proof {
                    assert(maps_v(self.tag_map@) =~= before.push(r@));
                    let m = self.tag_map@.len() - 1;
                    assert forall|x: int, y: int|
                        0 <= x < y < self.tag_map@.len() implies !(
                    #[trigger] self.tag_map@[x]@.file_cid == #[trigger] self.tag_map@[y]@.file_cid
                        && self.tag_map@[x]@.tag_id == self.tag_map@[y]@.tag_id) by {
                        if y == m {
                            assert(before[x] == self.tag_map@[x]@);
                            assert(!(before[x].file_cid == r@.file_cid && before[x].tag_id
                                == r@.tag_id));
                            assert(self.tag_map@[y]@ == r@);
                        }
                    }
                }
            }
            i = i + 1;
            proof {
                let rv = maps_v(rows@);
                assert(rv.take(i as int).drop_last() =~= rv.take(i as int - 1));
                assert(rv.take(i as int).last() == rv[i as int - 1]);
            }
        }
        proof {
            assert(maps_v(rows@).take(n as int) =~= maps_v(rows@));
        }
    }

    /// Whether `(file_cid, tag_id)` is already mapped.
    pub fn has_map_pair(&self, file_cid: &Vec<u8>, tag_id: i32) -> (r: bool)
        ensures
            r == has_map(maps_v(self.tag_map@), file_cid@, tag_id as int),
    {
        let n = self.tag_map.len();
        let mut i: usize = 0;
        while i < n
            invariant
                i <= n,
                n == self.tag_map@.len(),
                forall|k: int|
                    0 <= k < i ==> !(#[trigger] self.tag_map@[k]@.file_cid == file_cid@
                        && self.tag_map@[k]@.tag_id == tag_id as int),
            decreases n - i,
        {
            if crate::text::bytes_eq(&self.tag_map[i].file_cid, file_cid) && self.tag_map[i].tag_id
                == tag_id {
                proof {
                    assert(maps_v(self.tag_map@)[i as int].file_cid == file_cid@);
                }
                return true;
            }
            i = i + 1;
        }
        proof {
            assert forall|k: int|
                0 <= k < maps_v(self.tag_map@).len() implies !(#[trigger] maps_v(
                self.tag_map@,
            )[k].file_cid == file_cid@ && maps_v(self.tag_map@)[k].tag_id == tag_id as int) by {
                assert(!(self.tag_map@[k]@.file_cid == file_cid@ && self.tag_map@[k]@.tag_id
                    == tag_id as int));
            }
        }
        false
    }

    /// All tags of one file: the inner join of the tag map with the
    /// vocabulary, filtered by `cid`.
    pub fn file_tags(&self, cid: &Vec<u8>) -> (r: Vec<TagRow>)
        requires
            self.wf(),
        ensures
            tags_v(r@) == spec_file_tags(maps_v(self.tag_map@), tags_v(self.tags@), cid@),
    {
        let n = self.tag_map.len();
        let mut out: Vec<TagRow> = Vec::new();
        let mut i: usize = 0;
        proof {
            assert(maps_v(self.tag_map@).take(0) =~= Seq::<TagMapRowV>::empty());
        }
        while i < n
            invariant
                i <= n,
                n == self.tag_map@.len(),
                self.wf(),
                tags_v(out@) == spec_file_tags(
                    maps_v(self.tag_map@).take(i as int),
                    tags_v(self.tags@),
                    cid@,
                ),
            decreases n - i,
        {
            let m = &self.tag_map[i];
            let ghost before = tags_v(out@);
            if crate::text::bytes_eq(&m.file_cid, cid) {
                match self.tag_row_by_id(m.tag_id) {
                    Some(row) => {
                        out.push(row);
                        proof {
                            let vv = tags_v(self.tags@);
                            assert(tags_v(out@) =~= before.push(
                                vv[tag_idx_of_id(vv, m@.tag_id)],
                            ));
                        }
                    },
                    None => {},
                }
            }
            i = i + 1;
            proof {
                let mv = maps_v(self.tag_map@);
                assert(mv.take(i as int).drop_last() =~= mv.take(i as int - 1));
                assert(mv.take(i as int).last() == mv[i as int - 1]);
            }
        }
        proof {
            assert(maps_v(self.tag_map@).take(n as int) =~= maps_v(self.tag_map@));
        }
        out
    }

    /// The vocabulary row with this id, if any.
    fn tag_row_by_id(&self, id: i32) -> (r: Option<TagRow>)
        requires
            self.wf(),
        ensures
            r matches Some(row) ==> has_tag_id(tags_v(self.tags@), id as int) && row@ == tags_v(
                self.tags@,
            )[tag_idx_of_id(tags_v(self.tags@), id as int)],
            r is None ==> !has_tag_id(tags_v(self.tags@), id as int),
    {
        let n = self.tags.len();
        let mut i: usize = 0;
        while i < n
            invariant
                i <= n,
                n == self.tags@.len(),
                self.wf(),
                forall|k: int| 0 <= k < i ==> #[trigger] self.tags@[k]@.id != id as int,
            decreases n - i,
        {
            if self.tags[i].id == id {
                let row = clone_tag_row(&self.tags[i]);
                proof {
                    let vv = tags_v(self.tags@);
                    assert(vv[i as int].id == id as int);
                    let w = tag_idx_of_id(vv, id as int);
                    assert(vv[w].id == id as int);
                    if w != i as int {
                        assert(self.tags@[w]@.id == self.tags@[i as int]@.id);
                        assert(false);
                    }
                }
                return Some(row);
            }
            i = i + 1;
        }
        proof {
            assert forall|k: int|
                0 <= k < tags_v(self.tags@).len() implies #[trigger] tags_v(self.tags@)[k].id
                != id as int by {
                assert(self.tags@[k]@.id != id as int);
            }
        }
        None
    }

    /// Insert an image row; a row with the same CID leaves the table
    /// unchanged.
    pub fn new_image(&mut self, image: ImageRow)
        requires
            old(self).wf(),
        ensures
            final(self).wf(),
            final(self).files == old(self).files,
            final(self).tags == old(self).tags,
            final(self).tag_map == old(self).tag_map,
            final(self).thumbnails == old(self).thumbnails,
            final(self).next_tag_id == old(self).next_tag_id,
            has_image(images_v(old(self).images@), image@.cid) ==> final(self).images == old(
                self,
            ).images,
            !has_image(images_v(old(self).images@), image@.cid) ==> images_v(
                final(self).images@,
            ) == images_v(old(self).images@).push(image@),
    {
        let n = self.images.len();
        let mut i: usize = 0;
        while i < n
            invariant
                i <= n,
                n == self.images@.len(),
                forall|k: int| 0 <= k < i ==> #[trigger] self.images@[k]@.cid != image@.cid,
            decreases n - i,
        {
            if crate::text::bytes_eq(&self.images[i].cid, &image.cid) {
                proof {
                    assert(images_v(self.images@)[i as int].cid == image@.cid);
                }
                return ;
            }
            i = i + 1;
        }
        proof {
            assert forall|k: int|
                0 <= k < images_v(self.images@).len() implies #[trigger] images_v(
                self.images@,
            )[k].cid != image@.cid by {
                assert(self.images@[k]@.cid != image@.cid);
            }
        }
        let ghost prev = self.images@;
        self.images.push(image);
        proof {
            assert(images_v(self.images@) =~= images_v(prev).push(self.images@.last()@));
        }
    }

    /// Whether an image row for this CID exists.
    pub fn has_image_row(&self, cid: &Vec<u8>) -> (r: bool)
        ensures
            r == has_image(images_v(self.images@), cid@),
    {
        let n = self.images.len();
        let mut i: usize = 0;
        while i < n
            invariant
                i <= n,
                n == self.images@.len(),
                forall|k: int| 0 <= k < i ==> #[trigger] self.images@[k]@.cid != cid@,
            decreases n - i,
        {
            if crate::text::bytes_eq(&self.images[i].cid, cid) {
                proof {
                    assert(images_v(self.images@)[i as int].cid == cid@);
                }
                return true;
            }
            i = i + 1;
        }
        proof {
            assert forall|k: int|
                0 <= k < images_v(self.images@).len() implies #[trigger] images_v(
                self.images@,
            )[k].cid != cid@ by {
                assert(self.images@[k]@.cid != cid@);
            }
        }
        false
    }

    /// Whether a thumbnail row for this source and rung exists.
    pub fn has_thumbnail_rung(&self, source_cid: &Vec<u8>, rung: u32) -> (r: bool)
        ensures
            r == has_thumb_rung(thumbs_v(self.thumbnails@), source_cid@, rung as int),
    {
        let n = self.thumbnails.len();
        let mut i: usize = 0;
        while i < n
            invariant
                i <= n,
                n == self.thumbnails@.len(),
                forall|k: int|
                    0 <= k < i ==> !(#[trigger] self.thumbnails@[k]@.source_cid == source_cid@
                        && thumb_long_edge(self.thumbnails@[k]@) == rung as int),
            decreases n - i,
        {
            let t = &self.thumbnails[i];
            let long: i64 = if t.width > t.height {
                t.width
            } else {
                t.height
            };
            if crate::text::bytes_eq(&t.source_cid, source_cid) && long == rung as i64 {
                proof {
                    assert(thumbs_v(self.thumbnails@)[i as int].source_cid == source_cid@);
                    assert(thumb_long_edge(thumbs_v(self.thumbnails@)[i as int]) == rung as int);
                }
                return true;
            }
            i = i + 1;
        }
        proof {
            assert forall|k: int|
                0 <= k < thumbs_v(self.thumbnails@).len() implies !(#[trigger] thumbs_v(
                self.thumbnails@,
            )[k].source_cid == source_cid@ && thumb_long_edge(thumbs_v(self.thumbnails@)[k])
                == rung as int) by {
                assert(!(self.thumbnails@[k]@.source_cid == source_cid@ && thumb_long_edge(
                    self.thumbnails@[k]@,
                ) == rung as int));
            }
        }
        false
    }

    /// Insert a thumbnail row; a row with the same CID, or one for the
    /// same source and rung, leaves the table unchanged.
    pub fn new_thumbnail(&mut self, thumbnail: ThumbnailRow)
        requires
            old(self).wf(),
        ensures
            final(self).wf(),
            final(self).files == old(self).files,
            final(self).tags == old(self).tags,
            final(self).tag_map == old(self).tag_map,
            final(self).images == old(self).images,
            final(self).next_tag_id == old(self).next_tag_id,
            has_thumb(thumbs_v(old(self).thumbnails@), thumbnail@.cid) || has_thumb_rung(
                thumbs_v(old(self).thumbnails@),
                thumbnail@.source_cid,
                thumb_long_edge(thumbnail@),
            ) ==> final(self).thumbnails == old(self).thumbnails,
            !(has_thumb(thumbs_v(old(self).thumbnails@), thumbnail@.cid) || has_thumb_rung(
                thumbs_v(old(self).thumbnails@),
                thumbnail@.source_cid,
                thumb_long_edge(thumbnail@),
            )) ==> thumbs_v(final(self).thumbnails@) == thumbs_v(old(self).thumbnails@).push(
                thumbnail@,
            ),
    {
        let n = self.thumbnails.len();
        let new_long: i64 = if thumbnail.width > thumbnail.height {
            thumbnail.width
        } else {
            thumbnail.height
        };
        let mut i: usize = 0;
        while i < n
            invariant
                i <= n,
                n == self.thumbnails@.len(),
                new_long as int == thumb_long_edge(thumbnail@),
                forall|k: int|
                    0 <= k < i ==> #[trigger] self.thumbnails@[k]@.cid != thumbnail@.cid,
                forall|k: int|
                    0 <= k < i ==> !(#[trigger] self.thumbnails@[k]@.source_cid
                        == thumbnail@.source_cid && thumb_long_edge(self.thumbnails@[k]@)
                        == thumb_long_edge(thumbnail@)),
            decreases n - i,
        {
            let t = &self.thumbnails[i];
            let long: i64 = if t.width > t.height {
                t.width
            } else {
                t.height
            };
            proof {
                assert(long as int == thumb_long_edge(self.thumbnails@[i as int]@));
            }
            if crate::text::bytes_eq(&t.cid, &thumbnail.cid) {
                proof {
                    assert(thumbs_v(self.thumbnails@)[i as int].cid == thumbnail@.cid);
                }
                return ;
            }
            if crate::text::bytes_eq(&t.source_cid, &thumbnail.source_cid) && long == new_long {
                proof {
                    assert(thumbs_v(self.thumbnails@)[i as int].source_cid
                        == thumbnail@.source_cid);
                    assert(thumb_long_edge(thumbs_v(self.thumbnails@)[i as int])
                        == thumb_long_edge(thumbnail@));
                }
                return ;
            }
            proof {
                assert(self.thumbnails@[i as int]@.cid != thumbnail@.cid);
                assert(!(self.thumbnails@[i as int]@.source_cid == thumbnail@.source_cid
                    && thumb_long_edge(self.thumbnails@[i as int]@) == thumb_long_edge(
                    thumbnail@,
                )));
            }
            i = i + 1;
        }
        proof {
            assert forall|k: int|
                0 <= k < thumbs_v(self.thumbnails@).len() implies #[trigger] thumbs_v(
                self.thumbnails@,
            )[k].cid != thumbnail@.cid by {
                assert(self.thumbnails@[k]@.cid != thumbnail@.cid);
            }
            assert forall|k: int|
                0 <= k < thumbs_v(self.thumbnails@).len() implies !(#[trigger] thumbs_v(
                self.thumbnails@,
            )[k].source_cid == thumbnail@.source_cid && thumb_long_edge(
                thumbs_v(self.thumbnails@)[k],
            ) == thumb_long_edge(thumbnail@)) by {
                assert(!(self.thumbnails@[k]@.source_cid == thumbnail@.source_cid
                    && thumb_long_edge(self.thumbnails@[k]@) == thumb_long_edge(thumbnail@)));
            }
        }
        let ghost prev = self.thumbnails@;
        proof {
            assert(prev == old(self).thumbnails@);
            assert(!has_thumb(thumbs_v(prev), thumbnail@.cid));
            assert(!has_thumb_rung(
                thumbs_v(prev),
                thumbnail@.source_cid,
                thumb_long_edge(thumbnail@),
            ));
        }
        self.thumbnails.push(thumbnail);
        proof {
            assert(thumbs_v(self.thumbnails@) =~= thumbs_v(prev).push(self.thumbnails@.last()@));
            let m = self.thumbnails@.len() - 1;
            assert forall|x: int, y: int|
                0 <= x < y < self.thumbnails@.len() implies #[trigger] self.thumbnails@[x]@.cid
                != #[trigger] self.thumbnails@[y]@.cid by {
                if y == m {
                    assert(self.thumbnails@[x]@.cid != self.thumbnails@[y]@.cid);
                }
            }
            assert forall|x: int, y: int|
                0 <= x < y < self.thumbnails@.len() implies !(
            #[trigger] self.thumbnails@[x]@.source_cid == #[trigger] self.thumbnails@[y]@.source_cid
                && thumb_long_edge(self.thumbnails@[x]@) == thumb_long_edge(
                self.thumbnails@[y]@,
            )) by {
                if y == m {
                    assert(self.thumbnails@[x] == prev[x]);
                    assert(prev[x]@.cid != thumbnail@.cid);
                    assert(self.thumbnails@[y]@ == thumbnail@);
                    assert(!(prev[x]@.source_cid == thumbnail@.source_cid && thumb_long_edge(
                        prev[x]@,
                    ) == thumb_long_edge(thumbnail@)));
                }
            }
        }
    }

    /// One page of files ordered by insertion time: ascending when
    /// `oldest_first`, else descending.
    pub fn file_page(&self, count: u32, offset: u32, oldest_first: bool) -> (r: Vec<FileRow>)
        ensures
            oldest_first ==> files_v(r@) == spec_page(
                files_v(self.files@),
                count as int,
                offset as int,
            ),
            !oldest_first ==> files_v(r@) == spec_page(
                files_v(self.files@).reverse(),
                count as int,
                offset as int,
            ),
    {
        let n = self.files.len();
        let lo = if (offset as usize) < n {
            offset as usize
        } else {
            n
        };
        let remaining = n - lo;
        let take = if (count as usize) < remaining {
            count as usize
        } else {
            remaining
        };
        let mut out: Vec<FileRow> = Vec::new();
        let mut k: usize = 0;
        while k < take
            invariant
                k <= take,
                lo + take <= n,
                n == self.files@.len(),
                oldest_first ==> files_v(out@) == files_v(self.files@).subrange(
                    lo as int,
                    lo as int + k,
                ),
                !oldest_first ==> files_v(out@) == files_v(self.files@).reverse().subrange(
                    lo as int,
                    lo as int + k,
                ),
            decreases take - k,
        {
            let ghost before = files_v(out@);
            let idx = if oldest_first {
                lo + k
            } else {
                n - 1 - (lo + k)
            };
            out.push(clone_file_row(&self.files[idx]));
            k = k + 1;
            proof {
                if oldest_first {
                    assert(files_v(out@) =~= files_v(self.files@).subrange(
                        lo as int,
                        lo as int + k,
                    ));
                } else {
                    let rev = files_v(self.files@).reverse();
                    assert(rev[lo as int + k - 1] == files_v(self.files@)[n - 1 - (lo + k - 1)]);
                    assert(files_v(out@) =~= rev.subrange(lo as int, lo as int + k));
                }
            }
        }
        proof {
            assert(files_v(self.files@).len() == self.files@.len());
            assert(files_v(self.files@).reverse().len() == self.files@.len());
            if oldest_first {
                assert(files_v(out@) =~= spec_page(
                    files_v(self.files@),
                    count as int,
                    offset as int,
                ));
            } else {
                assert(files_v(out@) =~= spec_page(
                    files_v(self.files@).reverse(),
                    count as int,
                    offset as int,
                ));
            }
        }
        out
    }

    /// A sample without replacement of at most `count` rows.  Which rows
    /// come back, and in what order, is the draw's alone; every outcome is
    /// a valid sample.
    pub fn random_file(&self, count: u32) -> (r: Vec<FileRow>)
        ensures
            r@.len() == vstd::math::min(count as int, self.files@.len() as int),
            exists|picks: Seq<int>|
                #[trigger] valid_sample(picks, files_v(self.files@), files_v(r@)),
    {
        let n = self.files.len();
        let take = if (count as usize) < n {
            count as usize
        } else {
            n
        };
        let mut idx: Vec<usize> = Vec::new();
        let mut i: usize = 0;
        while i < n
            invariant
                i <= n,
                idx@.len() == i,
                forall|k: int| 0 <= k < i ==> #[trigger] idx@[k] == k,
            decreases n - i,
        {
            idx.push(i);
            i = i + 1;
        }
        let mut k: usize = 0;
        let mut out: Vec<FileRow> = Vec::new();
        while k < take
            invariant
                k <= take,
                take <= n,
                n == self.files@.len(),
                idx@.len() == n,
                forall|p: int| 0 <= p < n ==> #[trigger] idx@[p] < n,
                idx@.no_duplicates(),
                out@.len() == k,
                forall|p: int|
                    0 <= p < k ==> files_v(out@)[p] == files_v(self.files@)[idx@[p] as int],
            decreases take - k,
        {
            let j = k + crate::rng::rand_below(n - k);
            let ghost origv = idx@;
            let a = idx[k];
            let b = idx[j];
            idx.set(k, b);
            idx.set(j, a);
            proof {
                let cur = idx@;
                assert(cur =~= origv.update(k as int, origv[j as int]).update(
                    j as int,
                    origv[k as int],
                ));
                assert forall|p: int, q: int|
                    0 <= p < q < cur.len() implies #[trigger] cur[p] != #[trigger] cur[q] by {
                    if p == k as int || p == j as int || q == k as int || q == j as int {
                        assert(origv[p] != origv[q]);
                    } else {
                        assert(origv[p] != origv[q]);
                    }
                }
            }
            let ghost before = files_v(out@);
            out.push(clone_file_row(&self.files[b]));
            k = k + 1;
            proof {
                assert(files_v(out@) =~= before.push(out@.last()@));
                assert(idx@[k - 1] == b);
                assert(files_v(out@)[k - 1] == files_v(self.files@)[b as int]);
            }
        }
        proof {
            let picks = idx@.take(take as int).map_values(|u: usize| u as int);
            assert(picks.no_duplicates()) by {
                assert forall|p: int, q: int|
                    0 <= p < q < picks.len() implies picks[p] != picks[q] by {
                    assert(idx@.take(take as int)[p] == idx@[p]);
                    assert(idx@.take(take as int)[q] == idx@[q]);
                }
            }
            assert(valid_sample(picks, files_v(self.files@), files_v(out@)));
        }
        out
    }
}

/// A copy of a file row, by value.
pub fn clone_file_row(r: &FileRow) -> (c: FileRow)
    ensures
        c@ == r@,
{
    FileRow {
        cid: crate::chunked_reader::clone_bytes(&r.cid),
        size: r.size,
        mimetype: crate::text::clone_opt_string(&r.mimetype),
    }
}

/// A copy of a vocabulary row, by value.
pub fn clone_tag_row(r: &TagRow) -> (c: TagRow)
    ensures
        c@ == r@,
{
    TagRow {
        id: r.id,
        namespace: crate::text::clone_string(&r.namespace),
        descriptor: crate::text::clone_string(&r.descriptor),
    }
}

/// A copy of a tag-map row, by value.
pub fn clone_tag_map_row(r: &TagMapRow) -> (c: TagMapRow)
    ensures
        c@ == r@,
{
    TagMapRow {
        file_cid: crate::chunked_reader::clone_bytes(&r.file_cid),
        tag_id: r.tag_id,
        added: crate::text::clone_opt_string(&r.added),
        reason: r.reason,
    }
}

// ---------------------------------------------------------------------------
// Pagination law
// ---------------------------------------------------------------------------

/// Law: a well-formed index holds at most one thumbnail row per source
/// image and ladder rung — two rows for the same source with the same
/// long edge are the same row.
pub proof fn lemma_thumbnail_rung_unique(db: &Db, i: int, j: int)
    requires
        db.wf(),
        0 <= i < db.thumbnails@.len(),
        0 <= j < db.thumbnails@.len(),
        db.thumbnails@[i]@.source_cid == db.thumbnails@[j]@.source_cid,
        thumb_long_edge(db.thumbnails@[i]@) == thumb_long_edge(db.thumbnails@[j]@),
    ensures
        i == j,
{
    if i < j {
        assert(!(db.thumbnails@[i]@.source_cid == db.thumbnails@[j]@.source_cid
            && thumb_long_edge(db.thumbnails@[i]@) == thumb_long_edge(db.thumbnails@[j]@)));
    }
    if j < i {
        assert(!(db.thumbnails@[j]@.source_cid == db.thumbnails@[i]@.source_cid
            && thumb_long_edge(db.thumbnails@[j]@) == thumb_long_edge(db.thumbnails@[i]@)));
    }
}

/// Law: a page and the page at its `next_page_token` are a disjoint
/// continuation — together they are exactly the `2 * count` rows from
/// `offset` — and when the rows are pairwise distinct no row appears in
/// both pages.
pub proof fn lemma_page_continuity(s: Seq<FileRowV>, count: int, offset: int)
    requires
        count >= 0,
        offset >= 0,
    ensures
        spec_page(s, count, offset) + spec_page(s, count, offset + count) == spec_page(
            s,
            count + count,
            offset,
        ),
        (forall|i: int, j: int|
            0 <= i < j < s.len() ==> #[trigger] s[i].cid != #[trigger] s[j].cid) ==> forall|
            x: FileRowV,
        |
            #[trigger] spec_page(s, count, offset).contains(x) ==> !spec_page(
                s,
                count,
                offset + count,
            ).contains(x),
{
    let len = s.len() as int;
    let lo1 = vstd::math::min(offset, len);
    let hi1 = vstd::math::min(lo1 + count, len);
    let lo2 = vstd::math::min(offset + count, len);
    let hi2 = vstd::math::min(lo2 + count, len);
    assert(hi1 <= lo2);
    let lo3 = vstd::math::min(offset, len);
    let hi3 = vstd::math::min(lo3 + count + count, len);
    assert(spec_page(s, count, offset) + spec_page(s, count, offset + count) =~= s.subrange(
        lo1,
        hi1,
    ) + s.subrange(lo2, hi2));
    assert(hi1 == lo2 || (hi1 == len && lo2 == len));
    assert(s.subrange(lo1, hi1) + s.subrange(lo2, hi2) =~= s.subrange(lo3, hi3));
    if forall|i: int, j: int|
        0 <= i < j < s.len() ==> #[trigger] s[i].cid != #[trigger] s[j].cid {
        assert forall|x: FileRowV|
            #[trigger] spec_page(s, count, offset).contains(x) implies !spec_page(
            s,
            count,
            offset + count,
        ).contains(x) by {
            let p1 = spec_page(s, count, offset);
            let p2 = spec_page(s, count, offset + count);
            let i1 = choose|i: int| 0 <= i < p1.len() && p1[i] == x;
            if p2.contains(x) {
                let i2 = choose|i: int| 0 <= i < p2.len() && p2[i] == x;
                assert(s[lo1 + i1] == x);
                assert(s[lo2 + i2] == x);
                assert(lo1 + i1 < hi1 <= lo2 + i2);
                assert(s[lo1 + i1].cid != s[lo2 + i2].cid);
            }
        }
    }
}

} // verus!
