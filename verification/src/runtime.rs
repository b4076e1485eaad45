//! The runtime: the one owner of the filestore and the index.
//!
//! It models the filestore as a map from paths to the bytes committed
//! there, orchestrates ingestion (hash while appending, commit, index,
//! derive), tagging, and the read paths, and carries the vault's central
//! invariant: every indexed file's bytes are at its derived store path
//! and hash back to its CID.

use vstd::prelude::*;

use crate::codec::spec_encoded;
use crate::hashing::cid_of;
use crate::local::{
    files_v, has_file, has_image, has_thumb_rung, images_v, maps_v, spec_add_maps,
    spec_add_vocab, spec_lookup, spec_page, tag_views, tags_v, thumb_long_edge, thumbs_v,
    valid_sample, Db, FileRow, FileRowV, ImageRow, TagMapRow, TagMapRowV, TagRowV, ThumbnailRow,
};
use crate::numstr::spec_dec;
use crate::tag::{Tag, TagV};
use crate::VaultError;

verus! {

// ---------------------------------------------------------------------------
// The filestore model
// ---------------------------------------------------------------------------

/// What a path holds: the value of the last write to it, if any.
pub open spec fn fs_lookup(s: Seq<(Seq<char>, Seq<u8>)>, path: Seq<char>) -> Option<Seq<u8>>
    decreases s.len(),
{
    if s.len() == 0 {
        None
    } else if s.last().0 == path {
        Some(s.last().1)
    } else {
        fs_lookup(s.drop_last(), path)
    }
}

/// The filestore as the library sees it: which bytes stand at which
/// path.  Writes append; a later write to a path shadows an earlier one,
/// as a rename over an existing file does.
pub struct Filestore {
    entries: Vec<(String, Vec<u8>)>,
}

impl Filestore {
    /// The write log, newest last.
    pub closed spec fn log(&self) -> Seq<(Seq<char>, Seq<u8>)> {
        self.entries@.map_values(|e: (String, Vec<u8>)| (e.0@, e.1@))
    }

    /// An empty filestore.
    pub fn new() -> (r: Filestore)
        ensures
            r.log() == Seq::<(Seq<char>, Seq<u8>)>::empty(),
    {
        let r = Filestore { entries: Vec::new() };
        proof {
            assert(r.log() =~= Seq::<(Seq<char>, Seq<u8>)>::empty());
        }
        r
    }

    /// Commit `data` at `path`, shadowing whatever was there.
    pub fn put(&mut self, path: String, data: Vec<u8>)
        ensures
            final(self).log() == old(self).log().push((path@, data@)),
            fs_lookup(final(self).log(), path@) == Some(data@),
            forall|q: Seq<char>| q != path@ ==> fs_lookup(final(self).log(), q) == fs_lookup(
                old(self).log(),
                q,
            ),
    {
        let ghost prev = self.log();
        self.entries.push((path, data));
        proof {
            assert(self.log() =~= prev.push(self.log().last()));
            assert forall|q: Seq<char>|
                q != self.log().last().0 implies fs_lookup(self.log(), q) == fs_lookup(
                prev,
                q,
            ) by {
                assert(self.log().drop_last() =~= prev);
            }
            assert(self.log().drop_last() =~= prev);
        }
    }

    /// The bytes at `path`, if any write reached it.
    pub fn get(&self, path: &str) -> (r: Option<Vec<u8>>)
        ensures
            r matches Some(b) ==> fs_lookup(self.log(), path@) == Some(b@),
            r is None ==> fs_lookup(self.log(), path@) is None,
    {
        let n = self.entries.len();
        let mut i: usize = n;
        proof {
            assert(self.log().take(n as int) =~= self.log());
        }
        while i > 0
            invariant
                i <= n,
                n == self.entries@.len(),
                fs_lookup(self.log(), path@) == fs_lookup(self.log().take(i as int), path@),
            decreases i,
        {
            i = i - 1;
            let e = &self.entries[i];
            proof {
                assert(self.log().take(i as int + 1).last() == self.log()[i as int]);
                assert(self.log().take(i as int + 1).drop_last() =~= self.log().take(i as int));
            }
            if crate::text::str_eq(e.0.as_str(), path) {
                let found = crate::chunked_reader::clone_bytes(&e.1);
                proof {
                    assert(self.log()[i as int].0 == path@);
                    assert(fs_lookup(self.log().take(i as int + 1), path@) == Some(
                        self.log()[i as int].1,
                    ));
                }
                return Some(found);
            }
            proof {
                assert(self.log()[i as int].0 != path@);
            }
        }
        proof {
            assert(self.log().take(0) =~= Seq::<(Seq<char>, Seq<u8>)>::empty());
        }
        None
    }
}

// ---------------------------------------------------------------------------
// Path derivation
// ---------------------------------------------------------------------------

/// The directory prefix of an encoded CID: its first eleven characters,
/// or all of it when it is shorter.
pub open spec fn spec_prefix(enc: Seq<char>) -> Seq<char> {
    if enc.len() >= 11 {
        enc.take(11)
    } else {
        enc
    }
}

/// Where a primary object lives under the filestore root.
pub open spec fn spec_store_path(root: Seq<char>, cid: Seq<u8>) -> Seq<char> {
    let enc = spec_encoded(cid);
    root + "/store/"@ + spec_prefix(enc) + "/"@ + enc
}

/// Where a thumbnail rendition lives under the filestore root.
pub open spec fn spec_thumb_path(root: Seq<char>, cid: Seq<u8>, size: int) -> Seq<char> {
    let enc = spec_encoded(cid);
    root + "/thumbs/"@ + spec_dec(size) + "/"@ + spec_prefix(enc) + "/"@ + enc + "_thumb"@
        + spec_dec(size)
}

/// The displayed form of a wrapped CID is 59 characters.
pub proof fn lemma_wrapped_encoded_len(cid: Seq<u8>)
    requires
        cid.len() == 36,
    ensures
        spec_encoded(cid).len() == 59,
{
    crate::codec::lemma_encoded_len(cid);
}

/// Law: two wrapped CIDs with the same store path are the same CID, so
/// no commit can shadow another object's bytes.
pub proof fn lemma_store_path_injective(root: Seq<char>, c1: Seq<u8>, c2: Seq<u8>)
    requires
        c1.len() == 36,
        c2.len() == 36,
        spec_store_path(root, c1) == spec_store_path(root, c2),
    ensures
        c1 == c2,
{
    lemma_wrapped_encoded_len(c1);
    lemma_wrapped_encoded_len(c2);
    reveal_strlit("/store/");
    reveal_strlit("/");
    let e1 = spec_encoded(c1);
    let e2 = spec_encoded(c2);
    let p1 = spec_store_path(root, c1);
    let p2 = spec_store_path(root, c2);
    assert(p1.len() == root.len() + 7 + 11 + 1 + 59);
    assert(e1 =~= p1.subrange(p1.len() - 59, p1.len() as int));
    assert(e2 =~= p2.subrange(p2.len() - 59, p2.len() as int));
    assert(e1 == e2);
    crate::codec::lemma_decode_encode(c1);
    crate::codec::lemma_decode_encode(c2);
    assert(crate::codec::spec_decode(e1) == crate::codec::spec_decode(e2));
}

/// A store path and a thumbnail path never collide: they part ways right
/// after the root.
pub proof fn lemma_paths_distinct(root: Seq<char>, c1: Seq<u8>, c2: Seq<u8>, size: int)
    ensures
        spec_store_path(root, c1) != spec_thumb_path(root, c2, size),
{
    reveal_strlit("/store/");
    reveal_strlit("/thumbs/");
    let p1 = spec_store_path(root, c1);
    let p2 = spec_thumb_path(root, c2, size);
    if p1 == p2 {
        assert(p1.len() > root.len() + 1);
        assert(p1[root.len() as int + 1] == "/store/"@[1]);
        assert(p2[root.len() as int + 1] == "/thumbs/"@[1]);
        assert(false);
    }
}

/// Two renditions of one source at different rungs live at different
/// paths: the decimal rung is embedded, and decimal text is injective.
pub proof fn lemma_thumb_path_injective(root: Seq<char>, cid: Seq<u8>, s1: int, s2: int)
    requires
        s1 >= 0,
        s2 >= 0,
        s1 != s2,
    ensures
        spec_thumb_path(root, cid, s1) != spec_thumb_path(root, cid, s2),
{
    reveal_strlit("/thumbs/");
    reveal_strlit("/");
    reveal_strlit("_thumb");
    let p1 = spec_thumb_path(root, cid, s1);
    let p2 = spec_thumb_path(root, cid, s2);
    let d1 = spec_dec(s1);
    let d2 = spec_dec(s2);
    if p1 == p2 {
        let enc = spec_encoded(cid);
        let pre = spec_prefix(enc);
        assert(p1.len() == root.len() + 8 + d1.len() + 1 + pre.len() + 1 + enc.len() + 6
            + d1.len());
        assert(p2.len() == root.len() + 8 + d2.len() + 1 + pre.len() + 1 + enc.len() + 6
            + d2.len());
        assert(d1.len() == d2.len());
        assert(d1 =~= p1.subrange(
            root.len() as int + 8,
            root.len() as int + 8 + d1.len() as int,
        ));
        assert(d2 =~= p2.subrange(
            root.len() as int + 8,
            root.len() as int + 8 + d2.len() as int,
        ));
        assert(d1 == d2);
        crate::numstr::lemma_parse_dec_roundtrip(s1);
        crate::numstr::lemma_parse_dec_roundtrip(s2);
        assert(crate::numstr::spec_parse_dec(d1) == crate::numstr::spec_parse_dec(d2));
        assert(false);
    }
}

/// Whether a fully committed rendition of `source_cid` at rung `edge`
/// stands in the tables and the store: a thumbnail row for that source
/// and long edge, a JPEG still image, whose CID is the wrapped hash of
/// the bytes at the rendition's path and whose size is their count.
pub open spec fn thumb_committed(
    thumbs: Seq<crate::local::ThumbnailRowV>,
    store: Seq<(Seq<char>, Seq<u8>)>,
    root: Seq<char>,
    source_cid: Seq<u8>,
    edge: u32,
) -> bool {
    exists|i: int|
        0 <= i < thumbs.len() && {
            let t = #[trigger] thumbs[i];
            let blob = fs_lookup(store, spec_thumb_path(root, source_cid, edge as int));
            &&& t.source_cid == source_cid
            &&& thumb_long_edge(t) == edge as int
            &&& t.mimetype == "image/jpeg"@
            &&& !t.is_animated
            &&& blob is Some
            &&& t.cid == cid_of(blob.unwrap())
            &&& t.size == blob.unwrap().len()
        }
}

// ---------------------------------------------------------------------------
// The runtime
// ---------------------------------------------------------------------------

/// A file as remote callers see it.
#[derive(Debug)]
pub struct File {
    pub cid: Vec<u8>,
    pub mimetype: Option<String>,
    pub size: i64,
}

impl View for File {
    type V = FileRowV;

    open spec fn view(&self) -> FileRowV {
        FileRowV {
            cid: self.cid@,
            size: self.size as int,
            mimetype: match self.mimetype {
                Some(ref m) => Some(m@),
                None => None,
            },
        }
    }
}

pub open spec fn file_views(s: Seq<File>) -> Seq<FileRowV> {
    s.map_values(|f: File| f@)
}

/// The concatenation of a chunk sequence.
pub open spec fn flat_chunks(cs: Seq<Vec<u8>>) -> Seq<u8> {
    cs.map_values(|c: Vec<u8>| c@).flatten()
}

pub struct Runtime {
    pub filestore_path: String,
    pub db: Db,
    pub store: Filestore,
}

impl Runtime {
    /// Whether the bytes for `cid` are committed: they stand at its
    /// derived store path and hash back to exactly `cid`.
    pub open spec fn blob_committed(&self, cid: Seq<u8>) -> bool {
        let b = fs_lookup(self.store.log(), spec_store_path(self.filestore_path@, cid));
        b is Some && cid_of(b.unwrap()) == cid
    }

    /// The vault's invariant: the index is well formed, and every
    /// indexed file's CID is a wrapped digest whose bytes are committed.
    pub open spec fn inv(&self) -> bool {
        &&& self.db.wf()
        &&& forall|i: int|
            0 <= i < self.db.files@.len() ==> (#[trigger] self.db.files@[i]@).cid.len() == 36
                && self.blob_committed(self.db.files@[i]@.cid)
    }

    /// A fresh runtime over an empty filestore and index.
    pub fn new(filestore_path: String) -> (r: Runtime)
        ensures
            r.inv(),
            r.filestore_path@ == filestore_path@,
            r.db.files@.len() == 0,
            r.db.tags@.len() == 0,
            r.db.tag_map@.len() == 0,
            r.db.images@.len() == 0,
            r.db.thumbnails@.len() == 0,
            r.db.next_tag_id == 1,
            r.store.log().len() == 0,
    {
        Runtime { filestore_path, db: Db::new(), store: Filestore::new() }
    }

    /// The on-disk path of the primary object for `cid`: the encoded
    /// form, in a directory named by its first eleven characters, under
    /// `store/`.  An empty CID has no path.
    pub fn derive_store_path(&self, cid: &Vec<u8>) -> (r: Result<String, VaultError>)
        ensures
            cid@.len() == 0 <==> r is Err,
            r matches Err(e) ==> e == VaultError::BadInput,
            r matches Ok(p) ==> p@ == spec_store_path(self.filestore_path@, cid@),
    {
        if cid.len() == 0 {
            return Err(VaultError::BadInput);
        }
        let enc = crate::codec::encode(cid);
        let n = enc.as_str().unicode_len();
        let cut = if n >= 11 {
            11
        } else {
            n
        };
        let prefix = enc.as_str().substring_ascii(0, cut);
        let mut out = String::new();
        out.append(self.filestore_path.as_str());
        out.append("/store/");
        out.append(prefix);
        out.append("/");
        out.append(enc.as_str());
        proof {
            assert(prefix@ == spec_prefix(enc@));
            assert(out@ == spec_store_path(self.filestore_path@, cid@));
        }
        Ok(out)
    }

    /// The on-disk path of the `size` rendition for `cid`, under
    /// `thumbs/<size>/`.  An empty CID has no path.
    pub fn derive_thumb_path(&self, cid: &Vec<u8>, size: u32) -> (r: Result<String, VaultError>)
        ensures
            cid@.len() == 0 <==> r is Err,
            r matches Err(e) ==> e == VaultError::BadInput,
            r matches Ok(p) ==> p@ == spec_thumb_path(self.filestore_path@, cid@, size as int),
    {
        if cid.len() == 0 {
            return Err(VaultError::BadInput);
        }
        let enc = crate::codec::encode(cid);
        let dec = crate::numstr::u64_to_dec(size as u64);
        let n = enc.as_str().unicode_len();
        let cut = if n >= 11 {
            11
        } else {
            n
        };
        let prefix = enc.as_str().substring_ascii(0, cut);
        let mut out = String::new();
        out.append(self.filestore_path.as_str());
        out.append("/thumbs/");
        out.append(dec.as_str());
        out.append("/");
        out.append(prefix);
        out.append("/");
        out.append(enc.as_str());
        out.append("_thumb");
        out.append(dec.as_str());
        proof {
            assert(prefix@ == spec_prefix(enc@));
            assert(out@ == spec_thumb_path(self.filestore_path@, cid@, size as int));
        }
        Ok(out)
    }

    /// Ingest a chunk stream: hash while appending, reject an empty
    /// body, wrap the digest into the CID, commit the bytes at the CID's
    /// store path, and record the file.  Ingesting the same bytes twice
    /// yields the same CID and no second row.
    pub fn stream_to_filestore(&mut self, chunks: Vec<Vec<u8>>) -> (r: Result<Vec<u8>, VaultError>)
        requires
            old(self).inv(),
            flat_chunks(chunks@).len() <= i64::MAX,
            old(self).db.next_tag_id as int <= i32::MAX,
        ensures
            final(self).inv(),
            final(self).filestore_path == old(self).filestore_path,
            final(self).db.tags == old(self).db.tags,
            final(self).db.tag_map == old(self).db.tag_map,
            final(self).db.next_tag_id == old(self).db.next_tag_id,
            flat_chunks(chunks@).len() == 0 <==> (r matches Err(e) && e == VaultError::BadInput),
            flat_chunks(chunks@).len() == 0 ==> final(self).db == old(self).db,
            flat_chunks(chunks@).len() == 0 ==> final(self).store == old(self).store,
            flat_chunks(chunks@).len() > 0 ==> ({
                let data = flat_chunks(chunks@);
                let cid = cid_of(data);
                &&& cid.len() == 36
                &&& fs_lookup(
                    final(self).store.log(),
                    spec_store_path(old(self).filestore_path@, cid),
                ) == Some(data)
                &&& (r matches Ok(c) ==> c@ == cid)
                &&& (r is Err ==> (r matches Err(e) && e == VaultError::Internal))
                &&& has_file(files_v(final(self).db.files@), cid)
                &&& (has_file(files_v(old(self).db.files@), cid) ==> final(self).db.files == old(
                    self,
                ).db.files)
                &&& (!has_file(files_v(old(self).db.files@), cid) ==> files_v(
                    final(self).db.files@,
                ) == files_v(old(self).db.files@).push(
                    FileRowV {
                        cid,
                        size: data.len() as int,
                        mimetype: crate::mime::inferred_mime(data),
                    },
                ))
                &&& ({
                    let mt = crate::mime::inferred_mime(data);
                    &&& ((mt is None || !crate::mime::spec_supported_raster(mt.unwrap()))
                        ==> r is Ok)
                    &&& ((mt is Some && crate::mime::spec_supported_raster(mt.unwrap())) ==> ({
                        let dd = crate::imaging::decoded_dims(data, mt.unwrap());
                        &&& (r is Ok ==> dd is Some)
                        &&& (dd is None ==> (r matches Err(e) && e == VaultError::Internal))
                        &&& ((dd matches Some(dims) && (forall|edge: u32|
                            crate::imaging::spec_ladder().contains(edge) && edge as int
                                <= vstd::math::max(dims.0 as int, dims.1 as int)
                                ==> has_thumb_rung(
                                thumbs_v(old(self).db.thumbnails@),
                                cid,
                                edge as int,
                            ))) ==> r is Ok)
                    }))
                })
            }),
    {
        broadcast use Seq::<_>::lemma_flatten_push;

        let mut hasher = crate::hashing::Hasher::new();
        let mut data: Vec<u8> = Vec::new();
        let n = chunks.len();
        let mut i: usize = 0;
        proof {
            assert(chunks@.take(0).map_values(|c: Vec<u8>| c@) =~= Seq::<Seq<u8>>::empty());
            assert(flat_chunks(chunks@.take(0)) =~= Seq::<u8>::empty());
        }
        while i < n
            invariant
                i <= n,
                n == chunks@.len(),
                hasher.bytes() == flat_chunks(chunks@.take(i as int)),
                data@ == flat_chunks(chunks@.take(i as int)),
                flat_chunks(chunks@.take(i as int)).len() <= flat_chunks(chunks@).len(),
            decreases n - i,
        {
            let chunk = &chunks[i];
            hasher.update(chunk);
            let mut copy = crate::chunked_reader::clone_bytes(chunk);
            data.append(&mut copy);
            i = i + 1;
            proof {
                let pre = chunks@.take(i as int - 1).map_values(|c: Vec<u8>| c@);
                let now = chunks@.take(i as int).map_values(|c: Vec<u8>| c@);
                assert(now =~= pre.push(chunks@[i - 1]@));
                assert(now.flatten() == pre.flatten() + chunks@[i - 1]@);
                lemma_flat_prefix(chunks@, i as int);
            }
        }
        proof {
            assert(chunks@.take(n as int) =~= chunks@);
        }
        if data.len() == 0 {
            return Err(VaultError::BadInput);
        }
        let ghost datav = data@;
        let digest = hasher.finish();
        let cid = match crate::codec::wrap_digest(&digest) {
            Ok(c) => c,
            Err(_) => {
                proof {
                    assert(false);
                }
                return Err(VaultError::Internal);
            },
        };
        proof {
            assert(cid@ == cid_of(datav));
            assert(cid@.len() == 36);
        }
        let path = match self.derive_store_path(&cid) {
            Ok(p) => p,
            Err(_) => {
                proof {
                    assert(false);
                }
                return Err(VaultError::Internal);
            },
        };
        let ghost pre_store = self.store.log();
        self.store.put(path, data);
        proof {
            let root = self.filestore_path@;
            assert forall|k: int|
                0 <= k < self.db.files@.len() implies (#[trigger] self.db.files@[k]@).cid.len()
                == 36 && self.blob_committed(self.db.files@[k]@.cid) by {
                let c = self.db.files@[k]@.cid;
                if c == cid@ {
                    assert(self.blob_committed(c));
                } else {
                    if spec_store_path(root, c) == spec_store_path(root, cid@) {
                        lemma_store_path_injective(root, c, cid@);
                    }
                    assert(fs_lookup(self.store.log(), spec_store_path(root, c)) == fs_lookup(
                        pre_store,
                        spec_store_path(root, c),
                    ));
                }
            }
            assert(self.inv());
        }
        let cid_out = crate::chunked_reader::clone_bytes(&cid);
        match self.new_from_filestore(cid) {
            Ok(()) => Ok(cid_out),
            Err(_) => Err(VaultError::Internal),
        }
    }

    /// Record a committed blob in the index: read its size, sniff its
    /// mimetype from the committed bytes, insert the file row
    /// (insert-ignore), and for a supported raster image run the
    /// derivative subflow.
    pub fn new_from_filestore(&mut self, cid: Vec<u8>) -> (r: Result<(), VaultError>)
        requires
            old(self).inv(),
            cid@.len() == 36,
            old(self).blob_committed(cid@),
            fs_lookup(
                old(self).store.log(),
                spec_store_path(old(self).filestore_path@, cid@),
            ) matches Some(b) && b.len() <= i64::MAX,
            old(self).db.next_tag_id as int <= i32::MAX,
        ensures
            final(self).inv(),
            final(self).filestore_path == old(self).filestore_path,
            final(self).db.tags == old(self).db.tags,
            final(self).db.tag_map == old(self).db.tag_map,
            final(self).db.next_tag_id == old(self).db.next_tag_id,
            forall|c: Seq<u8>| fs_lookup(
                final(self).store.log(),
                spec_store_path(old(self).filestore_path@, c),
            ) == fs_lookup(old(self).store.log(), spec_store_path(old(self).filestore_path@, c)),
            ({
                let data = fs_lookup(
                    old(self).store.log(),
                    spec_store_path(old(self).filestore_path@, cid@),
                ).unwrap();
                &&& has_file(files_v(final(self).db.files@), cid@)
                &&& (has_file(files_v(old(self).db.files@), cid@) ==> final(self).db.files == old(
                    self,
                ).db.files)
                &&& (!has_file(files_v(old(self).db.files@), cid@) ==> files_v(
                    final(self).db.files@,
                ) == files_v(old(self).db.files@).push(
                    FileRowV {
                        cid: cid@,
                        size: data.len() as int,
                        mimetype: crate::mime::inferred_mime(data),
                    },
                ))
                &&& (r is Err ==> (r matches Err(e) && (e == VaultError::Internal || e
                    == VaultError::BadInput)))
            }),
            ({
                let data = fs_lookup(
                    old(self).store.log(),
                    spec_store_path(old(self).filestore_path@, cid@),
                ).unwrap();
                let mt = crate::mime::inferred_mime(data);
                &&& ((mt is None || !crate::mime::spec_supported_raster(mt.unwrap())) ==> r is Ok
                    && final(self).db.images == old(self).db.images && final(self).db.thumbnails
                    == old(self).db.thumbnails && final(self).store == old(self).store)
                &&& ((mt is Some && crate::mime::spec_supported_raster(mt.unwrap())) ==> ({
                    let dd = crate::imaging::decoded_dims(data, mt.unwrap());
                    &&& (r is Ok ==> dd is Some && has_image(
                        images_v(final(self).db.images@),
                        cid@,
                    ))
                    &&& (dd is None ==> r is Err)
                    &&& ((dd matches Some(dims) && (forall|edge: u32|
                        crate::imaging::spec_ladder().contains(edge) && edge as int
                            <= vstd::math::max(dims.0 as int, dims.1 as int) ==> has_thumb_rung(
                            thumbs_v(old(self).db.thumbnails@),
                            cid@,
                            edge as int,
                        ))) ==> r is Ok)
                }))
            }),
    {
        let path = match self.derive_store_path(&cid) {
            Ok(p) => p,
            Err(_) => {
                proof {
                    assert(false);
                }
                return Err(VaultError::Internal);
            },
        };
        let bytes = match self.store.get(path.as_str()) {
            Some(b) => b,
            None => {
                proof {
                    assert(false);
                }
                return Err(VaultError::NotFound);
            },
        };
        let size = bytes.len() as i64;
        let mimetype = crate::mime::infer_mimetype(&bytes);
        let row = FileRow {
            cid: crate::chunked_reader::clone_bytes(&cid),
            size,
            mimetype: crate::text::clone_opt_string(&mimetype),
        };
        proof {
            assert(row@ == FileRowV {
                cid: cid@,
                size: bytes@.len() as int,
                mimetype: crate::mime::inferred_mime(bytes@),
            });
        }
        self.db.new_file(row);
        proof {
            let fv_old = files_v(old(self).db.files@);
            assert forall|k: int|
                0 <= k < self.db.files@.len() implies (#[trigger] self.db.files@[k]@).cid.len()
                == 36 && self.blob_committed(self.db.files@[k]@.cid) by {
                if k == self.db.files@.len() - 1 && !has_file(fv_old, cid@) {
                    assert(files_v(self.db.files@)[k] == fv_old.push(row@)[k]);
                    assert(self.db.files@[k]@.cid == cid@);
                    assert(self.store == old(self).store);
                    assert(self.blob_committed(cid@));
                } else {
                    assert(0 <= k < old(self).db.files@.len());
                    assert(files_v(self.db.files@)[k] == fv_old[k]);
                    assert(self.db.files@[k]@ == old(self).db.files@[k]@);
                    assert((old(self).db.files@[k]@).cid.len() == 36 && old(self).blob_committed(
                        old(self).db.files@[k]@.cid,
                    ));
                }
            }
        }
        if let Some(m) = &mimetype {
            if crate::mime::is_supported_raster(m.as_str()) {
                let source = crate::chunked_reader::clone_bytes(&cid);
                match self.import_image(source, m.as_str()) {
                    Ok(_) => {},
                    Err(e) => {
                        return Err(e);
                    },
                }
            }
        }
        Ok(())
    }

    /// The derivative subflow: decode the committed bytes, record the
    /// image row with the decoded dimensions, and render one JPEG
    /// thumbnail per ladder rung that the source reaches, committing each
    /// under its rendition path and recording its row.  Afterwards a
    /// ladder rung has a thumbnail for this source exactly when it
    /// already had one or the decoded picture reaches it; the result
    /// lists those rungs.
    #[verifier::rlimit(100)]
    pub fn import_image(&mut self, cid: Vec<u8>, mimetype: &str) -> (r: Result<
        Vec<u32>,
        VaultError,
    >)
        requires
            old(self).inv(),
            cid@.len() == 36,
            old(self).blob_committed(cid@),
        ensures
            final(self).inv(),
            final(self).filestore_path == old(self).filestore_path,
            final(self).db.files == old(self).db.files,
            final(self).db.tags == old(self).db.tags,
            final(self).db.tag_map == old(self).db.tag_map,
            final(self).db.next_tag_id == old(self).db.next_tag_id,
            forall|c: Seq<u8>| fs_lookup(
                final(self).store.log(),
                spec_store_path(old(self).filestore_path@, c),
            ) == fs_lookup(old(self).store.log(), spec_store_path(old(self).filestore_path@, c)),
            ({
                let data = fs_lookup(
                    old(self).store.log(),
                    spec_store_path(old(self).filestore_path@, cid@),
                ).unwrap();
                let dd = crate::imaging::decoded_dims(data, mimetype@);
                &&& (r is Ok ==> dd is Some)
                &&& (dd is None ==> r is Err && final(self).db.images == old(self).db.images
                    && final(self).db.thumbnails == old(self).db.thumbnails && final(self).store
                    == old(self).store)
                &&& ((dd matches Some(dims) && (forall|edge: u32|
                    crate::imaging::spec_ladder().contains(edge) && edge as int
                        <= vstd::math::max(dims.0 as int, dims.1 as int) ==> has_thumb_rung(
                        thumbs_v(old(self).db.thumbnails@),
                        cid@,
                        edge as int,
                    ))) ==> r is Ok)
            }),
            r matches Ok(rungs) ==> ({
                let data = fs_lookup(
                    old(self).store.log(),
                    spec_store_path(old(self).filestore_path@, cid@),
                ).unwrap();
                let dims = crate::imaging::decoded_dims(data, mimetype@).unwrap();
                let maxdim = vstd::math::max(dims.0 as int, dims.1 as int);
                &&& has_image(images_v(final(self).db.images@), cid@)
                &&& (!has_image(images_v(old(self).db.images@), cid@) ==> images_v(
                    final(self).db.images@,
                ) == images_v(old(self).db.images@).push(
                    crate::local::ImageRowV {
                        cid: cid@,
                        height: dims.0,
                        width: dims.1,
                        primary_color: Seq::empty(),
                        colors: Seq::empty(),
                    },
                ))
                &&& (has_image(images_v(old(self).db.images@), cid@) ==> final(self).db.images
                    == old(self).db.images)
                &&& (forall|edge: u32|
                    crate::imaging::spec_ladder().contains(edge) ==> (has_thumb_rung(
                        thumbs_v(final(self).db.thumbnails@),
                        cid@,
                        edge as int,
                    ) <==> (has_thumb_rung(thumbs_v(old(self).db.thumbnails@), cid@, edge as int)
                        || edge as int <= maxdim)))
                &&& (forall|edge: u32|
                    rungs@.contains(edge) <==> (crate::imaging::spec_ladder().contains(edge)
                        && has_thumb_rung(thumbs_v(final(self).db.thumbnails@), cid@,
                    edge as int)))
                &&& (forall|edge: u32|
                    crate::imaging::spec_ladder().contains(edge) && edge as int <= maxdim
                        && !has_thumb_rung(thumbs_v(old(self).db.thumbnails@), cid@, edge as int)
                        ==> thumb_committed(
                        thumbs_v(final(self).db.thumbnails@),
                        final(self).store.log(),
                        old(self).filestore_path@,
                        cid@,
                        edge,
                    ))
            }),
            r is Err ==> (r matches Err(e) && (e == VaultError::Internal || e
                == VaultError::BadInput)),
    {
        let ghost rootv = old(self).filestore_path@;
        let ghost thumbs0v = thumbs_v(old(self).db.thumbnails@);
        let path = match self.derive_store_path(&cid) {
            Ok(p) => p,
            Err(_) => {
                proof {
                    assert(false);
                }
                return Err(VaultError::Internal);
            },
        };
        let bytes = match self.store.get(path.as_str()) {
            Some(b) => b,
            None => {
                proof {
                    assert(false);
                }
                return Err(VaultError::Internal);
            },
        };
        let img = match crate::imaging::decode_image(&bytes, mimetype) {
            Ok(d) => d,
            Err(e) => {
                return Err(if matches!(e, VaultError::BadInput) {
                    VaultError::BadInput
                } else {
                    VaultError::Internal
                });
            },
        };
        let ghost maxdim = vstd::math::max(img.spec_height() as int, img.spec_width() as int);
        proof {
            assert(fs_lookup(old(self).store.log(), spec_store_path(rootv, cid@)) == Some(
                bytes@,
            ));
            assert(crate::imaging::decoded_dims(bytes@, mimetype@) == Some(
                (img.spec_height(), img.spec_width()),
            ));
        }
        let orientation = crate::imaging::exif_orientation(&bytes);
        let rot = crate::imaging::rotation_for_orientation(orientation);
        let image_row = ImageRow {
            cid: crate::chunked_reader::clone_bytes(&cid),
            height: img.height(),
            width: img.width(),
            primary_color: Vec::new(),
            colors: Vec::new(),
        };
        proof {
            assert(image_row@ == crate::local::ImageRowV {
                cid: cid@,
                height: img.spec_height(),
                width: img.spec_width(),
                primary_color: Seq::empty(),
                colors: Seq::empty(),
            });
        }
        self.db.new_image(image_row);
        proof {
            assert(has_image(images_v(self.db.images@), cid@)) by {
                if has_image(images_v(old(self).db.images@), cid@) {
                } else {
                    let m = images_v(self.db.images@).len() - 1;
                    assert(images_v(self.db.images@)[m].cid == cid@);
                }
            }
        }
        let ghost images_after = self.db.images;
        let rungs = crate::imaging::ladder();
        let ghost lad = crate::imaging::spec_ladder();
        proof {
            assert(forall|k1: int, k2: int|
                0 <= k1 < k2 < lad.len() ==> #[trigger] lad[k1] != #[trigger] lad[k2]);
        }
        let mut made: Vec<u32> = Vec::new();
        let n = rungs.len();
        let mut i: usize = 0;
        proof {
            reveal(made_matches);
            reveal(rungs_forced);
            reveal(fresh_rungs_committed);
            assert(lad.take(0) =~= Seq::<u32>::empty());
            assert(thumbs_v(self.db.thumbnails@) == thumbs0v);
            assert(made_matches(made@, lad, 0, thumbs_v(self.db.thumbnails@), cid@));
            assert(rungs_forced(thumbs0v, thumbs0v, lad, 0, maxdim, cid@));
            assert(fresh_rungs_committed(
                thumbs0v,
                thumbs0v,
                self.store.log(),
                rootv,
                cid@,
                lad,
                0,
                maxdim,
            ));
        }
        while i < n
            invariant
                i <= n,
                n == 5,
                rungs@ == lad,
                self.inv(),
                self.filestore_path == old(self).filestore_path,
                self.db.files == old(self).db.files,
                self.db.tags == old(self).db.tags,
                self.db.tag_map == old(self).db.tag_map,
                self.db.next_tag_id == old(self).db.next_tag_id,
                self.db.images == images_after,
                has_image(images_v(self.db.images@), cid@),
                cid@.len() == 36,
                forall|c: Seq<u8>| fs_lookup(
                    self.store.log(),
                    spec_store_path(rootv, c),
                ) == fs_lookup(old(self).store.log(), spec_store_path(rootv, c)),
                made_matches(made@, lad, i as int, thumbs_v(self.db.thumbnails@), cid@),
                rungs_forced(
                    thumbs_v(self.db.thumbnails@),
                    thumbs0v,
                    lad,
                    i as int,
                    maxdim,
                    cid@,
                ),
                fresh_rungs_committed(
                    thumbs_v(self.db.thumbnails@),
                    thumbs0v,
                    self.store.log(),
                    rootv,
                    cid@,
                    lad,
                    i as int,
                    maxdim,
                ),
            decreases n - i,
        {
            let edge = rungs[i];
            let ghost made_pre = made@;
            let ghost thumbs_pre = thumbs_v(self.db.thumbnails@);
            let ghost store_pre = self.store.log();
            if self.db.has_thumbnail_rung(&cid, edge) {
                made.push(edge);
            } else if !(img.width() < edge && img.height() < edge) {
                proof {
                    assert(lad[i as int] == edge);
                    assert(lad.contains(edge)) by {
                        assert(lad[i as int] == edge);
                    }
                    assert(edge as int <= maxdim);
                    assert(edge <= 65535);
                    assert(!has_thumb_rung(thumbs0v, cid@, edge as int)) by {
                        reveal(rungs_forced);
                        if has_thumb_rung(thumbs0v, cid@, edge as int) {
                            assert(has_thumb_rung(thumbs_pre, cid@, edge as int));
                        }
                    }
                }
                match crate::imaging::render_thumbnail(&img, edge, rot) {
                    Ok(rendered) => {
                        let (jpeg, h, w) = rendered;
                        if jpeg.len() > (i64::MAX as usize) {
                            return Err(VaultError::Internal);
                        }
                        let ghost jpegv = jpeg@;
                        let digest = crate::hashing::sha256(&jpeg);
                        let tcid = match crate::codec::wrap_digest(&digest) {
                            Ok(c) => c,
                            Err(_) => {
                                proof {
                                    assert(false);
                                }
                                return Err(VaultError::Internal);
                            },
                        };
                        let ghost tcidv = tcid@;
                        let tpath = match self.derive_thumb_path(&cid, edge) {
                            Ok(p) => p,
                            Err(_) => {
                                proof {
                                    assert(false);
                                }
                                return Err(VaultError::Internal);
                            },
                        };
                        let size = jpeg.len() as i64;
                        self.store.put(tpath, jpeg);
                        proof {
                            assert(tcidv == cid_of(jpegv));
                            assert forall|c: Seq<u8>| fs_lookup(
                                self.store.log(),
                                spec_store_path(rootv, c),
                            ) == fs_lookup(store_pre, spec_store_path(rootv, c)) by {
                                lemma_paths_distinct(rootv, c, cid@, edge as int);
                            }
                            assert forall|k: int|
                                0 <= k < self.db.files@.len() implies (
                            #[trigger] self.db.files@[k]@).cid.len() == 36
                                && self.blob_committed(self.db.files@[k]@.cid) by {
                                let c = self.db.files@[k]@.cid;
                                assert(fs_lookup(self.store.log(), spec_store_path(rootv, c))
                                    == fs_lookup(store_pre, spec_store_path(rootv, c)));
                            }
                        }
                        let thumb_row = ThumbnailRow {
                            cid: tcid,
                            size,
                            mimetype: String::from_str("image/jpeg"),
                            source_cid: crate::chunked_reader::clone_bytes(&cid),
                            height: h as i64,
                            width: w as i64,
                            is_animated: false,
                        };
                        proof {
                            assert(thumb_row@.cid == tcidv && thumb_row@.source_cid == cid@
                                && thumb_row@.mimetype == "image/jpeg"@
                                && !thumb_row@.is_animated && thumb_row@.size == jpegv.len()
                                && thumb_long_edge(thumb_row@) == edge as int);
                        }
                        let ghost rowv = thumb_row@;
                        self.db.new_thumbnail(thumb_row);
                        if !self.db.has_thumbnail_rung(&cid, edge) {
                            return Err(VaultError::Internal);
                        }
                        proof {
                            let cur = thumbs_v(self.db.thumbnails@);
                            assert(cur == thumbs_pre.push(rowv)) by {
                                if crate::local::has_thumb(thumbs_pre, rowv.cid)
                                    || has_thumb_rung(
                                    thumbs_pre,
                                    rowv.source_cid,
                                    thumb_long_edge(rowv),
                                ) {
                                    assert(cur == thumbs_pre);
                                    assert(has_thumb_rung(thumbs_pre, cid@, edge as int));
                                    assert(false);
                                }
                            }
                            assert(cur[cur.len() - 1] == rowv);
                            assert(fs_lookup(
                                self.store.log(),
                                spec_thumb_path(rootv, cid@, edge as int),
                            ) == Some(jpegv));
                            assert(thumb_committed(cur, self.store.log(), rootv, cid@, edge));
                        }
                        made.push(edge);
                    },
                    Err(_) => {
                        proof {
                            assert(false);
                        }
                        return Err(VaultError::Internal);
                    },
                }
            }
            i = i + 1;
            proof {
                let now = thumbs_v(self.db.thumbnails@);
                let store_now = self.store.log();
                assert(thumbs_pre.len() <= now.len() <= thumbs_pre.len() + 1);
                assert(forall|k: int| 0 <= k < thumbs_pre.len() ==> now[k] == thumbs_pre[k]);
                assert(now.len() == thumbs_pre.len() + 1 ==> thumb_long_edge(now.last())
                    == edge as int && edge as int <= maxdim);
                assert((made@ == made_pre.push(edge) && has_thumb_rung(now, cid@, edge as int))
                    || (made@ == made_pre && !has_thumb_rung(now, cid@, edge as int)));
                assert(edge as int <= maxdim ==> has_thumb_rung(now, cid@, edge as int));
                assert forall|e2: u32| e2 != edge implies fs_lookup(
                    store_now,
                    spec_thumb_path(rootv, cid@, e2 as int),
                ) == fs_lookup(store_pre, spec_thumb_path(rootv, cid@, e2 as int)) by {
                    lemma_thumb_path_injective(rootv, cid@, e2 as int, edge as int);
                }
                assert((edge as int <= maxdim && !has_thumb_rung(thumbs0v, cid@, edge as int))
                    ==> thumb_committed(now, store_now, rootv, cid@, edge)) by {
                    reveal(rungs_forced);
                    if edge as int <= maxdim && !has_thumb_rung(thumbs0v, cid@, edge as int)
                        && has_thumb_rung(thumbs_pre, cid@, edge as int) {
                        let k = choose|k: int|
                            0 <= k < i - 1 && (#[trigger] lad[k]) as int == edge as int && lad[
                                k
                            ] as int <= maxdim;
                        assert(lad[k] == edge && lad[i - 1] == edge);
                        assert(false);
                    }
                }
                assert(lad.len() == 5);
                assert(lad[i as int - 1] == edge);
                lemma_made_step(lad, i as int, edge, made_pre, made@, thumbs_pre, now, cid@);
                lemma_forcing_step(
                    lad,
                    i as int,
                    edge,
                    maxdim,
                    thumbs0v,
                    thumbs_pre,
                    now,
                    cid@,
                );
                lemma_committed_step(
                    lad,
                    i as int,
                    edge,
                    maxdim,
                    thumbs0v,
                    thumbs_pre,
                    now,
                    store_pre,
                    store_now,
                    rootv,
                    cid@,
                );
            }
        }
        proof {
            assert(lad.take(5) =~= lad);
            assert(lad.len() == 5);
            let fin = thumbs_v(self.db.thumbnails@);
            lemma_forcing_final(lad, maxdim, thumbs0v, fin, cid@);
            reveal(made_matches);
            assert forall|e2: u32|
                made@.contains(e2) <==> (lad.contains(e2) && has_thumb_rung(
                    fin,
                    cid@,
                    e2 as int,
                )) by {
                assert(lad.take(5).contains(e2) == lad.contains(e2));
            }
            reveal(fresh_rungs_committed);
            assert forall|edge: u32|
                lad.contains(edge) && edge as int <= maxdim && !has_thumb_rung(
                    thumbs0v,
                    cid@,
                    edge as int,
                ) implies thumb_committed(fin, self.store.log(), rootv, cid@, edge) by {
                assert(lad.take(5).contains(edge) == lad.contains(edge));
            }
        }
        Ok(made)
    }

    /// The tag-map rows that the currently resolvable tags give `cid`.
    fn make_tag_map_rows(&self, cid: &Vec<u8>, tags: &Vec<Tag>) -> (r: Vec<TagMapRow>)
        ensures
            maps_v(r@) == spec_make_rows(
                spec_lookup(tags_v(self.db.tags@), tag_views(tags@)),
                cid@,
            ),
            r@.len() == spec_lookup(tags_v(self.db.tags@), tag_views(tags@)).len(),
    {
        let rows = self.db.lookup_tag_id(tags);
        let ghost foundv = spec_lookup(tags_v(self.db.tags@), tag_views(tags@));
        let mut out: Vec<TagMapRow> = Vec::new();
        let n = rows.len();
        let mut i: usize = 0;
        while i < n
            invariant
                i <= n,
                n == rows@.len(),
                tags_v(rows@) == foundv,
                maps_v(out@) == spec_make_rows(foundv, cid@).take(i as int),
            decreases n - i,
        {
            let ghost before = maps_v(out@);
            out.push(
                TagMapRow {
                    file_cid: crate::chunked_reader::clone_bytes(cid),
                    tag_id: rows[i].id,
                    added: None,
                    reason: 0,
                },
            );
            i = i + 1;
            proof {
                assert(maps_v(out@) =~= spec_make_rows(foundv, cid@).take(i as int));
            }
        }
        proof {
            assert(spec_make_rows(foundv, cid@).take(n as int) =~= spec_make_rows(foundv, cid@));
        }
        out
    }

    /// Tag a committed file: resolve the tags, upsert the vocabulary only
    /// when some failed to resolve, and map the file to each resolved
    /// tag, ignoring pairs already mapped.  Fails with `NotIndexed` for a
    /// CID without a file row, changing nothing.
    pub fn tag_cid(&mut self, cid: &Vec<u8>, tags: &Vec<Tag>) -> (r: Result<(), VaultError>)
        requires
            old(self).inv(),
            old(self).db.next_tag_id as int + tags@.len() <= i32::MAX,
        ensures
            final(self).inv(),
            final(self).filestore_path == old(self).filestore_path,
            final(self).store == old(self).store,
            final(self).db.files == old(self).db.files,
            final(self).db.images == old(self).db.images,
            final(self).db.thumbnails == old(self).db.thumbnails,
            !has_file(files_v(old(self).db.files@), cid@) ==> (r matches Err(e) && e
                == VaultError::NotIndexed) && final(self).db == old(self).db,
            has_file(files_v(old(self).db.files@), cid@) ==> r is Ok && ({
                let tcv = spec_tag_cid_vocab(
                    tags_v(old(self).db.tags@),
                    old(self).db.next_tag_id as int,
                    tag_views(tags@),
                );
                &&& tags_v(final(self).db.tags@) == tcv.0
                &&& final(self).db.next_tag_id as int == tcv.1
                &&& maps_v(final(self).db.tag_map@) == spec_tag_cid_maps(
                    tcv.0,
                    maps_v(old(self).db.tag_map@),
                    tag_views(tags@),
                    cid@,
                )
            }),
    {
        match self.db.file_row(cid) {
            Ok(_) => {},
            Err(_) => {
                return Err(VaultError::NotIndexed);
            },
        }
        let first = self.make_tag_map_rows(cid, tags);
        let rows = if first.len() != tags.len() {
            self.db.new_tag_vocab(tags);
            self.make_tag_map_rows(cid, tags)
        } else {
            first
        };
        self.db.new_tag_map(&rows);
        Ok(())
    }

    /// All tags of one file, in tag-map order.
    pub fn tags(&self, cid: &Vec<u8>) -> (r: Vec<Tag>)
        requires
            self.inv(),
        ensures
            tag_views(r@) == crate::local::spec_file_tags(
                maps_v(self.db.tag_map@),
                tags_v(self.db.tags@),
                cid@,
            ).map_values(|t: TagRowV| TagV { namespace: t.namespace, descriptor: t.descriptor }),
    {
        let rows = self.db.file_tags(cid);
        let ghost joined = crate::local::spec_file_tags(
            maps_v(self.db.tag_map@),
            tags_v(self.db.tags@),
            cid@,
        );
        let mut out: Vec<Tag> = Vec::new();
        let n = rows.len();
        let mut i: usize = 0;
        while i < n
            invariant
                i <= n,
                n == rows@.len(),
                tags_v(rows@) == joined,
                tag_views(out@) == joined.map_values(
                    |t: TagRowV| TagV { namespace: t.namespace, descriptor: t.descriptor },
                ).take(i as int),
            decreases n - i,
        {
            out.push(
                Tag {
                    namespace: crate::text::clone_string(&rows[i].namespace),
                    descriptor: crate::text::clone_string(&rows[i].descriptor),
                },
            );
            i = i + 1;
            proof {
                assert(tag_views(out@) =~= joined.map_values(
                    |t: TagRowV| TagV { namespace: t.namespace, descriptor: t.descriptor },
                ).take(i as int));
            }
        }
        proof {
            let mapped = joined.map_values(
                |t: TagRowV| TagV { namespace: t.namespace, descriptor: t.descriptor },
            );
            assert(mapped.take(n as int) =~= mapped);
        }
        out
    }

    /// The indexed file for a CID, or `NotFound`.
    pub fn indexed_file(&self, cid: &Vec<u8>) -> (r: Result<File, VaultError>)
        requires
            self.inv(),
        ensures
            r matches Ok(f) ==> has_file(files_v(self.db.files@), cid@) && f@ == files_v(
                self.db.files@,
            )[crate::local::file_idx(files_v(self.db.files@), cid@)],
            r is Err ==> !has_file(files_v(self.db.files@), cid@) && (r matches Err(e) && e
                == VaultError::NotFound),
    {
        match self.db.file_row(cid) {
            Ok(row) => {
                let f = File { cid: row.cid, mimetype: row.mimetype, size: row.size };
                Ok(f)
            },
            Err(e) => Err(e),
        }
    }

    /// The committed bytes for a CID, shaped as chunks.
    pub fn content_at_cid(&self, cid: &Vec<u8>) -> (r: Result<Vec<Vec<u8>>, VaultError>)
        ensures
            cid@.len() == 0 ==> (r matches Err(e) && e == VaultError::BadInput),
            cid@.len() > 0 ==> ({
                let blob = fs_lookup(
                    self.store.log(),
                    spec_store_path(self.filestore_path@, cid@),
                );
                &&& (blob is Some ==> (r matches Ok(cs) && crate::chunked_reader::chunk_views(
                    cs@,
                ) == crate::chunked_reader::spec_chunks(blob.unwrap())))
                &&& (blob is None ==> (r matches Err(e) && e == VaultError::NotFound))
            }),
    {
        let path = match self.derive_store_path(cid) {
            Ok(p) => p,
            Err(e) => {
                return Err(e);
            },
        };
        match self.store.get(path.as_str()) {
            Some(bytes) => Ok(crate::chunked_reader::chunk_bytes(&bytes)),
            None => Err(VaultError::NotFound),
        }
    }

    /// The committed bytes of the `long_edge` rendition for a source CID,
    /// shaped as chunks.
    pub fn cid_thumbnail(&self, source_cid: &Vec<u8>, long_edge: u32) -> (r: Result<
        Vec<Vec<u8>>,
        VaultError,
    >)
        ensures
            source_cid@.len() == 0 ==> (r matches Err(e) && e == VaultError::BadInput),
            source_cid@.len() > 0 ==> ({
                let blob = fs_lookup(
                    self.store.log(),
                    spec_thumb_path(self.filestore_path@, source_cid@, long_edge as int),
                );
                &&& (blob is Some ==> (r matches Ok(cs) && crate::chunked_reader::chunk_views(
                    cs@,
                ) == crate::chunked_reader::spec_chunks(blob.unwrap())))
                &&& (blob is None ==> (r matches Err(e) && e == VaultError::NotFound))
            }),
    {
        let path = match self.derive_thumb_path(source_cid, long_edge) {
            Ok(p) => p,
            Err(e) => {
                return Err(e);
            },
        };
        match self.store.get(path.as_str()) {
            Some(bytes) => Ok(crate::chunked_reader::chunk_bytes(&bytes)),
            None => Err(VaultError::NotFound),
        }
    }

    /// One page of files and the token of the next page.  The token is a
    /// decimal offset; the next token is `offset + page_size`.  A token
    /// that is not a decimal number, or is out of range, is `BadInput`.
    pub fn local_file_page(&self, page_size: u32, page_token: String, oldest_first: bool) -> (r:
        Result<(Vec<File>, String), VaultError>)
        ensures
            r is Ok <==> (crate::numstr::spec_parse_dec(page_token@) matches Some(v) && v
                <= u32::MAX),
            r matches Err(e) ==> e == VaultError::BadInput,
            r matches Ok(p) ==> ({
                let off = crate::numstr::spec_parse_dec(page_token@).unwrap();
                let ordered = if oldest_first {
                    files_v(self.db.files@)
                } else {
                    files_v(self.db.files@).reverse()
                };
                &&& file_views(p.0@) == spec_page(ordered, page_size as int, off)
                &&& p.1@ == spec_dec(off + page_size as int)
            }),
    {
        let offset = match crate::numstr::parse_dec_u32(page_token.as_str()) {
            Ok(v) => v,
            Err(e) => {
                return Err(e);
            },
        };
        let rows = self.db.file_page(page_size, offset, oldest_first);
        let mut out: Vec<File> = Vec::new();
        let n = rows.len();
        let mut i: usize = 0;
        while i < n
            invariant
                i <= n,
                n == rows@.len(),
                file_views(out@) == files_v(rows@).take(i as int),
            decreases n - i,
        {
            let fr = &rows[i];
            out.push(
                File {
                    cid: crate::chunked_reader::clone_bytes(&fr.cid),
                    mimetype: crate::text::clone_opt_string(&fr.mimetype),
                    size: fr.size,
                },
            );
            i = i + 1;
            proof {
                assert(file_views(out@) =~= files_v(rows@).take(i as int));
            }
        }
        proof {
            assert(files_v(rows@).take(n as int) =~= files_v(rows@));
        }
        let next = crate::numstr::u64_to_dec(offset as u64 + page_size as u64);
        Ok((out, next))
    }

    /// A sample without replacement of at most `count` indexed files.
    pub fn random_local_file(&self, count: u32) -> (r: Vec<File>)
        ensures
            r@.len() == vstd::math::min(count as int, self.db.files@.len() as int),
            exists|picks: Seq<int>|
                #[trigger] valid_sample(picks, files_v(self.db.files@), file_views(r@)),
    {
        let rows = self.db.random_file(count);
        let mut out: Vec<File> = Vec::new();
        let n = rows.len();
        let mut i: usize = 0;
        while i < n
            invariant
                i <= n,
                n == rows@.len(),
                file_views(out@) == files_v(rows@).take(i as int),
            decreases n - i,
        {
            let fr = &rows[i];
            out.push(
                File {
                    cid: crate::chunked_reader::clone_bytes(&fr.cid),
                    mimetype: crate::text::clone_opt_string(&fr.mimetype),
                    size: fr.size,
                },
            );
            i = i + 1;
            proof {
                assert(file_views(out@) =~= files_v(rows@).take(i as int));
            }
        }
        proof {
            assert(files_v(rows@).take(n as int) =~= files_v(rows@));
            assert(file_views(out@) == files_v(rows@));
            let picks = choose|p: Seq<int>|
                #[trigger] valid_sample(p, files_v(self.db.files@), files_v(rows@));
            assert(valid_sample(picks, files_v(self.db.files@), file_views(out@)));
        }
        out
    }
}

// ---------------------------------------------------------------------------
// Tagging specs and laws
// ---------------------------------------------------------------------------

/// The tag-map rows that map `cid` to each of the resolved tags.
pub open spec fn spec_make_rows(found: Seq<TagRowV>, cid: Seq<u8>) -> Seq<TagMapRowV> {
    found.map_values(
        |t: TagRowV| TagMapRowV { file_cid: cid, tag_id: t.id, added: None, reason: 0 },
    )
}

/// What `tag_cid` does to the vocabulary: nothing when every tag already
/// resolves, else one upsert pass.
pub open spec fn spec_tag_cid_vocab(vocab: Seq<TagRowV>, next: int, ts: Seq<TagV>) -> (
    Seq<TagRowV>,
    int,
) {
    if spec_lookup(vocab, ts).len() == ts.len() {
        (vocab, next)
    } else {
        spec_add_vocab(vocab, next, ts)
    }
}

/// What `tag_cid` does to the tag map, over the vocabulary it left.
pub open spec fn spec_tag_cid_maps(
    vocab_after: Seq<TagRowV>,
    maps: Seq<TagMapRowV>,
    ts: Seq<TagV>,
    cid: Seq<u8>,
) -> Seq<TagMapRowV> {
    spec_add_maps(maps, spec_make_rows(spec_lookup(vocab_after, ts), cid))
}

/// Law: for every committed file, the bytes at its derived store path,
/// hashed and wrapped, are exactly its CID.
pub proof fn lemma_blob_integrity(rt: &Runtime, i: int)
    requires
        rt.inv(),
        0 <= i < rt.db.files@.len(),
    ensures
        fs_lookup(
            rt.store.log(),
            spec_store_path(rt.filestore_path@, rt.db.files@[i]@.cid),
        ) matches Some(b) && cid_of(b) == rt.db.files@[i]@.cid,
{
    assert((rt.db.files@[i]@).cid.len() == 36 && rt.blob_committed(rt.db.files@[i]@.cid));
}

/// Rows of the vocabulary are kept, in place, by an upsert pass.
proof fn lemma_add_vocab_prefix(vocab: Seq<TagRowV>, next: int, ts: Seq<TagV>)
    ensures
        vocab.len() <= spec_add_vocab(vocab, next, ts).0.len(),
        forall|k: int|
            0 <= k < vocab.len() ==> #[trigger] spec_add_vocab(vocab, next, ts).0[k] == vocab[k],
    decreases ts.len(),
{
    if ts.len() > 0 {
        lemma_add_vocab_prefix(vocab, next, ts.drop_last());
    }
}

/// A pair present in a vocabulary is present in any extension of it.
proof fn lemma_has_tag_extend(v1: Seq<TagRowV>, v2: Seq<TagRowV>, t: TagV)
    requires
        v1.len() <= v2.len(),
        forall|k: int| 0 <= k < v1.len() ==> #[trigger] v2[k] == v1[k],
        crate::local::has_tag(v1, t.namespace, t.descriptor),
    ensures
        crate::local::has_tag(v2, t.namespace, t.descriptor),
{
    let w = choose|k: int|
        0 <= k < v1.len() && #[trigger] v1[k].namespace == t.namespace && v1[k].descriptor
            == t.descriptor;
    assert(v2[w] == v1[w]);
    assert(v2[w].namespace == t.namespace);
}

/// After an upsert pass every upserted pair is in the vocabulary.
proof fn lemma_add_vocab_all_present(vocab: Seq<TagRowV>, next: int, ts: Seq<TagV>)
    ensures
        forall|j: int|
            0 <= j < ts.len() ==> crate::local::has_tag(
                spec_add_vocab(vocab, next, ts).0,
                (#[trigger] ts[j]).namespace,
                ts[j].descriptor,
            ),
    decreases ts.len(),
{
    if ts.len() > 0 {
        lemma_add_vocab_all_present(vocab, next, ts.drop_last());
        let prev = spec_add_vocab(vocab, next, ts.drop_last());
        let after = spec_add_vocab(vocab, next, ts);
        let t = ts.last();
        assert(after == crate::local::spec_add_tag(prev.0, prev.1, t));
        assert(prev.0.len() <= after.0.len() && forall|k: int|
            0 <= k < prev.0.len() ==> #[trigger] after.0[k] == prev.0[k]);
        assert(crate::local::has_tag(after.0, t.namespace, t.descriptor)) by {
            if !crate::local::has_tag(prev.0, t.namespace, t.descriptor) {
                let m = after.0.len() - 1;
                assert(after.0[m].namespace == t.namespace && after.0[m].descriptor
                    == t.descriptor);
            } else {
                lemma_has_tag_extend(prev.0, after.0, t);
            }
        }
        assert forall|j: int|
            0 <= j < ts.len() implies crate::local::has_tag(
            after.0,
            (#[trigger] ts[j]).namespace,
            ts[j].descriptor,
        ) by {
            if j < ts.len() - 1 {
                assert(ts.drop_last()[j] == ts[j]);
                lemma_has_tag_extend(prev.0, after.0, ts[j]);
            }
        }
    }
}

/// An upsert pass over pairs that are all present changes nothing.
proof fn lemma_add_vocab_noop(vocab: Seq<TagRowV>, next: int, ts: Seq<TagV>)
    requires
        forall|j: int|
            0 <= j < ts.len() ==> crate::local::has_tag(
                vocab,
                (#[trigger] ts[j]).namespace,
                ts[j].descriptor,
            ),
    ensures
        spec_add_vocab(vocab, next, ts) == (vocab, next),
    decreases ts.len(),
{
    if ts.len() > 0 {
        assert forall|j: int|
            0 <= j < ts.drop_last().len() implies crate::local::has_tag(
            vocab,
            (#[trigger] ts.drop_last()[j]).namespace,
            ts.drop_last()[j].descriptor,
        ) by {
            assert(ts.drop_last()[j] == ts[j]);
        }
        lemma_add_vocab_noop(vocab, next, ts.drop_last());
        assert(ts[ts.len() - 1] == ts.last());
    }
}

/// A mapped pair stays mapped through further inserts.
proof fn lemma_has_map_extend(m1: Seq<TagMapRowV>, m2: Seq<TagMapRowV>, cid: Seq<u8>, id: int)
    requires
        m1.len() <= m2.len(),
        forall|k: int| 0 <= k < m1.len() ==> #[trigger] m2[k] == m1[k],
        crate::local::has_map(m1, cid, id),
    ensures
        crate::local::has_map(m2, cid, id),
{
    let w = choose|k: int|
        0 <= k < m1.len() && #[trigger] m1[k].file_cid == cid && m1[k].tag_id == id;
    assert(m2[w] == m1[w]);
    assert(m2[w].file_cid == cid);
}

/// Inserting rows keeps earlier rows in place.
proof fn lemma_add_maps_prefix(maps: Seq<TagMapRowV>, rows: Seq<TagMapRowV>)
    ensures
        maps.len() <= spec_add_maps(maps, rows).len(),
        forall|k: int|
            0 <= k < maps.len() ==> #[trigger] spec_add_maps(maps, rows)[k] == maps[k],
    decreases rows.len(),
{
    if rows.len() > 0 {
        lemma_add_maps_prefix(maps, rows.drop_last());
    }
}

/// After inserting rows, each of their pairs is mapped.
proof fn lemma_add_maps_all_present(maps: Seq<TagMapRowV>, rows: Seq<TagMapRowV>)
    ensures
        forall|j: int|
            0 <= j < rows.len() ==> crate::local::has_map(
                spec_add_maps(maps, rows),
                (#[trigger] rows[j]).file_cid,
                rows[j].tag_id,
            ),
    decreases rows.len(),
{
    if rows.len() > 0 {
        lemma_add_maps_all_present(maps, rows.drop_last());
        let prev = spec_add_maps(maps, rows.drop_last());
        let after = spec_add_maps(maps, rows);
        let r = rows.last();
        assert(prev.len() <= after.len() && forall|k: int|
            0 <= k < prev.len() ==> #[trigger] after[k] == prev[k]);
        assert(crate::local::has_map(after, r.file_cid, r.tag_id)) by {
            if !crate::local::has_map(prev, r.file_cid, r.tag_id) {
                let m = after.len() - 1;
                assert(after[m].file_cid == r.file_cid && after[m].tag_id == r.tag_id);
            } else {
                lemma_has_map_extend(prev, after, r.file_cid, r.tag_id);
            }
        }
        assert forall|j: int|
            0 <= j < rows.len() implies crate::local::has_map(
            after,
            (#[trigger] rows[j]).file_cid,
            rows[j].tag_id,
        ) by {
            if j < rows.len() - 1 {
                assert(rows.drop_last()[j] == rows[j]);
                lemma_has_map_extend(prev, after, rows[j].file_cid, rows[j].tag_id);
            }
        }
    }
}

/// Inserting rows whose pairs are all mapped changes nothing.
proof fn lemma_add_maps_noop(maps: Seq<TagMapRowV>, rows: Seq<TagMapRowV>)
    requires
        forall|j: int|
            0 <= j < rows.len() ==> crate::local::has_map(
                maps,
                (#[trigger] rows[j]).file_cid,
                rows[j].tag_id,
            ),
    ensures
        spec_add_maps(maps, rows) == maps,
    decreases rows.len(),
{
    if rows.len() > 0 {
        assert forall|j: int|
            0 <= j < rows.drop_last().len() implies crate::local::has_map(
            maps,
            (#[trigger] rows.drop_last()[j]).file_cid,
            rows.drop_last()[j].tag_id,
        ) by {
            assert(rows.drop_last()[j] == rows[j]);
        }
        lemma_add_maps_noop(maps, rows.drop_last());
        assert(rows[rows.len() - 1] == rows.last());
    }
}

/// Law: tagging is idempotent.  A second `tag_cid` with the same CID and
/// tags leaves the vocabulary, the id counter and the tag map exactly as
/// the first left them.
pub proof fn lemma_tag_cid_idempotent(
    vocab: Seq<TagRowV>,
    next: int,
    maps: Seq<TagMapRowV>,
    ts: Seq<TagV>,
    cid: Seq<u8>,
)
    ensures
        spec_tag_cid_vocab(
            spec_tag_cid_vocab(vocab, next, ts).0,
            spec_tag_cid_vocab(vocab, next, ts).1,
            ts,
        ) == spec_tag_cid_vocab(vocab, next, ts),
        spec_tag_cid_maps(
            spec_tag_cid_vocab(vocab, next, ts).0,
            spec_tag_cid_maps(spec_tag_cid_vocab(vocab, next, ts).0, maps, ts, cid),
            ts,
            cid,
        ) == spec_tag_cid_maps(spec_tag_cid_vocab(vocab, next, ts).0, maps, ts, cid),
{
    let v1 = spec_tag_cid_vocab(vocab, next, ts);
    if spec_lookup(vocab, ts).len() == ts.len() {
        assert(v1 == (vocab, next));
        assert(spec_tag_cid_vocab(v1.0, v1.1, ts) == v1);
    } else {
        assert(v1 == spec_add_vocab(vocab, next, ts));
        if spec_lookup(v1.0, ts).len() == ts.len() {
            assert(spec_tag_cid_vocab(v1.0, v1.1, ts) == v1);
        } else {
            lemma_add_vocab_all_present(vocab, next, ts);
            lemma_add_vocab_noop(v1.0, v1.1, ts);
            assert(spec_tag_cid_vocab(v1.0, v1.1, ts) == v1);
        }
    }
    let rows = spec_make_rows(spec_lookup(v1.0, ts), cid);
    let m1 = spec_add_maps(maps, rows);
    assert forall|j: int|
        0 <= j < rows.len() implies crate::local::has_map(
        m1,
        (#[trigger] rows[j]).file_cid,
        rows[j].tag_id,
    ) by {
        lemma_add_maps_all_present(maps, rows);
    }
    lemma_add_maps_noop(m1, rows);
}

/// Membership in one more element of a prefix.
proof fn lemma_take_contains(s: Seq<u32>, i: int, x: u32)
    requires
        1 <= i <= s.len(),
    ensures
        s.take(i).contains(x) <==> (s.take(i - 1).contains(x) || s[i - 1] == x),
{
    if s.take(i).contains(x) {
        let w = choose|k: int| 0 <= k < s.take(i).len() && #[trigger] s.take(i)[k] == x;
        if w < i - 1 {
            assert(s.take(i - 1)[w] == x);
        }
    }
    if s.take(i - 1).contains(x) {
        let w = choose|k: int| 0 <= k < s.take(i - 1).len() && #[trigger] s.take(i - 1)[k] == x;
        assert(s.take(i)[w] == x);
    }
    if s[i - 1] == x {
        assert(s.take(i)[i - 1] == x);
    }
}

/// Membership survives an (optional) push.
proof fn lemma_contains_push(pre: Seq<u32>, post: Seq<u32>, x: u32, e: u32)
    requires
        post == pre || post == pre.push(e),
        pre.contains(x),
    ensures
        post.contains(x),
{
    let w = choose|k: int| 0 <= k < pre.len() && pre[k] == x;
    assert(post[w] == x);
}

/// What an (optional) push of another element did not add was there.
proof fn lemma_contains_not_pushed(pre: Seq<u32>, post: Seq<u32>, x: u32, e: u32)
    requires
        post == pre || post == pre.push(e),
        x != e,
        post.contains(x),
    ensures
        pre.contains(x),
{
    let w = choose|k: int| 0 <= k < post.len() && post[k] == x;
    if post != pre {
        if w < pre.len() {
            assert(pre[w] == x);
        } else {
            assert(post[w] == e);
        }
    }
}

/// A thumbnail rung stays present when the table only grows at the end.
proof fn lemma_thumb_rung_monotone(
    pre: Seq<crate::local::ThumbnailRowV>,
    post: Seq<crate::local::ThumbnailRowV>,
    cid: Seq<u8>,
    rung: int,
)
    requires
        pre.len() <= post.len(),
        forall|k: int| 0 <= k < pre.len() ==> post[k] == pre[k],
        has_thumb_rung(pre, cid, rung),
    ensures
        has_thumb_rung(post, cid, rung),
{
    let w = choose|k: int|
        0 <= k < pre.len() && #[trigger] pre[k].source_cid == cid && thumb_long_edge(pre[k])
            == rung;
    assert(post[w] == pre[w]);
    assert(post[w].source_cid == cid && thumb_long_edge(post[w]) == rung);
}

/// A rung present after at most one append of a different rung was
/// present before.
/// The result list holds exactly the processed rungs with a thumbnail.
#[verifier::opaque]
spec fn made_matches(
    made: Seq<u32>,
    lad: Seq<u32>,
    upto: int,
    cur: Seq<crate::local::ThumbnailRowV>,
    cid: Seq<u8>,
) -> bool {
    forall|e2: u32|
        made.contains(e2) <==> (lad.take(upto).contains(e2) && has_thumb_rung(
            cur,
            cid,
            e2 as int,
        ))
}

/// A rung has a thumbnail exactly when it had one at entry or a
/// processed rung within the picture's reach put one there.
#[verifier::opaque]
spec fn rungs_forced(
    cur: Seq<crate::local::ThumbnailRowV>,
    base: Seq<crate::local::ThumbnailRowV>,
    lad: Seq<u32>,
    upto: int,
    maxdim: int,
    cid: Seq<u8>,
) -> bool {
    forall|e: int|
        has_thumb_rung(cur, cid, e) <==> (has_thumb_rung(base, cid, e) || (exists|k: int|
            0 <= k < upto && (#[trigger] lad[k]) as int == e && lad[k] as int <= maxdim))
}

/// Every processed rung within reach that had no thumbnail at entry has
/// a fully committed one.
#[verifier::opaque]
spec fn fresh_rungs_committed(
    cur: Seq<crate::local::ThumbnailRowV>,
    base: Seq<crate::local::ThumbnailRowV>,
    store: Seq<(Seq<char>, Seq<u8>)>,
    root: Seq<char>,
    cid: Seq<u8>,
    lad: Seq<u32>,
    upto: int,
    maxdim: int,
) -> bool {
    forall|edge: u32|
        lad.take(upto).contains(edge) && edge as int <= maxdim && !has_thumb_rung(
            base,
            cid,
            edge as int,
        ) ==> thumb_committed(cur, store, root, cid, edge)
}

/// One rung of the ladder done: the result list tracks which processed
/// rungs have a thumbnail row.
proof fn lemma_made_step(
    lad: Seq<u32>,
    i: int,
    edge: u32,
    made_pre: Seq<u32>,
    made_now: Seq<u32>,
    thumbs_pre: Seq<crate::local::ThumbnailRowV>,
    now: Seq<crate::local::ThumbnailRowV>,
    cid: Seq<u8>,
)
    requires
        1 <= i <= lad.len(),
        lad[i - 1] == edge,
        thumbs_pre.len() <= now.len() <= thumbs_pre.len() + 1,
        forall|k: int| 0 <= k < thumbs_pre.len() ==> now[k] == thumbs_pre[k],
        now.len() == thumbs_pre.len() + 1 ==> thumb_long_edge(now.last()) == edge as int,
        made_matches(made_pre, lad, i - 1, thumbs_pre, cid),
        (made_now == made_pre.push(edge) && has_thumb_rung(now, cid, edge as int)) || (made_now
            == made_pre && !has_thumb_rung(now, cid, edge as int)),
    ensures
        made_matches(made_now, lad, i, now, cid),
{
    reveal(made_matches);
    assert forall|e2: u32|
        made_now.contains(e2) <==> (lad.take(i).contains(e2) && has_thumb_rung(
            now,
            cid,
            e2 as int,
        )) by {
        lemma_take_contains(lad, i, e2);
        if e2 == edge {
            assert(lad.take(i)[i - 1] == edge);
            if made_pre.contains(edge) {
                assert(lad.take(i - 1).contains(edge));
                lemma_thumb_rung_monotone(thumbs_pre, now, cid, edge as int);
                lemma_contains_push(made_pre, made_now, edge, edge);
            }
            if made_now == made_pre.push(edge) {
                assert(made_now[made_now.len() - 1] == edge);
                assert(made_now.contains(edge));
            }
        } else {
            if made_now.contains(e2) {
                lemma_contains_not_pushed(made_pre, made_now, e2, edge);
                assert(made_pre.contains(e2));
                assert(lad.take(i - 1).contains(e2));
                lemma_thumb_rung_monotone(thumbs_pre, now, cid, e2 as int);
            }
            if lad.take(i).contains(e2) && has_thumb_rung(now, cid, e2 as int) {
                lemma_thumb_rung_back(thumbs_pre, now, cid, e2 as int, edge as int);
                assert(lad.take(i - 1).contains(e2));
                assert(made_pre.contains(e2));
                lemma_contains_push(made_pre, made_now, e2, edge);
            }
        }
    }
}

/// One rung of the ladder done: a rung has a thumbnail row exactly when
/// it had one at entry or a processed rung within the picture's reach
/// put one there.
proof fn lemma_forcing_step(
    lad: Seq<u32>,
    i: int,
    edge: u32,
    maxdim: int,
    thumbs0: Seq<crate::local::ThumbnailRowV>,
    thumbs_pre: Seq<crate::local::ThumbnailRowV>,
    now: Seq<crate::local::ThumbnailRowV>,
    cid: Seq<u8>,
)
    requires
        1 <= i <= lad.len(),
        lad[i - 1] == edge,
        thumbs_pre.len() <= now.len() <= thumbs_pre.len() + 1,
        forall|k: int| 0 <= k < thumbs_pre.len() ==> now[k] == thumbs_pre[k],
        now.len() == thumbs_pre.len() + 1 ==> thumb_long_edge(now.last()) == edge as int
            && edge as int <= maxdim,
        edge as int <= maxdim ==> has_thumb_rung(now, cid, edge as int),
        rungs_forced(thumbs_pre, thumbs0, lad, i - 1, maxdim, cid),
    ensures
        rungs_forced(now, thumbs0, lad, i, maxdim, cid),
{
    reveal(rungs_forced);
    assert forall|e: int|
        has_thumb_rung(now, cid, e) <==> (has_thumb_rung(thumbs0, cid, e) || (exists|k: int|
            0 <= k < i && (#[trigger] lad[k]) as int == e && lad[k] as int <= maxdim)) by {
        if has_thumb_rung(now, cid, e) {
            if has_thumb_rung(thumbs_pre, cid, e) {
                if !has_thumb_rung(thumbs0, cid, e) {
                    let k = choose|k: int|
                        0 <= k < i - 1 && (#[trigger] lad[k]) as int == e && lad[k] as int
                            <= maxdim;
                    assert(0 <= k < i && lad[k] as int == e && lad[k] as int <= maxdim);
                }
            } else {
                lemma_thumb_rung_back_self(thumbs_pre, now, cid, e, edge as int);
                assert((lad[i - 1]) as int == e && lad[i - 1] as int <= maxdim);
            }
        }
        if has_thumb_rung(thumbs0, cid, e) {
            lemma_thumb_rung_monotone(thumbs_pre, now, cid, e);
        }
        if exists|k: int|
            0 <= k < i && (#[trigger] lad[k]) as int == e && lad[k] as int <= maxdim {
            let k = choose|k: int|
                0 <= k < i && (#[trigger] lad[k]) as int == e && lad[k] as int <= maxdim;
            if k < i - 1 {
                assert(has_thumb_rung(thumbs_pre, cid, e));
                lemma_thumb_rung_monotone(thumbs_pre, now, cid, e);
            } else {
                assert(lad[k] == edge);
                assert(has_thumb_rung(now, cid, edge as int));
            }
        }
    }
}

/// One rung of the ladder done: every processed rung within reach that
/// had no thumbnail at entry now has a fully committed one.
proof fn lemma_committed_step(
    lad: Seq<u32>,
    i: int,
    edge: u32,
    maxdim: int,
    thumbs0: Seq<crate::local::ThumbnailRowV>,
    thumbs_pre: Seq<crate::local::ThumbnailRowV>,
    now: Seq<crate::local::ThumbnailRowV>,
    store_pre: Seq<(Seq<char>, Seq<u8>)>,
    store_now: Seq<(Seq<char>, Seq<u8>)>,
    root: Seq<char>,
    cid: Seq<u8>,
)
    requires
        1 <= i <= lad.len(),
        lad[i - 1] == edge,
        forall|k1: int, k2: int|
            0 <= k1 < k2 < lad.len() ==> #[trigger] lad[k1] != #[trigger] lad[k2],
        thumbs_pre.len() <= now.len() <= thumbs_pre.len() + 1,
        forall|k: int| 0 <= k < thumbs_pre.len() ==> now[k] == thumbs_pre[k],
        forall|e2: u32| e2 != edge ==> fs_lookup(
            store_now,
            spec_thumb_path(root, cid, e2 as int),
        ) == fs_lookup(store_pre, spec_thumb_path(root, cid, e2 as int)),
        fresh_rungs_committed(thumbs_pre, thumbs0, store_pre, root, cid, lad, i - 1, maxdim),
        (edge as int <= maxdim && !has_thumb_rung(thumbs0, cid, edge as int))
            ==> thumb_committed(now, store_now, root, cid, edge),
    ensures
        fresh_rungs_committed(now, thumbs0, store_now, root, cid, lad, i, maxdim),
{
    reveal(fresh_rungs_committed);
    assert forall|e2: u32|
        lad.take(i).contains(e2) && e2 as int <= maxdim && !has_thumb_rung(
            thumbs0,
            cid,
            e2 as int,
        ) implies thumb_committed(now, store_now, root, cid, e2) by {
        lemma_take_contains(lad, i, e2);
        if lad.take(i - 1).contains(e2) {
            assert(thumb_committed(thumbs_pre, store_pre, root, cid, e2));
            assert(e2 != edge) by {
                if e2 == edge {
                    let k = choose|k: int|
                        0 <= k < lad.take(i - 1).len() && #[trigger] lad.take(i - 1)[k] == e2;
                    assert(lad[k] == lad[i - 1]);
                }
            }
            assert(fs_lookup(store_now, spec_thumb_path(root, cid, e2 as int)) == fs_lookup(
                store_pre,
                spec_thumb_path(root, cid, e2 as int),
            ));
            let w = choose|w: int|
                0 <= w < thumbs_pre.len() && {
                    let t = #[trigger] thumbs_pre[w];
                    let blob = fs_lookup(store_pre, spec_thumb_path(root, cid, e2 as int));
                    &&& t.source_cid == cid
                    &&& thumb_long_edge(t) == e2 as int
                    &&& t.mimetype == "image/jpeg"@
                    &&& !t.is_animated
                    &&& blob is Some
                    &&& t.cid == cid_of(blob.unwrap())
                    &&& t.size == blob.unwrap().len()
                };
            assert(now[w] == thumbs_pre[w]);
        } else {
            assert(e2 == edge);
        }
    }
}

/// The whole ladder done: a ladder rung has a thumbnail exactly when it
/// had one at entry or the picture reaches it.
proof fn lemma_forcing_final(
    lad: Seq<u32>,
    maxdim: int,
    thumbs0: Seq<crate::local::ThumbnailRowV>,
    fin: Seq<crate::local::ThumbnailRowV>,
    cid: Seq<u8>,
)
    requires
        rungs_forced(fin, thumbs0, lad, lad.len() as int, maxdim, cid),
    ensures
        forall|edge: u32|
            lad.contains(edge) ==> (has_thumb_rung(fin, cid, edge as int) <==> (has_thumb_rung(
                thumbs0,
                cid,
                edge as int,
            ) || edge as int <= maxdim)),
{
    reveal(rungs_forced);
    assert forall|edge: u32|
        lad.contains(edge) implies (has_thumb_rung(fin, cid, edge as int) <==> (has_thumb_rung(
            thumbs0,
            cid,
            edge as int,
        ) || edge as int <= maxdim)) by {
        let j = choose|j: int| 0 <= j < lad.len() && #[trigger] lad[j] == edge;
        if has_thumb_rung(fin, cid, edge as int) && !has_thumb_rung(thumbs0, cid, edge as int) {
            let k = choose|k: int|
                0 <= k < lad.len() && (#[trigger] lad[k]) as int == edge as int && lad[k] as int
                    <= maxdim;
            assert(edge as int <= maxdim);
        }
        if edge as int <= maxdim {
            assert(0 <= j < lad.len() && lad[j] as int == edge as int && lad[j] as int
                <= maxdim);
        }
    }
}

/// A rung that appeared across at most one append is the appended one.
proof fn lemma_thumb_rung_back_self(
    pre: Seq<crate::local::ThumbnailRowV>,
    post: Seq<crate::local::ThumbnailRowV>,
    cid: Seq<u8>,
    rung: int,
    appended: int,
)
    requires
        pre.len() <= post.len() <= pre.len() + 1,
        forall|k: int| 0 <= k < pre.len() ==> post[k] == pre[k],
        post.len() == pre.len() + 1 ==> thumb_long_edge(post.last()) == appended,
        has_thumb_rung(post, cid, rung),
        !has_thumb_rung(pre, cid, rung),
    ensures
        rung == appended,
{
    let w = choose|k: int|
        0 <= k < post.len() && #[trigger] post[k].source_cid == cid && thumb_long_edge(post[k])
            == rung;
    if w < pre.len() {
        assert(pre[w].source_cid == cid && thumb_long_edge(pre[w]) == rung);
    } else {
        assert(post[w] == post.last());
    }
}

proof fn lemma_thumb_rung_back(
    pre: Seq<crate::local::ThumbnailRowV>,
    post: Seq<crate::local::ThumbnailRowV>,
    cid: Seq<u8>,
    rung: int,
    appended: int,
)
    requires
        pre.len() <= post.len() <= pre.len() + 1,
        forall|k: int| 0 <= k < pre.len() ==> post[k] == pre[k],
        post.len() == pre.len() + 1 ==> thumb_long_edge(post.last()) == appended,
        rung != appended,
        has_thumb_rung(post, cid, rung),
    ensures
        has_thumb_rung(pre, cid, rung),
{
    let w = choose|k: int|
        0 <= k < post.len() && #[trigger] post[k].source_cid == cid && thumb_long_edge(post[k])
            == rung;
    if w < pre.len() {
        assert(pre[w].source_cid == cid && thumb_long_edge(pre[w]) == rung);
    } else {
        assert(post[w] == post.last());
    }
}

/// Flattening a longer prefix of a chunk list never shortens the result.
proof fn lemma_flat_prefix(cs: Seq<Vec<u8>>, i: int)
    requires
        0 <= i <= cs.len(),
    ensures
        flat_chunks(cs.take(i)).len() <= flat_chunks(cs).len(),
    decreases cs.len() - i,
{
    broadcast use Seq::<_>::lemma_flatten_push;

    if i < cs.len() {
        lemma_flat_prefix(cs, i + 1);
        let pre = cs.take(i).map_values(|c: Vec<u8>| c@);
        let now = cs.take(i + 1).map_values(|c: Vec<u8>| c@);
        assert(now =~= pre.push(cs[i]@));
        assert(now.flatten() == pre.flatten() + cs[i]@);
    } else {
        assert(cs.take(i) =~= cs);
    }
}

} // verus!
