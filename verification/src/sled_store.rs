//! The persistent tree cache: one binary record per hierarchy kind, held in
//! an embedded key-value store on disk.  Saving overwrites the kind's
//! record; loading returns `None` for a record that is absent or does not
//! decode; only writes surface errors.

use vstd::prelude::*;
use crate::media_metadata::{TagTreeNode, TagNodeV, tag_nodes_view};
use crate::tag_codec::{encode_tag_forest, decode_tag_forest, spec_encode_forest,
    spec_decode_forest, forest_encodable, lemma_codec_round_trip};

verus! {

/// An error from the persistent store: opening, writing and clearing can
/// fail (a disk error, the store locked by another process).  Reads never
/// raise one.
#[derive(Debug)]
pub struct StoreError {
    pub message: String,
}

#[verifier::external_type_specification]
#[verifier::external_body]
pub struct ExSledDb(sled::Db);

/// The contents of the embedded store: which bytes are held under which
/// key.
pub uninterp spec fn db_view(db: sled::Db) -> Map<Seq<char>, Seq<u8>>;

/// The key of the genre-first hierarchy's record.
pub open spec fn genre_key() -> Seq<char> {
    "tag_tree"@
}

/// The key of the creator-first hierarchy's record.
pub open spec fn creator_key() -> Seq<char> {
    "creator_tag_tree"@
}

/// The persistent tree cache, backed by an embedded store on disk.
pub struct SledStore {
    db: sled::Db,
}

impl View for SledStore {
    type V = Map<Seq<char>, Seq<u8>>;

    closed spec fn view(&self) -> Map<Seq<char>, Seq<u8>> {
        db_view(self.db)
    }
}

impl SledStore {
    /// Relies on sled::open: opens the embedded store at `path`, creating
    /// it if nothing is there.  The handle holds whatever records were left
    /// on disk, so nothing is promised of its contents.
    #[verifier::external_body]
    pub fn new(path: &str) -> (r: Result<SledStore, StoreError>) {
        match sled::open(path) {
            Ok(db) => Ok(SledStore { db }),
            Err(e) => Err(StoreError { message: format!("{e}") }),
        }
    }

    /// Relies on sled::Tree::insert: on success the store maps `key` to
    /// exactly the given bytes, every other key untouched.
    #[verifier::external_body]
    fn kv_insert(&mut self, key: &str, value: Vec<u8>) -> (r: Result<(), StoreError>)
        ensures
            r is Ok ==> db_view(final(self).db) == db_view(old(self).db).insert(key@, value@),
    {
        match self.db.insert(key, value) {
            Ok(_) => Ok(()),
            Err(e) => Err(StoreError { message: format!("{e}") }),
        }
    }

    /// Relies on sled::Tree::get: a successful read hands back exactly the
    /// bytes held under `key`, or nothing when the key is absent.
    #[verifier::external_body]
    fn kv_get(&self, key: &str) -> (r: Result<Option<Vec<u8>>, StoreError>)
        ensures
            r matches Ok(Some(v)) ==> db_view(self.db).contains_key(key@) && v@ == db_view(
                self.db,
            )[key@],
            r matches Ok(None) ==> !db_view(self.db).contains_key(key@),
    {
        match self.db.get(key) {
            Ok(Some(ivec)) => Ok(Some(ivec.to_vec())),
            Ok(None) => Ok(None),
            Err(e) => Err(StoreError { message: format!("{e}") }),
        }
    }

    /// Relies on sled::Tree::remove: on success `key` is gone, every other
    /// key untouched.
    #[verifier::external_body]
    fn kv_remove(&mut self, key: &str) -> (r: Result<(), StoreError>)
        ensures
            r is Ok ==> db_view(final(self).db) == db_view(old(self).db).remove(key@),
    {
        match self.db.remove(key) {
            Ok(_) => Ok(()),
            Err(e) => Err(StoreError { message: format!("{e}") }),
        }
    }

    /// Serializes the forest and writes it as the genre-first record,
    /// overwriting any prior one.
    pub fn save_genre_tag_tree(&mut self, roots: &Vec<TagTreeNode>) -> (r: Result<
        (),
        StoreError,
    >)
        ensures
            r is Ok ==> final(self)@ == old(self)@.insert(
                genre_key(),
                spec_encode_forest(tag_nodes_view(roots@)),
            ),
    {
        let data = encode_tag_forest(roots);
        self.kv_insert("tag_tree", data)
    }

    /// Reads the genre-first record: the stored forest, or `None` when no
    /// record is there or the record does not decode.  Never an error.
    pub fn load_genre_tag_tree(&self) -> (r: Option<Vec<TagTreeNode>>)
        ensures
            !self@.contains_key(genre_key()) ==> r is None,
            self@.contains_key(genre_key()) && spec_decode_forest(self@[genre_key()]) is None
                ==> r is None,
            r matches Some(f) ==> self@.contains_key(genre_key()) && spec_decode_forest(
                self@[genre_key()],
            ) == Some(tag_nodes_view(f@)),
    {
        match self.kv_get("tag_tree") {
            Ok(Some(bytes)) => decode_tag_forest(&bytes),
            _ => None,
        }
    }

    /// Removes the genre-first record, so that the next load reports a
    /// miss.
    pub fn clear_genre_tree(&mut self) -> (r: Result<(), StoreError>)
        ensures
            r is Ok ==> final(self)@ == old(self)@.remove(genre_key()),
    {
        self.kv_remove("tag_tree")
    }

    /// Serializes the forest and writes it as the creator-first record,
    /// overwriting any prior one.
    pub fn save_creator_tag_tree(&mut self, roots: &Vec<TagTreeNode>) -> (r: Result<
        (),
        StoreError,
    >)
        ensures
            r is Ok ==> final(self)@ == old(self)@.insert(
                creator_key(),
                spec_encode_forest(tag_nodes_view(roots@)),
            ),
    {
        let data = encode_tag_forest(roots);
        self.kv_insert("creator_tag_tree", data)
    }

    /// Reads the creator-first record: the stored forest, or `None` when no
    /// record is there or the record does not decode.  Never an error.
    pub fn load_creator_tag_tree(&self) -> (r: Option<Vec<TagTreeNode>>)
        ensures
            !self@.contains_key(creator_key()) ==> r is None,
            self@.contains_key(creator_key()) && spec_decode_forest(self@[creator_key()]) is None
                ==> r is None,
            r matches Some(f) ==> self@.contains_key(creator_key()) && spec_decode_forest(
                self@[creator_key()],
            ) == Some(tag_nodes_view(f@)),
    {
        match self.kv_get("creator_tag_tree") {
            Ok(Some(bytes)) => decode_tag_forest(&bytes),
            _ => None,
        }
    }
}

/// The cache round trip: once a save has put an encoded forest under a
/// key, the bytes under that key decode to exactly the saved forest, so a
/// load from the unchanged store returns it.
pub proof fn lemma_save_then_load(m: Map<Seq<char>, Seq<u8>>, key: Seq<char>, f: Seq<TagNodeV>)
    requires
        forest_encodable(f),
    ensures
        m.insert(key, spec_encode_forest(f)).contains_key(key),
        spec_decode_forest(m.insert(key, spec_encode_forest(f))[key]) == Some(f),
{
    lemma_codec_round_trip(f);
}

} // verus!
