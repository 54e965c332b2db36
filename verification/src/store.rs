//! The configuration store: one JSON document and the path it was loaded
//! from. The caller reads the file's bytes and hands them in; the store
//! parses, serves and updates the document, and hands back canonical bytes
//! to write. The path is fixed at initialization and never changes.

use vstd::prelude::*;
use crate::json::Json;
use crate::json::JVal;
use crate::json::top_get;
use crate::json::top_set;
use crate::json::lemma_obj_get_present;
use crate::json::lemma_top_set_then_get;
use crate::json::lemma_top_set_keeps_others;
use crate::codec::p_doc;
use crate::codec::ser;
use crate::codec::parse_doc;
use crate::codec::to_bytes;
use crate::codec::lemma_codec_round_trip;
use crate::json::lemma_view_wf;

verus! {

/// Why a store operation failed.
#[derive(Debug, PartialEq, Eq, Structural)]
pub enum ConfigError {
    /// The bytes are not one well-formed document.
    Parse,
    /// A field operation was attempted while the document's root is not an
    /// object.
    Shape,
}

/// One configuration document together with its source path.
pub struct Config {
    doc: Json,
    path: Vec<u8>,
}

impl Config {
    /// The model of the stored document.
    pub closed spec fn doc_model(self) -> JVal {
        self.doc@
    }

    /// The bytes of the source path.
    pub closed spec fn path_model(self) -> Seq<u8> {
        self.path@
    }

    /// Builds the store from the bytes of the configuration file and the
    /// path they were read from. Succeeds exactly when the bytes hold one
    /// well-formed document, which becomes the stored document.
    pub fn initialize(bytes: &[u8], path: Vec<u8>) -> (r: Result<Config, ConfigError>)
        ensures
            p_doc(bytes@) matches Option::Some(v) ==> r matches Result::Ok(c) && c.doc_model()
                == v && c.path_model() == path@,
            p_doc(bytes@) is None ==> r == Result::<Config, ConfigError>::Err(ConfigError::Parse),
    {
        match parse_doc(bytes) {
            Option::Some(j) => Result::Ok(Config { doc: j, path }),
            Option::None => Result::Err(ConfigError::Parse),
        }
    }

    /// The path the store was initialized from.
    pub fn source_path(&self) -> (r: &Vec<u8>)
        ensures
            r@ == self.path_model(),
    {
        &self.path
    }

    /// A full copy of the current document. No side effect.
    pub fn get_document(&self) -> (r: Json)
        ensures
            r@ == self.doc_model(),
    {
        self.doc.deep_clone()
    }

    /// Replaces the document in full; the path stays.
    pub fn replace_document(&mut self, d: Json)
        ensures
            final(self).doc_model() == d@,
            final(self).path_model() == old(self).path_model(),
    {
        self.doc = d;
    }

    /// The value under `key` in the top-level object, as a fresh copy.
    /// `None` when the key is absent or the root is not an object, never an
    /// error.
    pub fn get_field(&self, key: &[u8]) -> (r: Option<Json>)
        ensures
            top_get(self.doc_model(), key@) is None ==> r is None,
            r matches Option::Some(j) ==> top_get(self.doc_model(), key@) == Option::Some(j@),
            top_get(self.doc_model(), key@) is Some ==> r is Some,
    {
        self.doc.get_key(key)
    }

    /// Inserts or overwrites `key` in the top-level object. When the root
    /// is not an object, the document stays and the shape error is
    /// reported. The path stays.
    pub fn set_field(&mut self, key: &[u8], value: Json) -> (r: Result<(), ConfigError>)
        ensures
            top_set(old(self).doc_model(), key@, value@) matches Option::Some(d2) ==> r
                == Result::<(), ConfigError>::Ok(()) && final(self).doc_model() == d2,
            top_set(old(self).doc_model(), key@, value@) is None ==> r == Result::<
                (),
                ConfigError,
            >::Err(ConfigError::Shape) && final(self).doc_model() == old(self).doc_model(),
            final(self).path_model() == old(self).path_model(),
    {
        if self.doc.set_key(key, value) {
            Result::Ok(())
        } else {
            Result::Err(ConfigError::Shape)
        }
    }

    /// The canonical bytes of the current document, for the caller to write
    /// to the file at the source path. No side effect.
    pub fn persist_bytes(&self) -> (r: Vec<u8>)
        ensures
            r@ == ser(self.doc_model()),
    {
        to_bytes(&self.doc)
    }

    /// Replaces the document with the one the given bytes hold, freshly
    /// read from the file at the source path. On a parse failure the store
    /// is unchanged. The path stays.
    pub fn reread(&mut self, bytes: &[u8]) -> (r: Result<(), ConfigError>)
        ensures
            p_doc(bytes@) matches Option::Some(v) ==> r == Result::<(), ConfigError>::Ok(())
                && final(self).doc_model() == v,
            p_doc(bytes@) is None ==> r == Result::<(), ConfigError>::Err(ConfigError::Parse)
                && final(self).doc_model() == old(self).doc_model(),
            final(self).path_model() == old(self).path_model(),
    {
        match parse_doc(bytes) {
            Option::Some(j) => {
                self.doc = j;
                Result::Ok(())
            },
            Option::None => Result::Err(ConfigError::Parse),
        }
    }
}

/// After an initialization from `bytes` that hold a document, what
/// `get_document` hands out is that document. The premises are what
/// `initialize` ensures of its result and what `get_document` ensures of
/// its return value `r`.
pub proof fn lemma_initialize_then_get(bytes: Seq<u8>, c: Config, r: Json)
    requires
        p_doc(bytes) is Some,
        c.doc_model() == p_doc(bytes)->0,
        r@ == c.doc_model(),
    ensures
        r@ == p_doc(bytes)->0,
{
}

/// After `replace_document(d2)`, what `get_document` hands out is `d2`:
/// a full replace, no merge. The premises are what `replace_document`
/// ensures of the store and what `get_document` ensures of its return
/// value `r`.
pub proof fn lemma_replace_then_get(c: Config, d2: Json, r: Json)
    requires
        c.doc_model() == d2@,
        r@ == c.doc_model(),
    ensures
        r@ == d2@,
{
}

/// A lookup succeeds exactly when some top-level binding carries the key:
/// a present key is found, an absent one reads as absent, and no key is an
/// error.
pub proof fn lemma_get_field_present(c: Config, key: Seq<u8>)
    requires
        c.doc_model() is Obj,
    ensures
        top_get(c.doc_model(), key) is Some <==> exists|j: int|
            0 <= j < c.doc_model()->Obj_0.len() && (#[trigger] c.doc_model()->Obj_0[j]).0 == key,
{
    lemma_obj_get_present(c.doc_model()->Obj_0, key);
}

/// After a successful `set_field(key, value)`, reading `key` yields
/// `value`, and every other key reads as it did before. The premise on
/// `c1` is what `set_field` ensures of the store after success.
pub proof fn lemma_set_then_get_field(
    c0: Config,
    c1: Config,
    key: Seq<u8>,
    value: JVal,
    other: Seq<u8>,
)
    requires
        top_set(c0.doc_model(), key, value) is Some,
        c1.doc_model() == top_set(c0.doc_model(), key, value)->0,
    ensures
        top_get(c1.doc_model(), key) == Option::Some(value),
        other != key ==> top_get(c1.doc_model(), other) == top_get(c0.doc_model(), other),
{
    lemma_top_set_then_get(c0.doc_model(), key, value);
    if other != key {
        lemma_top_set_keeps_others(c0.doc_model(), key, value, other);
    }
}

/// The persist-then-reread round trip: the bytes `persist_bytes` hands out
/// for any store parse back to exactly the stored document, so a `reread`
/// of what was persisted restores it.
pub proof fn lemma_persist_reread(c: Config)
    ensures
        p_doc(ser(c.doc_model())) == Option::Some(c.doc_model()),
{
    lemma_view_wf(c.doc);
    lemma_codec_round_trip(c.doc@);
}

} // verus!
