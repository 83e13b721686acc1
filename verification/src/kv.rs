//! The trusted boundary to the `sled` embedded database.
//!
//! Each persistent tree is held behind [`KvTree`], whose abstract contents
//! are the uninterpreted map [`tree_view`].  Every method of `sled` the
//! engine relies on is wrapped exactly once here, with a contract that says
//! what the call does to that map.  `sled` performs single-key operations
//! atomically, so a failed update is stated to have either taken effect or
//! not; nothing finer is assumed of the medium.

use vstd::prelude::*;

verus! {

#[verifier::external_type_specification]
#[verifier::external_body]
pub struct ExDb(sled::Db);

#[verifier::external_type_specification]
#[verifier::external_body]
pub struct ExTree(sled::Tree);

#[verifier::external_type_specification]
#[verifier::external_body]
pub struct ExSledError(sled::Error);

/// The contents of a `sled` tree: a map from key bytes to value bytes.
pub uninterp spec fn tree_view(t: sled::Tree) -> Map<Seq<u8>, Seq<u8>>;

/// A handle to one tree of the database.  `tree_view` reads the handle as
/// the tree's contents, so each named tree must be opened through exactly
/// one handle: two handles on the same name would alias one store.  The
/// engine opens its four trees once, under four distinct names.
pub struct KvTree {
    pub t: sled::Tree,
}

impl View for KvTree {
    type V = Map<Seq<u8>, Seq<u8>>;

    open spec fn view(&self) -> Map<Seq<u8>, Seq<u8>> {
        tree_view(self.t)
    }
}

impl KvTree {
    /// Relies on `sled::Db::open_tree`: opens (or creates) the tree of that
    /// name.  Its contents are whatever the database holds on disk, so
    /// nothing is assumed of them.
    #[verifier::external_body]
    pub fn open(db: &sled::Db, name: &str) -> (r: Result<KvTree, sled::Error>) {
        match db.open_tree(name) {
            Ok(t) => Ok(KvTree { t }),
            Err(e) => Err(e),
        }
    }

    /// Relies on `sled::Tree::get`: retrieves the value stored at the key,
    /// if there is one.
    #[verifier::external_body]
    pub fn get(&self, key: &Vec<u8>) -> (r: Result<Option<Vec<u8>>, sled::Error>)
        ensures
            r matches Ok(v) ==> (match v {
                Some(b) => tree_view(self.t).contains_key(key@) && b@ == tree_view(self.t)[key@],
                None => !tree_view(self.t).contains_key(key@),
            }),
    {
        match self.t.get(key.as_slice()) {
            Ok(Some(iv)) => Ok(Some(iv.to_vec())),
            Ok(None) => Ok(None),
            Err(e) => Err(e),
        }
    }

    /// Relies on `sled::Tree::insert`: sets the key to the value and returns
    /// the previous value at that key.  Single-key updates are atomic, so on
    /// failure the update has either taken effect or not.
    #[verifier::external_body]
    pub fn insert(&mut self, key: &Vec<u8>, value: &Vec<u8>) -> (r: Result<
        Option<Vec<u8>>,
        sled::Error,
    >)
        ensures
            r matches Ok(prev) ==> tree_view(final (self).t) == tree_view(old(self).t).insert(
                key@,
                value@,
            ) && (match prev {
                Some(b) => tree_view(old(self).t).contains_key(key@) && b@ == tree_view(
                    old(self).t,
                )[key@],
                None => !tree_view(old(self).t).contains_key(key@),
            }),
            r is Err ==> tree_view(final (self).t) == tree_view(old(self).t) || tree_view(
                final (self).t,
            ) == tree_view(old(self).t).insert(key@, value@),
    {
        match self.t.insert(key.as_slice(), value.as_slice()) {
            Ok(Some(iv)) => Ok(Some(iv.to_vec())),
            Ok(None) => Ok(None),
            Err(e) => Err(e),
        }
    }

    /// Relies on `sled::Tree::remove`: deletes the key and returns the value
    /// it held, if any.  Single-key updates are atomic, so on failure the
    /// removal has either taken effect or not.
    #[verifier::external_body]
    pub fn remove(&mut self, key: &Vec<u8>) -> (r: Result<Option<Vec<u8>>, sled::Error>)
        ensures
            r matches Ok(prev) ==> tree_view(final (self).t) == tree_view(old(self).t).remove(key@)
                && (match prev {
                Some(b) => tree_view(old(self).t).contains_key(key@) && b@ == tree_view(
                    old(self).t,
                )[key@],
                None => !tree_view(old(self).t).contains_key(key@),
            }),
            r is Err ==> tree_view(final (self).t) == tree_view(old(self).t) || tree_view(
                final (self).t,
            ) == tree_view(old(self).t).remove(key@),
    {
        match self.t.remove(key.as_slice()) {
            Ok(Some(iv)) => Ok(Some(iv.to_vec())),
            Ok(None) => Ok(None),
            Err(e) => Err(e),
        }
    }

    /// Relies on `sled::Tree::iter`: yields every key of the tree, each
    /// exactly once.
    #[verifier::external_body]
    pub fn keys(&self) -> (r: Result<Vec<Vec<u8>>, sled::Error>)
        ensures
            r matches Ok(ks) ==> (forall|i: int|
                0 <= i < ks@.len() ==> tree_view(self.t).contains_key(#[trigger] ks@[i]@)) && (
            forall|k: Seq<u8>|
                tree_view(self.t).contains_key(k) ==> exists|i: int|
                    0 <= i < ks@.len() && #[trigger] ks@[i]@ == k) && (forall|i: int, j: int|
                0 <= i < j < ks@.len() ==> ks@[i]@ != ks@[j]@),
    {
        let mut out: Vec<Vec<u8>> = Vec::new();
        for pair in self.t.iter() {
            match pair {
                Ok((k, _)) => out.push(k.to_vec()),
                Err(e) => return Err(e),
            }
        }
        Ok(out)
    }

    /// Relies on `sled::Tree::clear`: removes every key.  With no concurrent
    /// writer a success leaves the tree empty, and a failure has only removed
    /// keys, never changed or added one.
    #[verifier::external_body]
    pub fn clear(&mut self) -> (r: Result<(), sled::Error>)
        ensures
            r is Ok ==> forall|k: Seq<u8>| !tree_view(final (self).t).contains_key(k),
            r is Err ==> forall|k: Seq<u8>|
                tree_view(final (self).t).contains_key(k) ==> tree_view(old(self).t).contains_key(
                    k,
                ) && tree_view(final (self).t)[k] == tree_view(old(self).t)[k],
    {
        match self.t.clear() {
            Ok(()) => Ok(()),
            Err(e) => Err(e),
        }
    }
}

} // verus!
