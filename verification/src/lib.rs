//! A small content-addressing toolkit: a verified SHA-1 digest engine
//! (hashing, hex encoding and decoding, validated digest construction)
//! together with the scaffolding types of a repository layer that will
//! consume digests as object names.
#![allow(unused_imports)]
use vstd::prelude::*;

pub mod sha1;

verus! {

/// A kind of object that a content-addressed store would hold; only the
/// blob payload carries data for now.
pub enum GitObject {
    Blob(Vec<u8>),
    Tree,
    Commit,
}

/// A handle on a repository, identified by the path it lives at.
pub struct GitRepository {
    path: String,
}

impl View for GitRepository {
    type V = Seq<char>;

    closed spec fn view(&self) -> Seq<char> {
        self.path@
    }
}

impl GitRepository {
    /// Records the given path; the repository's view is exactly that path.
    pub fn new(path: &str) -> (r: GitRepository)
        ensures
            r@ == path@,
    {
        GitRepository { path: path.to_owned() }
    }
}

} // verus!
