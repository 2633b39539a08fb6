//! Change events and content-hash change detection for incremental indexing.
//!
//! Watching the filesystem is I/O and happens outside the library; the events it reports
//! come in as `FileChange` values.

use vstd::prelude::*;

use crate::text::str_eq;

verus! {

/// File change event types.
#[derive(Debug, Clone)]
pub enum FileChange {
    Created(String),
    Modified(String),
    Deleted(String),
}

#[verifier::external_type_specification]
#[verifier::external_body]
pub struct ExSystemTime(std::time::SystemTime);

/// `SystemTime` is `Copy`: its `clone` hands back the same instant.
pub assume_specification[ <std::time::SystemTime as Clone>::clone ](t: &std::time::SystemTime) -> (r: std::time::SystemTime)
    ensures
        r == *t,
;

/// The hash `DefaultHasher::new()` gives a byte slice.
pub uninterp spec fn content_hash(bytes: Seq<u8>) -> u64;

/// File metadata cache for change detection.
#[derive(Debug, Clone)]
pub struct FileMetadata {
    pub path: String,
    pub content_hash: u64,
    pub modified: std::time::SystemTime,
}

impl FileMetadata {
    /// Hashes the content with `std::collections::hash_map::DefaultHasher::new()`, which
    /// the standard library documents to hash alike in every instance made by `new`. The
    /// hash is named.
    #[verifier::external_body]
    pub fn compute_hash(content: &[u8]) -> (h: u64)
        ensures
            h == content_hash(content@),
    {
        let mut hasher = std::collections::hash_map::DefaultHasher::new();
        std::hash::Hash::hash(content, &mut hasher);
        std::hash::Hasher::finish(&hasher)
    }

    pub fn from_content(path: String, content: &[u8], modified: std::time::SystemTime) -> (m: Self)
        ensures
            m.path@ == path@,
            m.content_hash == content_hash(content@),
            m.modified == modified,
    {
        FileMetadata { path, content_hash: FileMetadata::compute_hash(content), modified }
    }
}

/// A `hashbrown::HashSet` of (path, content hash) pairs.
#[verifier::external_body]
pub struct HashPairs {
    inner: hashbrown::HashSet<(String, u64)>,
}

/// The pairs a `HashPairs` holds.
pub uninterp spec fn hash_pairs(t: HashPairs) -> Set<(Seq<char>, u64)>;

/// Whether the pair's path differs from `path`.
fn other_path(e: &(String, u64), path: &str) -> (b: bool)
    ensures
        b == (e.0@ != path@),
{
    !str_eq(e.0.as_str(), path)
}

impl HashPairs {
    /// `hashbrown::HashSet::new`: an empty set.
    #[verifier::external_body]
    fn new() -> (r: Self)
        ensures
            hash_pairs(r) == Set::<(Seq<char>, u64)>::empty(),
    {
        HashPairs { inner: hashbrown::HashSet::new() }
    }

    /// `hashbrown::HashSet::contains`.
    #[verifier::external_body]
    fn contains(&self, path: &str, hash: u64) -> (b: bool)
        ensures
            b == hash_pairs(*self).contains((path@, hash)),
    {
        self.inner.contains(&(path.to_string(), hash))
    }

    /// `hashbrown::HashSet::insert`.
    #[verifier::external_body]
    fn insert(&mut self, path: String, hash: u64)
        ensures
            hash_pairs(*final(self)) == hash_pairs(*old(self)).insert((path@, hash)),
    {
        self.inner.insert((path, hash));
    }

    /// `hashbrown::HashSet::retain`, keeping the pairs of other paths.
    #[verifier::external_body]
    fn remove_path(&mut self, path: &str)
        ensures
            hash_pairs(*final(self)) == hash_pairs(*old(self)).filter(|e: (Seq<char>, u64)| e.0 != path@),
    {
        self.inner.retain(|e| other_path(e, path));
    }

    /// `hashbrown::HashSet::len`.
    #[verifier::external_body]
    fn len(&self) -> (n: usize)
        ensures
            n == hash_pairs(*self).len(),
    {
        self.inner.len()
    }
}

/// Change detection state for incremental indexing: the (path, content hash) pairs seen.
pub struct ChangeDetector {
    metadata: HashPairs,
}

impl ChangeDetector {
    pub closed spec fn seen(&self) -> Set<(Seq<char>, u64)> {
        hash_pairs(self.metadata)
    }

    pub fn new() -> (d: Self)
        ensures
            d.seen() == Set::<(Seq<char>, u64)>::empty(),
    {
        ChangeDetector { metadata: HashPairs::new() }
    }

    /// A file has changed unless this exact content was recorded for its path.
    pub fn has_changed(&self, path: &str, content: &[u8]) -> (b: bool)
        ensures
            b == !self.seen().contains((path@, content_hash(content@))),
    {
        let hash = FileMetadata::compute_hash(content);
        !self.metadata.contains(path, hash)
    }

    /// Records the content of a file.
    pub fn update(&mut self, path: String, content: &[u8])
        ensures
            final(self).seen() == old(self).seen().insert((path@, content_hash(content@))),
    {
        let hash = FileMetadata::compute_hash(content);
        self.metadata.insert(path, hash);
    }

    /// Forgets every content recorded for a path.
    pub fn remove(&mut self, path: &str)
        ensures
            final(self).seen() == old(self).seen().filter(|e: (Seq<char>, u64)| e.0 != path@),
    {
        self.metadata.remove_path(path);
    }

    pub fn len(&self) -> (n: usize)
        ensures
            n == self.seen().len(),
    {
        self.metadata.len()
    }

    pub fn is_empty(&self) -> (b: bool)
        ensures
            b == (self.seen().len() == 0),
    {
        self.metadata.len() == 0
    }
}

impl Default for ChangeDetector {
    fn default() -> (d: Self)
        ensures
            d.seen() == Set::<(Seq<char>, u64)>::empty(),
    {
        ChangeDetector::new()
    }
}


// ---------------------------------------------------------------------------
// Laws.

/// Once a file's content is recorded, that content is no change for it.
pub proof fn recorded_content_is_unchanged(seen: Set<(Seq<char>, u64)>, path: Seq<char>, content: Seq<u8>)
    ensures
        seen.insert((path, content_hash(content))).contains((path, content_hash(content))),
{
}

/// Once a path is forgotten, every content of it is a change.
pub proof fn forgotten_path_is_changed(seen: Set<(Seq<char>, u64)>, path: Seq<char>, content: Seq<u8>)
    ensures
        !seen.filter(|e: (Seq<char>, u64)| e.0 != path).contains((path, content_hash(content))),
{
}

} // verus!
