//! Hash tables of the index, each a `hashbrown::HashMap` of one key and value type.
//!
//! The tables are opaque to verification; each has a name for the map it holds, and the
//! wrappers below state what `hashbrown`'s methods do to that map. Keys are `u64` ids or
//! `String`s, whose `Hash` and `Eq` agree with equality of their values.

use vstd::prelude::*;

use crate::types::{FileEntry, Relationship, Symbol, SymbolId};

verus! {
/// A `hashbrown::HashMap` from an id to a list of symbol ids.
#[verifier::external_body]
pub struct IdListMap {
    inner: hashbrown::HashMap<u64, Vec<SymbolId>>,
}

/// The map that a `IdListMap` holds.
pub uninterp spec fn id_lists(t: IdListMap) -> Map<u64, Seq<SymbolId>>;

impl IdListMap {
    /// `hashbrown::HashMap::new`: an empty map.
    #[verifier::external_body]
    pub(crate) fn new() -> (r: Self)
        ensures
            id_lists(r).dom().is_empty(),
    {
        IdListMap { inner: hashbrown::HashMap::new() }
    }

    /// `hashbrown::HashMap::get`: the value stored under the key, if any.
    #[verifier::external_body]
    pub(crate) fn get(&self, k: u64) -> (r: Option<&Vec<SymbolId>>)
        ensures
            r is Some <==> id_lists(*self).dom().contains(k),
            r matches Some(v) ==> v@ == id_lists(*self)[k],
    {
        self.inner.get(&k)
    }

    /// `hashbrown::HashMap::insert`: the key now maps to the value.
    #[verifier::external_body]
    pub(crate) fn insert(&mut self, k: u64, v: Vec<SymbolId>)
        ensures
            id_lists(*final(self)) == id_lists(*old(self)).insert(k, v@),
    {
        self.inner.insert(k, v);
    }

    /// `hashbrown::HashMap::remove`: takes the key out, handing back its value.
    #[verifier::external_body]
    pub(crate) fn remove(&mut self, k: u64) -> (r: Option<Vec<SymbolId>>)
        ensures
            id_lists(*final(self)) == id_lists(*old(self)).remove(k),
            r is Some <==> id_lists(*old(self)).dom().contains(k),
            r matches Some(v) ==> v@ == id_lists(*old(self))[k],
    {
        self.inner.remove(&k)
    }
}

/// A `hashbrown::HashMap` from symbol id to a list of (symbol id, relationship) pairs.
#[verifier::external_body]
pub struct RelListMap {
    inner: hashbrown::HashMap<u64, Vec<(SymbolId, Relationship)>>,
}

/// The map that a `RelListMap` holds.
pub uninterp spec fn rel_lists(t: RelListMap) -> Map<u64, Seq<(SymbolId, Relationship)>>;

impl RelListMap {
    /// `hashbrown::HashMap::new`: an empty map.
    #[verifier::external_body]
    pub(crate) fn new() -> (r: Self)
        ensures
            rel_lists(r).dom().is_empty(),
    {
        RelListMap { inner: hashbrown::HashMap::new() }
    }

    /// `hashbrown::HashMap::get`: the value stored under the key, if any.
    #[verifier::external_body]
    pub(crate) fn get(&self, k: u64) -> (r: Option<&Vec<(SymbolId, Relationship)>>)
        ensures
            r is Some <==> rel_lists(*self).dom().contains(k),
            r matches Some(v) ==> v@ == rel_lists(*self)[k],
    {
        self.inner.get(&k)
    }

    /// `hashbrown::HashMap::insert`: the key now maps to the value.
    #[verifier::external_body]
    pub(crate) fn insert(&mut self, k: u64, v: Vec<(SymbolId, Relationship)>)
        ensures
            rel_lists(*final(self)) == rel_lists(*old(self)).insert(k, v@),
    {
        self.inner.insert(k, v);
    }

    /// `hashbrown::HashMap::remove`: takes the key out, handing back its value.
    #[verifier::external_body]
    pub(crate) fn remove(&mut self, k: u64) -> (r: Option<Vec<(SymbolId, Relationship)>>)
        ensures
            rel_lists(*final(self)) == rel_lists(*old(self)).remove(k),
            r is Some <==> rel_lists(*old(self)).dom().contains(k),
            r matches Some(v) ==> v@ == rel_lists(*old(self))[k],
    {
        self.inner.remove(&k)
    }

    /// `hashbrown::HashMap::keys`, collected: every key once, in the table's own order.
    #[verifier::external_body]
    pub(crate) fn keys(&self) -> (r: Vec<u64>)
        ensures
            r@.no_duplicates(),
            r@.to_set() == rel_lists(*self).dom(),
    {
        self.inner.keys().copied().collect()
    }
}

/// A `hashbrown::HashMap` from symbol id to a traversal depth.
#[verifier::external_body]
pub struct DepthMap {
    inner: hashbrown::HashMap<u64, usize>,
}

/// The map that a `DepthMap` holds.
pub uninterp spec fn depths(t: DepthMap) -> Map<u64, usize>;

impl DepthMap {
    /// `hashbrown::HashMap::new`: an empty map.
    #[verifier::external_body]
    pub(crate) fn new() -> (r: Self)
        ensures
            depths(r).dom().is_empty(),
    {
        DepthMap { inner: hashbrown::HashMap::new() }
    }

    /// `hashbrown::HashMap::get`: the value stored under the key, if any.
    #[verifier::external_body]
    pub(crate) fn get(&self, k: u64) -> (r: Option<&usize>)
        ensures
            r is Some <==> depths(*self).dom().contains(k),
            r matches Some(v) ==> *v == depths(*self)[k],
    {
        self.inner.get(&k)
    }

    /// `hashbrown::HashMap::insert`: the key now maps to the value.
    #[verifier::external_body]
    pub(crate) fn insert(&mut self, k: u64, v: usize)
        ensures
            depths(*final(self)) == depths(*old(self)).insert(k, v),
    {
        self.inner.insert(k, v);
    }
}

/// A `hashbrown::HashMap` from file id to file entry.
#[verifier::external_body]
pub struct FileTable {
    inner: hashbrown::HashMap<u64, FileEntry>,
}

/// The map that a `FileTable` holds.
pub uninterp spec fn file_entries(t: FileTable) -> Map<u64, FileEntry>;

impl FileTable {
    /// `hashbrown::HashMap::new`: an empty map.
    #[verifier::external_body]
    pub(crate) fn new() -> (r: Self)
        ensures
            file_entries(r).dom().is_empty(),
    {
        FileTable { inner: hashbrown::HashMap::new() }
    }

    /// `hashbrown::HashMap::get`: the value stored under the key, if any.
    #[verifier::external_body]
    pub(crate) fn get(&self, k: u64) -> (r: Option<&FileEntry>)
        ensures
            r is Some <==> file_entries(*self).dom().contains(k),
            r matches Some(v) ==> *v == file_entries(*self)[k],
    {
        self.inner.get(&k)
    }

    /// `hashbrown::HashMap::insert`: the key now maps to the value.
    #[verifier::external_body]
    pub(crate) fn insert(&mut self, k: u64, v: FileEntry)
        ensures
            file_entries(*final(self)) == file_entries(*old(self)).insert(k, v),
    {
        self.inner.insert(k, v);
    }

    /// `hashbrown::HashMap::remove`: takes the key out, handing back its value.
    #[verifier::external_body]
    pub(crate) fn remove(&mut self, k: u64) -> (r: Option<FileEntry>)
        ensures
            file_entries(*final(self)) == file_entries(*old(self)).remove(k),
            r is Some <==> file_entries(*old(self)).dom().contains(k),
            r matches Some(v) ==> v == file_entries(*old(self))[k],
    {
        self.inner.remove(&k)
    }

    /// `hashbrown::HashMap::len`: the number of keys.
    #[verifier::external_body]
    pub(crate) fn len(&self) -> (r: usize)
        ensures
            r == file_entries(*self).dom().len(),
    {
        self.inner.len()
    }
}

/// A `hashbrown::HashMap` from symbol id to symbol.
#[verifier::external_body]
pub struct SymbolTable {
    inner: hashbrown::HashMap<u64, Symbol>,
}

/// The map that a `SymbolTable` holds.
pub uninterp spec fn symbol_entries(t: SymbolTable) -> Map<u64, Symbol>;

impl SymbolTable {
    /// `hashbrown::HashMap::new`: an empty map.
    #[verifier::external_body]
    pub(crate) fn new() -> (r: Self)
        ensures
            symbol_entries(r).dom().is_empty(),
    {
        SymbolTable { inner: hashbrown::HashMap::new() }
    }

    /// `hashbrown::HashMap::get`: the value stored under the key, if any.
    #[verifier::external_body]
    pub(crate) fn get(&self, k: u64) -> (r: Option<&Symbol>)
        ensures
            r is Some <==> symbol_entries(*self).dom().contains(k),
            r matches Some(v) ==> *v == symbol_entries(*self)[k],
    {
        self.inner.get(&k)
    }

    /// `hashbrown::HashMap::get_mut`: the value stored under the key, if any, to be changed
    /// in place; what it is changed to is what the map then holds under the key.
    #[verifier::external_body]
    pub(crate) fn get_mut(&mut self, k: u64) -> (r: Option<&mut Symbol>)
        ensures
            r is Some <==> symbol_entries(*old(self)).dom().contains(k),
            r matches Some(v) ==> *v == symbol_entries(*old(self))[k]
                && symbol_entries(*final(self)) == symbol_entries(*old(self)).insert(k, *final(v)),
            r is None ==> symbol_entries(*final(self)) == symbol_entries(*old(self)),
    {
        self.inner.get_mut(&k)
    }

    /// `hashbrown::HashMap::insert`: the key now maps to the value.
    #[verifier::external_body]
    pub(crate) fn insert(&mut self, k: u64, v: Symbol)
        ensures
            symbol_entries(*final(self)) == symbol_entries(*old(self)).insert(k, v),
    {
        self.inner.insert(k, v);
    }

    /// `hashbrown::HashMap::remove`: takes the key out, handing back its value.
    #[verifier::external_body]
    pub(crate) fn remove(&mut self, k: u64) -> (r: Option<Symbol>)
        ensures
            symbol_entries(*final(self)) == symbol_entries(*old(self)).remove(k),
            r is Some <==> symbol_entries(*old(self)).dom().contains(k),
            r matches Some(v) ==> v == symbol_entries(*old(self))[k],
    {
        self.inner.remove(&k)
    }

    /// `hashbrown::HashMap::len`: the number of keys.
    #[verifier::external_body]
    pub(crate) fn len(&self) -> (r: usize)
        ensures
            r == symbol_entries(*self).dom().len(),
    {
        self.inner.len()
    }
}

/// A `hashbrown::HashMap` from file id to file content.
#[verifier::external_body]
pub struct ContentTable {
    inner: hashbrown::HashMap<u64, Vec<u8>>,
}

/// The map that a `ContentTable` holds.
pub uninterp spec fn contents(t: ContentTable) -> Map<u64, Seq<u8>>;

impl ContentTable {
    /// `hashbrown::HashMap::new`: an empty map.
    #[verifier::external_body]
    pub(crate) fn new() -> (r: Self)
        ensures
            contents(r).dom().is_empty(),
    {
        ContentTable { inner: hashbrown::HashMap::new() }
    }

    /// `hashbrown::HashMap::get`: the value stored under the key, if any.
    #[verifier::external_body]
    pub(crate) fn get(&self, k: u64) -> (r: Option<&Vec<u8>>)
        ensures
            r is Some <==> contents(*self).dom().contains(k),
            r matches Some(v) ==> v@ == contents(*self)[k],
    {
        self.inner.get(&k)
    }

    /// `hashbrown::HashMap::insert`: the key now maps to the value.
    #[verifier::external_body]
    pub(crate) fn insert(&mut self, k: u64, v: Vec<u8>)
        ensures
            contents(*final(self)) == contents(*old(self)).insert(k, v@),
    {
        self.inner.insert(k, v);
    }

    /// `hashbrown::HashMap::remove`: takes the key out, handing back its value.
    #[verifier::external_body]
    pub(crate) fn remove(&mut self, k: u64) -> (r: Option<Vec<u8>>)
        ensures
            contents(*final(self)) == contents(*old(self)).remove(k),
            r is Some <==> contents(*old(self)).dom().contains(k),
            r matches Some(v) ==> v@ == contents(*old(self))[k],
    {
        self.inner.remove(&k)
    }

    /// `hashbrown::HashMap::keys`, collected: every key once, in the table's own order.
    #[verifier::external_body]
    pub(crate) fn keys(&self) -> (r: Vec<u64>)
        ensures
            r@.no_duplicates(),
            r@.to_set() == contents(*self).dom(),
    {
        self.inner.keys().copied().collect()
    }

    /// `hashbrown::HashMap::clear`: no key is left.
    #[verifier::external_body]
    pub(crate) fn clear(&mut self)
        ensures
            contents(*final(self)).dom().is_empty(),
    {
        self.inner.clear();
    }
}

/// A `hashbrown::HashMap` from path to file id.
#[verifier::external_body]
pub struct PathTable {
    inner: hashbrown::HashMap<String, u64>,
}

/// The map that a `PathTable` holds.
pub uninterp spec fn path_ids(t: PathTable) -> Map<Seq<char>, u64>;

impl PathTable {
    /// `hashbrown::HashMap::new`: an empty map.
    #[verifier::external_body]
    pub(crate) fn new() -> (r: Self)
        ensures
            path_ids(r).dom().is_empty(),
    {
        PathTable { inner: hashbrown::HashMap::new() }
    }

    /// `hashbrown::HashMap::get`: the value stored under the key, if any.
    #[verifier::external_body]
    pub(crate) fn get(&self, k: &str) -> (r: Option<&u64>)
        ensures
            r is Some <==> path_ids(*self).dom().contains(k@),
            r matches Some(v) ==> *v == path_ids(*self)[k@],
    {
        self.inner.get(k)
    }

    /// `hashbrown::HashMap::insert`: the key now maps to the value.
    #[verifier::external_body]
    pub(crate) fn insert(&mut self, k: String, v: u64)
        ensures
            path_ids(*final(self)) == path_ids(*old(self)).insert(k@, v),
    {
        self.inner.insert(k, v);
    }

    /// `hashbrown::HashMap::remove`: takes the key out, handing back its value.
    #[verifier::external_body]
    pub(crate) fn remove(&mut self, k: &str) -> (r: Option<u64>)
        ensures
            path_ids(*final(self)) == path_ids(*old(self)).remove(k@),
            r is Some <==> path_ids(*old(self)).dom().contains(k@),
            r matches Some(v) ==> v == path_ids(*old(self))[k@],
    {
        self.inner.remove(k)
    }

    /// `hashbrown::HashMap::keys`, collected: every key once, in the table's own order.
    #[verifier::external_body]
    pub(crate) fn keys(&self) -> (r: Vec<String>)
        ensures
            r@.map_values(|s: String| s@).no_duplicates(),
            r@.map_values(|s: String| s@).to_set() == path_ids(*self).dom(),
    {
        self.inner.keys().cloned().collect()
    }
}

/// A `hashbrown::HashMap` from symbol name to a list of symbol ids.
#[verifier::external_body]
pub struct NameTable {
    inner: hashbrown::HashMap<String, Vec<SymbolId>>,
}

/// The map that a `NameTable` holds.
pub uninterp spec fn name_lists(t: NameTable) -> Map<Seq<char>, Seq<SymbolId>>;

impl NameTable {
    /// `hashbrown::HashMap::new`: an empty map.
    #[verifier::external_body]
    pub(crate) fn new() -> (r: Self)
        ensures
            name_lists(r).dom().is_empty(),
    {
        NameTable { inner: hashbrown::HashMap::new() }
    }

    /// `hashbrown::HashMap::get`: the value stored under the key, if any.
    #[verifier::external_body]
    pub(crate) fn get(&self, k: &str) -> (r: Option<&Vec<SymbolId>>)
        ensures
            r is Some <==> name_lists(*self).dom().contains(k@),
            r matches Some(v) ==> v@ == name_lists(*self)[k@],
    {
        self.inner.get(k)
    }

    /// `hashbrown::HashMap::insert`: the key now maps to the value.
    #[verifier::external_body]
    pub(crate) fn insert(&mut self, k: String, v: Vec<SymbolId>)
        ensures
            name_lists(*final(self)) == name_lists(*old(self)).insert(k@, v@),
    {
        self.inner.insert(k, v);
    }

    /// `hashbrown::HashMap::remove`: takes the key out, handing back its value.
    #[verifier::external_body]
    pub(crate) fn remove(&mut self, k: &str) -> (r: Option<Vec<SymbolId>>)
        ensures
            name_lists(*final(self)) == name_lists(*old(self)).remove(k@),
            r is Some <==> name_lists(*old(self)).dom().contains(k@),
            r matches Some(v) ==> v@ == name_lists(*old(self))[k@],
    {
        self.inner.remove(k)
    }
}

} // verus!
