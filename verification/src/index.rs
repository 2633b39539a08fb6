//! Index structures for fast retrieval, and the token budget.

use vstd::prelude::*;

use crate::graph::{list_or_empty, outgoing_of, push_id, push_rel};
use crate::search::{content_fits, content_fits_exec, contents_fit};
use crate::tables::{
    contents, file_entries, id_lists, name_lists, path_ids, rel_lists, symbol_entries,
    ContentTable, FileTable, IdListMap, NameTable, PathTable, RelListMap, SymbolTable,
};
use crate::types::{FileEntry, FileId, Range, Relationship, Symbol, SymbolId};

verus! {

/// Lexical search result.
#[derive(Debug)]
pub struct LexicalMatch {
    pub file_id: FileId,
    pub range: Range,
    pub line: String,
    pub line_number: u32,
}

/// Token budget configuration.
#[derive(Debug, Clone, Copy, PartialEq, Eq, Structural)]
pub struct TokenBudget {
    pub max_tokens: usize,
    pub max_files: usize,
    pub max_symbols: usize,
    pub max_depth: usize,
}

pub open spec fn default_budget() -> TokenBudget {
    TokenBudget { max_tokens: 2000, max_files: 10, max_symbols: 20, max_depth: 3 }
}

impl Default for TokenBudget {
    fn default() -> (r: Self)
        ensures
            r == default_budget(),
    {
        TokenBudget { max_tokens: 2000, max_files: 10, max_symbols: 20, max_depth: 3 }
    }
}

impl TokenBudget {
    /// A budget of `max_tokens` with the default file, symbol and depth limits.
    pub fn new(max_tokens: usize) -> (r: Self)
        ensures
            r == (TokenBudget { max_tokens, ..default_budget() }),
    {
        TokenBudget { max_tokens, max_files: 10, max_symbols: 20, max_depth: 3 }
    }

    pub fn with_files(self, max_files: usize) -> (r: Self)
        ensures
            r == (TokenBudget { max_files, ..self }),
    {
        let mut b = self;
        b.max_files = max_files;
        b
    }

    pub fn with_symbols(self, max_symbols: usize) -> (r: Self)
        ensures
            r == (TokenBudget { max_symbols, ..self }),
    {
        let mut b = self;
        b.max_symbols = max_symbols;
        b
    }

    pub fn with_depth(self, max_depth: usize) -> (r: Self)
        ensures
            r == (TokenBudget { max_depth, ..self }),
    {
        let mut b = self;
        b.max_depth = max_depth;
        b
    }
}

// ---------------------------------------------------------------------------
// The index.

/// The ids below `bound`, ascending, of the symbols that satisfy `p`.
pub open spec fn ids_where(syms: Map<u64, Symbol>, bound: nat, p: spec_fn(Symbol) -> bool) -> Seq<
    SymbolId,
>
    decreases bound,
{
    if bound == 0 {
        seq![]
    } else {
        let i = (bound - 1) as u64;
        let rest = ids_where(syms, (bound - 1) as nat, p);
        if syms.dom().contains(i) && p(syms[i]) {
            rest.push(SymbolId(i))
        } else {
            rest
        }
    }
}

/// The keys below `bound` that a map holds, ascending.
pub open spec fn keys_below<V>(m: Map<u64, V>, bound: nat) -> Seq<u64>
    decreases bound,
{
    if bound == 0 {
        seq![]
    } else {
        let i = (bound - 1) as u64;
        let rest = keys_below(m, (bound - 1) as nat);
        if m.dom().contains(i) {
            rest.push(i)
        } else {
            rest
        }
    }
}

/// `keys_below` holds each key of the map below the bound, once, in ascending order.
pub proof fn lemma_keys_below<V>(m: Map<u64, V>, bound: nat)
    requires
        bound <= u64::MAX + 1,
    ensures
        forall|i: int| #![trigger keys_below(m, bound)[i]]
            0 <= i < keys_below(m, bound).len() ==> keys_below(m, bound)[i] < bound && m.dom().contains(keys_below(m, bound)[i]),
        forall|i: int, j: int| 0 <= i < j < keys_below(m, bound).len() ==> keys_below(m, bound)[i] < keys_below(m, bound)[j],
        forall|k: u64| k < bound && #[trigger] m.dom().contains(k) ==> keys_below(m, bound).contains(k),
    decreases bound,
{
    if bound > 0 {
        let b1 = (bound - 1) as nat;
        lemma_keys_below(m, b1);
        let rest = keys_below(m, b1);
        let i = b1 as u64;
        if m.dom().contains(i) {
            assert forall|k: u64| k < bound && #[trigger] m.dom().contains(k) implies keys_below(m, bound).contains(k) by {
                if k < b1 {
                    let q = choose|q: int| 0 <= q < rest.len() && rest[q] == k;
                    assert(keys_below(m, bound)[q] == k);
                } else {
                    assert(keys_below(m, bound)[rest.len() as int] == k);
                }
            }
        }
    }
}

/// `ids_where` looks only at which ids are held and whether their symbols satisfy `p`.
proof fn lemma_ids_where_same(a: Map<u64, Symbol>, b: Map<u64, Symbol>, bound: nat, p: spec_fn(Symbol) -> bool)
    requires
        a.dom() == b.dom(),
        forall|k: u64| #[trigger] a.dom().contains(k) ==> p(a[k]) == p(b[k]),
    ensures
        ids_where(a, bound, p) == ids_where(b, bound, p),
    decreases bound,
{
    if bound > 0 {
        lemma_ids_where_same(a, b, (bound - 1) as nat, p);
    }
}

/// A symbol changed in place that keeps its id, name and file leaves the index well
/// formed, with the same files, paths, contents and references.
pub proof fn symbol_changed_in_place_keeps_wf(a: Index, b: Index, id: SymbolId)
    requires
        a.wf(),
        b.only_symbols_changed(a),
        a.symbols_map().dom().contains(id.0),
        b.symbols_map() == a.symbols_map().insert(id.0, b.symbols_map()[id.0]),
        b.symbols_map()[id.0].id == a.symbols_map()[id.0].id,
        b.symbols_map()[id.0].name@ == a.symbols_map()[id.0].name@,
        b.symbols_map()[id.0].file_id == a.symbols_map()[id.0].file_id,
    ensures
        b.wf(),
        b.files_map() == a.files_map(),
        b.paths_map() == a.paths_map(),
        b.contents_map() == a.contents_map(),
        b.references_seq() == a.references_seq(),
{
    let sa = a.symbols_map();
    let sb = b.symbols_map();
    assert(sa.dom() =~= sb.dom());
    assert forall|n: Seq<char>| #[trigger] name_list(b.symbols_by_name, n) == ids_where(sb, b.next_symbol_id as nat, named(n)) by {
        lemma_ids_where_same(sa, sb, a.next_symbol_id as nat, named(n));
    }
    assert forall|f: u64| #[trigger] list_or_empty(id_lists(b.symbols_by_file), f) == ids_where(sb, b.next_symbol_id as nat, in_file(f)) by {
        lemma_ids_where_same(sa, sb, a.next_symbol_id as nat, in_file(f));
    }
}

pub open spec fn named(n: Seq<char>) -> spec_fn(Symbol) -> bool {
    |s: Symbol| s.name@ == n
}

pub open spec fn in_file(f: u64) -> spec_fn(Symbol) -> bool {
    |s: Symbol| s.file_id.0 == f
}

/// `s` without the entries equal to `SymbolId(k)`.
pub open spec fn without_id(s: Seq<SymbolId>, k: u64) -> Seq<SymbolId>
    decreases s.len(),
{
    if s.len() == 0 {
        s
    } else if s.last() == SymbolId(k) {
        without_id(s.drop_last(), k)
    } else {
        without_id(s.drop_last(), k).push(s.last())
    }
}

/// `s` without the pairs whose symbol is `SymbolId(k)`.
pub open spec fn without_target(s: Seq<(SymbolId, Relationship)>, k: u64) -> Seq<
    (SymbolId, Relationship),
>
    decreases s.len(),
{
    if s.len() == 0 {
        s
    } else if s.last().0 == SymbolId(k) {
        without_target(s.drop_last(), k)
    } else {
        without_target(s.drop_last(), k).push(s.last())
    }
}

/// The references without those from or to `k`.
pub open spec fn without_edges_of(e: Seq<(u64, u64, Relationship)>, k: u64) -> Seq<
    (u64, u64, Relationship),
>
    decreases e.len(),
{
    if e.len() == 0 {
        e
    } else if e.last().0 == k || e.last().1 == k {
        without_edges_of(e.drop_last(), k)
    } else {
        without_edges_of(e.drop_last(), k).push(e.last())
    }
}

proof fn lemma_ids_where_insert_above(
    syms: Map<u64, Symbol>,
    b: nat,
    p: spec_fn(Symbol) -> bool,
    k: u64,
    x: Symbol,
)
    requires
        k >= b,
    ensures
        ids_where(syms.insert(k, x), b, p) == ids_where(syms, b, p),
    decreases b,
{
    if b > 0 {
        lemma_ids_where_insert_above(syms, (b - 1) as nat, p, k, x);
    }
}

pub proof fn lemma_ids_where_contains(syms: Map<u64, Symbol>, b: nat, p: spec_fn(Symbol) -> bool, k: u64)
    ensures
        ids_where(syms, b, p).contains(SymbolId(k)) <==> (k < b && syms.dom().contains(k) && p(
            syms[k],
        )),
    decreases b,
{
    if b > 0 {
        lemma_ids_where_contains(syms, (b - 1) as nat, p, k);
        let rest = ids_where(syms, (b - 1) as nat, p);
        let i = (b - 1) as u64;
        if syms.dom().contains(i) && p(syms[i]) {
            assert(rest.push(SymbolId(i)).contains(SymbolId(k)) <==> (rest.contains(SymbolId(k))
                || k == i)) by {
                if rest.push(SymbolId(i)).contains(SymbolId(k)) {
                    let j = choose|j: int|
                        0 <= j < rest.len() + 1 && rest.push(SymbolId(i))[j] == SymbolId(k);
                    if j < rest.len() {
                        assert(rest[j] == SymbolId(k));
                    }
                }
                if rest.contains(SymbolId(k)) {
                    let j = choose|j: int| 0 <= j < rest.len() && rest[j] == SymbolId(k);
                    assert(rest.push(SymbolId(i))[j] == SymbolId(k));
                }
                if k == i {
                    assert(rest.push(SymbolId(i))[rest.len() as int] == SymbolId(k));
                }
            }
        }
    }
}

proof fn lemma_without_id_absent(s: Seq<SymbolId>, k: u64)
    requires
        !s.contains(SymbolId(k)),
    ensures
        without_id(s, k) == s,
    decreases s.len(),
{
    if s.len() > 0 {
        assert(!s.drop_last().contains(SymbolId(k))) by {
            if s.drop_last().contains(SymbolId(k)) {
                let j = choose|j: int| 0 <= j < s.drop_last().len() && s.drop_last()[j] == SymbolId(k);
                assert(s[j] == SymbolId(k));
            }
        }
        lemma_without_id_absent(s.drop_last(), k);
        assert(s.last() != SymbolId(k)) by {
            assert(s[s.len() - 1] == s.last());
        }
        assert(s.drop_last().push(s.last()) =~= s);
    }
}

proof fn lemma_ids_where_remove(syms: Map<u64, Symbol>, b: nat, p: spec_fn(Symbol) -> bool, k: u64)
    ensures
        ids_where(syms.remove(k), b, p) == without_id(ids_where(syms, b, p), k),
    decreases b,
{
    if b > 0 {
        lemma_ids_where_remove(syms, (b - 1) as nat, p, k);
        let rest = ids_where(syms, (b - 1) as nat, p);
        let i = (b - 1) as u64;
        assert(rest.push(SymbolId(i)).drop_last() =~= rest);
    }
}

proof fn lemma_outgoing_without(e: Seq<(u64, u64, Relationship)>, k: u64, id: u64)
    ensures
        outgoing_of(without_edges_of(e, k), id) == (if id == k {
            seq![]
        } else {
            without_target(outgoing_of(e, id), k)
        }),
    decreases e.len(),
{
    if e.len() > 0 {
        lemma_outgoing_without(e.drop_last(), k, id);
        let rest = outgoing_of(e.drop_last(), id);
        let x = e.last();
        assert(rest.push((SymbolId(x.1), x.2)).drop_last() =~= rest);
        assert(without_edges_of(e.drop_last(), k).push(x).drop_last() =~= without_edges_of(
            e.drop_last(),
            k,
        ));
    }
}

/// Central index for code intelligence.
pub struct Index {
    files: FileTable,
    paths: PathTable,
    symbols: SymbolTable,
    symbols_by_name: NameTable,
    symbols_by_file: IdListMap,
    references: RelListMap,
    file_content: ContentTable,
    next_file_id: u64,
    next_symbol_id: u64,
    /// Every reference held, in the order added: (from, to, relationship).
    refs: Ghost<Seq<(u64, u64, Relationship)>>,
}

impl Index {
    /// Files by id.
    pub closed spec fn files_map(&self) -> Map<u64, FileEntry> {
        file_entries(self.files)
    }

    /// File ids by path.
    pub closed spec fn paths_map(&self) -> Map<Seq<char>, u64> {
        path_ids(self.paths)
    }

    /// Symbols by id.
    pub closed spec fn symbols_map(&self) -> Map<u64, Symbol> {
        symbol_entries(self.symbols)
    }

    /// Stored file contents by file id.
    pub closed spec fn contents_map(&self) -> Map<u64, Seq<u8>> {
        contents(self.file_content)
    }

    /// The references held, in the order added.
    pub closed spec fn references_seq(&self) -> Seq<(u64, u64, Relationship)> {
        self.refs@
    }

    pub closed spec fn next_file(&self) -> u64 {
        self.next_file_id
    }

    pub closed spec fn next_symbol(&self) -> u64 {
        self.next_symbol_id
    }

    /// The ids, ascending, of the symbols with this name.
    pub open spec fn ids_named(&self, n: Seq<char>) -> Seq<SymbolId> {
        ids_where(self.symbols_map(), self.next_symbol() as nat, named(n))
    }

    /// The ids, ascending, of the symbols of this file.
    pub open spec fn ids_in_file(&self, f: u64) -> Seq<SymbolId> {
        ids_where(self.symbols_map(), self.next_symbol() as nat, in_file(f))
    }

    /// Every id is below the next one handed out and is the key it is stored under; the
    /// name and file lists are those of the symbols held, and the reference lists those
    /// of the references held.
    pub closed spec fn wf(&self) -> bool {
        let syms = symbol_entries(self.symbols);
        let next = self.next_symbol_id as nat;
        &&& forall|k: u64| #[trigger]
            syms.dom().contains(k) ==> k < self.next_symbol_id && syms[k].id == SymbolId(k)
        &&& forall|k: u64| #[trigger]
            file_entries(self.files).dom().contains(k) ==> k < self.next_file_id && file_entries(
                self.files,
            )[k].id == FileId(k)
        &&& forall|n: Seq<char>| #[trigger]
            name_list(self.symbols_by_name, n) == ids_where(syms, next, named(n))
        &&& forall|n: Seq<char>| #[trigger]
            name_lists(self.symbols_by_name).dom().contains(n) ==> name_lists(
                self.symbols_by_name,
            )[n].len() > 0
        &&& forall|f: u64| #[trigger]
            list_or_empty(id_lists(self.symbols_by_file), f) == ids_where(syms, next, in_file(f))
        &&& forall|id: u64| #[trigger]
            list_or_empty(rel_lists(self.references), id) == outgoing_of(self.refs@, id)
    }

    /// In a well-formed index every file and symbol is stored under its own id, below the
    /// next id to be handed out.
    pub proof fn lemma_keys(&self)
        requires
            self.wf(),
        ensures
            forall|k: u64| #[trigger]
                self.files_map().dom().contains(k) ==> k < self.next_file() && self.files_map()[k].id
                    == FileId(k),
            forall|k: u64| #[trigger]
                self.symbols_map().dom().contains(k) ==> k < self.next_symbol()
                    && self.symbols_map()[k].id == SymbolId(k),
    {
    }

    pub fn new() -> (r: Self)
        ensures
            r.wf(),
            r.files_map().is_empty(),
            r.paths_map().is_empty(),
            r.symbols_map().is_empty(),
            r.contents_map().is_empty(),
            r.references_seq() == Seq::<(u64, u64, Relationship)>::empty(),
            r.next_file() == 0,
            r.next_symbol() == 0,
    {
        let r = Index {
            files: FileTable::new(),
            paths: PathTable::new(),
            symbols: SymbolTable::new(),
            symbols_by_name: NameTable::new(),
            symbols_by_file: IdListMap::new(),
            references: RelListMap::new(),
            file_content: ContentTable::new(),
            next_file_id: 0,
            next_symbol_id: 0,
            refs: Ghost(Seq::empty()),
        };
        proof {
            assert forall|n: Seq<char>| #[trigger]
                name_list(r.symbols_by_name, n) == ids_where(
                    symbol_entries(r.symbols),
                    0,
                    named(n),
                ) by {
                assert(!name_lists(r.symbols_by_name).dom().contains(n));
            }
            assert forall|f: u64| #[trigger]
                list_or_empty(id_lists(r.symbols_by_file), f) == ids_where(
                    symbol_entries(r.symbols),
                    0,
                    in_file(f),
                ) by {
                assert(!id_lists(r.symbols_by_file).dom().contains(f));
            }
            assert forall|id: u64| #[trigger]
                list_or_empty(rel_lists(r.references), id) == outgoing_of(r.refs@, id) by {
                assert(!rel_lists(r.references).dom().contains(id));
            }
        }
        r
    }

    /// Add a file to the index: it gets the next file id, and its path maps to it.
    pub fn add_file(&mut self, entry: FileEntry) -> (id: FileId)
        requires
            old(self).wf(),
            old(self).next_file() < u64::MAX,
        ensures
            final(self).wf(),
            id.0 == old(self).next_file(),
            final(self).next_file() == old(self).next_file() + 1,
            final(self).files_map() == old(self).files_map().insert(
                id.0,
                FileEntry { id, ..entry },
            ),
            final(self).paths_map() == old(self).paths_map().insert(entry.path@, id.0),
            final(self).symbols_map() == old(self).symbols_map(),
            final(self).contents_map() == old(self).contents_map(),
            final(self).references_seq() == old(self).references_seq(),
            final(self).next_symbol() == old(self).next_symbol(),
    {
        let id = FileId::new(self.next_file_id);
        self.next_file_id = self.next_file_id + 1;
        let mut entry = entry;
        entry.id = id;
        let path = entry.path.clone();
        self.paths.insert(path, id.0);
        self.files.insert(id.0, entry);
        id
    }

    /// Get a file by id.
    pub fn get_file(&self, id: FileId) -> (r: Option<&FileEntry>)
        ensures
            r is Some <==> self.files_map().dom().contains(id.0),
            r matches Some(e) ==> *e == self.files_map()[id.0],
    {
        self.files.get(id.0)
    }

    /// Get a file by path.
    pub fn get_file_by_path(&self, path: &str) -> (r: Option<&FileEntry>)
        ensures
            r is Some <==> (self.paths_map().dom().contains(path@) && self.files_map().dom().contains(
                self.paths_map()[path@],
            )),
            r matches Some(e) ==> *e == self.files_map()[self.paths_map()[path@]],
    {
        match self.paths.get(path) {
            Some(id) => self.files.get(*id),
            None => None,
        }
    }

    /// File count.
    pub fn file_count(&self) -> (n: usize)
        ensures
            n == self.files_map().dom().len(),
    {
        self.files.len()
    }

    /// Add a symbol to the index: it gets the next symbol id and is listed under its name
    /// and its file.
    pub fn add_symbol(&mut self, symbol: Symbol) -> (id: SymbolId)
        requires
            old(self).wf(),
            old(self).next_symbol() < u64::MAX,
        ensures
            final(self).wf(),
            id.0 == old(self).next_symbol(),
            final(self).next_symbol() == old(self).next_symbol() + 1,
            final(self).symbols_map() == old(self).symbols_map().insert(
                id.0,
                Symbol { id, ..symbol },
            ),
            final(self).files_map() == old(self).files_map(),
            final(self).paths_map() == old(self).paths_map(),
            final(self).contents_map() == old(self).contents_map(),
            final(self).references_seq() == old(self).references_seq(),
            final(self).next_file() == old(self).next_file(),
    {
        let ghost syms0 = symbol_entries(self.symbols);
        let ghost b0 = self.next_symbol_id as nat;
        let id = SymbolId::new(self.next_symbol_id);
        self.next_symbol_id = self.next_symbol_id + 1;
        let mut symbol = symbol;
        symbol.id = id;
        let name = symbol.name.clone();
        let file = symbol.file_id.0;
        let ghost sym = symbol;
        self.symbols.insert(id.0, symbol);
        push_name(&mut self.symbols_by_name, name, id);
        push_id(&mut self.symbols_by_file, file, id);
        proof {
            let syms1 = symbol_entries(self.symbols);
            assert(syms1 == syms0.insert(id.0, sym));
            assert forall|n: Seq<char>| #[trigger]
                name_list(self.symbols_by_name, n) == ids_where(syms1, b0 + 1, named(n)) by {
                lemma_ids_where_insert_above(syms0, b0, named(n), id.0, sym);
                assert(name_list(old(self).symbols_by_name, n) == ids_where(syms0, b0, named(n)));
            }
            assert forall|f: u64| #[trigger]
                list_or_empty(id_lists(self.symbols_by_file), f) == ids_where(
                    syms1,
                    b0 + 1,
                    in_file(f),
                ) by {
                lemma_ids_where_insert_above(syms0, b0, in_file(f), id.0, sym);
                assert(list_or_empty(id_lists(old(self).symbols_by_file), f) == ids_where(
                    syms0,
                    b0,
                    in_file(f),
                ));
            }
        }
        id
    }

    /// Get a symbol by id.
    pub fn get_symbol(&self, id: SymbolId) -> (r: Option<&Symbol>)
        ensures
            r is Some <==> self.symbols_map().dom().contains(id.0),
            r matches Some(s) ==> *s == self.symbols_map()[id.0],
    {
        self.symbols.get(id.0)
    }

    /// Get a symbol by id, to change in place. What it is changed to is the symbol stored
    /// under the id, and nothing else of the index changes; the index stays well formed
    /// where the symbol keeps its id, name and file (`symbol_changed_in_place_keeps_wf`).
    pub fn get_symbol_mut(&mut self, id: SymbolId) -> (r: Option<&mut Symbol>)
        ensures
            r is Some <==> old(self).symbols_map().dom().contains(id.0),
            r matches Some(s) ==> *s == old(self).symbols_map()[id.0]
                && final(self).symbols_map() == old(self).symbols_map().insert(id.0, *final(s)),
            r is None ==> final(self).symbols_map() == old(self).symbols_map(),
            final(self).only_symbols_changed(*old(self)),
    {
        self.symbols.get_mut(id.0)
    }

    /// Everything but the symbols is as in `a`.
    pub closed spec fn only_symbols_changed(&self, a: Index) -> bool {
        &&& self.files == a.files
        &&& self.paths == a.paths
        &&& self.symbols_by_name == a.symbols_by_name
        &&& self.symbols_by_file == a.symbols_by_file
        &&& self.references == a.references
        &&& self.refs == a.refs
        &&& self.file_content == a.file_content
        &&& self.next_file_id == a.next_file_id
        &&& self.next_symbol_id == a.next_symbol_id
    }

    /// Find symbols by name: their ids in the order they were added.
    pub fn find_symbols_by_name(&self, name: &str) -> (r: Vec<SymbolId>)
        requires
            self.wf(),
        ensures
            r@ == self.ids_named(name@),
    {
        proof {
            assert(name_list(self.symbols_by_name, name@) == ids_where(
                symbol_entries(self.symbols),
                self.next_symbol_id as nat,
                named(name@),
            ));
        }
        match self.symbols_by_name.get(name) {
            Some(ids) => ids.clone(),
            None => Vec::new(),
        }
    }

    /// Symbol count.
    pub fn symbol_count(&self) -> (n: usize)
        ensures
            n == self.symbols_map().dom().len(),
    {
        self.symbols.len()
    }

    /// The symbols of a file, in the order they were added.
    pub fn symbols_in_file(&self, file_id: FileId) -> (r: Vec<&Symbol>)
        requires
            self.wf(),
        ensures
            r@.len() == self.ids_in_file(file_id.0).len(),
            forall|i: int|
                0 <= i < r@.len() ==> *r@[i] == self.symbols_map()[#[trigger] self.ids_in_file(
                    file_id.0,
                )[i].0],
    {
        let ghost ids_spec = self.ids_in_file(file_id.0);
        proof {
            assert(list_or_empty(id_lists(self.symbols_by_file), file_id.0) == ids_spec);
        }
        let ids: &[SymbolId] = match self.symbols_by_file.get(file_id.0) {
            Some(v) => v.as_slice(),
            None => {
                let e: &[SymbolId] = &[];
                assert(e@ =~= Seq::empty());
                e
            },
        };
        let mut out: Vec<&Symbol> = Vec::new();
        let mut i: usize = 0;
        while i < ids.len()
            invariant
                self.wf(),
                ids@ == ids_spec,
                ids_spec == self.ids_in_file(file_id.0),
                i <= ids@.len(),
                out@.len() == i,
                forall|j: int| 0 <= j < i ==> *out@[j] == self.symbols_map()[ids_spec[j].0],
            decreases ids@.len() - i,
        {
            proof {
                lemma_ids_where_contains(
                    symbol_entries(self.symbols),
                    self.next_symbol_id as nat,
                    in_file(file_id.0),
                    ids_spec[i as int].0,
                );
                assert(ids_spec.contains(ids_spec[i as int]));
            }
            match self.symbols.get(ids[i].0) {
                Some(s) => out.push(s),
                None => {},
            }
            i += 1;
        }
        out
    }

    /// Add a reference relationship between symbols.
    pub fn add_reference(&mut self, from: SymbolId, to: SymbolId, rel: Relationship)
        requires
            old(self).wf(),
        ensures
            final(self).wf(),
            final(self).references_seq() == old(self).references_seq().push((from.0, to.0, rel)),
            final(self).files_map() == old(self).files_map(),
            final(self).paths_map() == old(self).paths_map(),
            final(self).symbols_map() == old(self).symbols_map(),
            final(self).contents_map() == old(self).contents_map(),
            final(self).next_file() == old(self).next_file(),
            final(self).next_symbol() == old(self).next_symbol(),
    {
        let ghost e0 = self.refs@;
        let ghost e1 = e0.push((from.0, to.0, rel));
        push_rel(&mut self.references, from.0, (to, rel));
        self.refs = Ghost(e1);
        proof {
            assert(e1.drop_last() =~= e0);
            assert forall|id: u64| #[trigger]
                list_or_empty(rel_lists(self.references), id) == outgoing_of(e1, id) by {
                assert(list_or_empty(rel_lists(old(self).references), id) == outgoing_of(e0, id));
            }
        }
    }

    /// The references from a symbol, in the order added.
    pub fn get_references(&self, id: SymbolId) -> (r: &[(SymbolId, Relationship)])
        requires
            self.wf(),
        ensures
            r@ == outgoing_of(self.references_seq(), id.0),
    {
        proof {
            assert(list_or_empty(rel_lists(self.references), id.0) == outgoing_of(self.refs@, id.0));
        }
        match self.references.get(id.0) {
            Some(v) => v.as_slice(),
            None => {
                let e: &[(SymbolId, Relationship)] = &[];
                assert(e@ =~= Seq::empty());
                e
            },
        }
    }

    /// Store file content.
    pub fn store_content(&mut self, id: FileId, content: Vec<u8>)
        requires
            old(self).wf(),
        ensures
            final(self).wf(),
            final(self).contents_map() == old(self).contents_map().insert(id.0, content@),
            final(self).files_map() == old(self).files_map(),
            final(self).paths_map() == old(self).paths_map(),
            final(self).symbols_map() == old(self).symbols_map(),
            final(self).references_seq() == old(self).references_seq(),
            final(self).next_file() == old(self).next_file(),
            final(self).next_symbol() == old(self).next_symbol(),
    {
        self.file_content.insert(id.0, content);
    }

    /// Get stored content.
    pub fn get_content(&self, id: FileId) -> (r: Option<&Vec<u8>>)
        ensures
            r is Some <==> self.contents_map().dom().contains(id.0),
            r matches Some(c) ==> c@ == self.contents_map()[id.0],
    {
        self.file_content.get(id.0)
    }

    /// Clear stored content to free memory.
    pub fn clear_content(&mut self, id: FileId)
        requires
            old(self).wf(),
        ensures
            final(self).wf(),
            final(self).contents_map() == old(self).contents_map().remove(id.0),
            final(self).files_map() == old(self).files_map(),
            final(self).paths_map() == old(self).paths_map(),
            final(self).symbols_map() == old(self).symbols_map(),
            final(self).references_seq() == old(self).references_seq(),
            final(self).next_file() == old(self).next_file(),
            final(self).next_symbol() == old(self).next_symbol(),
    {
        let _ = self.file_content.remove(id.0);
    }

    /// The id the next file added will get.
    pub fn next_file_id(&self) -> (n: u64)
        ensures
            n == self.next_file(),
    {
        self.next_file_id
    }

    /// The id the next symbol added will get.
    pub fn next_symbol_id(&self) -> (n: u64)
        ensures
            n == self.next_symbol(),
    {
        self.next_symbol_id
    }

    /// Whether every stored content has fewer than `u32::MAX` lines once decoded.
    pub fn all_contents_fit(&self) -> (b: bool)
        ensures
            b == contents_fit(self.contents_map()),
    {
        let keys = self.file_content.keys();
        let mut i: usize = 0;
        while i < keys.len()
            invariant
                i <= keys@.len(),
                keys@.to_set() == self.contents_map().dom(),
                forall|j: int| 0 <= j < i ==> content_fits(self.contents_map()[#[trigger] keys@[j]]),
            decreases keys@.len() - i,
        {
            proof {
                assert(keys@.to_set().contains(keys@[i as int]));
            }
            match self.file_content.get(keys[i]) {
                Some(c) => {
                    if !content_fits_exec(c.as_slice()) {
                        return false;
                    }
                },
                None => {},
            }
            i += 1;
        }
        proof {
            assert forall|k: u64| #[trigger] self.contents_map().dom().contains(k) implies content_fits(self.contents_map()[k]) by {
                assert(keys@.to_set().contains(k));
                let j = choose|j: int| 0 <= j < keys@.len() && keys@[j] == k;
                assert(content_fits(self.contents_map()[keys@[j]]));
            }
        }
        true
    }

    /// Check if a file path is in the index.
    pub fn has_file(&self, path: &str) -> (b: bool)
        ensures
            b == self.paths_map().dom().contains(path@),
    {
        self.paths.get(path).is_some()
    }

    /// Rebuilds an index from its stored parts: each file and symbol under its own id (a
    /// later one with the same id replacing an earlier), the paths as given, the
    /// references in order, no contents, and the next ids. `None` where a file's or a
    /// symbol's id is not below the next id for it.
    pub fn restore(
        files: Vec<FileEntry>,
        file_paths: Vec<(String, u64)>,
        symbols: Vec<Symbol>,
        references: Vec<(u64, u64, Relationship)>,
        next_file_id: u64,
        next_symbol_id: u64,
    ) -> (r: Option<Index>)
        ensures
            r is Some <==> restorable(files@, symbols@, next_file_id, next_symbol_id),
            r matches Some(idx) ==> {
                &&& idx.wf()
                &&& idx.files_map() == files_by_id(files@)
                &&& idx.paths_map() == paths_by_text(file_paths@)
                &&& idx.symbols_map() == symbols_by_id(symbols@)
                &&& idx.contents_map().is_empty()
                &&& idx.references_seq() == references@
                &&& idx.next_file() == next_file_id
                &&& idx.next_symbol() == next_symbol_id
            },
    {
        let mut i: usize = 0;
        while i < files.len()
            invariant
                i <= files@.len(),
                forall|j: int| 0 <= j < i ==> (#[trigger] files@[j]).id.0 < next_file_id,
            decreases files@.len() - i,
        {
            if files[i].id.0 >= next_file_id {
                return None;
            }
            i += 1;
        }
        let mut i: usize = 0;
        while i < symbols.len()
            invariant
                i <= symbols@.len(),
                forall|j: int| 0 <= j < i ==> (#[trigger] symbols@[j]).id.0 < next_symbol_id,
            decreases symbols@.len() - i,
        {
            if symbols[i].id.0 >= next_symbol_id {
                return None;
            }
            i += 1;
        }
        let mut ft = FileTable::new();
        let mut i: usize = 0;
        proof {
            assert(file_entries(ft) =~= files_by_id(files@.take(0)));
        }
        while i < files.len()
            invariant
                i <= files@.len(),
                file_entries(ft) == files_by_id(files@.take(i as int)),
            decreases files@.len() - i,
        {
            proof {
                assert(files@.take(i + 1).drop_last() =~= files@.take(i as int));
            }
            ft.insert(files[i].id.0, files[i].clone());
            i += 1;
        }
        let mut pt = PathTable::new();
        let mut i: usize = 0;
        proof {
            assert(path_ids(pt) =~= paths_by_text(file_paths@.take(0)));
        }
        while i < file_paths.len()
            invariant
                i <= file_paths@.len(),
                path_ids(pt) == paths_by_text(file_paths@.take(i as int)),
            decreases file_paths@.len() - i,
        {
            proof {
                assert(file_paths@.take(i + 1).drop_last() =~= file_paths@.take(i as int));
            }
            pt.insert(file_paths[i].0.clone(), file_paths[i].1);
            i += 1;
        }
        let mut st = SymbolTable::new();
        let mut i: usize = 0;
        proof {
            assert(symbol_entries(st) =~= symbols_by_id(symbols@.take(0)));
        }
        while i < symbols.len()
            invariant
                i <= symbols@.len(),
                symbol_entries(st) == symbols_by_id(symbols@.take(i as int)),
            decreases symbols@.len() - i,
        {
            proof {
                assert(symbols@.take(i + 1).drop_last() =~= symbols@.take(i as int));
            }
            st.insert(symbols[i].id.0, symbols[i].clone());
            i += 1;
        }
        proof {
            assert(files@.take(files@.len() as int) =~= files@);
            assert(file_paths@.take(file_paths@.len() as int) =~= file_paths@);
            assert(symbols@.take(symbols@.len() as int) =~= symbols@);
            lemma_by_id_keys(files@, symbols@, next_file_id, next_symbol_id);
        }
        let ghost syms = symbol_entries(st);
        let mut names = NameTable::new();
        let mut by_file = IdListMap::new();
        let mut k: u64 = 0;
        while k < next_symbol_id
            invariant
                k <= next_symbol_id,
                syms == symbol_entries(st),
                forall|n: Seq<char>| #[trigger] name_list(names, n) == ids_where(syms, k as nat, named(n)),
                forall|n: Seq<char>| #[trigger] name_lists(names).dom().contains(n) ==> name_lists(names)[n].len() > 0,
                forall|f: u64| #[trigger] list_or_empty(id_lists(by_file), f) == ids_where(syms, k as nat, in_file(f)),
            decreases next_symbol_id - k,
        {
            let ghost names0 = names;
            let ghost files0 = by_file;
            match st.get(k) {
                Some(sym) => {
                    push_name(&mut names, sym.name.clone(), SymbolId(k));
                    push_id(&mut by_file, sym.file_id.0, SymbolId(k));
                    proof {
                        assert forall|n: Seq<char>| #[trigger] name_list(names, n) == ids_where(syms, (k + 1) as nat, named(n)) by {
                            assert(name_list(names0, n) == ids_where(syms, k as nat, named(n)));
                        }
                        assert forall|f: u64| #[trigger] list_or_empty(id_lists(by_file), f) == ids_where(syms, (k + 1) as nat, in_file(f)) by {
                            assert(list_or_empty(id_lists(files0), f) == ids_where(syms, k as nat, in_file(f)));
                        }
                        assert forall|n: Seq<char>| #[trigger] name_lists(names).dom().contains(n) implies name_lists(names)[n].len() > 0 by {
                            if n != sym.name@ {
                                assert(name_lists(names0).dom().contains(n));
                            }
                        }
                    }
                },
                None => {
                    proof {
                        assert forall|n: Seq<char>| #[trigger] name_list(names, n) == ids_where(syms, (k + 1) as nat, named(n)) by {
                            assert(name_list(names0, n) == ids_where(syms, k as nat, named(n)));
                        }
                        assert forall|f: u64| #[trigger] list_or_empty(id_lists(by_file), f) == ids_where(syms, (k + 1) as nat, in_file(f)) by {
                            assert(list_or_empty(id_lists(files0), f) == ids_where(syms, k as nat, in_file(f)));
                        }
                    }
                },
            }
            k += 1;
        }
        let index = Index {
            files: ft,
            paths: pt,
            symbols: st,
            symbols_by_name: names,
            symbols_by_file: by_file,
            references: RelListMap::new(),
            file_content: ContentTable::new(),
            next_file_id,
            next_symbol_id,
            refs: Ghost(Seq::empty()),
        };
        proof {
            assert forall|id: u64| #[trigger]
                list_or_empty(rel_lists(index.references), id) == outgoing_of(index.refs@, id) by {
                assert(!rel_lists(index.references).dom().contains(id));
            }
        }
        let mut index = index;
        let mut i: usize = 0;
        while i < references.len()
            invariant
                index.wf(),
                i <= references@.len(),
                index.references_seq() == references@.take(i as int),
                index.files_map() == files_by_id(files@),
                index.paths_map() == paths_by_text(file_paths@),
                index.symbols_map() == symbols_by_id(symbols@),
                index.contents_map().is_empty(),
                index.next_file() == next_file_id,
                index.next_symbol() == next_symbol_id,
            decreases references@.len() - i,
        {
            let (from, to, rel) = references[i];
            index.add_reference(SymbolId(from), SymbolId(to), rel);
            i += 1;
            proof {
                assert(index.references_seq() =~= references@.take(i as int));
            }
        }
        proof {
            assert(references@.take(references@.len() as int) =~= references@);
        }
        Some(index)
    }
}

/// Entries keyed by their own id, a later one replacing an earlier with the same id.
pub open spec fn files_by_id(s: Seq<FileEntry>) -> Map<u64, FileEntry>
    decreases s.len(),
{
    if s.len() == 0 {
        Map::empty()
    } else {
        files_by_id(s.drop_last()).insert(s.last().id.0, s.last())
    }
}

/// Symbols keyed by their own id, a later one replacing an earlier with the same id.
pub open spec fn symbols_by_id(s: Seq<Symbol>) -> Map<u64, Symbol>
    decreases s.len(),
{
    if s.len() == 0 {
        Map::empty()
    } else {
        symbols_by_id(s.drop_last()).insert(s.last().id.0, s.last())
    }
}

/// Paths keyed by their text, a later one replacing an earlier.
pub open spec fn paths_by_text(s: Seq<(String, u64)>) -> Map<Seq<char>, u64>
    decreases s.len(),
{
    if s.len() == 0 {
        Map::empty()
    } else {
        paths_by_text(s.drop_last()).insert(s.last().0@, s.last().1)
    }
}

/// Every file's id is below the next file id, and every symbol's below the next symbol id.
pub open spec fn restorable(files: Seq<FileEntry>, symbols: Seq<Symbol>, next_file: u64, next_symbol: u64) -> bool {
    &&& forall|i: int| 0 <= i < files.len() ==> (#[trigger] files[i]).id.0 < next_file
    &&& forall|i: int| 0 <= i < symbols.len() ==> (#[trigger] symbols[i]).id.0 < next_symbol
}

/// `s` lists the entries of `m`, each under its own id: every listed entry is the one `m`
/// holds under its id, and every id of `m` is listed.
pub open spec fn lists_files(s: Seq<FileEntry>, m: Map<u64, FileEntry>) -> bool {
    &&& forall|i: int| 0 <= i < s.len() ==> m.dom().contains((#[trigger] s[i]).id.0) && m[s[i].id.0] == s[i]
    &&& forall|k: u64| #[trigger] m.dom().contains(k) ==> exists|i: int| 0 <= i < s.len() && s[i].id.0 == k
}

/// `s` lists the symbols of `m`, each under its own id.
pub open spec fn lists_symbols(s: Seq<Symbol>, m: Map<u64, Symbol>) -> bool {
    &&& forall|i: int| 0 <= i < s.len() ==> m.dom().contains((#[trigger] s[i]).id.0) && m[s[i].id.0] == s[i]
    &&& forall|k: u64| #[trigger] m.dom().contains(k) ==> exists|i: int| 0 <= i < s.len() && s[i].id.0 == k
}

/// `s` lists the paths of `m`, each with its id.
pub open spec fn lists_paths(s: Seq<(String, u64)>, m: Map<Seq<char>, u64>) -> bool {
    &&& forall|i: int| 0 <= i < s.len() ==> m.dom().contains((#[trigger] s[i]).0@) && m[s[i].0@] == s[i].1
    &&& forall|p: Seq<char>| #[trigger] m.dom().contains(p) ==> exists|i: int| 0 <= i < s.len() && s[i].0@ == p
}

proof fn lemma_files_by_id(s: Seq<FileEntry>)
    ensures
        forall|k: u64| #[trigger] files_by_id(s).dom().contains(k) ==> exists|i: int| 0 <= i < s.len() && s[i].id.0 == k && files_by_id(s)[k] == s[i],
        forall|i: int| 0 <= i < s.len() ==> files_by_id(s).dom().contains((#[trigger] s[i]).id.0),
    decreases s.len(),
{
    if s.len() > 0 {
        let t = s.drop_last();
        lemma_files_by_id(t);
        assert forall|k: u64| #[trigger] files_by_id(s).dom().contains(k) implies exists|i: int| 0 <= i < s.len() && s[i].id.0 == k && files_by_id(s)[k] == s[i] by {
            if k == s.last().id.0 {
                assert(s[s.len() - 1] == s.last());
            } else {
                let i = choose|i: int| 0 <= i < t.len() && t[i].id.0 == k && files_by_id(t)[k] == t[i];
                assert(s[i] == t[i]);
            }
        }
        assert forall|i: int| 0 <= i < s.len() implies files_by_id(s).dom().contains((#[trigger] s[i]).id.0) by {
            if i < t.len() {
                assert(t[i] == s[i]);
            }
        }
    }
}

proof fn lemma_symbols_by_id(s: Seq<Symbol>)
    ensures
        forall|k: u64| #[trigger] symbols_by_id(s).dom().contains(k) ==> exists|i: int| 0 <= i < s.len() && s[i].id.0 == k && symbols_by_id(s)[k] == s[i],
        forall|i: int| 0 <= i < s.len() ==> symbols_by_id(s).dom().contains((#[trigger] s[i]).id.0),
    decreases s.len(),
{
    if s.len() > 0 {
        let t = s.drop_last();
        lemma_symbols_by_id(t);
        assert forall|k: u64| #[trigger] symbols_by_id(s).dom().contains(k) implies exists|i: int| 0 <= i < s.len() && s[i].id.0 == k && symbols_by_id(s)[k] == s[i] by {
            if k == s.last().id.0 {
                assert(s[s.len() - 1] == s.last());
            } else {
                let i = choose|i: int| 0 <= i < t.len() && t[i].id.0 == k && symbols_by_id(t)[k] == t[i];
                assert(s[i] == t[i]);
            }
        }
        assert forall|i: int| 0 <= i < s.len() implies symbols_by_id(s).dom().contains((#[trigger] s[i]).id.0) by {
            if i < t.len() {
                assert(t[i] == s[i]);
            }
        }
    }
}

proof fn lemma_paths_by_text(s: Seq<(String, u64)>)
    ensures
        forall|p: Seq<char>| #[trigger] paths_by_text(s).dom().contains(p) ==> exists|i: int| 0 <= i < s.len() && s[i].0@ == p && paths_by_text(s)[p] == s[i].1,
        forall|i: int| 0 <= i < s.len() ==> paths_by_text(s).dom().contains((#[trigger] s[i]).0@),
    decreases s.len(),
{
    if s.len() > 0 {
        let t = s.drop_last();
        lemma_paths_by_text(t);
        assert forall|p: Seq<char>| #[trigger] paths_by_text(s).dom().contains(p) implies exists|i: int| 0 <= i < s.len() && s[i].0@ == p && paths_by_text(s)[p] == s[i].1 by {
            if p == s.last().0@ {
                assert(s[s.len() - 1] == s.last());
            } else {
                let i = choose|i: int| 0 <= i < t.len() && t[i].0@ == p && paths_by_text(t)[p] == t[i].1;
                assert(s[i] == t[i]);
            }
        }
        assert forall|i: int| 0 <= i < s.len() implies paths_by_text(s).dom().contains((#[trigger] s[i]).0@) by {
            if i < t.len() {
                assert(t[i] == s[i]);
            }
        }
    }
}

/// An index restored from its own parts is the index that was saved: listing its files,
/// paths and symbols and restoring them with its references and next ids gives back its
/// files, paths, symbols, references and next ids.
pub proof fn restored_index_is_the_saved_one(
    idx: Index,
    files: Seq<FileEntry>,
    paths: Seq<(String, u64)>,
    symbols: Seq<Symbol>,
)
    requires
        idx.wf(),
        lists_files(files, idx.files_map()),
        lists_paths(paths, idx.paths_map()),
        lists_symbols(symbols, idx.symbols_map()),
    ensures
        restorable(files, symbols, idx.next_file(), idx.next_symbol()),
        files_by_id(files) == idx.files_map(),
        paths_by_text(paths) == idx.paths_map(),
        symbols_by_id(symbols) == idx.symbols_map(),
{
    idx.lemma_keys();
    lemma_files_by_id(files);
    lemma_symbols_by_id(symbols);
    lemma_paths_by_text(paths);
    assert forall|i: int| 0 <= i < files.len() implies (#[trigger] files[i]).id.0 < idx.next_file() by {
        assert(idx.files_map().dom().contains(files[i].id.0));
    }
    assert forall|i: int| 0 <= i < symbols.len() implies (#[trigger] symbols[i]).id.0 < idx.next_symbol() by {
        assert(idx.symbols_map().dom().contains(symbols[i].id.0));
    }
    assert(files_by_id(files).dom() =~= idx.files_map().dom()) by {
        assert forall|k: u64| idx.files_map().dom().contains(k) implies files_by_id(files).dom().contains(k) by {
            let i = choose|i: int| 0 <= i < files.len() && files[i].id.0 == k;
            assert(files_by_id(files).dom().contains(files[i].id.0));
        }
    }
    assert(files_by_id(files) =~= idx.files_map());
    assert(symbols_by_id(symbols).dom() =~= idx.symbols_map().dom()) by {
        assert forall|k: u64| idx.symbols_map().dom().contains(k) implies symbols_by_id(symbols).dom().contains(k) by {
            let i = choose|i: int| 0 <= i < symbols.len() && symbols[i].id.0 == k;
            assert(symbols_by_id(symbols).dom().contains(symbols[i].id.0));
        }
    }
    assert(symbols_by_id(symbols) =~= idx.symbols_map());
    assert(paths_by_text(paths).dom() =~= idx.paths_map().dom()) by {
        assert forall|p: Seq<char>| idx.paths_map().dom().contains(p) implies paths_by_text(paths).dom().contains(p) by {
            let i = choose|i: int| 0 <= i < paths.len() && paths[i].0@ == p;
            assert(paths_by_text(paths).dom().contains(paths[i].0@));
        }
    }
    assert(paths_by_text(paths) =~= idx.paths_map());
}

proof fn lemma_by_id_keys(files: Seq<FileEntry>, symbols: Seq<Symbol>, next_file: u64, next_symbol: u64)
    requires
        restorable(files, symbols, next_file, next_symbol),
    ensures
        forall|k: u64| #[trigger] files_by_id(files).dom().contains(k) ==> k < next_file && files_by_id(files)[k].id == FileId(k),
        forall|k: u64| #[trigger] symbols_by_id(symbols).dom().contains(k) ==> k < next_symbol && symbols_by_id(symbols)[k].id == SymbolId(k),
    decreases files.len() + symbols.len(),
{
    if files.len() > 0 {
        assert forall|i: int| 0 <= i < files.drop_last().len() implies (#[trigger] files.drop_last()[i]).id.0 < next_file by {
            assert(files.drop_last()[i] == files[i]);
        }
        lemma_by_id_keys(files.drop_last(), symbols, next_file, next_symbol);
        assert(files.last() == files[files.len() - 1]);
    } else if symbols.len() > 0 {
        assert forall|i: int| 0 <= i < symbols.drop_last().len() implies (#[trigger] symbols.drop_last()[i]).id.0 < next_symbol by {
            assert(symbols.drop_last()[i] == symbols[i]);
        }
        lemma_by_id_keys(files, symbols.drop_last(), next_file, next_symbol);
        assert(symbols.last() == symbols[symbols.len() - 1]);
    }
}

/// The list stored under a name, where a missing entry reads as the empty list.
pub open spec fn name_list(t: NameTable, n: Seq<char>) -> Seq<SymbolId> {
    if name_lists(t).dom().contains(n) {
        name_lists(t)[n]
    } else {
        seq![]
    }
}

/// Appends `x` to the list stored under the name (creating it when absent).
fn push_name(m: &mut NameTable, k: String, x: SymbolId)
    ensures
        name_lists(*final(m)) == name_lists(*old(m)).insert(k@, name_list(*old(m), k@).push(x)),
{
    let mut list = match m.remove(k.as_str()) {
        Some(v) => v,
        None => Vec::new(),
    };
    list.push(x);
    m.insert(k, list);
    proof {
        assert(name_lists(*final(m)) =~= name_lists(*old(m)).insert(
            k@,
            name_list(*old(m), k@).push(x),
        ));
    }
}

// ---------------------------------------------------------------------------
// Removal.

/// The symbols that are not in file `f`.
pub open spec fn without_file_symbols(m: Map<u64, Symbol>, f: u64) -> Map<u64, Symbol> {
    m.restrict(m.dom().filter(|k: u64| m[k].file_id.0 != f))
}

/// The references without those from or to any of `ids`, removed one id after another.
pub open spec fn without_edges_of_all(e: Seq<(u64, u64, Relationship)>, ids: Seq<SymbolId>) -> Seq<
    (u64, u64, Relationship),
>
    decreases ids.len(),
{
    if ids.len() == 0 {
        e
    } else {
        without_edges_of(without_edges_of_all(e, ids.drop_last()), ids.last().0)
    }
}

proof fn lemma_ids_where_none(m: Map<u64, Symbol>, b: nat, p: spec_fn(Symbol) -> bool)
    requires
        forall|k: u64| k < b && #[trigger] m.dom().contains(k) ==> !p(m[k]),
    ensures
        ids_where(m, b, p) == Seq::<SymbolId>::empty(),
    decreases b,
{
    if b > 0 {
        lemma_ids_where_none(m, (b - 1) as nat, p);
    }
}

fn retain_ids(v: &Vec<SymbolId>, k: u64) -> (r: Vec<SymbolId>)
    ensures
        r@ == without_id(v@, k),
{
    let mut r: Vec<SymbolId> = Vec::new();
    let mut i: usize = 0;
    while i < v.len()
        invariant
            i <= v@.len(),
            r@ == without_id(v@.subrange(0, i as int), k),
        decreases v@.len() - i,
    {
        proof {
            assert(v@.subrange(0, i + 1).drop_last() =~= v@.subrange(0, i as int));
        }
        if v[i].0 != k {
            r.push(v[i]);
        }
        i += 1;
    }
    assert(v@.subrange(0, v@.len() as int) =~= v@);
    r
}

fn retain_targets(v: &Vec<(SymbolId, Relationship)>, k: u64) -> (r: Vec<(SymbolId, Relationship)>)
    ensures
        r@ == without_target(v@, k),
{
    let mut r: Vec<(SymbolId, Relationship)> = Vec::new();
    let mut i: usize = 0;
    while i < v.len()
        invariant
            i <= v@.len(),
            r@ == without_target(v@.subrange(0, i as int), k),
        decreases v@.len() - i,
    {
        proof {
            assert(v@.subrange(0, i + 1).drop_last() =~= v@.subrange(0, i as int));
        }
        if v[i].0.0 != k {
            r.push(v[i]);
        }
        i += 1;
    }
    assert(v@.subrange(0, v@.len() as int) =~= v@);
    r
}

impl Index {
    /// The reference lists are those of the references held.
    closed spec fn refs_wf(&self) -> bool {
        forall|id: u64| #[trigger]
            list_or_empty(rel_lists(self.references), id) == outgoing_of(self.refs@, id)
    }

    /// Drops the references from and to symbol `s`.
    fn remove_symbol_references(&mut self, s: u64)
        requires
            old(self).refs_wf(),
        ensures
            final(self).refs_wf(),
            final(self).refs@ == without_edges_of(old(self).refs@, s),
            final(self).files == old(self).files,
            final(self).paths == old(self).paths,
            final(self).symbols == old(self).symbols,
            final(self).symbols_by_name == old(self).symbols_by_name,
            final(self).symbols_by_file == old(self).symbols_by_file,
            final(self).file_content == old(self).file_content,
            final(self).next_file_id == old(self).next_file_id,
            final(self).next_symbol_id == old(self).next_symbol_id,
    {
        let ghost e0 = self.refs@;
        let ghost e1 = without_edges_of(e0, s);
        let ghost m0 = rel_lists(self.references);
        let _ = self.references.remove(s);
        let ghost m1 = rel_lists(self.references);
        let keys = self.references.keys();
        let mut i: usize = 0;
        while i < keys.len()
            invariant
                i <= keys@.len(),
                keys@.no_duplicates(),
                keys@.to_set() == m1.dom(),
                m1 == m0.remove(s),
                rel_lists(self.references).dom() == m1.dom(),
                self.files == old(self).files,
                self.paths == old(self).paths,
                self.symbols == old(self).symbols,
                self.symbols_by_name == old(self).symbols_by_name,
                self.symbols_by_file == old(self).symbols_by_file,
                self.file_content == old(self).file_content,
                self.next_file_id == old(self).next_file_id,
                self.next_symbol_id == old(self).next_symbol_id,
                self.refs == old(self).refs,
                forall|j: int| #![trigger keys@[j]]
                    0 <= j < i ==> rel_lists(self.references)[keys@[j]] == without_target(
                        m1[keys@[j]],
                        s,
                    ),
                forall|j: int| #![trigger keys@[j]]
                    i <= j < keys@.len() ==> rel_lists(self.references)[keys@[j]] == m1[keys@[j]],
            decreases keys@.len() - i,
        {
            let k = keys[i];
            proof {
                assert(keys@.to_set().contains(k));
            }
            let list = match self.references.remove(k) {
                Some(v) => v,
                None => Vec::new(),
            };
            let filtered = retain_targets(&list, s);
            self.references.insert(k, filtered);
            proof {
                assert forall|j: int| #![trigger keys@[j]]
                    i < j < keys@.len() implies rel_lists(self.references)[keys@[j]] == m1[keys@[j]] by {
                    assert(keys@[j] != keys@[i as int]);
                }
                assert forall|j: int| #![trigger keys@[j]]
                    0 <= j < i implies rel_lists(self.references)[keys@[j]] == without_target(
                        m1[keys@[j]],
                        s,
                    ) by {
                    assert(keys@[j] != keys@[i as int]);
                }
                assert(rel_lists(self.references).dom() =~= m1.dom());
            }
            i += 1;
        }
        self.refs = Ghost(e1);
        proof {
            assert forall|id: u64| #[trigger]
                list_or_empty(rel_lists(self.references), id) == outgoing_of(e1, id) by {
                lemma_outgoing_without(e0, s, id);
                assert(list_or_empty(m0, id) == outgoing_of(e0, id));
                if m1.dom().contains(id) {
                    let j = keys@.index_of(id);
                    assert(keys@.to_set().contains(id));
                    assert(keys@.contains(id));
                    assert(keys@[j] == id);
                } else {
                    if id != s {
                        assert(!m0.dom().contains(id));
                    }
                }
            }
        }
    }

    /// The name lists are those of the symbols held.
    closed spec fn names_wf(&self) -> bool {
        let syms = symbol_entries(self.symbols);
        let next = self.next_symbol_id as nat;
        &&& forall|n: Seq<char>| #[trigger]
            name_list(self.symbols_by_name, n) == ids_where(syms, next, named(n))
        &&& forall|n: Seq<char>| #[trigger]
            name_lists(self.symbols_by_name).dom().contains(n) ==> name_lists(
                self.symbols_by_name,
            )[n].len() > 0
    }

    /// Drops symbol `s` and its entry in the name lists.
    fn remove_symbol_entry(&mut self, s: u64)
        requires
            old(self).names_wf(),
        ensures
            final(self).names_wf(),
            symbol_entries(final(self).symbols) == symbol_entries(old(self).symbols).remove(s),
            final(self).files == old(self).files,
            final(self).paths == old(self).paths,
            final(self).references == old(self).references,
            final(self).refs == old(self).refs,
            final(self).symbols_by_file == old(self).symbols_by_file,
            final(self).file_content == old(self).file_content,
            final(self).next_file_id == old(self).next_file_id,
            final(self).next_symbol_id == old(self).next_symbol_id,
    {
        let ghost syms0 = symbol_entries(self.symbols);
        let ghost next = self.next_symbol_id as nat;
        if let Some(symbol) = self.symbols.remove(s) {
            let ghost n0 = symbol.name@;
            let list = match self.symbols_by_name.remove(symbol.name.as_str()) {
                Some(v) => v,
                None => Vec::new(),
            };
            let kept = retain_ids(&list, s);
            if kept.len() > 0 {
                self.symbols_by_name.insert(symbol.name, kept);
            }
            proof {
                let syms1 = syms0.remove(s);
                assert forall|n: Seq<char>| #[trigger]
                    name_list(self.symbols_by_name, n) == ids_where(syms1, next, named(n)) by {
                    lemma_ids_where_remove(syms0, next, named(n), s);
                    assert(name_list(old(self).symbols_by_name, n) == ids_where(
                        syms0,
                        next,
                        named(n),
                    ));
                    if n != n0 {
                        lemma_ids_where_contains(syms0, next, named(n), s);
                        lemma_without_id_absent(ids_where(syms0, next, named(n)), s);
                    } else {
                        if kept@.len() == 0 {
                            assert(without_id(list@, s) =~= Seq::<SymbolId>::empty());
                        }
                    }
                }
            }
        } else {
            proof {
                assert(syms0.remove(s) =~= syms0);
            }
        }
    }

    /// Drops the symbols of file `f`, their name and file lists, and their references.
    fn remove_file_symbols(&mut self, f: u64)
        requires
            old(self).wf(),
        ensures
            final(self).wf(),
            final(self).symbols_map() == without_file_symbols(old(self).symbols_map(), f),
            final(self).refs@ == without_edges_of_all(old(self).refs@, old(self).ids_in_file(f)),
            final(self).files == old(self).files,
            final(self).paths == old(self).paths,
            final(self).file_content == old(self).file_content,
            final(self).next_file_id == old(self).next_file_id,
            final(self).next_symbol_id == old(self).next_symbol_id,
    {
        let ghost syms0 = symbol_entries(self.symbols);
        let ghost next = self.next_symbol_id as nat;
        let ghost e0 = self.refs@;
        let ghost ids_spec = self.ids_in_file(f);
        proof {
            assert(list_or_empty(id_lists(self.symbols_by_file), f) == ids_spec);
        }
        let ids = match self.symbols_by_file.remove(f) {
            Some(v) => v,
            None => Vec::new(),
        };
        proof {
            assert forall|g: u64| #![trigger list_or_empty(id_lists(self.symbols_by_file), g)]
                g != f implies list_or_empty(id_lists(self.symbols_by_file), g) == ids_where(
                    symbol_entries(self.symbols),
                    next,
                    in_file(g),
                ) by {
                assert(list_or_empty(id_lists(old(self).symbols_by_file), g) == ids_where(
                    syms0,
                    next,
                    in_file(g),
                ));
            }
        }
        let mut j: usize = 0;
        while j < ids.len()
            invariant
                ids@ == ids_spec,
                self.files == old(self).files,
                self.paths == old(self).paths,
                self.file_content == old(self).file_content,
                self.next_file_id == old(self).next_file_id,
                ids_spec == ids_where(syms0, next, in_file(f)),
                j <= ids@.len(),
                next == self.next_symbol_id as nat,
                self.names_wf(),
                self.refs_wf(),
                self.refs@ == without_edges_of_all(e0, ids_spec.subrange(0, j as int)),
                !id_lists(self.symbols_by_file).dom().contains(f),
                forall|g: u64| #![trigger list_or_empty(id_lists(self.symbols_by_file), g)]
                    g != f ==> list_or_empty(id_lists(self.symbols_by_file), g) == ids_where(
                        symbol_entries(self.symbols),
                        next,
                        in_file(g),
                    ),
                forall|k: u64| #![trigger symbol_entries(self.symbols).dom().contains(k)]
                    symbol_entries(self.symbols).dom().contains(k) <==> (syms0.dom().contains(k)
                        && !ids_spec.subrange(0, j as int).contains(SymbolId(k))),
                forall|k: u64| #![trigger symbol_entries(self.symbols)[k]]
                    symbol_entries(self.symbols).dom().contains(k) ==> symbol_entries(
                        self.symbols,
                    )[k] == syms0[k],
                forall|k: u64| #[trigger]
                    syms0.dom().contains(k) ==> k < next && syms0[k].id == SymbolId(k),
                forall|k: u64| #[trigger]
                    file_entries(self.files).dom().contains(k) ==> k < self.next_file_id
                        && file_entries(self.files)[k].id == FileId(k),
            decreases ids@.len() - j,
        {
            let s = ids[j].0;
            let ghost m = symbol_entries(self.symbols);
            self.remove_symbol_entry(s);
            self.remove_symbol_references(s);
            proof {
                let m1 = symbol_entries(self.symbols);
                lemma_ids_where_contains(syms0, next, in_file(f), s);
                assert(ids_spec.contains(ids_spec[j as int]));
                assert forall|g: u64| #![trigger list_or_empty(id_lists(self.symbols_by_file), g)]
                    g != f implies list_or_empty(id_lists(self.symbols_by_file), g) == ids_where(
                        m1,
                        next,
                        in_file(g),
                    ) by {
                    lemma_ids_where_remove(m, next, in_file(g), s);
                    lemma_ids_where_contains(m, next, in_file(g), s);
                    lemma_without_id_absent(ids_where(m, next, in_file(g)), s);
                }
                let pre = ids_spec.subrange(0, j as int);
                let post = ids_spec.subrange(0, j + 1);
                assert(post.drop_last() =~= pre);
                assert(post.last() == SymbolId(s));
                assert forall|k: u64| #![trigger m1.dom().contains(k)]
                    m1.dom().contains(k) <==> (syms0.dom().contains(k) && !post.contains(
                        SymbolId(k),
                    )) by {
                    if post.contains(SymbolId(k)) && !pre.contains(SymbolId(k)) {
                        let w = choose|w: int| 0 <= w < post.len() && post[w] == SymbolId(k);
                        if w < j {
                            assert(pre[w] == SymbolId(k));
                        }
                    }
                    if pre.contains(SymbolId(k)) {
                        let w = choose|w: int| 0 <= w < pre.len() && pre[w] == SymbolId(k);
                        assert(post[w] == SymbolId(k));
                    }
                    if k == s {
                        assert(post[j as int] == SymbolId(k));
                    }
                }
            }
            j += 1;
        }
        proof {
            let m = symbol_entries(self.symbols);
            assert(ids_spec.subrange(0, ids@.len() as int) =~= ids_spec);
            assert forall|k: u64| k < next && #[trigger] m.dom().contains(k) implies !in_file(f)(
                m[k],
            ) by {
                lemma_ids_where_contains(syms0, next, in_file(f), k);
            }
            lemma_ids_where_none(m, next, in_file(f));
            assert forall|k: u64| #[trigger] m.dom().contains(k) <==> without_file_symbols(
                syms0,
                f,
            ).dom().contains(k) by {
                lemma_ids_where_contains(syms0, next, in_file(f), k);
                if syms0.dom().contains(k) {
                    assert(k < next);
                }
            }
            assert(m =~= without_file_symbols(syms0, f));
            assert forall|k: u64| #[trigger] m.dom().contains(k) implies k < self.next_symbol_id
                && m[k].id == SymbolId(k) by {
                assert(syms0.dom().contains(k));
            }
        }
    }

    /// Remove a file and its associated data from the index.
    pub fn remove_file(&mut self, file_id: FileId) -> (r: Option<FileEntry>)
        requires
            old(self).wf(),
        ensures
            final(self).wf(),
            r is Some <==> old(self).files_map().dom().contains(file_id.0),
            match r {
                Some(entry) => {
                    &&& entry == old(self).files_map()[file_id.0]
                    &&& final(self).files_map() == old(self).files_map().remove(file_id.0)
                    &&& final(self).paths_map() == old(self).paths_map().remove(entry.path@)
                    &&& final(self).symbols_map() == without_file_symbols(
                        old(self).symbols_map(),
                        file_id.0,
                    )
                    &&& final(self).references_seq() == without_edges_of_all(
                        old(self).references_seq(),
                        old(self).ids_in_file(file_id.0),
                    )
                    &&& final(self).contents_map() == old(self).contents_map().remove(file_id.0)
                },
                None => {
                    &&& final(self).files_map() == old(self).files_map()
                    &&& final(self).paths_map() == old(self).paths_map()
                    &&& final(self).symbols_map() == old(self).symbols_map()
                    &&& final(self).references_seq() == old(self).references_seq()
                    &&& final(self).contents_map() == old(self).contents_map()
                },
            },
            final(self).next_file() == old(self).next_file(),
            final(self).next_symbol() == old(self).next_symbol(),
    {
        let entry = match self.files.remove(file_id.0) {
            Some(e) => e,
            None => {
                return None;
            },
        };
        let _ = self.paths.remove(entry.path.as_str());
        proof {
            assert forall|k: u64| #[trigger] file_entries(self.files).dom().contains(k) implies k
                < self.next_file_id && file_entries(self.files)[k].id == FileId(k) by {
                assert(file_entries(old(self).files).dom().contains(k));
            }
        }
        self.remove_file_symbols(file_id.0);
        let _ = self.file_content.remove(file_id.0);
        Some(entry)
    }

    /// Remove the file that a path maps to.
    pub fn remove_file_by_path(&mut self, path: &str) -> (r: Option<FileEntry>)
        requires
            old(self).wf(),
        ensures
            final(self).wf(),
            !old(self).paths_map().dom().contains(path@) ==> r is None && final(self).paths_map()
                == old(self).paths_map() && final(self).files_map() == old(self).files_map()
                && final(self).symbols_map() == old(self).symbols_map(),
            old(self).paths_map().dom().contains(path@) ==> ({
                let id = old(self).paths_map()[path@];
                let paths1 = old(self).paths_map().remove(path@);
                &&& r is Some <==> old(self).files_map().dom().contains(id)
                &&& match r {
                    Some(entry) => {
                        &&& entry == old(self).files_map()[id]
                        &&& final(self).files_map() == old(self).files_map().remove(id)
                        &&& final(self).paths_map() == paths1.remove(entry.path@)
                        &&& final(self).symbols_map() == without_file_symbols(
                            old(self).symbols_map(),
                            id,
                        )
                        &&& final(self).contents_map() == old(self).contents_map().remove(id)
                    },
                    None => {
                        &&& final(self).paths_map() == paths1
                        &&& final(self).files_map() == old(self).files_map()
                        &&& final(self).symbols_map() == old(self).symbols_map()
                    },
                }
            }),
            final(self).next_file() == old(self).next_file(),
            final(self).next_symbol() == old(self).next_symbol(),
            path_removed(*old(self), *final(self), path@),
    {
        let file_id = match self.paths.remove(path) {
            Some(id) => id,
            None => {
                return None;
            },
        };
        self.remove_file(FileId(file_id))
    }
}

/// The index after the file a path maps to is removed, with its symbols, their
/// references, and its content (see `Index::remove_file_by_path`).
pub open spec fn path_removed(a: Index, b: Index, path: Seq<char>) -> bool {
    &&& b.next_file() == a.next_file()
    &&& b.next_symbol() == a.next_symbol()
    &&& if !a.paths_map().dom().contains(path) {
        &&& b.paths_map() == a.paths_map()
        &&& b.files_map() == a.files_map()
        &&& b.symbols_map() == a.symbols_map()
        &&& b.contents_map() == a.contents_map()
        &&& b.references_seq() == a.references_seq()
    } else {
        let id = a.paths_map()[path];
        let paths1 = a.paths_map().remove(path);
        if a.files_map().dom().contains(id) {
            &&& b.files_map() == a.files_map().remove(id)
            &&& b.paths_map() == paths1.remove(a.files_map()[id].path@)
            &&& b.symbols_map() == without_file_symbols(a.symbols_map(), id)
            &&& b.references_seq() == without_edges_of_all(a.references_seq(), a.ids_in_file(id))
            &&& b.contents_map() == a.contents_map().remove(id)
        } else {
            &&& b.paths_map() == paths1
            &&& b.files_map() == a.files_map()
            &&& b.symbols_map() == a.symbols_map()
            &&& b.contents_map() == a.contents_map()
            &&& b.references_seq() == a.references_seq()
        }
    }
}

/// The symbols after adding `syms` one after another, numbered from `next`.
pub open spec fn with_added_symbols(m: Map<u64, Symbol>, next: nat, syms: Seq<Symbol>) -> Map<
    u64,
    Symbol,
>
    decreases syms.len(),
{
    if syms.len() == 0 {
        m
    } else {
        let k = (next + syms.len() - 1) as u64;
        with_added_symbols(m, next, syms.drop_last()).insert(
            k,
            Symbol { id: SymbolId(k), ..syms.last() },
        )
    }
}

/// Adding symbols numbered from `next` keeps the symbols below `next` and puts the `j`-th
/// new symbol under `next + j`, with that id.
pub proof fn lemma_with_added_symbols(m: Map<u64, Symbol>, next: nat, syms: Seq<Symbol>)
    requires
        forall|k: u64| #[trigger] m.dom().contains(k) ==> k < next,
        next + syms.len() <= u64::MAX + 1,
    ensures
        with_added_symbols(m, next, syms).dom() == m.dom().union(Set::new(|k: u64| next <= k < next + syms.len())),
        forall|k: u64| #[trigger] m.dom().contains(k) ==> with_added_symbols(m, next, syms)[k] == m[k],
        forall|j: int| 0 <= j < syms.len() ==> #[trigger] with_added_symbols(m, next, syms)[(next + j) as u64] == (Symbol { id: SymbolId((next + j) as u64), ..syms[j] }),
    decreases syms.len(),
{
    if syms.len() > 0 {
        let d = syms.drop_last();
        lemma_with_added_symbols(m, next, d);
        let k = (next + syms.len() - 1) as u64;
        assert(with_added_symbols(m, next, syms).dom() =~= m.dom().union(Set::new(|i: u64| next <= i < next + syms.len())));
        assert forall|j: int| 0 <= j < syms.len() implies #[trigger] with_added_symbols(m, next, syms)[(next + j) as u64] == (Symbol { id: SymbolId((next + j) as u64), ..syms[j] }) by {
            if j < d.len() {
                assert(d[j] == syms[j]);
            }
        }
    }
}

/// The references after adding `refs` one after another.
pub open spec fn with_added_references(
    e: Seq<(u64, u64, Relationship)>,
    refs: Seq<(SymbolId, SymbolId, Relationship)>,
) -> Seq<(u64, u64, Relationship)> {
    e + refs.map_values(|r: (SymbolId, SymbolId, Relationship)| (r.0.0, r.1.0, r.2))
}

impl Index {
    /// Update the symbols of a file (re-index): the old symbols of the file go, with
    /// their name and file lists and references; the new symbols and references are added.
    pub fn update_file_symbols(
        &mut self,
        file_id: FileId,
        new_symbols: Vec<Symbol>,
        new_references: Vec<(SymbolId, SymbolId, Relationship)>,
    )
        requires
            old(self).wf(),
            old(self).next_symbol() + new_symbols@.len() <= u64::MAX,
        ensures
            final(self).wf(),
            final(self).symbols_map() == with_added_symbols(
                without_file_symbols(old(self).symbols_map(), file_id.0),
                old(self).next_symbol() as nat,
                new_symbols@,
            ),
            final(self).references_seq() == with_added_references(
                without_edges_of_all(old(self).references_seq(), old(self).ids_in_file(file_id.0)),
                new_references@,
            ),
            final(self).next_symbol() == old(self).next_symbol() + new_symbols@.len(),
            final(self).files_map() == old(self).files_map(),
            final(self).paths_map() == old(self).paths_map(),
            final(self).contents_map() == old(self).contents_map(),
            final(self).next_file() == old(self).next_file(),
    {
        self.remove_file_symbols(file_id.0);
        let ghost m0 = self.symbols_map();
        let ghost next0 = self.next_symbol_id as nat;
        let ghost e0 = self.refs@;
        let ghost syms = new_symbols@;
        let mut input = new_symbols;
        let ghost mut i: int = 0;
        while input.len() > 0
            invariant
                self.wf(),
                0 <= i <= syms.len(),
                input@ == syms.subrange(i, syms.len() as int),
                self.next_symbol_id as nat == next0 + i,
                next0 + syms.len() <= u64::MAX,
                self.symbols_map() == with_added_symbols(m0, next0, syms.subrange(0, i)),
                self.refs@ == e0,
                self.files_map() == old(self).files_map(),
                self.paths_map() == old(self).paths_map(),
                self.contents_map() == old(self).contents_map(),
                self.next_file_id == old(self).next_file_id,
            decreases input@.len(),
        {
            let symbol = input.remove(0);
            proof {
                assert(syms.subrange(0, i + 1).drop_last() =~= syms.subrange(0, i));
                assert(syms.subrange(0, i + 1).last() == symbol);
                assert(input@ =~= syms.subrange(i + 1, syms.len() as int));
            }
            let _ = self.add_symbol(symbol);
            proof {
                i = i + 1;
            }
        }
        proof {
            assert(syms.subrange(0, i) =~= syms);
        }
        let ghost refs = new_references@;
        let mut k: usize = 0;
        while k < new_references.len()
            invariant
                self.wf(),
                refs == new_references@,
                k <= refs.len(),
                self.refs@ == with_added_references(e0, refs.subrange(0, k as int)),
                self.symbols_map() == with_added_symbols(m0, next0, syms),
                self.next_symbol_id as nat == next0 + syms.len(),
                self.files_map() == old(self).files_map(),
                self.paths_map() == old(self).paths_map(),
                self.contents_map() == old(self).contents_map(),
                self.next_file_id == old(self).next_file_id,
            decreases refs.len() - k,
        {
            let (from_id, to_id, rel) = new_references[k];
            self.add_reference(from_id, to_id, rel);
            k += 1;
            proof {
                assert(with_added_references(e0, refs.subrange(0, k as int)) =~= with_added_references(
                    e0,
                    refs.subrange(0, k - 1),
                ).push((from_id.0, to_id.0, rel)));
            }
        }
        proof {
            assert(refs.subrange(0, refs.len() as int) =~= refs);
        }
    }

    /// The ids of the files, ascending.
    pub open spec fn file_ids(&self) -> Seq<u64> {
        keys_below(self.files_map(), self.next_file() as nat)
    }

    /// The ids of the symbols, ascending.
    pub open spec fn symbol_ids(&self) -> Seq<u64> {
        keys_below(self.symbols_map(), self.next_symbol() as nat)
    }

    /// All files, each once, in ascending id order.
    pub fn files(&self) -> (r: Vec<&FileEntry>)
        requires
            self.wf(),
        ensures
            r@.len() == self.file_ids().len(),
            forall|i: int| 0 <= i < r@.len() ==> *r@[i] == self.files_map()[#[trigger] self.file_ids()[i]],
    {
        let mut out: Vec<&FileEntry> = Vec::new();
        let mut k: u64 = 0;
        while k < self.next_file_id
            invariant
                k <= self.next_file(),
                out@.len() == keys_below(self.files_map(), k as nat).len(),
                forall|i: int| 0 <= i < out@.len() ==> *out@[i] == self.files_map()[#[trigger] keys_below(self.files_map(), k as nat)[i]],
            decreases self.next_file() - k,
        {
            let ghost before = out@;
            match self.files.get(k) {
                Some(e) => out.push(e),
                None => {},
            }
            proof {
                let ks = keys_below(self.files_map(), (k + 1) as nat);
                assert forall|i: int| 0 <= i < out@.len() implies *out@[i] == self.files_map()[#[trigger] ks[i]] by {
                    if i < before.len() {
                        assert(ks[i] == keys_below(self.files_map(), k as nat)[i]);
                    }
                }
            }
            k += 1;
        }
        out
    }

    /// All symbols, each once, in ascending id order.
    pub fn symbols(&self) -> (r: Vec<&Symbol>)
        requires
            self.wf(),
        ensures
            r@.len() == self.symbol_ids().len(),
            forall|i: int| 0 <= i < r@.len() ==> *r@[i] == self.symbols_map()[#[trigger] self.symbol_ids()[i]],
    {
        let mut out: Vec<&Symbol> = Vec::new();
        let mut k: u64 = 0;
        while k < self.next_symbol_id
            invariant
                k <= self.next_symbol(),
                out@.len() == keys_below(self.symbols_map(), k as nat).len(),
                forall|i: int| 0 <= i < out@.len() ==> *out@[i] == self.symbols_map()[#[trigger] keys_below(self.symbols_map(), k as nat)[i]],
            decreases self.next_symbol() - k,
        {
            let ghost before = out@;
            match self.symbols.get(k) {
                Some(e) => out.push(e),
                None => {},
            }
            proof {
                let ks = keys_below(self.symbols_map(), (k + 1) as nat);
                assert forall|i: int| 0 <= i < out@.len() implies *out@[i] == self.symbols_map()[#[trigger] ks[i]] by {
                    if i < before.len() {
                        assert(ks[i] == keys_below(self.symbols_map(), k as nat)[i]);
                    }
                }
            }
            k += 1;
        }
        out
    }

    /// All file paths in the index, each once, in the table's own order.
    pub fn file_paths(&self) -> (r: Vec<String>)
        ensures
            r@.map_values(|s: String| s@).no_duplicates(),
            r@.map_values(|s: String| s@).to_set() == self.paths_map().dom(),
    {
        self.paths.keys()
    }

    /// Clear all stored content.
    pub fn clear_all_content(&mut self)
        requires
            old(self).wf(),
        ensures
            final(self).wf(),
            final(self).contents_map().is_empty(),
            final(self).files_map() == old(self).files_map(),
            final(self).paths_map() == old(self).paths_map(),
            final(self).symbols_map() == old(self).symbols_map(),
            final(self).references_seq() == old(self).references_seq(),
            final(self).next_file() == old(self).next_file(),
            final(self).next_symbol() == old(self).next_symbol(),
    {
        self.file_content.clear();
    }
}

impl Default for Index {
    fn default() -> (r: Self)
        ensures
            r.wf(),
            r.files_map().is_empty(),
            r.symbols_map().is_empty(),
            r.next_file() == 0,
            r.next_symbol() == 0,
    {
        Index::new()
    }
}


// ---------------------------------------------------------------------------
// Laws.

/// Looking a name up after adding a symbol gives the ids it gave before, then the new
/// symbol's id when the symbol has that name; other names are looked up as before.
pub proof fn added_symbol_is_found_by_name(a: Index, b: Index, s: Symbol, n: Seq<char>)
    requires
        a.wf(),
        b.symbols_map() == a.symbols_map().insert(a.next_symbol(), Symbol { id: SymbolId(a.next_symbol()), ..s }),
        b.next_symbol() == a.next_symbol() + 1,
    ensures
        s.name@ == n ==> b.ids_named(n) == a.ids_named(n).push(SymbolId(a.next_symbol())),
        s.name@ != n ==> b.ids_named(n) == a.ids_named(n),
{
    let k = a.next_symbol();
    lemma_ids_where_insert_above(a.symbols_map(), k as nat, named(n), k, Symbol { id: SymbolId(k), ..s });
}

/// Content stored for a file is the content read back.
pub proof fn stored_content_is_read_back(a: Index, b: Index, id: FileId, content: Seq<u8>)
    requires
        b.contents_map() == a.contents_map().insert(id.0, content),
    ensures
        b.contents_map().dom().contains(id.0),
        b.contents_map()[id.0] == content,
{
}

/// A file added to the index is found again by its path and by its id.
pub proof fn added_file_is_found(a: Index, b: Index, e: FileEntry, id: FileId)
    requires
        b.files_map() == a.files_map().insert(id.0, FileEntry { id, ..e }),
        b.paths_map() == a.paths_map().insert(e.path@, id.0),
    ensures
        b.paths_map().dom().contains(e.path@),
        b.paths_map()[e.path@] == id.0,
        b.files_map().dom().contains(id.0),
        b.files_map()[id.0].path@ == e.path@,
        b.files_map()[id.0].id == id,
{
}

/// After the file at a path is removed, the path is no longer known, and when it named a
/// file, that file, its symbols and its content are gone.
pub proof fn removed_file_leaves_nothing(a: Index, b: Index, path: Seq<char>)
    requires
        path_removed(a, b, path),
    ensures
        !b.paths_map().dom().contains(path),
        a.paths_map().dom().contains(path) && a.files_map().dom().contains(a.paths_map()[path]) ==> {
            let id = a.paths_map()[path];
            &&& !b.files_map().dom().contains(id)
            &&& !b.contents_map().dom().contains(id)
            &&& forall|k: u64| #[trigger] b.symbols_map().dom().contains(k) ==> b.symbols_map()[k].file_id.0 != id
        },
{
}

} // verus!
