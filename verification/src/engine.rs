//! The CodeSift engine: an index, a parser and a call graph over one repository.

use vstd::prelude::*;

use crate::context::{
    answer_chars, answers_given, fold_upto, lemma_answers_agree, plan_context, plan_fold, plan_matches, source_agrees,
    source_callable, ContextPlan,
};
use crate::error::Error;
use crate::graph::{incoming_of, sound_results, sources_of, targets_of, traversal, ReferenceIndex};
use crate::index::{default_budget, path_removed, with_added_symbols, without_edges_of_all, without_file_symbols, Index, LexicalMatch, TokenBudget};
use crate::paths::{extension, is_absolute, join, last_dot};
use crate::ranking::{match_prefix, rank_candidates, scored, sort_by_score};
use crate::search::{contents_fit, files_search, lists_all_files, match_view, search, MatchView, SearchMode, SearchQuery};
use crate::text::{chars_of, push_chars, string_from_chars, string_from_utf8, trim_chars, trimmed, unicode_lowercase};
use crate::types::{extension_language, newline_count, looks_binary, Language, Range, SymbolKind, Visibility};
use crate::watcher::FileChange;
use crate::parser::{call_view, parse_outcome, symbol_view, CallReference, CallView, ParsedFile, Parser, SymbolView};
use crate::repository::{entry_view, EntryView, Repository};
use crate::types::{FileEntry, FileId, Relationship, Symbol, SymbolId};

verus! {

/// What reading a file gave: its bytes, or the error's message.
pub open spec fn read_view(r: Result<Vec<u8>, String>) -> Result<Seq<u8>, Seq<char>> {
    match r {
        Ok(b) => Ok(b@),
        Err(m) => Err(m@),
    }
}

/// Why building an index stopped.
pub enum BuildFault {
    /// Reading a file failed, with this message.
    Read(Seq<char>),
    /// The symbol ids would pass `u64::MAX`.
    SymbolIds,
}

/// What building an index has produced so far.
pub struct BuildState {
    pub symbols: Seq<SymbolView>,
    /// The calls found inside symbols, each as its caller's id and the text it calls.
    pub calls: Seq<(u64, Seq<char>)>,
    pub fault: Option<BuildFault>,
}

/// The parsed symbols, numbered from `base` on.
pub open spec fn renumber(syms: Seq<SymbolView>, base: nat) -> Seq<SymbolView> {
    syms.map(|j: int, s: SymbolView| SymbolView { id: SymbolId((base + j) as u64), ..s })
}

/// The calls that have a caller, each as the caller's id counted from `base` and the text
/// it calls.
pub open spec fn pending_calls(calls: Seq<CallView>, base: nat) -> Seq<(u64, Seq<char>)>
    decreases calls.len(),
{
    if calls.len() == 0 {
        seq![]
    } else {
        let rest = pending_calls(calls.drop_last(), base);
        match calls.last().caller {
            Some(c) => rest.push(((base + c.0) as u64, calls.last().callee_name)),
            None => rest,
        }
    }
}

/// The name a call is resolved by: what follows the last `.` of the called text (the
/// method or attribute called), or else the whole text.
pub open spec fn callee_key(n: Seq<char>) -> Seq<char> {
    let d = last_dot(n, n.len());
    if d < 0 {
        n
    } else {
        n.subrange(d + 1, n.len() as int)
    }
}

/// The call edges that the calls make in an index: each call in turn, from its caller to
/// every symbol that bears the name it calls, in id order.
pub open spec fn resolved_edges(calls: Seq<(u64, Seq<char>)>, idx: Index) -> Seq<(u64, u64, Relationship)>
    decreases calls.len(),
{
    if calls.len() == 0 {
        seq![]
    } else {
        let c = calls.last();
        resolved_edges(calls.drop_last(), idx) + idx.ids_named(callee_key(c.1)).map_values(
            |t: SymbolId| (c.0, t.0, Relationship::Calls),
        )
    }
}

pub open spec fn pending_view(v: Seq<(u64, String)>) -> Seq<(u64, Seq<char>)> {
    v.map_values(|p: (u64, String)| (p.0, p.1@))
}

/// The symbols with these ids whose kind defines something, in order.
pub open spec fn definitions_among(idx: Index, ids: Seq<SymbolId>) -> Seq<Symbol>
    decreases ids.len(),
{
    if ids.len() == 0 {
        seq![]
    } else {
        let s = idx.symbols_map()[ids.last().0];
        definitions_among(idx, ids.drop_last()) + if s.kind.spec_is_definition() {
            seq![s]
        } else {
            seq![]
        }
    }
}

/// The referring symbols of these references that the index holds, each with how it refers.
pub open spec fn known_referrers(idx: Index, inc: Seq<(SymbolId, Relationship)>) -> Seq<(Symbol, Relationship)>
    decreases inc.len(),
{
    if inc.len() == 0 {
        seq![]
    } else {
        let (from, rel) = inc.last();
        known_referrers(idx, inc.drop_last()) + if idx.symbols_map().dom().contains(from.0) {
            seq![(idx.symbols_map()[from.0], rel)]
        } else {
            seq![]
        }
    }
}

/// For each of the symbols in turn, the references that come into it.
pub open spec fn references_into(idx: Index, edges: Seq<(u64, u64, Relationship)>, ids: Seq<SymbolId>) -> Seq<(Symbol, Relationship)>
    decreases ids.len(),
{
    if ids.len() == 0 {
        seq![]
    } else {
        references_into(idx, edges, ids.drop_last()) + known_referrers(idx, incoming_of(edges, ids.last().0))
    }
}

/// Files that are neither binary nor vendored get read and parsed.
pub open spec fn indexed(e: FileEntry) -> bool {
    !e.is_binary && !e.is_vendor
}

/// The build's step on one file.
pub open spec fn build_step(st: BuildState, e: FileEntry, read: Result<Seq<u8>, Seq<char>>) -> BuildState {
    if st.fault is Some || !indexed(e) {
        st
    } else {
        match read {
            Err(m) => BuildState { fault: Some(BuildFault::Read(m)), ..st },
            Ok(content) => match parse_outcome(e.language, content, e.id) {
                Err(_) => st,
                Ok((syms, calls)) => if st.symbols.len() + syms.len() > u64::MAX {
                    BuildState { fault: Some(BuildFault::SymbolIds), ..st }
                } else {
                    BuildState {
                        symbols: st.symbols + renumber(syms, st.symbols.len()),
                        calls: st.calls + pending_calls(calls, st.symbols.len()),
                        fault: None,
                    }
                },
            },
        }
    }
}

/// The build over the files numbered below `n`.
pub open spec fn build_fold(files: Map<u64, FileEntry>, reads: Seq<Result<Seq<u8>, Seq<char>>>, n: nat) -> BuildState
    decreases n,
{
    if n == 0 {
        BuildState { symbols: seq![], calls: seq![], fault: None }
    } else {
        build_step(build_fold(files, reads, (n - 1) as nat), files[(n - 1) as u64], reads[n - 1])
    }
}

/// The contents a build stores: the read bytes of every indexed file below `n`.
pub open spec fn built_contents(
    files: Map<u64, FileEntry>,
    reads: Seq<Result<Seq<u8>, Seq<char>>>,
    n: nat,
) -> Map<u64, Seq<u8>> {
    Map::new(
        |k: u64| k < n && indexed(files[k]),
        |k: u64| match reads[k as int] {
            Ok(b) => b,
            Err(_) => seq![],
        },
    )
}

/// The path map a build leaves: each file's path, added in id order.
pub open spec fn built_paths(files: Map<u64, FileEntry>, n: nat) -> Map<Seq<char>, u64>
    decreases n,
{
    if n == 0 {
        Map::empty()
    } else {
        built_paths(files, (n - 1) as nat).insert(files[(n - 1) as u64].path@, (n - 1) as u64)
    }
}

pub open spec fn ids_message() -> Seq<char> {
    seq!['s', 'y', 'm', 'b', 'o', 'l', ' ', 'i', 'd', 's', ' ', 'e', 'x', 'h', 'a', 'u', 's', 't', 'e', 'd']
}

/// Main CodeSift engine.
pub struct CodeSift {
    index: Index,
    parser: Parser,
    references: ReferenceIndex,
    repo_path: Option<String>,
}

impl CodeSift {
    pub closed spec fn index(&self) -> Index {
        self.index
    }

    pub closed spec fn graph(&self) -> ReferenceIndex {
        self.references
    }

    pub closed spec fn repo(&self) -> Option<Seq<char>> {
        match self.repo_path {
            Some(p) => Some(p@),
            None => None,
        }
    }

    pub closed spec fn wf(&self) -> bool {
        self.index.wf() && self.references.wf()
    }

    /// Create a new CodeSift instance: nothing indexed, no repository.
    pub fn new() -> (r: Self)
        ensures
            r.wf(),
            r.index().files_map().is_empty(),
            r.index().paths_map().is_empty(),
            r.index().symbols_map().is_empty(),
            r.index().contents_map().is_empty(),
            r.index().references_seq().len() == 0,
            r.index().next_file() == 0,
            r.index().next_symbol() == 0,
            r.graph().edges().len() == 0,
            r.repo() is None,
    {
        CodeSift { index: Index::new(), parser: Parser::new(), references: ReferenceIndex::new(), repo_path: None }
    }

    /// Adds the parsed symbols of a file, and lists its calls that have a caller, with the
    /// caller's new id.
    fn add_parsed(&mut self, parsed: &ParsedFile, pending: &mut Vec<(u64, String)>)
        requires
            old(self).wf(),
            old(self).index().next_symbol() + parsed.symbols@.len() <= u64::MAX,
            parsed.references@.len() == 0,
            forall|k: int| 0 <= k < parsed.calls@.len() ==> ((#[trigger] parsed.calls@[k]).caller matches Some(c) ==> c.0 < parsed.symbols@.len()),
        ensures
            final(self).wf(),
            final(self).index().next_symbol() == old(self).index().next_symbol() + parsed.symbols@.len(),
            final(self).index().symbols_map().dom() == old(self).index().symbols_map().dom().union(
                Set::new(|k: u64| old(self).index().next_symbol() <= k < final(self).index().next_symbol()),
            ),
            forall|k: u64| #[trigger] old(self).index().symbols_map().dom().contains(k) ==> final(self).index().symbols_map()[k] == old(self).index().symbols_map()[k],
            forall|j: int| 0 <= j < parsed.symbols@.len() ==> symbol_view(#[trigger] final(self).index().symbols_map()[(old(self).index().next_symbol() + j) as u64])
                == renumber(parsed.symbols@.map_values(|s: Symbol| symbol_view(s)), old(self).index().next_symbol() as nat)[j],
            pending_view(final(pending)@) == pending_view(old(pending)@) + pending_calls(
                parsed.calls@.map_values(|c: CallReference| call_view(c)),
                old(self).index().next_symbol() as nat,
            ),
            final(self).graph() == old(self).graph(),
            final(self).index().files_map() == old(self).index().files_map(),
            final(self).index().paths_map() == old(self).index().paths_map(),
            final(self).index().contents_map() == old(self).index().contents_map(),
            final(self).index().references_seq() == old(self).index().references_seq(),
            final(self).index().next_file() == old(self).index().next_file(),
            final(self).repo() == old(self).repo(),
    {
        let ghost sv = parsed.symbols@.map_values(|s: Symbol| symbol_view(s));
        let ghost cv = parsed.calls@.map_values(|c: CallReference| call_view(c));
        let ghost m0 = self.index.symbols_map();
        let ghost p0 = pending_view(pending@);
        let base = self.index.next_symbol_id();
        proof {
            self.index.lemma_keys();
        }
        let mut c: usize = 0;
        while c < parsed.calls.len()
            invariant
                c <= parsed.calls@.len(),
                base + parsed.symbols@.len() <= u64::MAX,
                cv == parsed.calls@.map_values(|c: CallReference| call_view(c)),
                forall|k: int| 0 <= k < parsed.calls@.len() ==> ((#[trigger] parsed.calls@[k]).caller matches Some(c) ==> c.0 < parsed.symbols@.len()),
                pending_view(pending@) == p0 + pending_calls(cv.take(c as int), base as nat),
            decreases parsed.calls@.len() - c,
        {
            proof {
                assert(cv.take(c + 1).drop_last() =~= cv.take(c as int));
                assert(cv.take(c + 1).last() == call_view(parsed.calls@[c as int]));
            }
            let ghost before = pending@;
            if let Some(caller) = parsed.calls[c].caller {
                pending.push((base + caller.0, parsed.calls[c].callee_name.clone()));
                proof {
                    assert(pending_view(pending@) =~= pending_view(before).push((pending@.last().0, pending@.last().1@)));
                }
            }
            c += 1;
        }
        proof {
            assert(cv.take(parsed.calls@.len() as int) =~= cv);
        }
        let mut j: usize = 0;
        while j < parsed.symbols.len()
            invariant
                self.wf(),
                j <= parsed.symbols@.len(),
                base + parsed.symbols@.len() <= u64::MAX,
                self.index.next_symbol() == base + j,
                sv == parsed.symbols@.map_values(|s: Symbol| symbol_view(s)),
                self.index.symbols_map().dom() == m0.dom().union(Set::new(|k: u64| base <= k < base + j)),
                forall|k: u64| #[trigger] m0.dom().contains(k) ==> self.index.symbols_map()[k] == m0[k],
                forall|i: int| 0 <= i < j ==> symbol_view(#[trigger] self.index.symbols_map()[(base + i) as u64]) == renumber(sv, base as nat)[i],
                self.references == old(self).references,
                self.index.files_map() == old(self).index.files_map(),
                self.index.paths_map() == old(self).index.paths_map(),
                self.index.contents_map() == old(self).index.contents_map(),
                self.index.references_seq() == old(self).index.references_seq(),
                self.index.next_file() == old(self).index.next_file(),
                self.repo_path == old(self).repo_path,
                forall|k: u64| #[trigger] m0.dom().contains(k) ==> k < base,
            decreases parsed.symbols@.len() - j,
        {
            proof {
                self.index.lemma_keys();
            }
            let ghost before = self.index.symbols_map();
            let _ = self.index.add_symbol(parsed.symbols[j].clone());
            proof {
                assert(sv[j as int] == symbol_view(parsed.symbols@[j as int]));
                assert(self.index.symbols_map().dom() =~= m0.dom().union(Set::new(|k: u64| base <= k < base + j + 1)));
                assert forall|i: int| 0 <= i < j + 1 implies symbol_view(#[trigger] self.index.symbols_map()[(base + i) as u64]) == renumber(sv, base as nat)[i] by {
                    if i < j {
                        assert(before.dom().contains((base + i) as u64));
                    }
                }
            }
            j += 1;
        }
        let mut r: usize = 0;
        while r < parsed.references.len()
            invariant
                parsed.references@.len() == 0,
            decreases parsed.references@.len() - r,
        {
            r += 1;
        }
    }

    /// Draws the call edges of the calls listed: from each caller to every symbol that
    /// bears the name it calls.
    fn resolve_calls(&mut self, calls: &Vec<(u64, String)>)
        requires
            old(self).wf(),
        ensures
            final(self).wf(),
            final(self).index() == old(self).index(),
            final(self).repo() == old(self).repo(),
            final(self).graph().edges() == old(self).graph().edges() + resolved_edges(pending_view(calls@), old(self).index()),
    {
        let ghost e0 = self.references.edges();
        let ghost pv = pending_view(calls@);
        let mut i: usize = 0;
        while i < calls.len()
            invariant
                self.wf(),
                i <= calls@.len(),
                pv == pending_view(calls@),
                self.index == old(self).index,
                self.repo_path == old(self).repo_path,
                self.references.edges() == e0 + resolved_edges(pv.take(i as int), self.index()),
            decreases calls@.len() - i,
        {
            let key = callee_key_exec(calls[i].1.as_str());
            let targets = self.index.find_symbols_by_name(key.as_str());
            let caller = SymbolId(calls[i].0);
            let ghost e1 = self.references.edges();
            let mut t: usize = 0;
            while t < targets.len()
                invariant
                    self.wf(),
                    t <= targets@.len(),
                    self.index == old(self).index,
                    self.repo_path == old(self).repo_path,
                    self.references.edges() == e1 + targets@.take(t as int).map_values(|x: SymbolId| (caller.0, x.0, Relationship::Calls)),
                decreases targets@.len() - t,
            {
                self.references.add_reference(caller, targets[t], Relationship::Calls);
                proof {
                    assert(targets@.take(t + 1).map_values(|x: SymbolId| (caller.0, x.0, Relationship::Calls)) =~= targets@.take(t as int).map_values(
                        |x: SymbolId| (caller.0, x.0, Relationship::Calls),
                    ).push((caller.0, targets@[t as int].0, Relationship::Calls)));
                }
                t += 1;
            }
            proof {
                assert(targets@.take(targets@.len() as int) =~= targets@);
                assert(pv.take(i + 1).drop_last() =~= pv.take(i as int));
                assert(pv.take(i + 1).last() == (calls@[i as int].0, calls@[i as int].1@));
                assert(self.references.edges() =~= e0 + resolved_edges(pv.take(i + 1), self.index()));
            }
            i += 1;
        }
        proof {
            assert(pv.take(calls@.len() as int) =~= pv);
        }
    }
}

/// The name a call is resolved by.
fn callee_key_exec(n: &str) -> (r: String)
    ensures
        r@ == callee_key(n@),
{
    let chars = chars_of(n);
    let mut k: usize = chars.len();
    while k > 0 && chars[k - 1] != '.'
        invariant
            k <= chars@.len(),
            chars@ == n@,
            last_dot(n@, n@.len()) == last_dot(n@, k as nat),
        decreases k,
    {
        k -= 1;
    }
    if k == 0 {
        String::from_str(n)
    } else {
        let mut out: Vec<char> = Vec::new();
        push_chars_from(&mut out, chars.as_slice(), k);
        proof {
            assert(out@ =~= n@.subrange(k as int, n@.len() as int));
        }
        string_from_chars(out.as_slice())
    }
}

fn push_chars_from(out: &mut Vec<char>, w: &[char], from: usize)
    requires
        from <= w@.len(),
    ensures
        final(out)@ == old(out)@ + w@.subrange(from as int, w@.len() as int),
{
    crate::text::push_range(out, w, from, w.len());
}

/// Once the build has stopped, it stays stopped with the same fault.
proof fn lemma_build_fault_persists(files: Map<u64, FileEntry>, reads: Seq<Result<Seq<u8>, Seq<char>>>, m: nat, n: nat)
    requires
        m <= n,
        build_fold(files, reads, m).fault is Some,
    ensures
        build_fold(files, reads, n).fault == build_fold(files, reads, m).fault,
    decreases n,
{
    if m < n {
        lemma_build_fault_persists(files, reads, m, (n - 1) as nat);
    }
}

impl CodeSift {
    /// What `build_into` leaves on success: the whole repository indexed, and the calls
    /// linked to the symbols they name.
    pub open spec fn built(&self, repo: Repository, reads: Seq<Result<Vec<u8>, String>>) -> bool {
        let rv = reads.map_values(|x: Result<Vec<u8>, String>| read_view(x));
        let n = repo.id_bound() as nat;
        let st = build_fold(repo.files_map(), rv, n);
        &&& self.wf()
        &&& self.index().files_map() == repo.files_map()
        &&& self.index().paths_map() == built_paths(repo.files_map(), n)
        &&& self.index().contents_map() == built_contents(repo.files_map(), rv, n)
        &&& self.index().next_file() == n
        &&& self.index().next_symbol() == st.symbols.len()
        &&& self.index().symbols_map().dom() == Set::new(|k: u64| k < st.symbols.len())
        &&& forall|k: u64| k < st.symbols.len() ==> symbol_view(#[trigger] self.index().symbols_map()[k]) == st.symbols[k as int]
        &&& self.index().references_seq().len() == 0
        &&& self.graph().edges() == resolved_edges(st.calls, self.index())
    }

    /// The error a stopped build gives.
    pub open spec fn build_error(r: Result<(), Error>, fault: BuildFault) -> bool {
        match fault {
            BuildFault::Read(m) => r matches Err(Error::Io(e)) && e@ == m,
            BuildFault::SymbolIds => r matches Err(Error::Index(e)) && e@ == ids_message(),
        }
    }

    /// Indexes a scanned repository into an empty engine. `reads[k]` is what reading file
    /// `k` gave; only files that are neither binary nor vendored are read. Every file is
    /// added in id order; the content of each file read is stored and parsed and its
    /// symbols added. Once every file is in, each call found inside a
    /// symbol is linked to the symbols that bear the name it calls. A failed read stops
    /// the build with that error.
    fn build_into(&mut self, repo: &Repository, reads: &Vec<Result<Vec<u8>, String>>) -> (r: Result<(), Error>)
        requires
            old(self).wf(),
            repo.wf(),
            reads@.len() == repo.id_bound(),
            old(self).index().files_map().is_empty(),
            old(self).index().paths_map().is_empty(),
            old(self).index().symbols_map().is_empty(),
            old(self).index().contents_map().is_empty(),
            old(self).index().references_seq().len() == 0,
            old(self).index().next_file() == 0,
            old(self).index().next_symbol() == 0,
            old(self).graph().edges().len() == 0,
        ensures
            final(self).wf(),
            final(self).repo() == old(self).repo(),
            ({
                let rv = reads@.map_values(|x: Result<Vec<u8>, String>| read_view(x));
                let st = build_fold(repo.files_map(), rv, repo.id_bound() as nat);
                match st.fault {
                    Some(f) => Self::build_error(r, f),
                    None => r is Ok && final(self).built(*repo, reads@),
                }
            }),
    {
        let ghost rv = reads@.map_values(|x: Result<Vec<u8>, String>| read_view(x));
        let ghost files = repo.files_map();
        let mut pending: Vec<(u64, String)> = Vec::new();
        proof {
            repo.lemma_dense();
            assert(self.index().files_map() =~= files.restrict(Set::new(|i: u64| i < 0)));
            assert(self.index().contents_map() =~= built_contents(files, rv, 0));
            assert(self.index().paths_map() =~= built_paths(files, 0));
            assert(self.index().symbols_map().dom() =~= Set::new(|i: u64| i < 0));
            assert(pending_view(pending@) =~= build_fold(files, rv, 0).calls);
        }
        let n = repo.id_count();
        let mut k: u64 = 0;
        while k < n
            invariant
                self.wf(),
                k <= n,
                n == repo.id_bound(),
                repo.wf(),
                files == repo.files_map(),
                forall|i: u64| #[trigger] files.dom().contains(i) <==> i < n,
                forall|i: u64| #[trigger] files.dom().contains(i) ==> files[i].id == FileId(i),
                reads@.len() == n,
                rv == reads@.map_values(|x: Result<Vec<u8>, String>| read_view(x)),
                build_fold(files, rv, k as nat).fault is None,
                self.repo() == old(self).repo(),
                self.index().files_map() == files.restrict(Set::new(|i: u64| i < k)),
                self.index().paths_map() == built_paths(files, k as nat),
                self.index().contents_map() == built_contents(files, rv, k as nat),
                self.index().next_file() == k,
                self.index().next_symbol() == build_fold(files, rv, k as nat).symbols.len(),
                self.index().symbols_map().dom() == Set::new(|i: u64| i < build_fold(files, rv, k as nat).symbols.len()),
                forall|i: u64| i < build_fold(files, rv, k as nat).symbols.len() ==> symbol_view(#[trigger] self.index().symbols_map()[i]) == build_fold(files, rv, k as nat).symbols[i as int],
                self.index().references_seq().len() == 0,
                self.graph().edges().len() == 0,
                pending_view(pending@) == build_fold(files, rv, k as nat).calls,
            decreases n - k,
        {
            let ghost st = build_fold(files, rv, k as nat);
            let entry = repo.get_file(FileId(k)).unwrap();
            let file_id = self.index.add_file(entry.clone());
            proof {
                assert(file_id == FileId(k));
                assert(FileEntry { id: file_id, ..*entry } == *entry);
                assert(self.index().files_map() =~= files.restrict(Set::new(|i: u64| i < k + 1)));
                assert(self.index().contents_map() =~= built_contents(files, rv, k as nat));
            }
            if entry.is_binary || entry.is_vendor {
                proof {
                    assert(built_contents(files, rv, (k + 1) as nat) =~= built_contents(files, rv, k as nat));
                }
                k += 1;
                continue;
            }
            let nreads = reads.len();
            let idx = k as usize;
            proof {
                assert(k < nreads);
                assert(idx == k);
            }
            let read = &reads[idx];
            proof {
                assert(*read == reads@[k as int]);
                assert(rv[k as int] == read_view(reads@[k as int]));
                assert(files[k] == *entry);
                assert(indexed(files[k]));
            }
            match read {
                Err(m) => {
                    proof {
                        assert(rv[k as int] == Err::<Seq<u8>, Seq<char>>(m@));
                        assert(build_fold(files, rv, (k + 1) as nat).fault == Some(BuildFault::Read(m@)));
                        lemma_build_fault_persists(files, rv, (k + 1) as nat, n as nat);
                    }
                    return Err(Error::Io(m.clone()));
                },
                Ok(content) => {
                    self.index.store_content(file_id, content.clone());
                    proof {
                        assert(rv[k as int] == Ok::<Seq<u8>, Seq<char>>(content@));
                        assert(self.index().contents_map() =~= built_contents(files, rv, (k + 1) as nat));
                    }
                    let parsed = self.parser.parse(content.as_slice(), entry.language, file_id);
                    match parsed {
                        Err(_) => {},
                        Ok(pf) => {
                            let next = self.index.next_symbol_id();
                            let count = pf.symbols.len() as u64;
                            if next > u64::MAX - count {
                                let msg = String::from_str("symbol ids exhausted");
                                proof {
                                    reveal_strlit("symbol ids exhausted");
                                    assert(msg@ =~= ids_message());
                                    lemma_build_fault_persists(files, rv, (k + 1) as nat, n as nat);
                                }
                                return Err(Error::Index(msg));
                            }
                            proof {
                                crate::parser::parsed_callers_are_symbols(entry.language, content@, file_id);
                                let cs = pf.calls@.map_values(|c: CallReference| call_view(c));
                                assert forall|j: int| 0 <= j < pf.calls@.len() implies ((#[trigger] pf.calls@[j]).caller matches Some(c) ==> c.0 < pf.symbols@.len()) by {
                                    assert(cs[j] == call_view(pf.calls@[j]));
                                }
                            }
                            let ghost before = self.index().symbols_map();
                            self.add_parsed(&pf, &mut pending);
                            proof {
                                let sv = pf.symbols@.map_values(|s: Symbol| symbol_view(s));
                                let st2 = build_fold(files, rv, (k + 1) as nat);
                                assert(st2.symbols =~= st.symbols + renumber(sv, st.symbols.len()));
                                assert(self.index().symbols_map().dom() =~= Set::new(|i: u64| i < st2.symbols.len()));
                                assert forall|i: u64| i < st2.symbols.len() implies symbol_view(#[trigger] self.index().symbols_map()[i]) == st2.symbols[i as int] by {
                                    if i < st.symbols.len() {
                                        assert(before.dom().contains(i));
                                    } else {
                                        let j = i - st.symbols.len();
                                        assert(self.index().symbols_map()[(st.symbols.len() + j) as u64] == self.index().symbols_map()[i]);
                                    }
                                }
                            }
                        },
                    }
                },
            }
            k += 1;
        }
        proof {
            assert(self.index().files_map() =~= files);
        }
        self.resolve_calls(&pending);
        proof {
            assert(self.graph().edges() =~= resolved_edges(build_fold(files, rv, n as nat).calls, self.index()));
        }
        Ok(())
    }

    /// Indexes a scanned repository (see `build_into`), with the call graph.
    pub fn from_repository(repo: &Repository, repo_path: String, reads: &Vec<Result<Vec<u8>, String>>) -> (r: Result<CodeSift, Error>)
        requires
            repo.wf(),
            reads@.len() == repo.id_bound(),
        ensures
            ({
                let rv = reads@.map_values(|x: Result<Vec<u8>, String>| read_view(x));
                let st = build_fold(repo.files_map(), rv, repo.id_bound() as nat);
                match st.fault {
                    Some(BuildFault::Read(m)) => r matches Err(Error::Io(e)) && e@ == m,
                    Some(BuildFault::SymbolIds) => r matches Err(Error::Index(e)) && e@ == ids_message(),
                    None => r matches Ok(cs) && cs.repo() == Some(repo_path@) && cs.built(*repo, reads@),
                }
            }),
    {
        let mut cs = CodeSift::new();
        cs.repo_path = Some(repo_path);
        match cs.build_into(repo, reads) {
            Ok(()) => Ok(cs),
            Err(e) => Err(e),
        }
    }
}

/// The text of a range of a stored file: its bytes, where the range lies within the
/// content and they are valid UTF-8.
pub open spec fn source_text(contents: Map<u64, Seq<u8>>, fid: FileId, r: Range) -> Option<Seq<char>> {
    if contents.dom().contains(fid.0) && r.start_byte <= r.end_byte <= contents[fid.0].len()
        && vstd::utf8::valid_utf8(contents[fid.0].subrange(r.start_byte as int, r.end_byte as int)) {
        Some(vstd::utf8::decode_utf8(contents[fid.0].subrange(r.start_byte as int, r.end_byte as int)))
    } else {
        None
    }
}

/// The search limit of the engine's lexical search: 1000 matches a file, and no more than
/// a hundred for each file the budget allows.
pub open spec fn engine_limit(b: TokenBudget) -> usize {
    if 1000 <= b.max_files * 100 {
        1000
    } else {
        (b.max_files * 100) as usize
    }
}

pub open spec fn candidate_view(c: (Symbol, Option<Relationship>)) -> (SymbolView, Option<Relationship>) {
    (symbol_view(c.0), c.1)
}

pub open spec fn candidate_views(c: Seq<(Symbol, Option<Relationship>)>) -> Seq<(SymbolView, Option<Relationship>)> {
    c.map_values(|x: (Symbol, Option<Relationship>)| candidate_view(x))
}

/// The symbols named like the query, as references.
pub open spec fn symbol_candidates(idx: Index, q: Seq<char>) -> Seq<(SymbolView, Option<Relationship>)> {
    idx.ids_named(q).map_values(|id: SymbolId| (symbol_view(idx.symbols_map()[id.0]), Some(Relationship::References)))
}

/// A lexical match as a candidate: a variable named `match:` and the trimmed line.
pub open spec fn match_candidate(m: MatchView) -> (SymbolView, Option<Relationship>) {
    (
        SymbolView {
            id: SymbolId(0),
            name: match_prefix() + trimmed(m.line),
            kind: SymbolKind::Variable,
            file_id: m.file_id,
            range: m.range,
            parent: None,
            visibility: Visibility::Public,
            signature: None,
        },
        None,
    )
}

pub open spec fn no_repo_message() -> Seq<char> {
    seq!['N', 'o', ' ', 'r', 'e', 'p', 'o', 's', 'i', 't', 'o', 'r', 'y', ' ', 'p', 'a', 't', 'h', ' ', 's', 'e', 't']
}

impl Default for CodeSift {
    fn default() -> (r: Self)
        ensures
            r.wf(),
            r.index().files_map().is_empty(),
            r.index().symbols_map().is_empty(),
            r.graph().edges().len() == 0,
            r.repo() is None,
    {
        CodeSift::new()
    }
}

/// A path taken relative to the repository, unless it is absolute.
pub open spec fn full_path(repo: Seq<char>, p: Seq<char>) -> Seq<char> {
    if is_absolute(p) {
        p
    } else {
        join(repo, p)
    }
}

/// What reading a changed file gave.
#[derive(Debug)]
pub enum FileRead {
    /// The path does not exist.
    Missing,
    /// Reading failed, with this message.
    Failed(String),
    /// The content, and the file's size and modification time where its metadata could
    /// be read.
    Read { content: Vec<u8>, meta: Option<(u64, u64)> },
}

impl CodeSift {
    /// Search for text across the codebase: an exact, case-sensitive search of every file.
    pub fn search(&self, query: &str, budget: Option<TokenBudget>) -> (r: Result<Vec<LexicalMatch>, Error>)
        requires
            self.wf(),
            contents_fit(self.index().contents_map()),
            budget matches Some(b) ==> b.max_files * 100 <= usize::MAX,
        ensures
            r matches Ok(ms) && engine_searched(*self, query@, budget.unwrap_or(default_budget()), ms@.map_values(|m: LexicalMatch| match_view(m))),
    {
        let budget = match budget {
            Some(b) => b,
            None => TokenBudget::default(),
        };
        let search_query = SearchQuery {
            pattern: String::from_str(query),
            mode: SearchMode::Exact,
            file_ids: None,
            max_results: 1000,
        };
        let r = search(&search_query, &self.index, &budget);
        proof {
            let ms = r->Ok_0;
            let fs = choose|fs: Seq<FileId>| crate::search::searched_files(search_query, self.index, fs)
                && ms@.map_values(|m: LexicalMatch| match_view(m)) == files_search(self.index.contents_map(), fs, search_query.pattern@, search_query.mode, crate::search::search_limit(search_query, budget));
            assert(lists_all_files(self.index(), fs));
        }
        r
    }

    /// Whether every stored content is short enough to be searched (under `u32::MAX`
    /// bytes, so its lines can be numbered).
    pub fn searchable(&self) -> (b: bool)
        ensures
            b == contents_fit(self.index().contents_map()),
    {
        self.index.all_contents_fit()
    }

    /// Search for a symbol by name: every symbol with the name, in the order they were added.
    pub fn find_symbol(&self, name: &str) -> (r: Vec<&Symbol>)
        requires
            self.wf(),
        ensures
            r@.len() == self.index().ids_named(name@).len(),
            forall|i: int| 0 <= i < r@.len() ==> *r@[i] == self.index().symbols_map()[#[trigger] self.index().ids_named(name@)[i].0],
    {
        let ids = self.index.find_symbols_by_name(name);
        let mut out: Vec<&Symbol> = Vec::new();
        let mut i: usize = 0;
        while i < ids.len()
            invariant
                self.wf(),
                i <= ids@.len(),
                ids@ == self.index.ids_named(name@),
                out@.len() == i,
                forall|j: int| 0 <= j < i ==> *out@[j] == self.index.symbols_map()[#[trigger] ids@[j].0],
            decreases ids@.len() - i,
        {
            proof {
                self.index.lemma_keys();
                assert(ids@.contains(ids@[i as int]));
                assert(ids@[i as int] == SymbolId(ids@[i as int].0));
                crate::index::lemma_ids_where_contains(self.index.symbols_map(), self.index.next_symbol() as nat, crate::index::named(name@), ids@[i as int].0);
            }
            match self.index.get_symbol(ids[i]) {
                Some(s) => out.push(s),
                None => {},
            }
            i += 1;
        }
        out
    }

    /// The definitions of a name: the symbols with that name whose kind defines something
    /// (not an import or a call), in the order they were added.
    pub fn get_definition(&self, name: &str) -> (r: Vec<&Symbol>)
        requires
            self.wf(),
        ensures
            r@.map_values(|s: &Symbol| *s) == definitions_among(self.index(), self.index().ids_named(name@)),
    {
        let ids = self.index.find_symbols_by_name(name);
        let mut out: Vec<&Symbol> = Vec::new();
        let mut i: usize = 0;
        while i < ids.len()
            invariant
                self.wf(),
                i <= ids@.len(),
                ids@ == self.index.ids_named(name@),
                out@.map_values(|s: &Symbol| *s) == definitions_among(self.index(), ids@.take(i as int)),
            decreases ids@.len() - i,
        {
            proof {
                self.index.lemma_keys();
                assert(ids@.contains(ids@[i as int]));
                crate::index::lemma_ids_where_contains(self.index.symbols_map(), self.index.next_symbol() as nat, crate::index::named(name@), ids@[i as int].0);
                assert(ids@.take(i + 1).drop_last() =~= ids@.take(i as int));
                assert(ids@.take(i + 1).last() == ids@[i as int]);
            }
            let ghost before = out@;
            match self.index.get_symbol(ids[i]) {
                Some(s) => {
                    if s.kind.is_definition() {
                        out.push(s);
                        proof {
                            assert(out@.map_values(|s: &Symbol| *s) =~= before.map_values(|s: &Symbol| *s).push(*s));
                        }
                    }
                },
                None => {},
            }
            i += 1;
        }
        proof {
            assert(ids@.take(ids@.len() as int) =~= ids@);
        }
        out
    }

    /// The references to a name: for each symbol with that name, in the order they were
    /// added, the symbols that refer to it (those still indexed), with how they refer.
    pub fn find_references(&self, name: &str) -> (r: Vec<(&Symbol, Relationship)>)
        requires
            self.wf(),
        ensures
            r@.map_values(|p: (&Symbol, Relationship)| (*p.0, p.1)) == references_into(
                self.index(),
                self.graph().edges(),
                self.index().ids_named(name@),
            ),
    {
        let ids = self.index.find_symbols_by_name(name);
        let mut out: Vec<(&Symbol, Relationship)> = Vec::new();
        let mut i: usize = 0;
        while i < ids.len()
            invariant
                self.wf(),
                i <= ids@.len(),
                out@.map_values(|p: (&Symbol, Relationship)| (*p.0, p.1)) == references_into(self.index(), self.graph().edges(), ids@.take(i as int)),
            decreases ids@.len() - i,
        {
            let incoming = self.references.get_incoming(ids[i]);
            let ghost o0 = out@.map_values(|p: (&Symbol, Relationship)| (*p.0, p.1));
            let mut j: usize = 0;
            while j < incoming.len()
                invariant
                    self.wf(),
                    j <= incoming@.len(),
                    out@.map_values(|p: (&Symbol, Relationship)| (*p.0, p.1)) == o0 + known_referrers(self.index(), incoming@.take(j as int)),
                decreases incoming@.len() - j,
            {
                let (from, rel) = incoming[j];
                let ghost before = out@;
                proof {
                    assert(incoming@.take(j + 1).drop_last() =~= incoming@.take(j as int));
                    assert(incoming@.take(j + 1).last() == incoming@[j as int]);
                }
                match self.index.get_symbol(from) {
                    Some(s) => {
                        out.push((s, rel));
                        proof {
                            assert(out@.map_values(|p: (&Symbol, Relationship)| (*p.0, p.1)) =~= before.map_values(
                                |p: (&Symbol, Relationship)| (*p.0, p.1),
                            ).push((*s, rel)));
                        }
                    },
                    None => {},
                }
                j += 1;
            }
            proof {
                assert(incoming@.take(incoming@.len() as int) =~= incoming@);
                assert(ids@.take(i + 1).drop_last() =~= ids@.take(i as int));
                assert(ids@.take(i + 1).last() == ids@[i as int]);
            }
            i += 1;
        }
        proof {
            assert(ids@.take(ids@.len() as int) =~= ids@);
        }
        out
    }

    /// Get symbol by ID.
    pub fn get_symbol(&self, id: SymbolId) -> (r: Option<&Symbol>)
        ensures
            r is Some <==> self.index().symbols_map().dom().contains(id.0),
            r matches Some(s) ==> *s == self.index().symbols_map()[id.0],
    {
        self.index.get_symbol(id)
    }

    /// Get file by ID.
    pub fn get_file(&self, id: FileId) -> (r: Option<&FileEntry>)
        ensures
            r is Some <==> self.index().files_map().dom().contains(id.0),
            r matches Some(f) ==> *f == self.index().files_map()[id.0],
    {
        self.index.get_file(id)
    }

    /// Get file content.
    pub fn get_content(&self, file_id: FileId) -> (r: Option<&Vec<u8>>)
        ensures
            r is Some <==> self.index().contents_map().dom().contains(file_id.0),
            r matches Some(c) ==> c@ == self.index().contents_map()[file_id.0],
    {
        self.index.get_content(file_id)
    }

    /// Get source text for a range: the range's bytes of the stored content, where they
    /// lie within it and are valid UTF-8.
    pub fn get_source(&self, file_id: FileId, range: &Range) -> (r: Option<String>)
        ensures
            crate::context::opt_chars(r) == source_text(self.index().contents_map(), file_id, *range),
    {
        let content = match self.index.get_content(file_id) {
            Some(c) => c,
            None => return None,
        };
        if range.start_byte > range.end_byte || range.end_byte > content.len() {
            return None;
        }
        let mut bytes: Vec<u8> = Vec::new();
        let mut i: usize = range.start_byte;
        while i < range.end_byte
            invariant
                range.start_byte <= i <= range.end_byte <= content@.len(),
                bytes@ == content@.subrange(range.start_byte as int, i as int),
            decreases range.end_byte - i,
        {
            bytes.push(content[i]);
            i += 1;
            proof {
                assert(bytes@ =~= content@.subrange(range.start_byte as int, i as int));
            }
        }
        string_from_utf8(bytes)
    }

    /// Get callers of a symbol: the sources of its call edges, in the order they were added.
    pub fn get_callers(&self, id: SymbolId) -> (r: Vec<SymbolId>)
        requires
            self.wf(),
        ensures
            r@ == sources_of(self.graph().edges(), id.0, true),
    {
        let s = self.references.get_callers(id);
        copy_ids(s)
    }

    /// Get callees of a symbol: the targets of its call edges, in the order they were added.
    pub fn get_callees(&self, id: SymbolId) -> (r: Vec<SymbolId>)
        requires
            self.wf(),
        ensures
            r@ == targets_of(self.graph().edges(), id.0, true),
    {
        let s = self.references.get_callees(id);
        copy_ids(s)
    }

    /// Get callers up to a depth.
    pub fn get_callers_upto(&self, id: SymbolId, depth: usize) -> (r: Vec<(SymbolId, usize)>)
        requires
            self.wf(),
        ensures
            r@ == traversal(self.graph().edges(), true, id.0, depth as nat),
            sound_results(self.graph().edges(), true, id.0, depth as int, r@),
            depth == 0 ==> r@.len() == 0,
    {
        self.references.traverse_callers(id, depth)
    }

    /// Get callees up to a depth.
    pub fn get_callees_upto(&self, id: SymbolId, depth: usize) -> (r: Vec<(SymbolId, usize)>)
        requires
            self.wf(),
        ensures
            r@ == traversal(self.graph().edges(), false, id.0, depth as nat),
            sound_results(self.graph().edges(), false, id.0, depth as int, r@),
            depth == 0 ==> r@.len() == 0,
    {
        self.references.traverse_callees(id, depth)
    }

    /// Get all symbols, each once, in ascending id order.
    pub fn symbols(&self) -> (r: Vec<&Symbol>)
        requires
            self.wf(),
        ensures
            r@.len() == self.index().symbol_ids().len(),
            forall|i: int| 0 <= i < r@.len() ==> *r@[i] == self.index().symbols_map()[#[trigger] self.index().symbol_ids()[i]],
    {
        self.index.symbols()
    }

    /// Get file count.
    pub fn file_count(&self) -> (n: usize)
        ensures
            n == self.index().files_map().dom().len(),
    {
        self.index.file_count()
    }

    /// Get symbol count.
    pub fn symbol_count(&self) -> (n: usize)
        ensures
            n == self.index().symbols_map().dom().len(),
    {
        self.index.symbol_count()
    }

    /// Get the repository path.
    pub fn repo_path(&self) -> (r: Option<&str>)
        ensures
            r matches Some(p) ==> self.repo() == Some(p@),
            r is None ==> self.repo() is None,
    {
        match &self.repo_path {
            Some(p) => Some(p.as_str()),
            None => None,
        }
    }
}

/// The ids, copied.
fn copy_ids(s: &[SymbolId]) -> (r: Vec<SymbolId>)
    ensures
        r@ == s@,
{
    let mut v: Vec<SymbolId> = Vec::new();
    let mut i: usize = 0;
    while i < s.len()
        invariant
            i <= s@.len(),
            v@ == s@.take(i as int),
        decreases s@.len() - i,
    {
        v.push(s[i]);
        i += 1;
        proof {
            assert(v@ =~= s@.take(i as int));
        }
    }
    proof {
        assert(s@.take(s@.len() as int) =~= s@);
    }
    v
}

/// What planning context for query `q` with budget `b` gives: the symbols named `q` and
/// the lexical matches of `q` (searching the files in the order the index lists them)
/// become candidates, and the plan is made from them.
pub open spec fn context_planned(cs: CodeSift, q: Seq<char>, b: TokenBudget, r: Result<ContextPlan, Error>) -> bool {
    exists|fs: Seq<FileId>, cands: Seq<(Symbol, Option<Relationship>)>|
        #![trigger lists_all_files(cs.index(), fs), candidate_views(cands)]
        {
            &&& lists_all_files(cs.index(), fs)
            &&& candidate_views(cands) == symbol_candidates(cs.index(), q)
                + files_search(cs.index().contents_map(), fs, q, SearchMode::Exact, engine_limit(b)).map_values(|m: MatchView| match_candidate(m))
            &&& plan_outcome(r, cands, q, b, cs.index().contents_map())
        }
}

/// What the engine's search for `q` with budget `b` gives: every file searched exactly,
/// in the order the index lists them.
pub open spec fn engine_searched(cs: CodeSift, q: Seq<char>, b: TokenBudget, ms: Seq<MatchView>) -> bool {
    exists|fs: Seq<FileId>| #[trigger] lists_all_files(cs.index(), fs) && ms == files_search(
        cs.index().contents_map(),
        fs,
        q,
        SearchMode::Exact,
        engine_limit(b),
    )
}

/// The outcome of planning with these candidates: the plan that the planner makes of
/// them, within the budget's token limit.
pub open spec fn plan_outcome(
    r: Result<ContextPlan, Error>,
    cands: Seq<(Symbol, Option<Relationship>)>,
    q: Seq<char>,
    budget: TokenBudget,
    contents: Map<u64, Seq<u8>>,
) -> bool {
    let st = plan_fold(
        sort_by_score(scored(cands, seq![], q)),
        budget,
        |fid: FileId, rg: Range| source_text(contents, fid, rg),
    );
    r matches Ok(plan) && plan_matches(plan, st, budget) && plan.total_tokens <= budget.max_tokens
}

impl CodeSift {
    /// The lexical matches as candidates.
    fn match_candidates(matches: Vec<LexicalMatch>, out: &mut Vec<(Symbol, Option<Relationship>)>)
        ensures
            candidate_views(final(out)@) == candidate_views(old(out)@) + matches@.map_values(|m: LexicalMatch| match_view(m)).map_values(|m: MatchView| match_candidate(m)),
    {
        let ghost o0 = candidate_views(out@);
        let ghost mv = matches@.map_values(|m: LexicalMatch| match_view(m)).map_values(|m: MatchView| match_candidate(m));
        let mut i: usize = 0;
        while i < matches.len()
            invariant
                i <= matches@.len(),
                mv == matches@.map_values(|m: LexicalMatch| match_view(m)).map_values(|m: MatchView| match_candidate(m)),
                candidate_views(out@) == o0 + mv.take(i as int),
            decreases matches@.len() - i,
        {
            let m = &matches[i];
            let mut name = chars_of("match:");
            let line = chars_of(m.line.as_str());
            let t = trim_chars(line.as_slice());
            push_chars(&mut name, t.as_slice());
            proof {
                reveal_strlit("match:");
                assert(name@ =~= match_prefix() + trimmed(m.line@));
            }
            let sym = Symbol {
                id: SymbolId(0),
                name: string_from_chars(name.as_slice()),
                kind: SymbolKind::Variable,
                file_id: m.file_id,
                range: m.range,
                parent: None,
                visibility: Visibility::Public,
                signature: None,
            };
            let ghost before = out@;
            proof {
                assert(candidate_view((sym, None)) == match_candidate(match_view(*m)));
            }
            out.push((sym, None));
            i += 1;
            proof {
                assert(mv[i - 1] == match_candidate(match_view(matches@[i - 1])));
                assert(candidate_views(out@) =~= candidate_views(before).push(candidate_view(out@[before.len() as int])));
                assert(candidate_views(out@) =~= o0 + mv.take(i as int));
            }
        }
        proof {
            assert(mv.take(matches@.len() as int) =~= mv);
        }
    }

    /// Plan context for an agent query: the symbols with the query's name and the lexical
    /// matches of the query become candidates; they are ranked, and the planner takes them
    /// best first within the budget (the default budget where none is given).
    pub fn plan_context(&self, query: &str, budget: Option<TokenBudget>) -> (r: Result<ContextPlan, Error>)
        requires
            self.wf(),
            contents_fit(self.index().contents_map()),
            budget matches Some(b) ==> b.max_files * 100 <= usize::MAX,
        ensures
            context_planned(*self, query@, budget.unwrap_or(default_budget()), r),
    {
        let budget = match budget {
            Some(b) => b,
            None => TokenBudget::default(),
        };
        let mut candidates: Vec<(Symbol, Option<Relationship>)> = Vec::new();
        let found = self.find_symbol(query);
        let mut i: usize = 0;
        while i < found.len()
            invariant
                i <= found@.len(),
                found@.len() == self.index().ids_named(query@).len(),
                forall|j: int| 0 <= j < found@.len() ==> *found@[j] == self.index().symbols_map()[#[trigger] self.index().ids_named(query@)[j].0],
                candidate_views(candidates@) == symbol_candidates(self.index(), query@).take(i as int),
            decreases found@.len() - i,
        {
            let s = found[i].clone();
            proof {
                assert(symbol_candidates(self.index(), query@)[i as int] == (symbol_view(self.index().symbols_map()[self.index().ids_named(query@)[i as int].0]), Some(Relationship::References)));
                assert(candidate_view((s, Some(Relationship::References))) == symbol_candidates(self.index(), query@)[i as int]);
            }
            let ghost before = candidates@;
            candidates.push((s, Some(Relationship::References)));
            i += 1;
            proof {
                assert(candidate_views(candidates@) =~= candidate_views(before).push(candidate_view((s, Some(Relationship::References)))));
                assert(candidate_views(candidates@) =~= symbol_candidates(self.index(), query@).take(i as int));
            }
        }
        proof {
            assert(symbol_candidates(self.index(), query@).take(found@.len() as int) =~= symbol_candidates(self.index(), query@));
        }
        let searched = self.search(query, Some(budget));
        let ghost fs: Seq<FileId>;
        match searched {
            Ok(matches) => {
                proof {
                    fs = choose|fs: Seq<FileId>| lists_all_files(self.index(), fs)
                        && matches@.map_values(|m: LexicalMatch| match_view(m)) == files_search(self.index().contents_map(), fs, query@, SearchMode::Exact, engine_limit(budget));
                }
                CodeSift::match_candidates(matches, &mut candidates);
            },
            Err(_) => {
                proof {
                    fs = Seq::empty();
                }
            },
        }
        proof {
            assert(candidate_views(candidates@) =~= symbol_candidates(self.index(), query@)
                + files_search(self.index().contents_map(), fs, query@, SearchMode::Exact, engine_limit(budget)).map_values(|m: MatchView| match_candidate(m)));
        }
        let ghost cands = candidates@;
        let no_points: Vec<u32> = Vec::new();
        let ranked = rank_candidates(candidates, no_points.as_slice(), query);
        let ghost contents = self.index().contents_map();
        let ghost src = |fid: FileId, rg: Range| source_text(contents, fid, rg);
        let get = |fid: FileId, range: &Range| -> (o: Option<String>)
            ensures
                crate::context::opt_chars(o) == source_text(self.index().contents_map(), fid, *range),
            {
                self.get_source(fid, range)
            };
        proof {
            assert(source_agrees(get, src));
            assert(source_callable(get));
            assert(no_points@ =~= Seq::<u32>::empty());
            crate::ranking::lemma_sort_sorted_fixed(ranked@);
        }
        let ghost ranked_seq = ranked@;
        let plan = plan_context(ranked, &budget, get);
        proof {
            let outs = choose|outs: Seq<Option<String>>|
                #[trigger] answers_given(get, ranked_seq, budget, outs)
                    && plan_matches(plan, fold_upto(ranked_seq, budget, answer_chars(outs), ranked_seq.len()), budget);
            lemma_answers_agree(get, src, ranked_seq, budget, outs);
        }
        let r = Ok(plan);
        proof {
            assert(plan_outcome(r, cands, query@, budget, contents));
            assert(lists_all_files(self.index(), fs));
        }
        r
    }
}

/// What reading a changed file gave, as plain values.
pub enum ReadView {
    Missing,
    Failed(Seq<char>),
    Read(Seq<u8>, Option<(u64, u64)>),
}

pub open spec fn file_read_view(r: FileRead) -> ReadView {
    match r {
        FileRead::Missing => ReadView::Missing,
        FileRead::Failed(m) => ReadView::Failed(m@),
        FileRead::Read { content, meta } => ReadView::Read(content@, meta),
    }
}

/// The content read fits the line count of a file entry.
pub open spec fn read_fits(r: FileRead) -> bool {
    r matches FileRead::Read { content, .. } ==> newline_count(content@) % 4294967296 != 4294967295
}

pub open spec fn file_ids_message() -> Seq<char> {
    seq!['f', 'i', 'l', 'e', ' ', 'i', 'd', 's', ' ', 'e', 'x', 'h', 'a', 'u', 's', 't', 'e', 'd']
}

/// The entry a re-read file gets: from its path, size, time and content, and never
/// binary or vendored.
pub open spec fn reread_entry(path: Seq<char>, ext: Seq<char>, size: u64, modified: u64, content: Seq<u8>) -> EntryView {
    EntryView {
        id: FileId(0),
        path,
        language: extension_language(unicode_lowercase(ext)),
        size_bytes: size,
        line_count: ((newline_count(content) % 4294967296) + 1) as u32,
        modified_at: modified,
        is_binary: false,
        is_generated: false,
        is_vendor: false,
    }
}

/// `b` is `a` with the file added under the next id, its path mapped to it, and its
/// content stored.
pub open spec fn stored_file(a: Index, b: Index, e: EntryView, content: Seq<u8>) -> bool {
    let id = a.next_file();
    &&& b.next_file() == id + 1
    &&& b.next_symbol() == a.next_symbol()
    &&& b.files_map().dom() == a.files_map().dom().insert(id)
    &&& forall|k: u64| #[trigger] a.files_map().dom().contains(k) ==> b.files_map()[k] == a.files_map()[k]
    &&& entry_view(b.files_map()[id]) == (EntryView { id: FileId(id), ..e })
    &&& b.paths_map() == a.paths_map().insert(e.path, id)
    &&& b.contents_map() == a.contents_map().insert(id, content)
    &&& b.symbols_map() == a.symbols_map()
    &&& b.references_seq() == a.references_seq()
}

/// `b` is `a` with the symbols of file `f` (and their references) replaced by `syms`,
/// numbered from the next symbol id.
pub open spec fn symbols_replaced(a: Index, b: Index, f: u64, syms: Seq<SymbolView>) -> bool {
    let m = without_file_symbols(a.symbols_map(), f);
    let next = a.next_symbol() as nat;
    &&& b.symbols_map().dom() == m.dom().union(Set::new(|k: u64| next <= k < next + syms.len()))
    &&& forall|k: u64| #[trigger] m.dom().contains(k) ==> b.symbols_map()[k] == m[k]
    &&& forall|j: int| 0 <= j < syms.len() ==> symbol_view(#[trigger] b.symbols_map()[(next + j) as u64]) == renumber(syms, next)[j]
    &&& b.next_symbol() == next + syms.len()
    &&& b.references_seq() == without_edges_of_all(a.references_seq(), a.ids_in_file(f))
    &&& b.files_map() == a.files_map()
    &&& b.paths_map() == a.paths_map()
    &&& b.contents_map() == a.contents_map()
    &&& b.next_file() == a.next_file()
}

/// The steps of re-indexing a read file with entry `e`: any file at its path is removed
/// (giving `mid`), the file is added and its content stored (giving `st`), and its parsed
/// symbols replace its symbols (giving `b`); running out of ids stops with an error.
pub open spec fn reread_steps(a: Index, mid: Index, st: Index, b: Index, r: Result<(), Error>, e: EntryView, content: Seq<u8>) -> bool {
    &&& if a.paths_map().dom().contains(e.path) {
        path_removed(a, mid, e.path)
    } else {
        mid == a
    }
    &&& if mid.next_file() == u64::MAX {
        r matches Err(Error::Index(msg)) && msg@ == file_ids_message() && b == mid
    } else {
        &&& stored_file(mid, st, e, content)
        &&& match parse_outcome(e.language, content, FileId(mid.next_file())) {
            Err(_) => r is Ok && b == st,
            Ok((syms, _)) => if st.next_symbol() + syms.len() > u64::MAX {
                r matches Err(Error::Index(msg)) && msg@ == ids_message() && b == st
            } else {
                r is Ok && symbols_replaced(st, b, mid.next_file(), syms)
            },
        }
    }
}

/// What re-indexing the file at `full` does, by what reading it gave.
pub open spec fn reindex_outcome(a: CodeSift, b: CodeSift, r: Result<(), Error>, full: Seq<char>, read: ReadView) -> bool {
    &&& b.repo() == a.repo()
    &&& b.graph() == a.graph()
    &&& match read {
        ReadView::Missing => r is Ok && path_removed(a.index(), b.index(), full),
        ReadView::Failed(m) => r matches Err(Error::Io(e)) && e@ == m && b.index() == a.index(),
        ReadView::Read(content, meta) => match (meta, extension(full)) {
            (Some((size, modified)), Some(ext)) => exists|mid: Index, st: Index|
                #[trigger] reread_steps(a.index(), mid, st, b.index(), r, reread_entry(full, ext, size, modified, content), content),
            _ => r matches Err(Error::FileNotFound(msg)) && msg@ == full && b.index() == a.index(),
        },
    }
}

impl CodeSift {
    /// The path a change concerns, taken relative to the repository unless absolute, for
    /// a created or modified file; `None` for a deleted one or without a repository.
    pub fn change_path(&self, change: &FileChange) -> (r: Option<String>)
        ensures
            match (self.repo(), change) {
                (Some(rp), FileChange::Created(p)) => r matches Some(s) && s@ == full_path(rp, p@),
                (Some(rp), FileChange::Modified(p)) => r matches Some(s) && s@ == full_path(rp, p@),
                _ => r is None,
            },
    {
        match &self.repo_path {
            None => None,
            Some(rp) => match change {
                FileChange::Created(p) => Some(full_path_exec(rp.as_str(), p.as_str())),
                FileChange::Modified(p) => Some(full_path_exec(rp.as_str(), p.as_str())),
                FileChange::Deleted(_) => None,
            },
        }
    }

    /// Re-index a single file, given what reading it gave: a missing file is removed; a
    /// read file replaces any file at its path, gets the next id, its content stored, and
    /// its symbols parsed afresh.
    pub fn reindex_file(&mut self, repo_path: &str, file_path: &str, read: FileRead) -> (r: Result<(), Error>)
        requires
            old(self).wf(),
            read_fits(read),
        ensures
            final(self).wf(),
            reindex_outcome(*old(self), *final(self), r, full_path(repo_path@, file_path@), file_read_view(read)),
    {
        let full = full_path_exec(repo_path, file_path);
        let ghost a = *self;
        match read {
            FileRead::Missing => {
                let _ = self.index.remove_file_by_path(full.as_str());
                Ok(())
            },
            FileRead::Failed(m) => Err(Error::Io(m)),
            FileRead::Read { content, meta } => {
                let (size, modified) = match meta {
                    Some(x) => x,
                    None => return Err(Error::FileNotFound(full)),
                };
                let made = FileEntry::from_parts(full.clone(), size, modified, content.as_slice());
                let mut entry = match made {
                    Some(e) => e,
                    None => return Err(Error::FileNotFound(full)),
                };
                entry.is_binary = false;
                entry.is_vendor = false;
                let ghost ext = extension(full@)->0;
                proof {
                    assert(entry_view(entry) == reread_entry(full@, ext, size, modified, content@));
                }
                if self.index.has_file(full.as_str()) {
                    let _ = self.index.remove_file_by_path(full.as_str());
                }
                let ghost mid = self.index;
                if self.index.next_file_id() == u64::MAX {
                    let msg = String::from_str("file ids exhausted");
                    proof {
                        reveal_strlit("file ids exhausted");
                        assert(msg@ =~= file_ids_message());
                        assert(reread_steps(a.index(), mid, mid, self.index(), Err(Error::Index(msg)), reread_entry(full@, ext, size, modified, content@), content@));
                        assert(reindex_outcome(a, *self, Err(Error::Index(msg)), full@, file_read_view(FileRead::Read { content, meta })));
                    }
                    return Err(Error::Index(msg));
                }
                let language = entry.language;
                proof {
                    mid.lemma_keys();
                }
                let file_id = self.index.add_file(entry);
                self.index.store_content(file_id, content.clone());
                let ghost st = self.index;
                proof {
                    assert(self.index.files_map().dom() =~= mid.files_map().dom().insert(mid.next_file()));
                    assert(stored_file(mid, st, reread_entry(full@, ext, size, modified, content@), content@));
                }
                let parsed = self.parser.parse(content.as_slice(), language, file_id);
                match parsed {
                    Err(_) => {
                        proof {
                            assert(reread_steps(a.index(), mid, st, self.index(), Ok(()), reread_entry(full@, ext, size, modified, content@), content@));
                            assert(reindex_outcome(a, *self, Ok(()), full@, file_read_view(FileRead::Read { content, meta })));
                        }
                        Ok(())
                    },
                    Ok(pf) => {
                        let next = self.index.next_symbol_id();
                        let count = pf.symbols.len() as u64;
                        if next > u64::MAX - count {
                            let msg = String::from_str("symbol ids exhausted");
                            proof {
                                reveal_strlit("symbol ids exhausted");
                                assert(msg@ =~= ids_message());
                                assert(reread_steps(a.index(), mid, st, self.index(), Err(Error::Index(msg)), reread_entry(full@, ext, size, modified, content@), content@));
                                assert(reindex_outcome(a, *self, Err(Error::Index(msg)), full@, file_read_view(FileRead::Read { content, meta })));
                            }
                            return Err(Error::Index(msg));
                        }
                        let ghost syms = pf.symbols@;
                        proof {
                            st.lemma_keys();
                            crate::index::lemma_with_added_symbols(without_file_symbols(st.symbols_map(), file_id.0), st.next_symbol() as nat, syms);
                        }
                        self.index.update_file_symbols(file_id, pf.symbols, Vec::new());
                        proof {
                            let sv = syms.map_values(|s: Symbol| symbol_view(s));
                            let m = without_file_symbols(st.symbols_map(), file_id.0);
                            let next = st.next_symbol() as nat;
                            assert(self.index.symbols_map().dom() =~= m.dom().union(Set::new(|k: u64| next <= k < next + sv.len())));
                            assert forall|j: int| 0 <= j < sv.len() implies symbol_view(#[trigger] self.index.symbols_map()[(next + j) as u64]) == renumber(sv, next)[j] by {
                                assert(sv[j] == symbol_view(syms[j]));
                            }
                            assert(crate::index::with_added_references(without_edges_of_all(st.references_seq(), st.ids_in_file(file_id.0)), seq![])
                                =~= without_edges_of_all(st.references_seq(), st.ids_in_file(file_id.0)));
                            assert(symbols_replaced(st, self.index, file_id.0, sv));
                            assert(reread_steps(a.index(), mid, st, self.index(), Ok(()), reread_entry(full@, ext, size, modified, content@), content@));
                            assert(reindex_outcome(a, *self, Ok(()), full@, file_read_view(FileRead::Read { content, meta })));
                        }
                        Ok(())
                    },
                }
            },
        }
    }

    /// Process a file change event: a created or modified file is re-indexed from what
    /// reading it gave (see `change_path`); a deleted one is removed by its path as given.
    pub fn process_change(&mut self, change: FileChange, read: FileRead) -> (r: Result<(), Error>)
        requires
            old(self).wf(),
            read_fits(read),
        ensures
            final(self).wf(),
            old(self).repo() is None ==> (r matches Err(Error::Index(e)) && e@ == no_repo_message() && *final(self) == *old(self)),
            old(self).repo() matches Some(rp) ==> match change {
                FileChange::Created(p) => reindex_outcome(*old(self), *final(self), r, full_path(rp, p@), file_read_view(read)),
                FileChange::Modified(p) => reindex_outcome(*old(self), *final(self), r, full_path(rp, p@), file_read_view(read)),
                FileChange::Deleted(p) => r is Ok && path_removed(old(self).index(), final(self).index(), p@)
                    && final(self).graph() == old(self).graph() && final(self).repo() == old(self).repo(),
            },
    {
        let repo_path = match &self.repo_path {
            Some(p) => p.clone(),
            None => {
                let msg = String::from_str("No repository path set");
                proof {
                    reveal_strlit("No repository path set");
                    assert(msg@ =~= no_repo_message());
                }
                return Err(Error::Index(msg));
            },
        };
        match change {
            FileChange::Created(path) => self.reindex_file(repo_path.as_str(), path.as_str(), read),
            FileChange::Modified(path) => self.reindex_file(repo_path.as_str(), path.as_str(), read),
            FileChange::Deleted(path) => {
                let _ = self.index.remove_file_by_path(path.as_str());
                Ok(())
            },
        }
    }

    /// Re-index all files (full rebuild) from a fresh scan of the repository: the index
    /// and call graph start empty and are rebuilt as `build_into` builds them, calls
    /// linked to their definitions.
    pub fn reindex(&mut self, repo: &Repository, reads: &Vec<Result<Vec<u8>, String>>) -> (r: Result<(), Error>)
        requires
            old(self).wf(),
            repo.wf(),
            reads@.len() == repo.id_bound(),
        ensures
            final(self).wf(),
            final(self).repo() == old(self).repo(),
            old(self).repo() is None ==> (r matches Err(Error::Index(e)) && e@ == no_repo_message() && *final(self) == *old(self)),
            old(self).repo() is Some ==> ({
                let rv = reads@.map_values(|x: Result<Vec<u8>, String>| read_view(x));
                let st = build_fold(repo.files_map(), rv, repo.id_bound() as nat);
                match st.fault {
                    Some(f) => Self::build_error(r, f),
                    None => r is Ok && final(self).built(*repo, reads@),
                }
            }),
    {
        if self.repo_path.is_none() {
            let msg = String::from_str("No repository path set");
            proof {
                reveal_strlit("No repository path set");
                assert(msg@ =~= no_repo_message());
            }
            return Err(Error::Index(msg));
        }
        self.index = Index::new();
        self.references = ReferenceIndex::new();
        self.build_into(repo, reads)
    }
}

/// A path taken relative to the repository, unless it is absolute.
fn full_path_exec(repo: &str, p: &str) -> (r: String)
    ensures
        r@ == full_path(repo@, p@),
{
    let chars = chars_of(p);
    if chars.len() > 0 && chars[0] == '/' {
        String::from_str(p)
    } else {
        crate::paths::join_path(repo, p)
    }
}


// ---------------------------------------------------------------------------
// Laws.

/// A file that is read again after a change is in the index afterwards: its path names a
/// file with that path, whose stored content is what was read.
pub proof fn reread_file_is_indexed(a: CodeSift, b: CodeSift, full: Seq<char>, content: Seq<u8>, size: u64, modified: u64)
    requires
        reindex_outcome(a, b, Ok(()), full, ReadView::Read(content, Some((size, modified)))),
        extension(full) is Some,
    ensures
        b.index().paths_map().dom().contains(full),
        b.index().files_map().dom().contains(b.index().paths_map()[full]),
        b.index().files_map()[b.index().paths_map()[full]].path@ == full,
        b.index().contents_map().dom().contains(b.index().paths_map()[full]),
        b.index().contents_map()[b.index().paths_map()[full]] == content,
{
    let ext = extension(full)->0;
    let e = reread_entry(full, ext, size, modified, content);
    let (mid, st) = choose|mid: Index, st: Index| #[trigger] reread_steps(a.index(), mid, st, b.index(), Ok(()), e, content);
    let id = mid.next_file();
    assert(entry_view(st.files_map()[id]) == (EntryView { id: FileId(id), ..e }));
}

/// A file found missing after a change is gone from the index: its path is unknown, and
/// the file it named has no symbols and no content left.
pub proof fn missing_file_is_removed(a: CodeSift, b: CodeSift, full: Seq<char>)
    requires
        reindex_outcome(a, b, Ok(()), full, ReadView::Missing),
    ensures
        !b.index().paths_map().dom().contains(full),
        a.index().paths_map().dom().contains(full) && a.index().files_map().dom().contains(a.index().paths_map()[full]) ==> {
            let id = a.index().paths_map()[full];
            &&& !b.index().files_map().dom().contains(id)
            &&& !b.index().contents_map().dom().contains(id)
            &&& forall|k: u64| #[trigger] b.index().symbols_map().dom().contains(k) ==> b.index().symbols_map()[k].file_id.0 != id
        },
{
    crate::index::removed_file_leaves_nothing(a.index(), b.index(), full);
}


/// A call is linked to what it names: after a build with calls, each call found inside a
/// symbol has an edge from its caller to every symbol that bears the name it calls.
pub proof fn calls_reach_what_they_name(calls: Seq<(u64, Seq<char>)>, idx: Index, i: int, t: SymbolId)
    requires
        0 <= i < calls.len(),
        idx.ids_named(callee_key(calls[i].1)).contains(t),
    ensures
        resolved_edges(calls, idx).contains((calls[i].0, t.0, Relationship::Calls)),
    decreases calls.len(),
{
    let c = calls.last();
    let tail = idx.ids_named(callee_key(c.1)).map_values(|x: SymbolId| (c.0, x.0, Relationship::Calls));
    let head = resolved_edges(calls.drop_last(), idx);
    assert(resolved_edges(calls, idx) == head + tail);
    if i < calls.len() - 1 {
        assert(calls.drop_last()[i] == calls[i]);
        calls_reach_what_they_name(calls.drop_last(), idx, i, t);
        let k = choose|k: int| 0 <= k < head.len() && head[k] == (calls[i].0, t.0, Relationship::Calls);
        assert((head + tail)[k] == head[k]);
    } else {
        let ids = idx.ids_named(callee_key(c.1));
        let k = choose|k: int| 0 <= k < ids.len() && ids[k] == t;
        assert((head + tail)[head.len() + k] == tail[k]);
    }
}

proof fn lemma_incoming_contains(edges: Seq<(u64, u64, Relationship)>, from: u64, to: u64, rel: Relationship)
    requires
        edges.contains((from, to, rel)),
    ensures
        incoming_of(edges, to).contains((SymbolId(from), rel)),
    decreases edges.len(),
{
    let rest = incoming_of(edges.drop_last(), to);
    if edges.last() == (from, to, rel) {
        assert(incoming_of(edges, to) == rest.push((SymbolId(from), rel)));
        assert(incoming_of(edges, to)[rest.len() as int] == (SymbolId(from), rel));
    } else {
        let k = choose|k: int| 0 <= k < edges.len() && edges[k] == (from, to, rel);
        assert(edges.drop_last()[k] == edges[k]);
        lemma_incoming_contains(edges.drop_last(), from, to, rel);
        let j = choose|j: int| 0 <= j < rest.len() && rest[j] == (SymbolId(from), rel);
        if edges.last().1 == to {
            assert(incoming_of(edges, to)[j] == rest[j]);
        } else {
            assert(incoming_of(edges, to) == rest);
        }
    }
}

proof fn lemma_referrer_known(idx: Index, inc: Seq<(SymbolId, Relationship)>, from: u64, rel: Relationship)
    requires
        inc.contains((SymbolId(from), rel)),
        idx.symbols_map().dom().contains(from),
    ensures
        known_referrers(idx, inc).contains((idx.symbols_map()[from], rel)),
    decreases inc.len(),
{
    let rest = known_referrers(idx, inc.drop_last());
    let x = (idx.symbols_map()[from], rel);
    if inc.last() == (SymbolId(from), rel) {
        assert(known_referrers(idx, inc)[rest.len() as int] == x);
    } else {
        let k = choose|k: int| 0 <= k < inc.len() && inc[k] == (SymbolId(from), rel);
        assert(inc.drop_last()[k] == inc[k]);
        lemma_referrer_known(idx, inc.drop_last(), from, rel);
        let j = choose|j: int| 0 <= j < rest.len() && rest[j] == x;
        assert(known_referrers(idx, inc)[j] == rest[j]);
    }
}

proof fn lemma_references_into(idx: Index, edges: Seq<(u64, u64, Relationship)>, ids: Seq<SymbolId>, to: SymbolId, x: (Symbol, Relationship))
    requires
        ids.contains(to),
        known_referrers(idx, incoming_of(edges, to.0)).contains(x),
    ensures
        references_into(idx, edges, ids).contains(x),
    decreases ids.len(),
{
    let rest = references_into(idx, edges, ids.drop_last());
    let last = known_referrers(idx, incoming_of(edges, ids.last().0));
    if ids.last() == to {
        let j = choose|j: int| 0 <= j < last.len() && last[j] == x;
        assert((rest + last)[rest.len() + j] == last[j]);
    } else {
        let k = choose|k: int| 0 <= k < ids.len() && ids[k] == to;
        assert(ids.drop_last()[k] == ids[k]);
        lemma_references_into(idx, edges, ids.drop_last(), to, x);
        let j = choose|j: int| 0 <= j < rest.len() && rest[j] == x;
        assert((rest + last)[j] == rest[j]);
    }
}

/// A reference the call graph records is reported: where `from` refers to a symbol named
/// `n` and the index holds `from`, the references to `n` list `from` with that relationship.
pub proof fn recorded_reference_is_found(cs: CodeSift, from: u64, to: SymbolId, rel: Relationship, n: Seq<char>)
    requires
        cs.graph().edges().contains((from, to.0, rel)),
        cs.index().ids_named(n).contains(to),
        cs.index().symbols_map().dom().contains(from),
    ensures
        references_into(cs.index(), cs.graph().edges(), cs.index().ids_named(n)).contains((cs.index().symbols_map()[from], rel)),
{
    lemma_incoming_contains(cs.graph().edges(), from, to.0, rel);
    lemma_referrer_known(cs.index(), incoming_of(cs.graph().edges(), to.0), from, rel);
    lemma_references_into(cs.index(), cs.graph().edges(), cs.index().ids_named(n), to, (cs.index().symbols_map()[from], rel));
}

} // verus!
