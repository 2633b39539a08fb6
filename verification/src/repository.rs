//! The files of a repository, as a directory walk found them.
//!
//! The walk itself (and reading each file) is I/O and happens outside the library; what
//! the walk found comes in as plain values, and which paths become files, with which
//! language and flags and ids, is decided here.

use vstd::prelude::*;

use crate::paths::{
    child_of, extension, file_name, file_name_of, is_absolute, is_child_of, join, segments,
    strip_prefix, strip_prefix_of, stripped_path_joins_back,
};
use crate::tables::{file_entries, path_ids, FileTable, PathTable};
use crate::text::{
    chars_are, chars_of, contains_chars, occurs_at, seq_contains, unicode_lowercase,
};
use crate::types::{extension_language, looks_binary, newline_count, FileEntry, FileId, Language};

verus! {

/// What the walk read of a file: its size, its modification time in seconds since the
/// epoch, and its content.
#[derive(Debug)]
pub struct FileFacts {
    pub size_bytes: u64,
    pub modified_at: u64,
    pub content: Vec<u8>,
}

/// One path the walk visited: whether it is a file, and what could be read of it (`None`
/// where it was not read or reading failed).
#[derive(Debug)]
pub struct WalkEntry {
    pub path: String,
    pub is_file: bool,
    pub facts: Option<FileFacts>,
}

/// The top-level names that are skipped.
pub open spec fn excluded_name(n: Seq<char>) -> bool {
    n =~= seq!['t', 'a', 'r', 'g', 'e', 't'] || n =~= seq!['n', 'o', 'd', 'e', '_', 'm', 'o', 'd', 'u', 'l', 'e', 's']
        || n =~= seq!['d', 'i', 's', 't'] || n =~= seq!['b', 'u', 'i', 'l', 'd'] || n =~= seq!['.', 'g', 'i', 't']
        || n =~= seq!['.', 's', 'v', 'n'] || n =~= seq!['_', '_', 'p', 'y', 'c', 'a', 'c', 'h', 'e', '_', '_']
        || n =~= seq!['.', 'n', 'e', 'x', 't'] || n =~= seq!['.', 'n', 'u', 'x', 't'] || n =~= seq!['.', 'c', 'a', 'c', 'h', 'e']
        || n =~= seq!['.', 'p', 'a', 'r', 'c', 'e', 'l', '-', 'c', 'a', 'c', 'h', 'e'] || n =~= seq!['c', 'o', 'v', 'e', 'r', 'a', 'g', 'e']
        || n =~= seq!['.', 't', 'u', 'r', 'b', 'o']
}

/// The language a walked path is indexed as, or `None` where it is skipped: a top-level
/// entry with an excluded name, anything that is not a file, a file without an extension
/// or whose extension names no known language.
pub open spec fn walk_language(root: Seq<char>, path: Seq<char>, is_file: bool) -> Option<Language> {
    if strip_prefix(path, root) is None {
        None
    } else if is_child_of(path, root) && (file_name(path) matches Some(n) && excluded_name(n)) {
        None
    } else if !is_file {
        None
    } else {
        match extension(path) {
            None => None,
            Some(e) => if extension_language(unicode_lowercase(e)) == Language::Unknown {
                None
            } else {
                Some(extension_language(unicode_lowercase(e)))
            },
        }
    }
}

/// Paths under a directory whose name holds `vendor` are vendored.
pub open spec fn vendored(path: Seq<char>) -> bool {
    seq_contains(path, seq!['v', 'e', 'n', 'd', 'o', 'r'])
}

/// `name` ends with `suffix`.
pub open spec fn ends_with(name: Seq<char>, suffix: Seq<char>) -> bool {
    suffix.len() <= name.len() && name.subrange(name.len() - suffix.len(), name.len() as int) =~= suffix
}

/// File names of generated code: `*.gen.rs`, `*.pb.rs`, or with `.generated.` in them.
pub open spec fn generated_name(name: Seq<char>) -> bool {
    ends_with(name, seq!['.', 'g', 'e', 'n', '.', 'r', 's']) || ends_with(name, seq!['.', 'p', 'b', '.', 'r', 's'])
        || seq_contains(name, seq!['.', 'g', 'e', 'n', 'e', 'r', 'a', 't', 'e', 'd', '.'])
}

/// A file entry with its path taken as characters.
pub struct EntryView {
    pub id: FileId,
    pub path: Seq<char>,
    pub language: Language,
    pub size_bytes: u64,
    pub line_count: u32,
    pub modified_at: u64,
    pub is_binary: bool,
    pub is_generated: bool,
    pub is_vendor: bool,
}

pub open spec fn entry_view(f: FileEntry) -> EntryView {
    EntryView {
        id: f.id,
        path: f.path@,
        language: f.language,
        size_bytes: f.size_bytes,
        line_count: f.line_count,
        modified_at: f.modified_at,
        is_binary: f.is_binary,
        is_generated: f.is_generated,
        is_vendor: f.is_vendor,
    }
}

/// A walked path as plain values.
pub struct WalkView {
    pub path: Seq<char>,
    pub is_file: bool,
    pub facts: Option<(u64, u64, Seq<u8>)>,
}

pub open spec fn walk_view(w: WalkEntry) -> WalkView {
    WalkView {
        path: w.path@,
        is_file: w.is_file,
        facts: match w.facts {
            Some(f) => Some((f.size_bytes, f.modified_at, f.content@)),
            None => None,
        },
    }
}

/// Every file that was read has a line count that fits a `u32`.
pub open spec fn walk_fits(walked: Seq<WalkView>) -> bool {
    forall|i: int| 0 <= i < walked.len() ==> ((#[trigger] walked[i]).facts matches Some(f) ==> newline_count(f.2) % 4294967296 != 4294967295)
}

/// The entry a walked path makes, with the given id, or `None` where it is skipped or was
/// not read.
pub open spec fn walk_entry(root: Seq<char>, w: WalkView, id: nat) -> Option<EntryView> {
    match walk_language(root, w.path, w.is_file) {
        None => None,
        Some(lang) => match w.facts {
            None => None,
            Some((size, modified, content)) => Some(EntryView {
                id: FileId(id as u64),
                path: w.path,
                language: lang,
                size_bytes: size,
                line_count: ((newline_count(content) % 4294967296) + 1) as u32,
                modified_at: modified,
                is_binary: looks_binary(content),
                is_generated: (file_name(w.path) matches Some(n) && generated_name(n)),
                is_vendor: vendored(w.path),
            }),
        },
    }
}

/// The entries the first `n` walked paths make, numbered from 0 in walk order.
pub open spec fn scan_entries(root: Seq<char>, walked: Seq<WalkView>, n: nat) -> Seq<EntryView>
    decreases n,
{
    if n == 0 {
        seq![]
    } else {
        let prev = scan_entries(root, walked, (n - 1) as nat);
        match walk_entry(root, walked[n - 1], prev.len()) {
            Some(e) => prev.push(e),
            None => prev,
        }
    }
}

/// Represents a scanned repository.
pub struct Repository {
    root: String,
    files: FileTable,
    paths: PathTable,
    count: u64,
}

impl Repository {
    /// The files, by id.
    pub closed spec fn files_map(&self) -> Map<u64, FileEntry> {
        file_entries(self.files)
    }

    /// The file ids, by path.
    pub closed spec fn paths_map(&self) -> Map<Seq<char>, u64> {
        path_ids(self.paths)
    }

    pub closed spec fn root_path(&self) -> Seq<char> {
        self.root@
    }

    /// The files are numbered from 0 up to this bound.
    pub closed spec fn id_bound(&self) -> u64 {
        self.count
    }

    /// Every file is stored under its own id; the paths are those of the files, each giving
    /// the id of a file with that path.
    pub closed spec fn wf(&self) -> bool {
        &&& file_entries(self.files).dom() == Set::new(|k: u64| k < self.count)
        &&& forall|k: u64| #[trigger] file_entries(self.files).dom().contains(k) ==> file_entries(self.files)[k].id == FileId(k)
        &&& forall|k: u64| #[trigger] file_entries(self.files).dom().contains(k) ==> path_ids(self.paths).dom().contains(file_entries(self.files)[k].path@)
        &&& forall|p: Seq<char>| #[trigger] path_ids(self.paths).dom().contains(p) ==> file_entries(self.files).dom().contains(path_ids(self.paths)[p])
            && file_entries(self.files)[path_ids(self.paths)[p]].path@ == p
        &&& forall|k: u64| #[trigger] file_entries(self.files).dom().contains(k) ==> strip_prefix(file_entries(self.files)[k].path@, self.root@) is Some
    }

    /// In a well-formed repository the files are numbered densely from 0, each stored
    /// under its own id.
    pub proof fn lemma_dense(&self)
        requires
            self.wf(),
        ensures
            forall|k: u64| #[trigger] self.files_map().dom().contains(k) <==> k < self.id_bound(),
            forall|k: u64| #[trigger] self.files_map().dom().contains(k) ==> self.files_map()[k].id == FileId(k),
    {
    }

    /// The language a walked path is indexed as, or `None` where the scan skips it. A walk
    /// need only read the files this accepts.
    pub fn walk_decision(root: &str, path: &str, is_file: bool) -> (r: Option<Language>)
        ensures
            r == walk_language(root@, path@, is_file),
    {
        if strip_prefix_of(path, root).is_none() {
            return None;
        }
        if child_of(path, root) {
            if let Some(n) = file_name_of(path) {
                if is_excluded(n.as_slice()) {
                    return None;
                }
            }
        }
        if !is_file {
            return None;
        }
        match crate::paths::extension_of(path) {
            None => None,
            Some(e) => {
                let lang = Language::from_extension(e.as_str());
                if lang == Language::Unknown {
                    None
                } else {
                    Some(lang)
                }
            },
        }
    }

    /// Builds the repository from what a walk of `root` found: each accepted path that was
    /// read becomes a file, numbered from 0 in walk order.
    pub fn from_walk(root: String, walked: Vec<WalkEntry>) -> (r: Repository)
        requires
            walk_fits(walked@.map_values(|w: WalkEntry| walk_view(w))),
        ensures
            r.wf(),
            r.root_path() == root@,
            r.id_bound() == scan_entries(root@, walked@.map_values(|w: WalkEntry| walk_view(w)), walked@.len()).len(),
            ({
                let es = scan_entries(root@, walked@.map_values(|w: WalkEntry| walk_view(w)), walked@.len());
                &&& r.files_map().dom() == Set::new(|k: u64| k < es.len())
                &&& forall|k: u64| k < es.len() ==> #[trigger] entry_view(r.files_map()[k]) == es[k as int]
            }),
    {
        let ghost wv = walked@.map_values(|w: WalkEntry| walk_view(w));
        let mut files = FileTable::new();
        let mut paths = PathTable::new();
        let mut count: u64 = 0;
        let mut i: usize = 0;
        while i < walked.len()
            invariant
                i <= walked@.len(),
                wv == walked@.map_values(|w: WalkEntry| walk_view(w)),
                walk_fits(wv),
                count == scan_entries(root@, wv, i as nat).len(),
                count <= i,
                file_entries(files).dom() == Set::new(|k: u64| k < count),
                forall|k: u64| k < count ==> #[trigger] entry_view(file_entries(files)[k]) == scan_entries(root@, wv, i as nat)[k as int],
                forall|k: u64| #[trigger] file_entries(files).dom().contains(k) ==> file_entries(files)[k].id == FileId(k),
                forall|k: u64| #[trigger] file_entries(files).dom().contains(k) ==> path_ids(paths).dom().contains(file_entries(files)[k].path@),
                forall|p: Seq<char>| #[trigger] path_ids(paths).dom().contains(p) ==> file_entries(files).dom().contains(path_ids(paths)[p])
                    && file_entries(files)[path_ids(paths)[p]].path@ == p,
                forall|k: u64| #[trigger] file_entries(files).dom().contains(k) ==> strip_prefix(file_entries(files)[k].path@, root@) is Some,
            decreases walked@.len() - i,
        {
            let w = &walked[i];
            proof {
                assert(wv[i as int] == walk_view(walked@[i as int]));
            }
            let lang = Repository::walk_decision(root.as_str(), w.path.as_str(), w.is_file);
            match lang {
                None => {},
                Some(language) => match &w.facts {
                    None => {},
                    Some(f) => {
                        proof {
                            assert(newline_count(f.content@) % 4294967296 != 4294967295);
                        }
                        let made = FileEntry::from_parts(w.path.clone(), f.size_bytes, f.modified_at, f.content.as_slice());
                        match made {
                            None => {},
                            Some(mut entry) => {
                                let name = file_name_of(w.path.as_str());
                                let generated = match name {
                                    Some(n) => is_generated_name(n.as_slice()),
                                    None => false,
                                };
                                entry.is_generated = generated;
                                entry.is_vendor = is_vendored(w.path.as_str());
                                entry.language = language;
                                entry.id = FileId(count);
                                let key = entry.path.clone();
                                let ghost added = entry;
                                files.insert(count, entry);
                                paths.insert(key, count);
                                proof {
                                    assert(entry_view(added) == walk_entry(root@, wv[i as int], count as nat)->0);
                                }
                                count = count + 1;
                            },
                        }
                    },
                },
            }
            i += 1;
            proof {
                assert(file_entries(files).dom() =~= Set::new(|k: u64| k < count));
            }
        }
        Repository { root, files, paths, count }
    }

    /// Get a file by ID.
    pub fn get_file(&self, id: FileId) -> (r: Option<&FileEntry>)
        ensures
            r is Some <==> self.files_map().dom().contains(id.0),
            r matches Some(f) ==> *f == self.files_map()[id.0],
    {
        self.files.get(id.0)
    }

    /// Get a file by path.
    pub fn get_file_by_path(&self, path: &str) -> (r: Option<&FileEntry>)
        requires
            self.wf(),
        ensures
            r is Some <==> self.paths_map().dom().contains(path@),
            r matches Some(f) ==> *f == self.files_map()[self.paths_map()[path@]] && f.path@ == path@,
    {
        match self.paths.get(path) {
            Some(id) => self.files.get(*id),
            None => None,
        }
    }

    /// All files, each once, in ascending id order.
    pub fn files(&self) -> (r: Vec<&FileEntry>)
        requires
            self.wf(),
        ensures
            r@.len() == self.id_bound(),
            forall|i: int| 0 <= i < r@.len() ==> *r@[i] == self.files_map()[i as u64],
    {
        let mut out: Vec<&FileEntry> = Vec::new();
        let mut k: u64 = 0;
        while k < self.count
            invariant
                self.wf(),
                k <= self.id_bound(),
                out@.len() == k,
                forall|i: int| 0 <= i < out@.len() ==> *out@[i] == self.files_map()[i as u64],
            decreases self.id_bound() - k,
        {
            proof {
                assert(self.files_map().dom().contains(k));
            }
            let f = self.files.get(k).unwrap();
            out.push(f);
            k += 1;
        }
        out
    }

    /// The bound below which every number is a file id.
    pub fn id_count(&self) -> (n: u64)
        ensures
            n == self.id_bound(),
    {
        self.count
    }

    /// Get file count.
    pub fn file_count(&self) -> (n: usize)
        ensures
            n == self.files_map().dom().len(),
    {
        self.files.len()
    }

    /// Get root path.
    pub fn root(&self) -> (r: &str)
        ensures
            r@ == self.root_path(),
    {
        self.root.as_str()
    }

    /// The path of a file relative to the root, where the root begins it (as it begins
    /// every file's path in a scanned repository).
    pub fn relative_path(&self, id: FileId) -> (r: Option<String>)
        ensures
            self.wf() ==> (r is Some <==> self.files_map().dom().contains(id.0)),
            !self.files_map().dom().contains(id.0) ==> r is None,
            self.files_map().dom().contains(id.0) ==> (match strip_prefix(self.files_map()[id.0].path@, self.root_path()) {
                Some(rel) => r matches Some(s) && s@ == rel,
                None => r is None,
            }),
    {
        match self.files.get(id.0) {
            None => None,
            Some(entry) => strip_prefix_of(entry.path.as_str(), self.root.as_str()),
        }
    }
}

fn is_excluded(n: &[char]) -> (b: bool)
    ensures
        b == excluded_name(n@),
{
    chars_are(n, &['t', 'a', 'r', 'g', 'e', 't']) || chars_are(n, &['n', 'o', 'd', 'e', '_', 'm', 'o', 'd', 'u', 'l', 'e', 's'])
        || chars_are(n, &['d', 'i', 's', 't']) || chars_are(n, &['b', 'u', 'i', 'l', 'd']) || chars_are(n, &['.', 'g', 'i', 't'])
        || chars_are(n, &['.', 's', 'v', 'n']) || chars_are(n, &['_', '_', 'p', 'y', 'c', 'a', 'c', 'h', 'e', '_', '_'])
        || chars_are(n, &['.', 'n', 'e', 'x', 't']) || chars_are(n, &['.', 'n', 'u', 'x', 't']) || chars_are(n, &['.', 'c', 'a', 'c', 'h', 'e'])
        || chars_are(n, &['.', 'p', 'a', 'r', 'c', 'e', 'l', '-', 'c', 'a', 'c', 'h', 'e']) || chars_are(n, &['c', 'o', 'v', 'e', 'r', 'a', 'g', 'e'])
        || chars_are(n, &['.', 't', 'u', 'r', 'b', 'o'])
}

fn is_vendored(path: &str) -> (b: bool)
    ensures
        b == vendored(path@),
{
    let p = chars_of(path);
    contains_chars(p.as_slice(), &['v', 'e', 'n', 'd', 'o', 'r'])
}

fn ends_with_exec(name: &[char], suffix: &[char]) -> (b: bool)
    ensures
        b == ends_with(name@, suffix@),
{
    if suffix.len() > name.len() {
        return false;
    }
    let start = name.len() - suffix.len();
    let mut k: usize = 0;
    while k < suffix.len()
        invariant
            start + suffix@.len() == name@.len(),
            name@.len() == name.len(),
            k <= suffix@.len(),
            forall|j: int| 0 <= j < k ==> name@[start + j] == suffix@[j],
        decreases suffix@.len() - k,
    {
        if name[start + k] != suffix[k] {
            proof {
                assert(name@.subrange(start as int, name@.len() as int)[k as int] != suffix@[k as int]);
            }
            return false;
        }
        k += 1;
    }
    proof {
        assert(name@.subrange(start as int, name@.len() as int) =~= suffix@);
    }
    true
}

fn is_generated_name(name: &[char]) -> (b: bool)
    ensures
        b == generated_name(name@),
{
    ends_with_exec(name, &['.', 'g', 'e', 'n', '.', 'r', 's']) || ends_with_exec(name, &['.', 'p', 'b', '.', 'r', 's'])
        || contains_chars(name, &['.', 'g', 'e', 'n', 'e', 'r', 'a', 't', 'e', 'd', '.'])
}

/// Every file of a scanned repository has a path relative to the root (what
/// `relative_path` gives), and that path joined back onto the root names the file's path
/// again: the same components, from the root exactly when the file's path is.
pub proof fn relative_path_joins_back(repo: Repository, id: u64)
    requires
        repo.wf(),
        repo.files_map().dom().contains(id),
    ensures
        strip_prefix(repo.files_map()[id].path@, repo.root_path()) is Some,
        ({
            let p = repo.files_map()[id].path@;
            let back = join(repo.root_path(), strip_prefix(p, repo.root_path())->0);
            segments(back) == segments(p) && is_absolute(back) == is_absolute(p)
        }),
{
    stripped_path_joins_back(repo.files_map()[id].path@, repo.root_path());
}

} // verus!
