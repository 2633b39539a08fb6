//! Query analysis and the inputs of hybrid retrieval.
//!
//! Which retrieval a query calls for, the lexical half of hybrid retrieval, and the code
//! fragments the semantic index is built from. The floating-point scoring that combines
//! the two halves lives outside the library.

use vstd::prelude::*;

use crate::index::{Index, LexicalMatch, TokenBudget};
use crate::search::{
    all_file_ids, contents_fit, files_search, lemma_lines_fit, line_len, line_start, lists_all_files, lossy_text, lossy_utf8,
    match_view, search, search_limit, searched_files, split_lines, text_lines, MatchView,
    SearchMode, SearchQuery,
};
use crate::semantic::{is_alphanumeric, unicode_alphanumeric, CodeFragment};
use crate::text::{
    chars_of, contains_chars, is_white, is_white_exec, occurs_at, push_decimal, decimal,
    seq_contains, str_byte_len, string_from_chars, to_lowercase, unicode_lowercase, utf8_len,
    byte_len,
};
use crate::types::{FileId, Range};

verus! {

/// Hybrid search mode.
#[derive(Debug, Clone, Copy, PartialEq, Eq, Structural)]
pub enum RetrievalMode {
    /// Lexical search only (default).
    Lexical,
    /// Semantic search only.
    Semantic,
    /// Combine lexical and semantic (default for natural language queries).
    Hybrid,
}

impl Default for RetrievalMode {
    fn default() -> (m: Self)
        ensures
            m == RetrievalMode::Lexical,
    {
        RetrievalMode::Lexical
    }
}

/// The words that mark a question.
pub open spec fn question_words() -> Seq<Seq<char>> {
    seq![
        seq!['w', 'h', 'a', 't'],
        seq!['h', 'o', 'w'],
        seq!['w', 'h', 'y'],
        seq!['w', 'h', 'e', 'r', 'e'],
        seq!['w', 'h', 'e', 'n'],
        seq!['w', 'h', 'i', 'c', 'h'],
    ]
}

/// The lower-cased query holds a question word.
pub open spec fn has_question_word(q: Seq<char>) -> bool {
    exists|k: int| 0 <= k < 6 && seq_contains(unicode_lowercase(q), #[trigger] question_words()[k])
}

/// Every character is alphanumeric, `_` or `:`.
pub open spec fn identifier_like(q: Seq<char>) -> bool {
    forall|i: int| 0 <= i < q.len() ==> unicode_alphanumeric(#[trigger] q[i]) || q[i] == '_' || q[i] == ':'
}

/// The retrieval a query calls for: hybrid for a question, or for a query of more than 20
/// bytes that is not identifier-like; lexical otherwise.
pub open spec fn query_mode(q: Seq<char>) -> RetrievalMode {
    if has_question_word(q) || (byte_len(q) > 20 && !identifier_like(q)) {
        RetrievalMode::Hybrid
    } else {
        RetrievalMode::Lexical
    }
}

/// Query analysis chooses hybrid retrieval exactly for a query whose lower-cased form
/// holds one of the words "what", "how", "why", "where", "when", "which", or that is
/// longer than 20 bytes and holds a character other than an alphanumeric, `_` or `:`;
/// every other query is lexical, and no query is analyzed as semantic only.
pub proof fn analyzed_query_mode(q: Seq<char>)
    ensures
        query_mode(q) == RetrievalMode::Hybrid <==> ({
            let l = unicode_lowercase(q);
            ||| seq_contains(l, seq!['w', 'h', 'a', 't'])
            ||| seq_contains(l, seq!['h', 'o', 'w'])
            ||| seq_contains(l, seq!['w', 'h', 'y'])
            ||| seq_contains(l, seq!['w', 'h', 'e', 'r', 'e'])
            ||| seq_contains(l, seq!['w', 'h', 'e', 'n'])
            ||| seq_contains(l, seq!['w', 'h', 'i', 'c', 'h'])
            ||| (byte_len(q) > 20 && exists|i: int|
                0 <= i < q.len() && !(unicode_alphanumeric(#[trigger] q[i]) || q[i] == '_' || q[i] == ':'))
        }),
        query_mode(q) == RetrievalMode::Hybrid || query_mode(q) == RetrievalMode::Lexical,
{
    let l = unicode_lowercase(q);
    let w = question_words();
    if has_question_word(q) {
        let k = choose|k: int| 0 <= k < 6 && seq_contains(l, #[trigger] w[k]);
        assert(k == 0 || k == 1 || k == 2 || k == 3 || k == 4 || k == 5);
    }
    if seq_contains(l, seq!['w', 'h', 'a', 't']) {
        assert(seq_contains(l, w[0]));
    }
    if seq_contains(l, seq!['h', 'o', 'w']) {
        assert(seq_contains(l, w[1]));
    }
    if seq_contains(l, seq!['w', 'h', 'y']) {
        assert(seq_contains(l, w[2]));
    }
    if seq_contains(l, seq!['w', 'h', 'e', 'r', 'e']) {
        assert(seq_contains(l, w[3]));
    }
    if seq_contains(l, seq!['w', 'h', 'e', 'n']) {
        assert(seq_contains(l, w[4]));
    }
    if seq_contains(l, seq!['w', 'h', 'i', 'c', 'h']) {
        assert(seq_contains(l, w[5]));
    }
}

/// Query analysis to determine best retrieval strategy.
pub fn analyze_query(query: &str) -> (m: RetrievalMode)
    ensures
        m == query_mode(query@),
{
    let lower = to_lowercase(query);
    let lc = chars_of(lower.as_str());
    let words: [&[char]; 6] = [
        &['w', 'h', 'a', 't'],
        &['h', 'o', 'w'],
        &['w', 'h', 'y'],
        &['w', 'h', 'e', 'r', 'e'],
        &['w', 'h', 'e', 'n'],
        &['w', 'h', 'i', 'c', 'h'],
    ];
    let mut has_question = false;
    let mut k: usize = 0;
    while k < 6
        invariant
            k <= 6,
            words@.len() == 6,
            forall|j: int| 0 <= j < 6 ==> (#[trigger] words@[j])@ == question_words()[j],
            lc@ == unicode_lowercase(query@),
            has_question == exists|j: int| 0 <= j < k && seq_contains(unicode_lowercase(query@), #[trigger] question_words()[j]),
        decreases 6 - k,
    {
        if contains_chars(lc.as_slice(), words[k]) {
            has_question = true;
        }
        k += 1;
    }
    let chars = chars_of(query);
    let mut ident = true;
    let mut i: usize = 0;
    while i < chars.len()
        invariant
            i <= chars@.len(),
            chars@ == query@,
            ident == forall|j: int| 0 <= j < i ==> unicode_alphanumeric(#[trigger] query@[j]) || query@[j] == '_' || query@[j] == ':',
        decreases chars@.len() - i,
    {
        let c = chars[i];
        if !(is_alphanumeric(c) || c == '_' || c == ':') {
            ident = false;
        }
        i += 1;
    }
    if has_question || (str_byte_len(query) > 20 && !ident) {
        RetrievalMode::Hybrid
    } else {
        RetrievalMode::Lexical
    }
}

/// The lexical half of hybrid retrieval: a case-insensitive search of every file.
pub fn lexical_only(query: &str, index: &Index, budget: &TokenBudget) -> (r: Vec<LexicalMatch>)
    requires
        index.wf(),
        contents_fit(index.contents_map()),
        budget.max_files * 100 <= usize::MAX,
    ensures
        exists|fs: Seq<FileId>|
            lists_all_files(*index, fs) && r@.map_values(|m: LexicalMatch| match_view(m)) == files_search(
                index.contents_map(),
                fs,
                query@,
                SearchMode::CaseInsensitive,
                (budget.max_files * 100) as usize,
            ),
{
    let search_query = SearchQuery {
        pattern: String::from_str(query),
        mode: SearchMode::CaseInsensitive,
        file_ids: None,
        max_results: budget.max_files * 100,
    };
    let r = search(&search_query, index, budget);
    match r {
        Ok(ms) => {
            proof {
                let fs = choose|fs: Seq<FileId>| searched_files(search_query, *index, fs)
                    && ms@.map_values(|m: LexicalMatch| match_view(m)) == files_search(index.contents_map(), fs, search_query.pattern@, search_query.mode, search_limit(search_query, *budget));
                assert(lists_all_files(*index, fs));
            }
            ms
        },
        Err(_) => Vec::new(),
    }
}

// ---------------------------------------------------------------------------
// Fragments for the semantic index.

/// `a` is where the first character that is not whitespace stands.
pub open spec fn first_non_white(l: Seq<char>, a: int) -> bool {
    &&& 0 <= a < l.len()
    &&& !is_white(l[a])
    &&& forall|k: int| 0 <= k < a ==> is_white(#[trigger] l[k])
}

/// A line makes a fragment when, trimmed of whitespace, it is not empty and starts with
/// neither `//` nor `#`.
pub open spec fn fragment_line(l: Seq<char>) -> bool {
    exists|a: int|
        #[trigger] first_non_white(l, a) && l[a] != '#' && !(l[a] == '/' && a + 1 < l.len() && l[a
            + 1] == '/')
}

/// A fragment with its texts taken as characters.
pub struct FragmentSpec {
    pub id: Seq<char>,
    pub file_id: FileId,
    pub range: Range,
    pub text: Seq<char>,
}

pub open spec fn code_fragment_view(f: CodeFragment) -> FragmentSpec {
    FragmentSpec { id: f.id@, file_id: f.file_id, range: f.range, text: f.text@ }
}

/// The fragment that line `i` of a file makes: its id is the file id and the line index,
/// joined by `:`.
pub open spec fn line_fragment(lines: Seq<Seq<char>>, i: nat, file: FileId) -> FragmentSpec {
    FragmentSpec {
        id: decimal(file.0 as nat) + seq![':'] + decimal(i),
        file_id: file,
        range: Range {
            start_byte: line_start(lines, i) as usize,
            end_byte: (line_start(lines, i) + utf8_len(lines[i as int])) as usize,
            start_line: (i + 1) as u32,
            end_line: (i + 1) as u32,
        },
        text: lines[i as int],
    }
}

/// The fragments of the first `n` lines.
pub open spec fn fragments_upto(lines: Seq<Seq<char>>, file: FileId, n: nat) -> Seq<FragmentSpec>
    decreases n,
{
    if n == 0 {
        seq![]
    } else {
        let prev = fragments_upto(lines, file, (n - 1) as nat);
        if fragment_line(lines[n - 1]) {
            prev.push(line_fragment(lines, (n - 1) as nat, file))
        } else {
            prev
        }
    }
}

/// The fragments of a file's text.
pub open spec fn text_fragments(t: Seq<char>, file: FileId) -> Seq<FragmentSpec> {
    fragments_upto(text_lines(t), file, text_lines(t).len())
}

/// The fragments of the files in turn; a file without content gives none.
pub open spec fn files_fragments(contents: Map<u64, Seq<u8>>, fs: Seq<FileId>) -> Seq<FragmentSpec>
    decreases fs.len(),
{
    if fs.len() == 0 {
        seq![]
    } else {
        files_fragments(contents, fs.drop_last()) + if contents.dom().contains(fs.last().0) {
            text_fragments(lossy_utf8(contents[fs.last().0]), fs.last())
        } else {
            seq![]
        }
    }
}

/// Whether the line makes a fragment.
fn is_fragment_line(l: &[char]) -> (b: bool)
    ensures
        b == fragment_line(l@),
{
    let mut a: usize = 0;
    while a < l.len()
        invariant
            a <= l@.len(),
            forall|k: int| 0 <= k < a ==> is_white(#[trigger] l@[k]),
        decreases l@.len() - a,
    {
        if !is_white_exec(l[a]) {
            proof {
                assert(first_non_white(l@, a as int));
                assert forall|b: int| #[trigger] first_non_white(l@, b) implies b == a by {
                    if b < a {
                        assert(is_white(l@[b]));
                    }
                    if b > a {
                        assert(is_white(l@[a as int]));
                    }
                }
            }
            let c = l[a];
            return c != '#' && !(c == '/' && a + 1 < l.len() && l[a + 1] == '/');
        }
        a += 1;
    }
    false
}

/// The fragment id of line `i` of a file.
fn fragment_id(file: FileId, i: usize) -> (s: String)
    ensures
        s@ == decimal(file.0 as nat) + seq![':'] + decimal(i as nat),
{
    let mut v: Vec<char> = Vec::new();
    push_decimal(&mut v, file.0);
    v.push(':');
    push_decimal(&mut v, i as u64);
    proof {
        assert(v@ =~= decimal(file.0 as nat) + seq![':'] + decimal(i as nat));
    }
    string_from_chars(v.as_slice())
}

/// The fragment for line `i`, which starts at byte `start` and has `len` bytes.
fn make_fragment(line: &Vec<char>, start: usize, len: usize, i: usize, file_id: FileId, Ghost(ls): Ghost<Seq<Seq<char>>>) -> (f: CodeFragment)
    requires
        i < ls.len() < u32::MAX,
        line@ == ls[i as int],
        start == line_start(ls, i as nat),
        len == utf8_len(ls[i as int]),
        start + len <= usize::MAX,
    ensures
        code_fragment_view(f) == line_fragment(ls, i as nat, file_id),
{
    let number = (i + 1) as u32;
    CodeFragment {
        id: fragment_id(file_id, i),
        file_id,
        range: Range::new(start, start + len, number, number),
        text: string_from_chars(line.as_slice()),
    }
}

/// The fragments of a text: each line that is neither blank nor a comment, with its line
/// number and its range counted as the lexical search counts it.
#[verifier::rlimit(30)]
pub fn text_fragments_exec(text: &str, file_id: FileId) -> (r: Vec<CodeFragment>)
    requires
        text_lines(text@).len() < u32::MAX,
    ensures
        r@.map_values(|f: CodeFragment| code_fragment_view(f)) == text_fragments(text@, file_id),
{
    let chars = chars_of(text);
    let lines = split_lines(chars.as_slice());
    let ghost ls = text_lines(text@);
    let bytes = text.as_bytes();
    let nbytes = bytes.len();
    proof {
        lemma_lines_fit(text@);
        assert(bytes@.len() == utf8_len(text@));
    }
    let mut out: Vec<CodeFragment> = Vec::new();
    let mut start: usize = 0;
    let mut i: usize = 0;
    while i < lines.len()
        invariant
            i <= lines@.len(),
            lines@.map_values(|v: Vec<char>| v@) == ls,
            ls == text_lines(text@),
            ls.len() < u32::MAX,
            utf8_len(text@) <= usize::MAX,
            forall|k: int| 0 <= k < ls.len() ==> line_start(ls, k as nat) + utf8_len(#[trigger] ls[k]) <= utf8_len(text@),
            i < ls.len() ==> start == line_start(ls, i as nat),
            out@.map_values(|f: CodeFragment| code_fragment_view(f)) == fragments_upto(ls, file_id, i as nat),
        decreases lines@.len() - i,
    {
        let line = &lines[i];
        proof {
            assert(line@ == ls[i as int]);
            assert(line_start(ls, i as nat) + utf8_len(ls[i as int]) <= utf8_len(text@));
            if i + 1 < ls.len() {
                assert(line_start(ls, (i + 1) as nat) + utf8_len(ls[i + 1]) <= utf8_len(text@));
            }
        }
        let len = line_len(line.as_slice());
        if is_fragment_line(line.as_slice()) {
            let f = make_fragment(line, start, len, i, file_id, Ghost(ls));
            let ghost before = out@;
            out.push(f);
            proof {
                assert(out@.map_values(|f: CodeFragment| code_fragment_view(f)) =~= before.map_values(|f: CodeFragment| code_fragment_view(f)).push(line_fragment(ls, i as nat, file_id)));
            }
        }
        if i + 1 < lines.len() {
            start = start + len + 1;
        }
        i += 1;
    }
    out
}

/// The fragments the semantic index is built from: the fragment lines of every file with
/// content, file by file in the order the index lists them.
pub fn semantic_fragments(index: &Index) -> (r: Vec<CodeFragment>)
    requires
        index.wf(),
        contents_fit(index.contents_map()),
    ensures
        exists|fs: Seq<FileId>| lists_all_files(*index, fs) && r@.map_values(|f: CodeFragment| code_fragment_view(f)) == files_fragments(index.contents_map(), fs),
{
    let all = all_file_ids(index);
    let mut ids: Vec<FileId> = Vec::new();
    let mut out: Vec<CodeFragment> = Vec::new();
    let mut i: usize = 0;
    while i < all.len()
        invariant
            i <= all@.len(),
            ids@ == all@.take(i as int),
            contents_fit(index.contents_map()),
            out@.map_values(|f: CodeFragment| code_fragment_view(f)) == files_fragments(index.contents_map(), ids@),
        decreases all@.len() - i,
    {
        let f = all[i];
        let ghost before_ids = ids@;
        ids.push(f);
        proof {
            assert(ids@.drop_last() =~= before_ids);
            assert(ids@ =~= all@.take(i + 1));
        }
        match index.get_content(f) {
            Some(content) => {
                let text = lossy_text(content.as_slice());
                let mut found = text_fragments_exec(text.as_str(), f);
                let ghost before = out@;
                out.append(&mut found);
                proof {
                    assert(out@.map_values(|f: CodeFragment| code_fragment_view(f)) =~= before.map_values(|f: CodeFragment| code_fragment_view(f)) + text_fragments(lossy_utf8(index.contents_map()[f.0]), f));
                }
            },
            None => {
                proof {
                    assert(files_fragments(index.contents_map(), ids@) =~= files_fragments(index.contents_map(), before_ids));
                }
            },
        }
        i += 1;
    }
    proof {
        assert(all@.take(i as int) =~= all@);
    }
    out
}

} // verus!
