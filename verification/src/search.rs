//! Lexical search over file contents.
//!
//! A file's bytes are decoded as `String::from_utf8_lossy` decodes them, split into lines
//! as `str::lines` splits them, and each line is tested against the pattern in one of four
//! modes. Regular expressions are the regex crate's; everything around them is verified.

use vstd::prelude::*;

use crate::index::{Index, LexicalMatch, TokenBudget};
use crate::text::{
    char_utf8_len, chars_of, contains_chars, is_white, is_white_exec, lemma_encode_concat,
    lemma_utf8_len_push, matches_at, occurs_at, seq_contains, string_from_chars, to_lowercase,
    unicode_lowercase, utf8_len,
};
use crate::types::{FileId, Range};

verus! {

/// Search mode for lexical queries.
#[derive(Debug, Clone, Copy, PartialEq, Eq, Structural)]
pub enum SearchMode {
    /// Match exact text.
    Exact,
    /// Match as regex pattern.
    Regex,
    /// Match as identifier (a whole whitespace-separated word).
    Identifier,
    /// Case-insensitive match.
    CaseInsensitive,
}

impl Default for SearchMode {
    fn default() -> (m: Self)
        ensures
            m == SearchMode::Exact,
    {
        SearchMode::Exact
    }
}

/// Search query parameters.
#[derive(Debug, Clone)]
pub struct SearchQuery {
    pub pattern: String,
    pub mode: SearchMode,
    pub file_ids: Option<Vec<FileId>>,
    pub max_results: usize,
}

impl Default for SearchQuery {
    fn default() -> (q: Self)
        ensures
            q.pattern@ == Seq::<char>::empty(),
            q.mode == SearchMode::Exact,
            q.file_ids is None,
            q.max_results == 1000,
    {
        SearchQuery { pattern: String::new(), mode: SearchMode::Exact, file_ids: None, max_results: 1000 }
    }
}

// ---------------------------------------------------------------------------
// What comes from outside: lossy decoding and regular expressions.

/// The text that `String::from_utf8_lossy` makes of the bytes.
pub uninterp spec fn lossy_utf8(bytes: Seq<u8>) -> Seq<char>;

/// `String::from_utf8_lossy`. The text is named; where the bytes are valid UTF-8 it is their
/// decoding.
#[verifier::external_body]
pub(crate) fn lossy_text(bytes: &[u8]) -> (s: String)
    ensures
        s@ == lossy_utf8(bytes@),
        vstd::utf8::valid_utf8(bytes@) ==> s@ == vstd::utf8::decode_utf8(bytes@),
{
    String::from_utf8_lossy(bytes).into_owned()
}

#[verifier::external_type_specification]
#[verifier::external_body]
pub struct ExRegex(regex::Regex);

/// Whether the regex crate accepts the pattern.
pub uninterp spec fn regex_compiles(pattern: Seq<char>) -> bool;

/// Whether the regex crate finds a match of the pattern somewhere in the text.
pub uninterp spec fn regex_finds(pattern: Seq<char>, haystack: Seq<char>) -> bool;

/// A regular expression compiled by the regex crate, kept with the pattern it came from.
pub struct CompiledRegex {
    re: regex::Regex,
    pattern: String,
}

impl CompiledRegex {
    /// The pattern this expression was compiled from.
    pub closed spec fn source(&self) -> Seq<char> {
        self.pattern@
    }
}

/// `regex::Regex::new`. Whether the pattern compiles is named; a compiled expression keeps
/// its pattern.
#[verifier::external_body]
fn compile_regex(pattern: &str) -> (r: Option<CompiledRegex>)
    ensures
        r is Some <==> regex_compiles(pattern@),
        r matches Some(c) ==> c.source() == pattern@,
{
    match regex::Regex::new(pattern) {
        Ok(re) => Some(CompiledRegex { re, pattern: pattern.to_string() }),
        Err(_) => None,
    }
}

/// `regex::Regex::is_match`. Whether the expression matches the text is named, by the
/// pattern the expression was compiled from.
#[verifier::external_body]
fn regex_is_match(re: &CompiledRegex, haystack: &str) -> (b: bool)
    ensures
        b == regex_finds(re.source(), haystack@),
{
    re.re.is_match(haystack)
}

// ---------------------------------------------------------------------------
// Lines, as `str::lines` yields them.

/// A line ended by `\n` loses one `\r` before it.
pub open spec fn strip_cr(l: Seq<char>) -> Seq<char> {
    if l.len() > 0 && l.last() == '\r' {
        l.drop_last()
    } else {
        l
    }
}

/// The lines ended so far, and the line in progress, after the first `n` characters.
pub open spec fn scan_lines(t: Seq<char>, n: nat) -> (Seq<Seq<char>>, Seq<char>)
    decreases n,
{
    if n == 0 {
        (seq![], seq![])
    } else {
        let (done, cur) = scan_lines(t, (n - 1) as nat);
        if t[n - 1] == '\n' {
            (done.push(strip_cr(cur)), seq![])
        } else {
            (done, cur.push(t[n - 1]))
        }
    }
}

/// The lines of a text: split at `\n` (a `\r` before it goes too); a last line without
/// `\n` counts when it is not empty.
pub open spec fn text_lines(t: Seq<char>) -> Seq<Seq<char>> {
    let (done, cur) = scan_lines(t, t.len());
    if cur.len() > 0 {
        done.push(cur)
    } else {
        done
    }
}

/// Splits a text into its lines.
pub fn split_lines(t: &[char]) -> (r: Vec<Vec<char>>)
    ensures
        r@.map_values(|v: Vec<char>| v@) == text_lines(t@),
{
    let mut done: Vec<Vec<char>> = Vec::new();
    let mut cur: Vec<char> = Vec::new();
    let mut i: usize = 0;
    while i < t.len()
        invariant
            i <= t@.len(),
            done@.map_values(|v: Vec<char>| v@) == scan_lines(t@, i as nat).0,
            cur@ == scan_lines(t@, i as nat).1,
        decreases t@.len() - i,
    {
        let c = t[i];
        if c == '\n' {
            if cur.len() > 0 && cur[cur.len() - 1] == '\r' {
                cur.pop();
            }
            let line = cur;
            done.push(line);
            cur = Vec::new();
        } else {
            cur.push(c);
        }
        i += 1;
        proof {
            assert(done@.map_values(|v: Vec<char>| v@) =~= scan_lines(t@, i as nat).0);
            assert(cur@ =~= scan_lines(t@, i as nat).1);
        }
    }
    if cur.len() > 0 {
        done.push(cur);
    }
    proof {
        assert(done@.map_values(|v: Vec<char>| v@) =~= text_lines(t@));
    }
    done
}

/// The byte offset the search gives line `i`: every earlier line counts its bytes and one
/// more for its line end.
pub open spec fn line_start(lines: Seq<Seq<char>>, i: nat) -> nat
    decreases i,
{
    if i == 0 {
        0
    } else {
        line_start(lines, (i - 1) as nat) + utf8_len(lines[i - 1]) + 1
    }
}

proof fn lemma_line_start_prefix(a: Seq<Seq<char>>, x: Seq<char>, i: nat)
    requires
        i <= a.len(),
    ensures
        line_start(a.push(x), i) == line_start(a, i),
    decreases i,
{
    if i > 0 {
        lemma_line_start_prefix(a, x, (i - 1) as nat);
        assert(a.push(x)[i - 1] == a[i - 1]);
    }
}

proof fn lemma_line_start_mono(a: Seq<Seq<char>>, i: nat, j: nat)
    requires
        i <= j,
    ensures
        line_start(a, i) <= line_start(a, j),
    decreases j,
{
    if i < j {
        lemma_line_start_mono(a, i, (j - 1) as nat);
    }
}

proof fn lemma_newline_width()
    ensures
        vstd::utf8::encode_scalar('\n' as u32).len() == 1,
        vstd::utf8::encode_scalar('\r' as u32).len() == 1,
{
    assert(('\n' as u32) == 10);
    assert(('\r' as u32) == 13);
}

proof fn lemma_scan_bound(t: Seq<char>, n: nat)
    requires
        n <= t.len(),
    ensures
        line_start(scan_lines(t, n).0, scan_lines(t, n).0.len()) + utf8_len(scan_lines(t, n).1)
            <= utf8_len(t.take(n as int)),
        scan_lines(t, n).0.len() + scan_lines(t, n).1.len() <= n,
    decreases n,
{
    if n == 0 {
        assert(t.take(0) =~= Seq::<char>::empty());
        assert(vstd::utf8::encode_utf8(Seq::<char>::empty()) =~= Seq::<u8>::empty());
        assert(vstd::utf8::encode_utf8(Seq::<char>::empty()) =~= Seq::<u8>::empty());
    } else {
        let m = (n - 1) as nat;
        lemma_scan_bound(t, m);
        let (d, c) = scan_lines(t, m);
        assert(t.take(n as int) =~= t.take(m as int).push(t[m as int]));
        lemma_utf8_len_push(t.take(m as int), t[m as int]);
        lemma_newline_width();
        if t[m as int] == '\n' {
            let x = strip_cr(c);
            lemma_line_start_prefix(d, x, d.len());
            assert(d.push(x)[d.len() as int] == x);
            if c.len() > 0 && c.last() == '\r' {
                assert(c =~= c.drop_last().push('\r'));
                lemma_utf8_len_push(c.drop_last(), '\r');
            }
            assert(vstd::utf8::encode_utf8(Seq::<char>::empty()) =~= Seq::<u8>::empty());
        } else {
            lemma_utf8_len_push(c, t[m as int]);
        }
    }
}

/// Every line ends within the text's bytes at the offset the search gives it, and there
/// are no more lines than characters.
pub proof fn lemma_lines_fit(t: Seq<char>)
    ensures
        text_lines(t).len() <= t.len(),
        forall|i: int|
            0 <= i < text_lines(t).len() ==> line_start(text_lines(t), i as nat) + utf8_len(
                #[trigger] text_lines(t)[i],
            ) <= utf8_len(t),
{
    lemma_scan_bound(t, t.len());
    assert(t.take(t.len() as int) =~= t);
    let (d, c) = scan_lines(t, t.len());
    let l = text_lines(t);
    assert forall|i: int| 0 <= i < l.len() implies line_start(l, i as nat) + utf8_len(
        #[trigger] l[i],
    ) <= utf8_len(t) by {
        if c.len() > 0 {
            lemma_line_start_prefix(d, c, d.len());
        }
        assert(forall|k: int| 0 <= k < d.len() ==> l[k] == d[k]);
        if i < d.len() {
            lemma_line_start_mono(l, (i + 1) as nat, d.len());
            lemma_line_start_mono(d, d.len(), d.len());
            if c.len() > 0 {
                assert(line_start(l, d.len()) == line_start(d, d.len()));
            }
        }
    }
}

// ---------------------------------------------------------------------------
// Which lines match.

/// `w` is one of the whitespace-separated words of `line`.
pub open spec fn has_word(line: Seq<char>, w: Seq<char>) -> bool {
    &&& w.len() > 0
    &&& forall|k: int| 0 <= k < w.len() ==> !is_white(#[trigger] w[k])
    &&& exists|i: int|
        #![trigger occurs_at(line, w, i)]
        occurs_at(line, w, i) && (i == 0 || is_white(line[i - 1])) && (i + w.len() == line.len()
            || is_white(line[i + w.len()]))
}

/// Whether a line matches the pattern in the given mode.
pub open spec fn line_hits(line: Seq<char>, pattern: Seq<char>, mode: SearchMode) -> bool {
    match mode {
        SearchMode::Exact => seq_contains(line, pattern),
        SearchMode::CaseInsensitive => seq_contains(
            unicode_lowercase(line),
            unicode_lowercase(pattern),
        ),
        SearchMode::Identifier => has_word(line, pattern),
        SearchMode::Regex => regex_compiles(pattern) && regex_finds(pattern, line),
    }
}

/// Whether `w` is one of the whitespace-separated words of `line`.
pub fn has_word_exec(line: &[char], w: &[char]) -> (b: bool)
    ensures
        b == has_word(line@, w@),
{
    if w.len() == 0 || w.len() > line.len() {
        return false;
    }
    let mut k: usize = 0;
    while k < w.len()
        invariant
            k <= w@.len(),
            forall|j: int| 0 <= j < k ==> !is_white(#[trigger] w@[j]),
        decreases w@.len() - k,
    {
        if is_white_exec(w[k]) {
            return false;
        }
        k += 1;
    }
    let n = w.len();
    let mut i: usize = 0;
    while i <= line.len() - n
        invariant
            0 < n == w@.len() <= line@.len(),
            i <= line@.len() - n + 1,
            forall|j: int| 0 <= j < w@.len() ==> !is_white(#[trigger] w@[j]),
            forall|j: int|
                #![trigger occurs_at(line@, w@, j)]
                0 <= j < i ==> !(occurs_at(line@, w@, j) && (j == 0 || is_white(line@[j - 1])) && (j
                    + w@.len() == line@.len() || is_white(line@[j + w@.len()]))),
        decreases line@.len() - n + 1 - i,
    {
        let before = i == 0 || is_white_exec(line[i - 1]);
        let after = i + n == line.len() || is_white_exec(line[i + n]);
        if before && after && matches_at(line, w, i) {
            return true;
        }
        i += 1;
    }
    proof {
        assert forall|j: int|
            occurs_at(line@, w@, j) implies !((j == 0 || is_white(line@[j - 1])) && (j + w@.len()
            == line@.len() || is_white(line@[j + w@.len()]))) by {
            assert(0 <= j < i);
        }
    }
    false
}

/// The pattern, prepared once for testing lines in one mode.
enum Prepared {
    Plain(Vec<char>),
    Lower(Vec<char>),
    Word(Vec<char>),
    Expression(Option<CompiledRegex>),
}

spec fn prepared_for(p: Prepared, pattern: Seq<char>, mode: SearchMode) -> bool {
    match mode {
        SearchMode::Exact => p matches Prepared::Plain(v) && v@ == pattern,
        SearchMode::CaseInsensitive => p matches Prepared::Lower(v) && v@ == unicode_lowercase(
            pattern,
        ),
        SearchMode::Identifier => p matches Prepared::Word(v) && v@ == pattern,
        SearchMode::Regex => p matches Prepared::Expression(r) && (r is Some <==> regex_compiles(
            pattern,
        )) && (r matches Some(c) ==> c.source() == pattern),
    }
}

fn prepare(pattern: &str, mode: SearchMode) -> (p: Prepared)
    ensures
        prepared_for(p, pattern@, mode),
{
    match mode {
        SearchMode::Exact => Prepared::Plain(chars_of(pattern)),
        SearchMode::CaseInsensitive => {
            let lower = to_lowercase(pattern);
            Prepared::Lower(chars_of(lower.as_str()))
        },
        SearchMode::Identifier => Prepared::Word(chars_of(pattern)),
        SearchMode::Regex => Prepared::Expression(compile_regex(pattern)),
    }
}

fn line_hits_exec(line: &[char], p: &Prepared, Ghost(pattern): Ghost<Seq<char>>, mode: SearchMode) -> (b: bool)
    requires
        prepared_for(*p, pattern, mode),
    ensures
        b == line_hits(line@, pattern, mode),
{
    match p {
        Prepared::Plain(v) => contains_chars(line, v.as_slice()),
        Prepared::Lower(v) => {
            let s = string_from_chars(line);
            let lower = to_lowercase(s.as_str());
            let lc = chars_of(lower.as_str());
            contains_chars(lc.as_slice(), v.as_slice())
        },
        Prepared::Word(v) => has_word_exec(line, v.as_slice()),
        Prepared::Expression(r) => match r {
            Some(re) => {
                let s = string_from_chars(line);
                regex_is_match(re, s.as_str())
            },
            None => false,
        },
    }
}

// ---------------------------------------------------------------------------
// Searching a text.

/// A match with its line taken as characters.
pub struct MatchView {
    pub file_id: FileId,
    pub range: Range,
    pub line: Seq<char>,
    pub line_number: u32,
}

pub open spec fn match_view(m: LexicalMatch) -> MatchView {
    MatchView { file_id: m.file_id, range: m.range, line: m.line@, line_number: m.line_number }
}

/// The match that line `i` makes.
pub open spec fn line_match(lines: Seq<Seq<char>>, i: nat, file: FileId) -> MatchView {
    MatchView {
        file_id: file,
        range: Range {
            start_byte: line_start(lines, i) as usize,
            end_byte: (line_start(lines, i) + utf8_len(lines[i as int])) as usize,
            start_line: (i + 1) as u32,
            end_line: (i + 1) as u32,
        },
        line: lines[i as int],
        line_number: (i + 1) as u32,
    }
}

/// The matches among the first `n` lines, in order.
pub open spec fn hits_upto(
    lines: Seq<Seq<char>>,
    pattern: Seq<char>,
    mode: SearchMode,
    file: FileId,
    n: nat,
) -> Seq<MatchView>
    decreases n,
{
    if n == 0 {
        seq![]
    } else {
        let prev = hits_upto(lines, pattern, mode, file, (n - 1) as nat);
        if line_hits(lines[n - 1], pattern, mode) {
            prev.push(line_match(lines, (n - 1) as nat, file))
        } else {
            prev
        }
    }
}

/// How many matches a file gives at most: `max_per_file`, but at least one.
pub open spec fn result_cap(max: usize) -> nat {
    if max == 0 {
        1
    } else {
        max as nat
    }
}

/// What searching a text gives: its matching lines in order, no more than the cap.
pub open spec fn text_search(
    t: Seq<char>,
    pattern: Seq<char>,
    mode: SearchMode,
    file: FileId,
    max: usize,
) -> Seq<MatchView> {
    let all = hits_upto(text_lines(t), pattern, mode, file, text_lines(t).len());
    if all.len() > result_cap(max) {
        all.take(result_cap(max) as int)
    } else {
        all
    }
}

proof fn lemma_hits_prefix(
    lines: Seq<Seq<char>>,
    pattern: Seq<char>,
    mode: SearchMode,
    file: FileId,
    m: nat,
    n: nat,
)
    requires
        m <= n,
    ensures
        hits_upto(lines, pattern, mode, file, m).len() <= hits_upto(lines, pattern, mode, file, n).len(),
        hits_upto(lines, pattern, mode, file, n).take(hits_upto(lines, pattern, mode, file, m).len() as int)
            == hits_upto(lines, pattern, mode, file, m),
    decreases n,
{
    if m < n {
        lemma_hits_prefix(lines, pattern, mode, file, m, (n - 1) as nat);
        let a = hits_upto(lines, pattern, mode, file, m);
        let b = hits_upto(lines, pattern, mode, file, (n - 1) as nat);
        let c = hits_upto(lines, pattern, mode, file, n);
        assert(c.take(a.len() as int) =~= a) by {
            assert(b.take(a.len() as int) =~= a);
            assert forall|k: int| 0 <= k < a.len() implies c[k] == b[k] by {}
        }
    } else {
        assert(hits_upto(lines, pattern, mode, file, n).take(hits_upto(lines, pattern, mode, file, n).len() as int)
            =~= hits_upto(lines, pattern, mode, file, n));
    }
}

proof fn lemma_hits_len(lines: Seq<Seq<char>>, pattern: Seq<char>, mode: SearchMode, file: FileId, n: nat)
    ensures
        hits_upto(lines, pattern, mode, file, n).len() <= n,
    decreases n,
{
    if n > 0 {
        lemma_hits_len(lines, pattern, mode, file, (n - 1) as nat);
    }
}

/// Bytes of the UTF-8 encoding of the characters.
pub(crate) fn line_len(v: &[char]) -> (n: usize)
    requires
        utf8_len(v@) <= usize::MAX,
    ensures
        n == utf8_len(v@),
{
    let mut n: usize = 0;
    let mut i: usize = 0;
    while i < v.len()
        invariant
            i <= v@.len(),
            n == utf8_len(v@.take(i as int)),
            utf8_len(v@) <= usize::MAX,
        decreases v@.len() - i,
    {
        proof {
            assert(v@.take(i + 1) =~= v@.take(i as int).push(v@[i as int]));
            lemma_utf8_len_push(v@.take(i as int), v@[i as int]);
            lemma_encode_concat(v@.take(i + 1), v@.skip(i + 1));
            assert(v@.take(i + 1) + v@.skip(i + 1) =~= v@);
        }
        n = n + char_utf8_len(v[i]);
        i += 1;
    }
    proof {
        assert(v@.take(v@.len() as int) =~= v@);
    }
    n
}

/// Once `n` lines are searched, with fewer hits than the cap or exactly the cap, the hits
/// so far are what the search of the whole text gives.
proof fn lemma_search_done(t: Seq<char>, pattern: Seq<char>, mode: SearchMode, file: FileId, max: usize, n: nat)
    requires
        n <= text_lines(t).len(),
        n == text_lines(t).len() || hits_upto(text_lines(t), pattern, mode, file, n).len() == result_cap(max),
        hits_upto(text_lines(t), pattern, mode, file, n).len() <= result_cap(max),
    ensures
        hits_upto(text_lines(t), pattern, mode, file, n) == text_search(t, pattern, mode, file, max),
{
    let ls = text_lines(t);
    lemma_hits_prefix(ls, pattern, mode, file, n, ls.len());
}

/// The match for line `i`, which starts at byte `start` and has `len` bytes.
fn make_match(line: &Vec<char>, start: usize, len: usize, i: usize, file_id: FileId, Ghost(ls): Ghost<Seq<Seq<char>>>) -> (m: LexicalMatch)
    requires
        i < ls.len() < u32::MAX,
        line@ == ls[i as int],
        start == line_start(ls, i as nat),
        len == utf8_len(ls[i as int]),
        start + len <= usize::MAX,
    ensures
        match_view(m) == line_match(ls, i as nat, file_id),
{
    let number = (i + 1) as u32;
    LexicalMatch {
        file_id,
        range: Range::new(start, start + len, number, number),
        line: string_from_chars(line.as_slice()),
        line_number: number,
    }
}

/// Searches a text line by line. Lines are numbered from 1; a match's range runs from the
/// line's offset (each earlier line counted with its bytes and one more) over the line's
/// bytes. The search stops once `max_per_file` matches are found (after the first match
/// when it is 0).
#[verifier::rlimit(30)]
pub fn search_text(text: &str, file_id: FileId, pattern: &str, mode: SearchMode, max_per_file: usize) -> (r: Vec<LexicalMatch>)
    requires
        text_lines(text@).len() < u32::MAX,
    ensures
        r@.map_values(|m: LexicalMatch| match_view(m)) == text_search(text@, pattern@, mode, file_id, max_per_file),
{
    let chars = chars_of(text);
    let lines = split_lines(chars.as_slice());
    let prepared = prepare(pattern, mode);
    let ghost ls = text_lines(text@);
    let bytes = text.as_bytes();
    let nbytes = bytes.len();
    proof {
        lemma_lines_fit(text@);
        assert(bytes@.len() == utf8_len(text@));
        lemma_hits_len(ls, pattern@, mode, file_id, ls.len());
    }
    let mut matches: Vec<LexicalMatch> = Vec::new();
    let mut start: usize = 0;
    let mut i: usize = 0;
    let mut full = false;
    while i < lines.len() && !full
        invariant
            i <= lines@.len(),
            lines@.map_values(|v: Vec<char>| v@) == ls,
            ls == text_lines(text@),
            ls.len() < u32::MAX,
            utf8_len(text@) <= usize::MAX,
            forall|k: int| 0 <= k < ls.len() ==> line_start(ls, k as nat) + utf8_len(#[trigger] ls[k]) <= utf8_len(text@),
            i < ls.len() ==> start == line_start(ls, i as nat),
            prepared_for(prepared, pattern@, mode),
            matches@.map_values(|m: LexicalMatch| match_view(m)) == hits_upto(ls, pattern@, mode, file_id, i as nat),
            hits_upto(ls, pattern@, mode, file_id, i as nat).len() <= result_cap(max_per_file),
            !full ==> hits_upto(ls, pattern@, mode, file_id, i as nat).len() < result_cap(max_per_file),
            full ==> hits_upto(ls, pattern@, mode, file_id, i as nat).len() >= max_per_file
                && hits_upto(ls, pattern@, mode, file_id, i as nat).len() > 0,
        decreases lines@.len() - i,
    {
        let line = &lines[i];
        proof {
            assert(line@ == ls[i as int]);
            assert(line_start(ls, i as nat) + utf8_len(ls[i as int]) <= utf8_len(text@));
        }
        let hit = line_hits_exec(line.as_slice(), &prepared, Ghost(pattern@), mode);
        let len = line_len(line.as_slice());
        if hit {
            let m = make_match(line, start, len, i, file_id, Ghost(ls));
            matches.push(m);
            proof {
                assert(matches@.map_values(|m: LexicalMatch| match_view(m)) =~= hits_upto(ls, pattern@, mode, file_id, (i + 1) as nat));
            }
            if matches.len() >= max_per_file {
                full = true;
            }
        }
        proof {
            if i + 1 < ls.len() {
                assert(line_start(ls, (i + 1) as nat) + utf8_len(ls[i + 1]) <= utf8_len(text@));
            }
        }
        if i + 1 < lines.len() {
            start = start + len + 1;
        }
        i += 1;
    }
    proof {
        lemma_search_done(text@, pattern@, mode, file_id, max_per_file, i as nat);
    }
    matches
}

/// Searches one file's content, decoded as `String::from_utf8_lossy` decodes it.
pub fn search_file_content(content: &[u8], file_id: FileId, pattern: &str, mode: SearchMode, max_per_file: usize) -> (r: Vec<LexicalMatch>)
    requires
        text_lines(lossy_utf8(content@)).len() < u32::MAX,
    ensures
        r@.map_values(|m: LexicalMatch| match_view(m)) == text_search(lossy_utf8(content@), pattern@, mode, file_id, max_per_file),
{
    let text = lossy_text(content);
    search_text(text.as_str(), file_id, pattern, mode, max_per_file)
}

/// Searches one file's content where its lines can be numbered: `None` where the decoded
/// content has `u32::MAX` lines or more.
pub fn search_file_content_checked(content: &[u8], file_id: FileId, pattern: &str, mode: SearchMode, max_per_file: usize) -> (r: Option<Vec<LexicalMatch>>)
    ensures
        r is Some <==> content_fits(content@),
        r matches Some(ms) ==> ms@.map_values(|m: LexicalMatch| match_view(m)) == text_search(lossy_utf8(content@), pattern@, mode, file_id, max_per_file),
{
    if content_fits_exec(content) {
        Some(search_file_content(content, file_id, pattern, mode, max_per_file))
    } else {
        None
    }
}

// ---------------------------------------------------------------------------
// Searching the index.

/// The matches of one file: its content searched, or none where the index holds no content
/// for it.
pub open spec fn file_search(
    contents: Map<u64, Seq<u8>>,
    f: FileId,
    pattern: Seq<char>,
    mode: SearchMode,
    max: usize,
) -> Seq<MatchView> {
    if contents.dom().contains(f.0) {
        text_search(lossy_utf8(contents[f.0]), pattern, mode, f, max)
    } else {
        seq![]
    }
}

/// The matches of the files in turn.
pub open spec fn files_search(
    contents: Map<u64, Seq<u8>>,
    fs: Seq<FileId>,
    pattern: Seq<char>,
    mode: SearchMode,
    max: usize,
) -> Seq<MatchView>
    decreases fs.len(),
{
    if fs.len() == 0 {
        seq![]
    } else {
        files_search(contents, fs.drop_last(), pattern, mode, max) + file_search(
            contents,
            fs.last(),
            pattern,
            mode,
            max,
        )
    }
}

/// A content has fewer than `u32::MAX` lines once decoded, so its lines can be numbered.
pub open spec fn content_fits(content: Seq<u8>) -> bool {
    text_lines(lossy_utf8(content)).len() < u32::MAX
}

/// Every stored content can have its lines numbered.
pub open spec fn contents_fit(contents: Map<u64, Seq<u8>>) -> bool {
    forall|k: u64| #[trigger] contents.dom().contains(k) ==> content_fits(contents[k])
}

/// Whether a content has fewer than `u32::MAX` lines once decoded.
pub fn content_fits_exec(content: &[u8]) -> (b: bool)
    ensures
        b == content_fits(content@),
{
    let text = lossy_text(content);
    let chars = chars_of(text.as_str());
    let lines = split_lines(chars.as_slice());
    proof {
        assert(lines@.map_values(|v: Vec<char>| v@).len() == lines@.len());
    }
    lines.len() < 4294967295
}

/// How many matches each file may give: the query's limit, and no more than a hundred
/// for each file the budget allows.
pub open spec fn search_limit(query: SearchQuery, budget: TokenBudget) -> usize {
    if query.max_results <= budget.max_files * 100 {
        query.max_results
    } else {
        (budget.max_files * 100) as usize
    }
}

/// `fs` lists the files of the index, each once, in ascending id order.
pub open spec fn lists_all_files(index: Index, fs: Seq<FileId>) -> bool {
    fs == index.file_ids().map_values(|k: u64| FileId(k))
}

/// The files a query searches, in the order they are searched: those it names, or else
/// every file of the index once, in the order the index lists them.
pub open spec fn searched_files(query: SearchQuery, index: Index, fs: Seq<FileId>) -> bool {
    match query.file_ids {
        Some(ids) => fs == ids@,
        None => lists_all_files(index, fs),
    }
}

/// The ids of the files of the index, ascending.
pub fn all_file_ids(index: &Index) -> (r: Vec<FileId>)
    requires
        index.wf(),
    ensures
        lists_all_files(*index, r@),
{
    let entries = index.files();
    let mut v: Vec<FileId> = Vec::new();
    let mut i: usize = 0;
    while i < entries.len()
        invariant
            i <= entries@.len(),
            index.wf(),
            entries@.len() == index.file_ids().len(),
            forall|j: int| 0 <= j < entries@.len() ==> *entries@[j] == index.files_map()[#[trigger] index.file_ids()[j]],
            v@ == index.file_ids().take(i as int).map_values(|k: u64| FileId(k)),
        decreases entries@.len() - i,
    {
        proof {
            index.lemma_keys();
            crate::index::lemma_keys_below(index.files_map(), index.next_file() as nat);
            assert(index.files_map().dom().contains(index.file_ids()[i as int]));
        }
        v.push(entries[i].id);
        i += 1;
        proof {
            assert(v@ =~= index.file_ids().take(i as int).map_values(|k: u64| FileId(k)));
        }
    }
    proof {
        assert(index.file_ids().take(i as int) =~= index.file_ids());
    }
    v
}

/// Searches the given files in turn, each for at most `max` matches.
pub fn search_files(query: &SearchQuery, index: &Index, files: &[FileId], max: usize) -> (r: Vec<LexicalMatch>)
    requires
        contents_fit(index.contents_map()),
    ensures
        r@.map_values(|m: LexicalMatch| match_view(m)) == files_search(index.contents_map(), files@, query.pattern@, query.mode, max),
{
    let mut out: Vec<LexicalMatch> = Vec::new();
    let mut i: usize = 0;
    while i < files.len()
        invariant
            i <= files@.len(),
            contents_fit(index.contents_map()),
            out@.map_values(|m: LexicalMatch| match_view(m)) == files_search(index.contents_map(), files@.take(i as int), query.pattern@, query.mode, max),
        decreases files@.len() - i,
    {
        let f = files[i];
        proof {
            assert(files@.take(i + 1).drop_last() =~= files@.take(i as int));
            assert(files@.take(i + 1).last() == f);
        }
        match index.get_content(f) {
            Some(content) => {
                let found = search_file_content(content.as_slice(), f, query.pattern.as_str(), query.mode, max);
                let ghost before = out@;
                let mut found = found;
                out.append(&mut found);
                proof {
                    assert(out@.map_values(|m: LexicalMatch| match_view(m)) =~= before.map_values(|m: LexicalMatch| match_view(m)) + file_search(index.contents_map(), f, query.pattern@, query.mode, max));
                }
            },
            None => {
                proof {
                    assert(files_search(index.contents_map(), files@.take(i + 1), query.pattern@, query.mode, max) =~= files_search(index.contents_map(), files@.take(i as int), query.pattern@, query.mode, max));
                }
            },
        }
        i += 1;
    }
    proof {
        assert(files@.take(files@.len() as int) =~= files@);
    }
    out
}

/// Performs a lexical search across the index: the files the query names, or all files,
/// each searched for at most `min(max_results, max_files * 100)` matches.
pub fn search(query: &SearchQuery, index: &Index, budget: &TokenBudget) -> (r: crate::error::Result<Vec<LexicalMatch>>)
    requires
        index.wf(),
        contents_fit(index.contents_map()),
        budget.max_files * 100 <= usize::MAX,
    ensures
        r matches Ok(ms) && exists|fs: Seq<FileId>| searched_files(*query, *index, fs)
            && ms@.map_values(|m: LexicalMatch| match_view(m)) == files_search(index.contents_map(), fs, query.pattern@, query.mode, search_limit(*query, *budget)),
{
    let cap = budget.max_files * 100;
    let max_results = if query.max_results <= cap {
        query.max_results
    } else {
        cap
    };
    let files: Vec<FileId> = match &query.file_ids {
        Some(ids) => {
            let mut v: Vec<FileId> = Vec::new();
            let mut i: usize = 0;
            while i < ids.len()
                invariant
                    i <= ids@.len(),
                    v@ == ids@.take(i as int),
                decreases ids@.len() - i,
            {
                v.push(ids[i]);
                i += 1;
                proof {
                    assert(v@ =~= ids@.take(i as int));
                }
            }
            proof {
                assert(ids@.take(ids@.len() as int) =~= ids@);
            }
            v
        },
        None => all_file_ids(index),
    };
    let found = search_files(query, index, files.as_slice(), max_results);
    proof {
        assert(searched_files(*query, *index, files@));
    }
    Ok(found)
}


// ---------------------------------------------------------------------------
// Laws.

proof fn lemma_hits_shape(lines: Seq<Seq<char>>, pattern: Seq<char>, mode: SearchMode, file: FileId, n: nat)
    requires
        n <= lines.len() < u32::MAX,
    ensures
        forall|i: int| 0 <= i < hits_upto(lines, pattern, mode, file, n).len() ==> {
            let m = #[trigger] hits_upto(lines, pattern, mode, file, n)[i];
            &&& 1 <= m.line_number <= n
            &&& m == line_match(lines, (m.line_number - 1) as nat, file)
            &&& line_hits(lines[m.line_number - 1], pattern, mode)
        },
        forall|i: int, j: int|
            0 <= i < j < hits_upto(lines, pattern, mode, file, n).len() ==> (#[trigger] hits_upto(lines, pattern, mode, file, n)[i]).line_number
                < (#[trigger] hits_upto(lines, pattern, mode, file, n)[j]).line_number,
    decreases n,
{
    if n > 0 {
        lemma_hits_shape(lines, pattern, mode, file, (n - 1) as nat);
        let prev = hits_upto(lines, pattern, mode, file, (n - 1) as nat);
        let cur = hits_upto(lines, pattern, mode, file, n);
        let last = line_match(lines, (n - 1) as nat, file);
        assert(last.line_number == n);
        if line_hits(lines[n - 1], pattern, mode) {
            assert(cur == prev.push(last));
            assert forall|i: int| 0 <= i < cur.len() implies {
                let m = #[trigger] cur[i];
                &&& 1 <= m.line_number <= n
                &&& m == line_match(lines, (m.line_number - 1) as nat, file)
                &&& line_hits(lines[m.line_number - 1], pattern, mode)
            } by {
                if i < prev.len() {
                    assert(cur[i] == prev[i]);
                }
            }
            assert forall|i: int, j: int| 0 <= i < j < cur.len() implies (#[trigger] cur[i]).line_number < (#[trigger] cur[j]).line_number by {
                assert(cur[i] == prev[i]);
                if j < prev.len() {
                    assert(cur[j] == prev[j]);
                }
            }
        }
    }
}

/// Every match of a search is a line of the text that matches the pattern in the search's
/// mode, numbered from 1 and in the file searched; the matches come in line order and
/// there are no more of them than the cap.
pub proof fn search_results_match(t: Seq<char>, pattern: Seq<char>, mode: SearchMode, file: FileId, max: usize)
    requires
        text_lines(t).len() < u32::MAX,
    ensures
        ({
            let ms = text_search(t, pattern, mode, file, max);
            &&& ms.len() <= result_cap(max)
            &&& forall|i: int| 0 <= i < ms.len() ==> {
                let m = #[trigger] ms[i];
                &&& m.file_id == file
                &&& 1 <= m.line_number <= text_lines(t).len()
                &&& m.line == text_lines(t)[m.line_number - 1]
                &&& line_hits(m.line, pattern, mode)
            }
            &&& forall|i: int, j: int| 0 <= i < j < ms.len() ==> (#[trigger] ms[i]).line_number < (#[trigger] ms[j]).line_number
        }),
{
    let ls = text_lines(t);
    lemma_lines_fit(t);
    lemma_hits_shape(ls, pattern, mode, file, ls.len());
    let all = hits_upto(ls, pattern, mode, file, ls.len());
    let ms = text_search(t, pattern, mode, file, max);
    assert forall|i: int| 0 <= i < ms.len() implies ms[i] == all[i] by {}
}

} // verus!
