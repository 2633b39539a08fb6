//! Context planning: produce minimal sufficient context from ranked candidates.

use vstd::prelude::*;

use crate::index::TokenBudget;
use crate::ranking::{sort_by_score, sort_candidates, RankedCandidate};
use crate::text::{
    byte_len, char_utf8_len, chars_of, count_char, count_char_from, decimal, lemma_encode_concat,
    lemma_utf8_len_push, push_chars, push_decimal, push_range, str_byte_len, string_from_chars, utf8_len,
};
use crate::types::{clone_opt_string, FileId, Range};

verus! {

/// Context fragment representing a piece of code to return.
#[derive(Debug)]
pub struct ContextFragment {
    pub file_id: FileId,
    pub range: Range,
    pub symbol_name: Option<String>,
    pub content: String,
    pub token_count: usize,
    pub depth: usize,
}

impl Clone for ContextFragment {
    fn clone(&self) -> (r: Self)
        ensures
            r == *self,
    {
        ContextFragment {
            file_id: self.file_id,
            range: self.range,
            symbol_name: clone_opt_string(&self.symbol_name),
            content: self.content.clone(),
            token_count: self.token_count,
            depth: self.depth,
        }
    }
}

/// A fragment with its texts taken as characters.
pub struct FragmentView {
    pub file_id: FileId,
    pub range: Range,
    pub symbol_name: Option<Seq<char>>,
    pub content: Seq<char>,
    pub token_count: int,
    pub depth: int,
}

pub open spec fn opt_chars(s: Option<String>) -> Option<Seq<char>> {
    match s {
        Some(x) => Some(x@),
        None => None,
    }
}

impl View for ContextFragment {
    type V = FragmentView;

    open spec fn view(&self) -> FragmentView {
        FragmentView {
            file_id: self.file_id,
            range: self.range,
            symbol_name: opt_chars(self.symbol_name),
            content: self.content@,
            token_count: self.token_count as int,
            depth: self.depth as int,
        }
    }
}

/// Context plan: the output of the context planner.
#[derive(Debug)]
pub struct ContextPlan {
    pub fragments: Vec<ContextFragment>,
    pub total_tokens: usize,
    pub total_files: usize,
    pub budget: TokenBudget,
}

impl ContextPlan {
    pub fn is_empty(&self) -> (b: bool)
        ensures
            b == (self.fragments@.len() == 0),
    {
        self.fragments.len() == 0
    }

    pub fn len(&self) -> (n: usize)
        ensures
            n == self.fragments@.len(),
    {
        self.fragments.len()
    }
}

// ---------------------------------------------------------------------------
// Token estimate and compaction.

/// About four bytes of text per token, rounded up.
pub open spec fn token_estimate(s: Seq<char>) -> int {
    (byte_len(s) + 3) / 4
}

/// Estimate token count (rough approximation).
pub fn estimate_tokens(text: &str) -> (n: usize)
    ensures
        n == token_estimate(text@),
{
    let len = str_byte_len(text);
    len / 4 + if len % 4 == 0 {
        0
    } else {
        1
    }
}

/// The last newline strictly before `bound`, plus one; `dflt` when there is none.
pub open spec fn cut_point(c: Seq<char>, bound: int, dflt: int) -> int
    decreases bound,
{
    if bound <= 0 {
        dflt
    } else if c[bound - 1] == '\n' {
        bound
    } else {
        cut_point(c, bound - 1, dflt)
    }
}

pub open spec fn more_lines_suffix(n: nat) -> Seq<char> {
    seq!['.', '.', '.', '\n', '['] + decimal(n) + seq![
        ' ',
        'm',
        'o',
        'r',
        'e',
        ' ',
        'l',
        'i',
        'n',
        'e',
        's',
        ']',
    ]
}

/// The fewest bytes a shortened text takes: no head, only the note for all its lines.
pub open spec fn compact_floor(c: Seq<char>) -> nat {
    utf8_len(more_lines_suffix(count_char(c, '\n')))
}

/// The length of the longest prefix of `c`, from `k` characters on, whose bytes fit in
/// `room`.
pub open spec fn fit_from(c: Seq<char>, room: int, k: nat) -> nat
    decreases c.len() - k,
{
    if k < c.len() && utf8_len(c.take(k + 1 as int)) <= room {
        fit_from(c, room, k + 1)
    } else {
        k
    }
}

/// The text's first `cut` characters and the note of how many lines follow them.
pub open spec fn with_note(c: Seq<char>, cut: int) -> Seq<char> {
    c.subrange(0, cut) + more_lines_suffix(count_char(c.subrange(cut, c.len() as int), '\n'))
}

/// Where a head cut by lines can be taken: the text has more than `target` characters and,
/// for a target under 20, none of its first `target` characters is a newline.
pub open spec fn line_head_applies(c: Seq<char>, target: int) -> bool {
    &&& c.len() > target
    &&& (target >= 20 || forall|i: int| 0 <= i < target ==> c[i] != '\n')
}

/// The head cut by lines: after the last newline that comes more than 20 characters
/// before the target, or at the target where there is none.
pub open spec fn line_head_cut(c: Seq<char>, target: int) -> int {
    if target >= 20 {
        cut_point(c, target - 20, target)
    } else {
        target
    }
}

/// A text shortened to at most `max_tokens * 4` bytes. Where the head cut by lines, with
/// the note of the lines left out, fits in those bytes, that is the text. Otherwise the
/// head is the longest one whose bytes leave room for the note, cut after its last newline
/// where it has one. `None` where even the note alone does not fit.
pub open spec fn compact_text(c: Seq<char>, max_tokens: int) -> Option<Seq<char>> {
    let target = max_tokens * 4;
    if line_head_applies(c, target) && utf8_len(with_note(c, line_head_cut(c, target))) <= target {
        Some(with_note(c, line_head_cut(c, target)))
    } else if compact_floor(c) > target {
        None
    } else {
        let k = fit_from(c, target - compact_floor(c), 0);
        Some(with_note(c, cut_point(c, k as int, k as int)))
    }
}

proof fn lemma_cut_point_range(c: Seq<char>, bound: int, dflt: int)
    ensures
        cut_point(c, bound, dflt) == dflt || (1 <= cut_point(c, bound, dflt) <= bound),
    decreases bound,
{
    if bound > 0 && c[bound - 1] != '\n' {
        lemma_cut_point_range(c, bound - 1, dflt);
    }
}

proof fn lemma_fit_from(c: Seq<char>, room: int, k: nat)
    requires
        k <= c.len(),
        utf8_len(c.take(k as int)) <= room,
    ensures
        k <= fit_from(c, room, k) <= c.len(),
        utf8_len(c.take(fit_from(c, room, k) as int)) <= room,
    decreases c.len() - k,
{
    if k < c.len() && utf8_len(c.take(k + 1 as int)) <= room {
        lemma_fit_from(c, room, k + 1);
    }
}

proof fn lemma_utf8_prefix(c: Seq<char>, i: int, j: int)
    requires
        0 <= i <= j <= c.len(),
    ensures
        utf8_len(c.take(i)) <= utf8_len(c.take(j)),
{
    assert(c.take(j) =~= c.take(i) + c.subrange(i, j));
    lemma_encode_concat(c.take(i), c.subrange(i, j));
}

proof fn lemma_count_concat(a: Seq<char>, b: Seq<char>, x: char)
    ensures
        count_char(a + b, x) == count_char(a, x) + count_char(b, x),
    decreases b.len(),
{
    if b.len() == 0 {
        assert(a + b =~= a);
    } else {
        assert((a + b).drop_last() =~= a + b.drop_last());
        lemma_count_concat(a, b.drop_last(), x);
    }
}

proof fn lemma_decimal_len_mono(n: nat, m: nat)
    requires
        n <= m,
    ensures
        decimal(n).len() <= decimal(m).len(),
        decimal(m).len() >= 1,
    decreases m,
{
    if m >= 10 {
        if n >= 10 {
            lemma_decimal_len_mono(n / 10, m / 10);
        } else {
            lemma_decimal_len_mono(0, m / 10);
        }
    }
}

proof fn lemma_decimal_ascii(n: nat)
    ensures
        forall|i: int| 0 <= i < decimal(n).len() ==> (decimal(n)[i] as u32) < 128,
    decreases n,
{
    if n >= 10 {
        lemma_decimal_ascii(n / 10);
        assert forall|i: int| 0 <= i < decimal(n).len() implies (decimal(n)[i] as u32) < 128 by {
            if i < decimal(n / 10).len() {
                assert(decimal(n)[i] == decimal(n / 10)[i]);
            }
        }
    }
}

proof fn lemma_ascii_utf8_len(s: Seq<char>)
    requires
        forall|i: int| 0 <= i < s.len() ==> (s[i] as u32) < 128,
    ensures
        utf8_len(s) == s.len(),
    decreases s.len(),
{
    if s.len() > 0 {
        let d = s.drop_last();
        assert forall|i: int| 0 <= i < d.len() implies (d[i] as u32) < 128 by {
            assert(d[i] == s[i]);
        }
        lemma_ascii_utf8_len(d);
        assert(d.push(s.last()) =~= s);
        lemma_utf8_len_push(d, s.last());
        assert((s.last() as u32) < 128);
    }
}

/// The note takes one byte a character: 17 and the number's digits.
proof fn lemma_suffix_len(n: nat)
    ensures
        utf8_len(more_lines_suffix(n)) == more_lines_suffix(n).len(),
        more_lines_suffix(n).len() == 17 + decimal(n).len(),
{
    lemma_decimal_ascii(n);
    let s = more_lines_suffix(n);
    let d = decimal(n);
    assert forall|i: int| 0 <= i < s.len() implies (s[i] as u32) < 128 by {
        if 5 <= i < 5 + d.len() {
            assert(s[i] == d[i - 5]);
        }
    }
    lemma_ascii_utf8_len(s);
}

/// A shortened text keeps to its bytes, so to its tokens.
proof fn lemma_compact_fits(c: Seq<char>, max_tokens: int)
    requires
        0 <= max_tokens,
        compact_text(c, max_tokens) is Some,
    ensures
        utf8_len(compact_text(c, max_tokens)->0) <= max_tokens * 4,
        token_estimate(compact_text(c, max_tokens)->0) <= max_tokens,
{
    let target = max_tokens * 4;
    let r = compact_text(c, max_tokens)->0;
    if line_head_applies(c, target) && utf8_len(with_note(c, line_head_cut(c, target))) <= target {
    } else {
        let floor = compact_floor(c);
        let room = target - floor;
        assert(c.take(0) =~= Seq::<char>::empty());
        assert(utf8_len(Seq::<char>::empty()) == 0) by {
            assert(vstd::utf8::encode_utf8(Seq::<char>::empty()) =~= Seq::<u8>::empty());
        }
        lemma_fit_from(c, room, 0);
        let k = fit_from(c, room, 0);
        let cut = cut_point(c, k as int, k as int);
        lemma_cut_point_range(c, k as int, k as int);
        lemma_utf8_prefix(c, cut, k as int);
        assert(c.subrange(0, cut) =~= c.take(cut));
        let tail = c.subrange(cut, c.len() as int);
        assert(c =~= c.subrange(0, cut) + tail);
        lemma_count_concat(c.subrange(0, cut), tail, '\n');
        lemma_decimal_len_mono(count_char(tail, '\n'), count_char(c, '\n'));
        lemma_suffix_len(count_char(tail, '\n'));
        lemma_suffix_len(count_char(c, '\n'));
        lemma_encode_concat(c.subrange(0, cut), more_lines_suffix(count_char(tail, '\n')));
    }
    assert(utf8_len(r) <= target);
    if target <= usize::MAX {
        assert(byte_len(r) == utf8_len(r));
    }
}

/// Whether the characters take at most `room` bytes.
fn fits_in(v: &[char], room: usize) -> (b: bool)
    ensures
        b == (utf8_len(v@) <= room),
{
    let mut bytes: usize = 0;
    let mut i: usize = 0;
    proof {
        assert(v@.take(0) =~= Seq::<char>::empty());
        assert(vstd::utf8::encode_utf8(Seq::<char>::empty()) =~= Seq::<u8>::empty());
    }
    while i < v.len()
        invariant
            i <= v@.len(),
            bytes == utf8_len(v@.take(i as int)),
            bytes <= room,
        decreases v@.len() - i,
    {
        let w = char_utf8_len(v[i]);
        proof {
            assert(v@.take(i as int).push(v@[i as int]) =~= v@.take(i + 1));
            lemma_utf8_len_push(v@.take(i as int), v@[i as int]);
        }
        if w > room - bytes {
            proof {
                lemma_utf8_prefix(v@, i + 1, v@.len() as int);
                assert(v@.take(v@.len() as int) =~= v@);
            }
            return false;
        }
        bytes = bytes + w;
        i += 1;
    }
    proof {
        assert(v@.take(v@.len() as int) =~= v@);
    }
    true
}

/// The head cut by lines with its note, where it applies and fits in `target` bytes.
fn line_head(chars: &Vec<char>, target: usize) -> (r: Option<Vec<char>>)
    ensures
        r matches Some(v) ==> line_head_applies(chars@, target as int) && v@ == with_note(chars@, line_head_cut(chars@, target as int))
            && utf8_len(v@) <= target,
        r is None ==> !(line_head_applies(chars@, target as int) && utf8_len(with_note(chars@, line_head_cut(chars@, target as int))) <= target),
{
    let ghost c = chars@;
    if chars.len() <= target {
        return None;
    }
    let mut cut: usize = target;
    if target < 20 {
        let mut i: usize = 0;
        while i < target
            invariant
                chars@ == c,
                i <= target < c.len(),
                target < 20,
                forall|j: int| 0 <= j < i ==> c[j] != '\n',
            decreases target - i,
        {
            if chars[i] == '\n' {
                proof {
                    assert(c[i as int] == '\n');
                    assert(!line_head_applies(c, target as int));
                }
                return None;
            }
            i += 1;
        }
    } else {
        let bound = target - 20;
        let mut i: usize = 0;
        while i < bound
            invariant
                chars@ == c,
                i <= bound < c.len(),
                cut == cut_point(c, i as int, target as int),
            decreases bound - i,
        {
            if chars[i] == '\n' {
                cut = i + 1;
            }
            i += 1;
        }
    }
    proof {
        lemma_cut_point_range(c, if target >= 20 { target - 20 } else { 0 }, target as int);
        assert(cut == line_head_cut(c, target as int));
    }
    let more = count_char_from(chars.as_slice(), cut, '\n');
    let mut out: Vec<char> = Vec::new();
    push_range(&mut out, chars.as_slice(), 0, cut);
    push_note(&mut out, more as u64);
    proof {
        assert(chars@.subrange(cut as int, chars@.len() as int) =~= c.subrange(cut as int, c.len() as int));
        assert(out@ =~= with_note(c, cut as int));
    }
    if fits_in(out.as_slice(), target) {
        Some(out)
    } else {
        None
    }
}

/// Appends the note for `n` lines left out.
fn push_note(v: &mut Vec<char>, n: u64)
    ensures
        final(v)@ == old(v)@ + more_lines_suffix(n as nat),
{
    push_chars(v, &['.', '.', '.', '\n', '[']);
    push_decimal(v, n);
    push_chars(v, &[' ', 'm', 'o', 'r', 'e', ' ', 'l', 'i', 'n', 'e', 's', ']']);
    proof {
        assert(v@ =~= old(v)@ + more_lines_suffix(n as nat));
    }
}

/// Shortens a text that has more than `max_tokens` tokens (see `compact_text`).
fn compact(content: &str, max_tokens: usize) -> (r: Option<String>)
    requires
        token_estimate(content@) > max_tokens,
    ensures
        opt_chars(r) == compact_text(content@, max_tokens as int),
        r matches Some(t) ==> token_estimate(t@) <= max_tokens,
{
    let len = str_byte_len(content);
    assert(max_tokens * 4 < len);
    let target = max_tokens * 4;
    let chars = chars_of(content);
    let ghost c = content@;
    match line_head(&chars, target) {
        Some(v) => {
            proof {
                assert(chars@ == c);
                assert(v@ =~= compact_text(c, max_tokens as int)->0);
                lemma_compact_fits(c, max_tokens as int);
            }
            return Some(string_from_chars(v.as_slice()));
        },
        None => {},
    }
    let all = count_char_from(chars.as_slice(), 0, '\n');
    proof {
        assert(chars@.subrange(0, chars@.len() as int) =~= c);
    }
    let mut note: Vec<char> = Vec::new();
    push_note(&mut note, all as u64);
    proof {
        assert(note@ =~= more_lines_suffix(count_char(c, '\n')));
        lemma_suffix_len(count_char(c, '\n'));
    }
    let floor = note.len();
    if floor > target {
        return None;
    }
    let room = target - floor;
    let mut k: usize = 0;
    let mut bytes: usize = 0;
    let mut go = true;
    proof {
        assert(c.take(0) =~= Seq::<char>::empty());
        assert(vstd::utf8::encode_utf8(Seq::<char>::empty()) =~= Seq::<u8>::empty());
    }
    while go && k < chars.len()
        invariant
            chars@ == c,
            k <= c.len(),
            bytes == utf8_len(c.take(k as int)),
            bytes <= room,
            fit_from(c, room as int, k as nat) == fit_from(c, room as int, 0),
            !go ==> (k < c.len() && utf8_len(c.take(k + 1)) > room),
        decreases c.len() - k + if go { 1int } else { 0int },
    {
        let w = char_utf8_len(chars[k]);
        proof {
            assert(c.take(k as int).push(c[k as int]) =~= c.take(k + 1));
            lemma_utf8_len_push(c.take(k as int), c[k as int]);
        }
        if w <= room - bytes {
            bytes = bytes + w;
            k = k + 1;
        } else {
            go = false;
        }
    }
    proof {
        assert(fit_from(c, room as int, k as nat) == k);
    }
    let mut cut: usize = k;
    let mut i: usize = 0;
    while i < k
        invariant
            chars@ == c,
            i <= k <= c.len(),
            cut == cut_point(c, i as int, k as int),
        decreases k - i,
    {
        if chars[i] == '\n' {
            cut = i + 1;
        }
        i += 1;
    }
    proof {
        lemma_cut_point_range(c, k as int, k as int);
    }
    let more = count_char_from(chars.as_slice(), cut, '\n');
    let mut out: Vec<char> = Vec::new();
    push_range(&mut out, chars.as_slice(), 0, cut);
    push_note(&mut out, more as u64);
    proof {
        assert(out@ =~= compact_text(c, max_tokens as int)->0);
        lemma_compact_fits(c, max_tokens as int);
    }
    Some(string_from_chars(out.as_slice()))
}

// ---------------------------------------------------------------------------
// Range merging.

/// Orders ranges by file, then by start byte.
pub open spec fn range_le(a: (FileId, Range), b: (FileId, Range)) -> bool {
    a.0.0 < b.0.0 || (a.0.0 == b.0.0 && a.1.start_byte <= b.1.start_byte)
}

/// Inserts `c` after every element that orders at or before it.
pub open spec fn insert_range(s: Seq<(FileId, Range)>, c: (FileId, Range)) -> Seq<(FileId, Range)>
    decreases s.len(),
{
    if s.len() == 0 {
        seq![c]
    } else if range_le(s.last(), c) {
        s.push(c)
    } else {
        insert_range(s.drop_last(), c).push(s.last())
    }
}

/// Stable sort by file, then start byte: equal keys keep their input order.
pub open spec fn sort_ranges(s: Seq<(FileId, Range)>) -> Seq<(FileId, Range)>
    decreases s.len(),
{
    if s.len() == 0 {
        s
    } else {
        insert_range(sort_ranges(s.drop_last()), s.last())
    }
}

pub open spec fn ranges_sorted(s: Seq<(FileId, Range)>) -> bool {
    forall|i: int, j: int| 0 <= i < j < s.len() ==> range_le(s[i], s[j])
}

pub open spec fn is_range_insert_point(s: Seq<(FileId, Range)>, c: (FileId, Range), p: int) -> bool {
    &&& 0 <= p <= s.len()
    &&& forall|k: int| 0 <= k < p ==> range_le(s[k], c)
    &&& p < s.len() ==> !range_le(s[p], c)
}

proof fn lemma_insert_range(s: Seq<(FileId, Range)>, c: (FileId, Range), p: int)
    requires
        ranges_sorted(s),
        is_range_insert_point(s, c, p),
    ensures
        insert_range(s, c) =~= s.insert(p, c),
        ranges_sorted(insert_range(s, c)),
    decreases s.len(),
{
    if s.len() == 0 {
    } else if range_le(s.last(), c) {
        assert(p == s.len()) by {
            if p < s.len() {
                assert(range_le(s[p], s.last()));
            }
        }
    } else {
        let d = s.drop_last();
        assert(is_range_insert_point(d, c, p));
        lemma_insert_range(d, c, p);
        assert(insert_range(s, c) =~= d.insert(p, c).push(s.last()));
        assert(d.insert(p, c).push(s.last()) =~= s.insert(p, c));
    }
}

fn range_le_exec(a: &(FileId, Range), b: &(FileId, Range)) -> (r: bool)
    ensures
        r == range_le(*a, *b),
{
    a.0.0 < b.0.0 || (a.0.0 == b.0.0 && a.1.start_byte <= b.1.start_byte)
}

fn sort_ranges_exec(ranges: &[(FileId, Range)]) -> (out: Vec<(FileId, Range)>)
    ensures
        out@ == sort_ranges(ranges@),
        ranges_sorted(out@),
{
    let mut out: Vec<(FileId, Range)> = Vec::new();
    let mut k: usize = 0;
    while k < ranges.len()
        invariant
            k <= ranges@.len(),
            out@ == sort_ranges(ranges@.subrange(0, k as int)),
            ranges_sorted(out@),
        decreases ranges@.len() - k,
    {
        let c = ranges[k];
        proof {
            assert(ranges@.subrange(0, k + 1).drop_last() =~= ranges@.subrange(0, k as int));
        }
        let mut p: usize = 0;
        while p < out.len() && range_le_exec(&out[p], &c)
            invariant
                p <= out@.len(),
                forall|j: int| 0 <= j < p ==> range_le(out@[j], c),
            decreases out@.len() - p,
        {
            p += 1;
        }
        proof {
            lemma_insert_range(out@, c, p as int);
        }
        out.insert(p, c);
        k += 1;
    }
    assert(ranges@.subrange(0, ranges@.len() as int) =~= ranges@);
    out
}

/// One step of the merging sweep: `cur` is the range being grown, `out` what is done.
pub open spec fn sweep_step(
    st: (Seq<(FileId, Range)>, Option<(FileId, Range)>),
    x: (FileId, Range),
) -> (Seq<(FileId, Range)>, Option<(FileId, Range)>) {
    match st.1 {
        None => (st.0, Some(x)),
        Some(cur) => if cur.0 == x.0 && cur.1.end_byte >= x.1.start_byte {
            (
                st.0,
                Some(
                    (
                        cur.0,
                        Range {
                            end_byte: if cur.1.end_byte >= x.1.end_byte {
                                cur.1.end_byte
                            } else {
                                x.1.end_byte
                            },
                            end_line: if cur.1.end_line >= x.1.end_line {
                                cur.1.end_line
                            } else {
                                x.1.end_line
                            },
                            ..cur.1
                        },
                    ),
                ),
            )
        } else {
            (st.0.push(cur), Some(x))
        },
    }
}

pub open spec fn sweep(s: Seq<(FileId, Range)>) -> (Seq<(FileId, Range)>, Option<(FileId, Range)>)
    decreases s.len(),
{
    if s.len() == 0 {
        (seq![], None)
    } else {
        sweep_step(sweep(s.drop_last()), s.last())
    }
}

/// The merged ranges: sorted by file and start, with each run of ranges of one file
/// that reach into each other joined into one.
pub open spec fn merged(ranges: Seq<(FileId, Range)>) -> Seq<(FileId, Range)> {
    let st = sweep(sort_ranges(ranges));
    match st.1 {
        Some(cur) => st.0.push(cur),
        None => st.0,
    }
}

/// Merge overlapping ranges from the same file.
pub fn merge_ranges(ranges: &[(FileId, Range)]) -> (out: Vec<(FileId, Range)>)
    ensures
        out@ == merged(ranges@),
{
    let sorted = sort_ranges_exec(ranges);
    let mut out: Vec<(FileId, Range)> = Vec::new();
    let mut current: Option<(FileId, Range)> = None;
    let mut i: usize = 0;
    while i < sorted.len()
        invariant
            i <= sorted@.len(),
            (out@, current) == sweep(sorted@.subrange(0, i as int)),
        decreases sorted@.len() - i,
    {
        let x = sorted[i];
        proof {
            assert(sorted@.subrange(0, i + 1).drop_last() =~= sorted@.subrange(0, i as int));
        }
        match current {
            None => {
                current = Some(x);
            },
            Some(cur) => {
                if cur.0.0 == x.0.0 && cur.1.end_byte >= x.1.start_byte {
                    let mut grown = cur.1;
                    if x.1.end_byte > grown.end_byte {
                        grown.end_byte = x.1.end_byte;
                    }
                    if x.1.end_line > grown.end_line {
                        grown.end_line = x.1.end_line;
                    }
                    current = Some((cur.0, grown));
                } else {
                    out.push(cur);
                    current = Some(x);
                }
            },
        }
        i += 1;
    }
    assert(sorted@.subrange(0, sorted@.len() as int) =~= sorted@);
    if let Some(cur) = current {
        out.push(cur);
    }
    out
}

// ---------------------------------------------------------------------------
// Planning.

/// What the planner has chosen so far.
pub struct PlanState {
    pub fragments: Seq<FragmentView>,
    pub total_tokens: int,
    pub files_used: Seq<u64>,
    pub ranges_used: Seq<(u64, usize)>,
}

pub open spec fn initial_plan_state() -> PlanState {
    PlanState { fragments: seq![], total_tokens: 0, files_used: seq![], ranges_used: seq![] }
}

/// Adds a fragment for `c`'s symbol with the given content.
pub open spec fn add_fragment(st: PlanState, c: RankedCandidate, content: Seq<char>) -> PlanState {
    let fid = c.symbol.file_id;
    let tokens = token_estimate(content);
    PlanState {
        fragments: st.fragments.push(
            FragmentView {
                file_id: fid,
                range: c.symbol.range,
                symbol_name: Some(c.symbol.name@),
                content,
                token_count: tokens,
                depth: 0,
            },
        ),
        total_tokens: st.total_tokens + tokens,
        files_used: if st.files_used.contains(fid.0) {
            st.files_used
        } else {
            st.files_used.push(fid.0)
        },
        ranges_used: st.ranges_used.push((fid.0, c.symbol.range.start_byte)),
    }
}

/// Whether the planner asks for the source of `c`'s range: a fragment may still be added,
/// `c`'s file may still be used, and `c`'s (file, start byte) has not been taken.
pub open spec fn takes_source(st: PlanState, c: RankedCandidate, budget: TokenBudget) -> bool {
    &&& st.fragments.len() < budget.max_symbols
    &&& !(st.files_used.len() >= budget.max_files && !st.files_used.contains(c.symbol.file_id.0))
    &&& !st.ranges_used.contains((c.symbol.file_id.0, c.symbol.range.start_byte))
}

/// The planner's step on one candidate, `answer` being what the source gave for its range
/// (read only where the planner asks): a text that fits in the tokens left is taken whole,
/// a longer one shortened to them, and one whose shortened form would not fit either is
/// left out.
pub open spec fn plan_step_with(
    st: PlanState,
    c: RankedCandidate,
    budget: TokenBudget,
    answer: Option<Seq<char>>,
) -> PlanState {
    if !takes_source(st, c, budget) {
        st
    } else {
        match answer {
            None => st,
            Some(content) => {
                let remaining = budget.max_tokens - st.total_tokens;
                if token_estimate(content) <= remaining {
                    add_fragment(st, c, content)
                } else {
                    match compact_text(content, remaining) {
                        Some(short) => add_fragment(st, c, short),
                        None => st,
                    }
                }
            },
        }
    }
}

/// The plan after the first `n` candidates, `answers[i]` being what the source gave for
/// the `i`-th candidate's range.
pub open spec fn fold_upto(
    cands: Seq<RankedCandidate>,
    budget: TokenBudget,
    answers: Seq<Option<Seq<char>>>,
    n: nat,
) -> PlanState
    decreases n,
{
    if n == 0 || n > cands.len() {
        initial_plan_state()
    } else {
        plan_step_with(fold_upto(cands, budget, answers, (n - 1) as nat), cands[n - 1], budget, answers[n - 1])
    }
}

/// The plan for the candidates in order, with `src` naming the source text of a range.
pub open spec fn plan_fold(
    cands: Seq<RankedCandidate>,
    budget: TokenBudget,
    src: spec_fn(FileId, Range) -> Option<Seq<char>>,
) -> PlanState {
    fold_upto(
        cands,
        budget,
        Seq::new(cands.len(), |i: int| src(cands[i].symbol.file_id, cands[i].symbol.range)),
        cands.len(),
    )
}

/// The answers as characters.
pub open spec fn answer_chars(outs: Seq<Option<String>>) -> Seq<Option<Seq<char>>> {
    outs.map_values(|o: Option<String>| opt_chars(o))
}

/// Where the planner asked for the source of the `i`-th candidate, `outs[i]` is what a
/// call of `get_source` on that candidate's file and range gave.
pub open spec fn answered<F: Fn(FileId, &Range) -> Option<String>>(
    get_source: F,
    cands: Seq<RankedCandidate>,
    budget: TokenBudget,
    outs: Seq<Option<String>>,
    i: int,
) -> bool {
    takes_source(fold_upto(cands, budget, answer_chars(outs), i as nat), cands[i], budget)
        ==> call_ensures(get_source, (cands[i].symbol.file_id, &cands[i].symbol.range), outs[i])
}

/// One answer for each candidate, each read one a call of `get_source` gave.
pub open spec fn answers_given<F: Fn(FileId, &Range) -> Option<String>>(
    get_source: F,
    cands: Seq<RankedCandidate>,
    budget: TokenBudget,
    outs: Seq<Option<String>>,
) -> bool {
    &&& outs.len() == cands.len()
    &&& forall|i: int| 0 <= i < cands.len() ==> #[trigger] answered(get_source, cands, budget, outs, i)
}

pub open spec fn plan_matches(plan: ContextPlan, st: PlanState, budget: TokenBudget) -> bool {
    &&& plan.fragments@.map_values(|f: ContextFragment| f@) == st.fragments
    &&& plan.total_tokens == st.total_tokens
    &&& plan.total_files == st.files_used.len()
    &&& plan.budget == budget
}

/// `get_source` can be called on any file and range.
pub open spec fn source_callable<F: Fn(FileId, &Range) -> Option<String>>(f: F) -> bool {
    forall|fid: FileId, r: Range| call_requires(f, (fid, &r))
}

/// Every answer of `get_source` is the text `src` names.
pub open spec fn source_agrees<F: Fn(FileId, &Range) -> Option<String>>(
    f: F,
    src: spec_fn(FileId, Range) -> Option<Seq<char>>,
) -> bool {
    forall|fid: FileId, r: Range, o: Option<String>|
        call_ensures(f, (fid, &r), o) ==> opt_chars(o) == src(fid, r)
}

/// The plan depends only on the answers for the first `n` candidates.
proof fn lemma_fold_agree(
    cands: Seq<RankedCandidate>,
    budget: TokenBudget,
    a: Seq<Option<Seq<char>>>,
    b: Seq<Option<Seq<char>>>,
    n: nat,
)
    requires
        forall|j: int| 0 <= j < n ==> a[j] == b[j],
    ensures
        fold_upto(cands, budget, a, n) == fold_upto(cands, budget, b, n),
    decreases n,
{
    if n > 0 {
        lemma_fold_agree(cands, budget, a, b, (n - 1) as nat);
    }
}

/// Where every answer of `get_source` is the text `src` names, the plan made of the
/// answers it gave is the plan made of `src`.
pub proof fn lemma_answers_agree<F: Fn(FileId, &Range) -> Option<String>>(
    get_source: F,
    src: spec_fn(FileId, Range) -> Option<Seq<char>>,
    cands: Seq<RankedCandidate>,
    budget: TokenBudget,
    outs: Seq<Option<String>>,
)
    requires
        source_agrees(get_source, src),
        answers_given(get_source, cands, budget, outs),
    ensures
        fold_upto(cands, budget, answer_chars(outs), cands.len()) == plan_fold(cands, budget, src),
{
    let s = Seq::new(cands.len(), |i: int| src(cands[i].symbol.file_id, cands[i].symbol.range));
    lemma_answers_agree_upto(get_source, src, cands, budget, outs, s, cands.len());
}

proof fn lemma_answers_agree_upto<F: Fn(FileId, &Range) -> Option<String>>(
    get_source: F,
    src: spec_fn(FileId, Range) -> Option<Seq<char>>,
    cands: Seq<RankedCandidate>,
    budget: TokenBudget,
    outs: Seq<Option<String>>,
    s: Seq<Option<Seq<char>>>,
    n: nat,
)
    requires
        source_agrees(get_source, src),
        answers_given(get_source, cands, budget, outs),
        s == Seq::new(cands.len(), |i: int| src(cands[i].symbol.file_id, cands[i].symbol.range)),
        n <= cands.len(),
    ensures
        fold_upto(cands, budget, answer_chars(outs), n) == fold_upto(cands, budget, s, n),
    decreases n,
{
    if n > 0 {
        let m = (n - 1) as nat;
        lemma_answers_agree_upto(get_source, src, cands, budget, outs, s, m);
        let i = m as int;
        assert(answered(get_source, cands, budget, outs, i));
        let st = fold_upto(cands, budget, answer_chars(outs), m);
        if takes_source(st, cands[i], budget) {
            assert(answer_chars(outs)[i] == opt_chars(outs[i]));
            assert(s[i] == src(cands[i].symbol.file_id, cands[i].symbol.range));
        }
    }
}

/// The planner: candidates best first; for each, unless the budget's symbol or file limit
/// or an earlier candidate with the same (file, start byte) rules it out, one call of
/// `get_source` on its file and range; a text that fits in the tokens left is taken whole,
/// a longer one shortened to them (see `compact_text`), and one whose shortened form does
/// not fit either is left out.
pub fn plan_context<F: Fn(FileId, &Range) -> Option<String>>(
    candidates: Vec<RankedCandidate>,
    budget: &TokenBudget,
    get_source: F,
) -> (plan: ContextPlan)
    requires
        source_callable(get_source),
    ensures
        exists|outs: Seq<Option<String>>|
            #[trigger] answers_given(get_source, sort_by_score(candidates@), *budget, outs)
                && plan_matches(
                plan,
                fold_upto(sort_by_score(candidates@), *budget, answer_chars(outs), sort_by_score(candidates@).len()),
                *budget,
            ),
        plan.total_tokens <= budget.max_tokens,
        plan.total_tokens == token_sum(plan.fragments@.map_values(|f: ContextFragment| f@), plan.fragments@.len()),
        plan.fragments@.len() <= budget.max_symbols,
        plan.total_files <= budget.max_files,
        plan.total_files == fragment_files(plan.fragments@.map_values(|f: ContextFragment| f@)).len(),
{
    let sorted = sort_candidates(candidates);
    let ghost cands = sorted@;
    let mut input = sorted;
    let mut fragments: Vec<ContextFragment> = Vec::new();
    let mut total_tokens: usize = 0;
    let mut files_used: Vec<u64> = Vec::new();
    let mut ranges_used: Vec<(u64, usize)> = Vec::new();
    let ghost mut k: int = 0;
    let ghost mut outs: Seq<Option<String>> = Seq::empty();

    while input.len() > 0
        invariant
            source_callable(get_source),
            cands == sort_by_score(candidates@),
            0 <= k <= cands.len(),
            input@ == cands.subrange(k, cands.len() as int),
            outs.len() == k,
            forall|i: int| 0 <= i < k ==> #[trigger] answered(get_source, cands, *budget, outs, i),
            total_tokens <= budget.max_tokens,
            ({
                let st = fold_upto(cands, *budget, answer_chars(outs), k as nat);
                &&& fragments@.map_values(|f: ContextFragment| f@) == st.fragments
                &&& total_tokens == st.total_tokens
                &&& files_used@ == st.files_used
                &&& ranges_used@ == st.ranges_used
            }),
        decreases input@.len(),
    {
        let c = input.remove(0);
        proof {
            assert(c == cands[k]);
            assert(input@ =~= cands.subrange(k + 1, cands.len() as int));
        }
        let ghost before = fold_upto(cands, *budget, answer_chars(outs), k as nat);
        let fid = c.symbol.file_id;
        let range = c.symbol.range;
        proof {
            assert(fragments@.map_values(|f: ContextFragment| f@).len() == fragments@.len());
        }
        let file_known = vec_contains_u64(&files_used, fid.0);
        let taken = fragments.len() < budget.max_symbols && !(files_used.len() >= budget.max_files && !file_known)
            && !vec_contains_pair(&ranges_used, (fid.0, range.start_byte));
        let got: Option<String> = if taken {
            get_source(fid, &range)
        } else {
            None
        };
        let ghost old_outs = outs;
        proof {
            outs = outs.push(got);
            assert forall|j: int| 0 <= j < k implies answer_chars(outs)[j] == answer_chars(old_outs)[j] by {}
            lemma_fold_agree(cands, *budget, answer_chars(outs), answer_chars(old_outs), k as nat);
            assert forall|i: int| 0 <= i < k + 1 implies #[trigger] answered(get_source, cands, *budget, outs, i) by {
                if i < k {
                    assert forall|j: int| 0 <= j < i implies answer_chars(outs)[j] == answer_chars(old_outs)[j] by {}
                    lemma_fold_agree(cands, *budget, answer_chars(outs), answer_chars(old_outs), i as nat);
                    assert(answered(get_source, cands, *budget, old_outs, i));
                    assert(outs[i] == old_outs[i]);
                }
            }
            assert(answer_chars(outs)[k] == opt_chars(got));
            assert(fold_upto(cands, *budget, answer_chars(outs), (k + 1) as nat) == plan_step_with(before, c, *budget, opt_chars(got)));
            k = k + 1;
        }
        let ghost after = plan_step_with(before, c, *budget, opt_chars(got));
        if !taken {
            proof {
                assert(after == before);
            }
            continue;
        }
        let content = match got {
            Some(text) => text,
            None => {
                continue;
            },
        };
        let remaining = budget.max_tokens - total_tokens;
        let tokens = estimate_tokens(content.as_str());
        let (text, text_tokens) = if tokens <= remaining {
            (content, tokens)
        } else {
            match compact(content.as_str(), remaining) {
                Some(short) => {
                    let t = estimate_tokens(short.as_str());
                    (short, t)
                },
                None => {
                    proof {
                        assert(after == before);
                    }
                    continue;
                },
            }
        };
        total_tokens = total_tokens + text_tokens;
        if !file_known {
            files_used.push(fid.0);
        }
        ranges_used.push((fid.0, range.start_byte));
        let frag = ContextFragment {
            file_id: fid,
            range,
            symbol_name: Some(c.symbol.name),
            content: text,
            token_count: text_tokens,
            depth: 0,
        };
        fragments.push(frag);
        proof {
            assert(fragments@.map_values(|f: ContextFragment| f@) =~= after.fragments);
        }
    }
    let ghost st = fold_upto(cands, *budget, answer_chars(outs), cands.len());
    proof {
        lemma_plan_keeps(cands, *budget, answer_chars(outs), cands.len());
        lemma_fragment_files(st);
        assert(answers_given(get_source, cands, *budget, outs));
    }
    let total_files = files_used.len();
    ContextPlan { fragments, total_tokens, total_files, budget: *budget }
}

fn vec_contains_u64(v: &Vec<u64>, x: u64) -> (r: bool)
    ensures
        r == v@.contains(x),
{
    let mut i: usize = 0;
    while i < v.len()
        invariant
            i <= v@.len(),
            forall|k: int| 0 <= k < i ==> v@[k] != x,
        decreases v@.len() - i,
    {
        if v[i] == x {
            return true;
        }
        i += 1;
    }
    false
}

fn vec_contains_pair(v: &Vec<(u64, usize)>, x: (u64, usize)) -> (r: bool)
    ensures
        r == v@.contains(x),
{
    let mut i: usize = 0;
    while i < v.len()
        invariant
            i <= v@.len(),
            forall|k: int| 0 <= k < i ==> v@[k] != x,
        decreases v@.len() - i,
    {
        if v[i].0 == x.0 && v[i].1 == x.1 {
            return true;
        }
        i += 1;
    }
    false
}


// ---------------------------------------------------------------------------
// Laws.

/// The token counts of the first `n` fragments, added up.
pub open spec fn token_sum(f: Seq<FragmentView>, n: nat) -> int
    decreases n,
{
    if n == 0 || n > f.len() {
        0
    } else {
        token_sum(f, (n - 1) as nat) + f[n - 1].token_count
    }
}

/// The (file, start byte) of each fragment.
pub open spec fn fragment_keys(f: Seq<FragmentView>) -> Seq<(u64, usize)> {
    f.map_values(|x: FragmentView| (x.file_id.0, x.range.start_byte))
}

/// The files that the fragments come from.
pub open spec fn fragment_files(f: Seq<FragmentView>) -> Set<u64> {
    Set::new(|x: u64| exists|k: int| 0 <= k < f.len() && f[k].file_id.0 == x)
}

/// What every planner state keeps.
pub open spec fn plan_keeps(st: PlanState, budget: TokenBudget) -> bool {
    &&& st.fragments.len() <= budget.max_symbols
    &&& st.files_used.len() <= budget.max_files
    &&& st.files_used.no_duplicates()
    &&& forall|k: int| 0 <= k < st.fragments.len() ==> st.files_used.contains(#[trigger] st.fragments[k].file_id.0)
    &&& forall|j: int| 0 <= j < st.files_used.len() ==> exists|k: int| 0 <= k < st.fragments.len() && st.fragments[k].file_id.0 == #[trigger] st.files_used[j]
    &&& st.ranges_used == fragment_keys(st.fragments)
    &&& st.ranges_used.no_duplicates()
    &&& st.total_tokens == token_sum(st.fragments, st.fragments.len())
    &&& 0 <= st.total_tokens <= budget.max_tokens
}

proof fn lemma_token_sum_prefix(f: Seq<FragmentView>, x: FragmentView, n: nat)
    requires
        n <= f.len(),
    ensures
        token_sum(f.push(x), n) == token_sum(f, n),
    decreases n,
{
    if n > 0 {
        lemma_token_sum_prefix(f, x, (n - 1) as nat);
        assert(f.push(x)[n - 1] == f[n - 1]);
    }
}

/// A step adds at most the tokens left.
proof fn lemma_step_tokens(st: PlanState, c: RankedCandidate, budget: TokenBudget, answer: Option<Seq<char>>)
    requires
        0 <= st.total_tokens <= budget.max_tokens,
    ensures
        st.total_tokens <= plan_step_with(st, c, budget, answer).total_tokens <= budget.max_tokens,
{
    if let Some(content) = answer {
        let remaining = budget.max_tokens - st.total_tokens;
        if token_estimate(content) > remaining {
            if compact_text(content, remaining) is Some {
                lemma_compact_fits(content, remaining);
            }
        }
    }
}

/// The files counted are the fragments' files, each once.
proof fn lemma_fragment_files(st: PlanState)
    requires
        st.files_used.no_duplicates(),
        forall|k: int| 0 <= k < st.fragments.len() ==> st.files_used.contains(#[trigger] st.fragments[k].file_id.0),
        forall|j: int| 0 <= j < st.files_used.len() ==> exists|k: int| 0 <= k < st.fragments.len() && st.fragments[k].file_id.0 == #[trigger] st.files_used[j],
    ensures
        st.files_used.len() == fragment_files(st.fragments).len(),
{
    assert(st.files_used.to_set() =~= fragment_files(st.fragments)) by {
        assert forall|x: u64| #[trigger] fragment_files(st.fragments).contains(x) implies st.files_used.to_set().contains(x) by {
            let k = choose|k: int| 0 <= k < st.fragments.len() && st.fragments[k].file_id.0 == x;
            assert(st.files_used.contains(st.fragments[k].file_id.0));
        }
        assert forall|x: u64| #[trigger] st.files_used.to_set().contains(x) implies fragment_files(st.fragments).contains(x) by {
            let j = choose|j: int| 0 <= j < st.files_used.len() && st.files_used[j] == x;
            assert(st.files_used[j] == x);
        }
    }
    st.files_used.unique_seq_to_set();
}

proof fn lemma_plan_keeps(cands: Seq<RankedCandidate>, budget: TokenBudget, answers: Seq<Option<Seq<char>>>, n: nat)
    ensures
        plan_keeps(fold_upto(cands, budget, answers, n), budget),
    decreases n,
{
    if n == 0 || n > cands.len() {
        let st = initial_plan_state();
        assert(st.ranges_used =~= fragment_keys(st.fragments));
    } else {
        lemma_plan_keeps(cands, budget, answers, (n - 1) as nat);
        let st = fold_upto(cands, budget, answers, (n - 1) as nat);
        let c = cands[n - 1];
        let st2 = fold_upto(cands, budget, answers, n);
        let fid = c.symbol.file_id;
        lemma_step_tokens(st, c, budget, answers[n - 1]);
        if st2.fragments.len() != st.fragments.len() {
            // A fragment was added.
            let f = st2.fragments.last();
            assert(st2.fragments == st.fragments.push(f));
            assert(st2.ranges_used =~= fragment_keys(st2.fragments));
            assert(!st.ranges_used.contains((fid.0, c.symbol.range.start_byte)));
            assert(st2.ranges_used.no_duplicates()) by {
                assert forall|i: int, j: int| 0 <= i < j < st2.ranges_used.len() implies st2.ranges_used[i] != st2.ranges_used[j] by {
                    if j == st.ranges_used.len() {
                        assert(st2.ranges_used[i] == st.ranges_used[i]);
                    }
                }
            }
            lemma_token_sum_prefix(st.fragments, f, st.fragments.len());
            assert forall|k: int| 0 <= k < st2.fragments.len() implies st2.files_used.contains(#[trigger] st2.fragments[k].file_id.0) by {
                if k < st.fragments.len() {
                    assert(st2.fragments[k] == st.fragments[k]);
                    assert(st.files_used.contains(st.fragments[k].file_id.0));
                    let q = choose|q: int| 0 <= q < st.files_used.len() && st.files_used[q] == st.fragments[k].file_id.0;
                    assert(st2.files_used[q] == st.files_used[q]);
                } else {
                    if st.files_used.contains(fid.0) {
                    } else {
                        assert(st2.files_used[st.files_used.len() as int] == fid.0);
                    }
                }
            }
            assert forall|j: int| 0 <= j < st2.files_used.len() implies exists|k: int| 0 <= k < st2.fragments.len() && st2.fragments[k].file_id.0 == #[trigger] st2.files_used[j] by {
                if j < st.files_used.len() {
                    assert(st2.files_used[j] == st.files_used[j]);
                    let k = choose|k: int| 0 <= k < st.fragments.len() && st.fragments[k].file_id.0 == st.files_used[j];
                    assert(st2.fragments[k] == st.fragments[k]);
                } else {
                    assert(st2.files_used[j] == fid.0);
                    assert(st2.fragments[st.fragments.len() as int].file_id.0 == fid.0);
                }
            }
            assert(st2.files_used.no_duplicates()) by {
                if !st.files_used.contains(fid.0) {
                    assert forall|i: int, j: int| 0 <= i < j < st2.files_used.len() implies st2.files_used[i] != st2.files_used[j] by {
                        if j == st.files_used.len() {
                            assert(st2.files_used[i] == st.files_used[i]);
                        }
                    }
                }
            }
        } else {
            assert(st2 == st);
        }
    }
}

/// The planner keeps to the budget, whatever the source answers: at most `max_symbols`
/// fragments from at most `max_files` files (the files counted are those of the
/// fragments, each once), no (file, start byte) twice, and a total of tokens, the sum of
/// the fragments' own, of at most `max_tokens`.
pub proof fn plan_respects_budget(cands: Seq<RankedCandidate>, budget: TokenBudget, answers: Seq<Option<Seq<char>>>)
    ensures
        ({
            let st = fold_upto(cands, budget, answers, cands.len());
            &&& st.fragments.len() <= budget.max_symbols
            &&& st.files_used.len() <= budget.max_files
            &&& st.files_used.len() == fragment_files(st.fragments).len()
            &&& forall|k: int| 0 <= k < st.fragments.len() ==> st.files_used.contains(#[trigger] st.fragments[k].file_id.0)
            &&& fragment_keys(st.fragments).no_duplicates()
            &&& st.total_tokens == token_sum(st.fragments, st.fragments.len())
            &&& st.total_tokens <= budget.max_tokens
        }),
{
    lemma_plan_keeps(cands, budget, answers, cands.len());
    lemma_fragment_files(fold_upto(cands, budget, answers, cands.len()));
}


spec fn first_after(s: Seq<(FileId, Range)>, c: (FileId, Range), k: int) -> int
    decreases s.len() - k,
{
    if k >= s.len() || k < 0 {
        s.len() as int
    } else if !range_le(s[k], c) {
        k
    } else {
        first_after(s, c, k + 1)
    }
}

proof fn lemma_first_after(s: Seq<(FileId, Range)>, c: (FileId, Range), k: int)
    requires
        0 <= k <= s.len(),
        ranges_sorted(s),
        forall|j: int| 0 <= j < k ==> range_le(s[j], c),
    ensures
        is_range_insert_point(s, c, first_after(s, c, k)),
    decreases s.len() - k,
{
    if k < s.len() && range_le(s[k], c) {
        lemma_first_after(s, c, k + 1);
    }
}

proof fn lemma_sort_ranges_sorted(s: Seq<(FileId, Range)>)
    ensures
        ranges_sorted(sort_ranges(s)),
    decreases s.len(),
{
    if s.len() > 0 {
        lemma_sort_ranges_sorted(s.drop_last());
        let t = sort_ranges(s.drop_last());
        lemma_first_after(t, s.last(), 0);
        lemma_insert_range(t, s.last(), first_after(t, s.last(), 0));
    }
}

/// Consecutive ranges are in order, and consecutive ranges of one file leave a gap.
pub open spec fn separated(m: Seq<(FileId, Range)>) -> bool {
    forall|i: int, j: int|
        #![trigger m[i], m[j]]
        0 <= i && j == i + 1 && j < m.len() ==> range_le(m[i], m[j]) && (m[i].0 == m[j].0 ==> m[i].1.end_byte
            < m[j].1.start_byte)
}

pub open spec fn with_current(st: (Seq<(FileId, Range)>, Option<(FileId, Range)>)) -> Seq<(FileId, Range)> {
    match st.1 {
        Some(c) => st.0.push(c),
        None => st.0,
    }
}

pub open spec fn current_of(st: (Seq<(FileId, Range)>, Option<(FileId, Range)>)) -> (FileId, Range) {
    st.1->0
}

proof fn lemma_sweep(t: Seq<(FileId, Range)>, n: nat)
    requires
        ranges_sorted(t),
        n <= t.len(),
    ensures
        separated(with_current(sweep(t.take(n as int)))),
        (sweep(t.take(n as int)).1 is None) == (n == 0),
        n > 0 ==> exists|j: int| 0 <= j < n && #[trigger] t[j].0 == current_of(sweep(t.take(n as int))).0
            && t[j].1.start_byte == current_of(sweep(t.take(n as int))).1.start_byte,
    decreases n,
{
    if n > 0 {
        let m = (n - 1) as nat;
        lemma_sweep(t, m);
        assert(t.take(n as int).drop_last() =~= t.take(m as int));
        assert(t.take(n as int).last() == t[m as int]);
        let st = sweep(t.take(m as int));
        let x = t[m as int];
        let st2 = sweep(t.take(n as int));
        assert(st2 == sweep_step(st, x));
        match st.1 {
            None => {
                assert(st.0.len() == 0) by {
                    assert(m == 0);
                    assert(t.take(0) =~= Seq::<(FileId, Range)>::empty());
                }
                assert(with_current(st2) =~= seq![x]);
            },
            Some(cur) => {
                let j = choose|j: int| 0 <= j < m && #[trigger] t[j].0 == cur.0 && t[j].1.start_byte == cur.1.start_byte;
                assert(range_le(t[j], x));
                let w = with_current(st);
                if cur.0 == x.0 && cur.1.end_byte >= x.1.start_byte {
                    let grown = st2.1->0;
                    assert(with_current(st2) =~= st.0.push(grown));
                    assert forall|i: int, k: int| #![trigger with_current(st2)[i], with_current(st2)[k]]
                        0 <= i && k == i + 1 && k < with_current(st2).len() implies range_le(with_current(st2)[i], with_current(st2)[k])
                        && (with_current(st2)[i].0 == with_current(st2)[k].0 ==> with_current(st2)[i].1.end_byte < with_current(st2)[k].1.start_byte) by {
                        assert(w[i] == with_current(st2)[i]);
                        if k < st.0.len() {
                            assert(w[k] == with_current(st2)[k]);
                        } else {
                            assert(w[k] == cur);
                        }
                    }
                } else {
                    assert(with_current(st2) =~= w.push(x));
                    assert forall|i: int, k: int| #![trigger with_current(st2)[i], with_current(st2)[k]]
                        0 <= i && k == i + 1 && k < with_current(st2).len() implies range_le(with_current(st2)[i], with_current(st2)[k])
                        && (with_current(st2)[i].0 == with_current(st2)[k].0 ==> with_current(st2)[i].1.end_byte < with_current(st2)[k].1.start_byte) by {
                        if k < w.len() {
                            assert(w[i] == with_current(st2)[i]);
                            assert(w[k] == with_current(st2)[k]);
                        } else {
                            assert(with_current(st2)[i] == cur);
                            assert(with_current(st2)[k] == x);
                        }
                    }
                }
            },
        }
    }
}

/// Merged ranges come in order of file and start, and two consecutive ranges of one file
/// never touch: a gap lies between them.
pub proof fn merged_ranges_are_separate(ranges: Seq<(FileId, Range)>)
    ensures
        separated(merged(ranges)),
{
    let t = sort_ranges(ranges);
    lemma_sort_ranges_sorted(ranges);
    lemma_sweep(t, t.len());
    assert(t.take(t.len() as int) =~= t);
}

/// Byte `b` of file `f` lies in the range `x`.
pub open spec fn in_range(x: (FileId, Range), f: u64, b: int) -> bool {
    x.0.0 == f && x.1.start_byte <= b < x.1.end_byte
}

/// Byte `b` of file `f` lies in one of the ranges.
pub open spec fn covers(s: Seq<(FileId, Range)>, f: u64, b: int) -> bool {
    exists|x: (FileId, Range)| s.contains(x) && #[trigger] in_range(x, f, b)
}

proof fn lemma_covers_push(s: Seq<(FileId, Range)>, x: (FileId, Range), f: u64, b: int)
    ensures
        covers(s.push(x), f, b) == (covers(s, f, b) || in_range(x, f, b)),
{
    if covers(s.push(x), f, b) {
        let y = choose|y: (FileId, Range)| s.push(x).contains(y) && #[trigger] in_range(y, f, b);
        let i = choose|i: int| 0 <= i < s.push(x).len() && s.push(x)[i] == y;
        if i < s.len() {
            assert(s[i] == y);
            assert(s.contains(y));
        }
    }
    if covers(s, f, b) {
        let y = choose|y: (FileId, Range)| s.contains(y) && #[trigger] in_range(y, f, b);
        let i = choose|i: int| 0 <= i < s.len() && s[i] == y;
        assert(s.push(x)[i] == y);
        assert(s.push(x).contains(y));
    }
    if in_range(x, f, b) {
        assert(s.push(x)[s.len() as int] == x);
        assert(s.push(x).contains(x));
    }
}

proof fn lemma_insert_contains(s: Seq<(FileId, Range)>, c: (FileId, Range))
    ensures
        forall|y: (FileId, Range)| #[trigger] insert_range(s, c).contains(y) <==> (s.contains(y) || y == c),
    decreases s.len(),
{
    if s.len() == 0 {
        assert(insert_range(s, c) =~= seq![c]);
        assert forall|y: (FileId, Range)| #[trigger] insert_range(s, c).contains(y) <==> (s.contains(y) || y == c) by {
            if y == c {
                assert(insert_range(s, c)[0] == c);
            }
        }
    } else if range_le(s.last(), c) {
        lemma_push_contains(s, c);
    } else {
        let d = s.drop_last();
        lemma_insert_contains(d, c);
        lemma_push_contains(insert_range(d, c), s.last());
        lemma_push_contains(d, s.last());
        assert(d.push(s.last()) =~= s);
    }
}

proof fn lemma_push_contains(s: Seq<(FileId, Range)>, x: (FileId, Range))
    ensures
        forall|y: (FileId, Range)| #[trigger] s.push(x).contains(y) <==> (s.contains(y) || y == x),
{
    assert forall|y: (FileId, Range)| #[trigger] s.push(x).contains(y) <==> (s.contains(y) || y == x) by {
        if s.push(x).contains(y) {
            let i = choose|i: int| 0 <= i < s.push(x).len() && s.push(x)[i] == y;
            if i < s.len() {
                assert(s[i] == y);
            }
        }
        if s.contains(y) {
            let i = choose|i: int| 0 <= i < s.len() && s[i] == y;
            assert(s.push(x)[i] == y);
        }
        if y == x {
            assert(s.push(x)[s.len() as int] == x);
        }
    }
}

proof fn lemma_sort_contains(s: Seq<(FileId, Range)>)
    ensures
        forall|y: (FileId, Range)| #[trigger] sort_ranges(s).contains(y) <==> s.contains(y),
    decreases s.len(),
{
    if s.len() > 0 {
        lemma_sort_contains(s.drop_last());
        lemma_insert_contains(sort_ranges(s.drop_last()), s.last());
        lemma_push_contains(s.drop_last(), s.last());
        assert(s.drop_last().push(s.last()) =~= s);
    }
}

proof fn lemma_sweep_covers(t: Seq<(FileId, Range)>, n: nat, f: u64, b: int)
    requires
        ranges_sorted(t),
        n <= t.len(),
    ensures
        covers(with_current(sweep(t.take(n as int))), f, b) == covers(t.take(n as int), f, b),
    decreases n,
{
    if n == 0 {
        assert(t.take(0) =~= Seq::<(FileId, Range)>::empty());
    } else {
        let m = (n - 1) as nat;
        lemma_sweep_covers(t, m, f, b);
        lemma_sweep(t, m);
        assert(t.take(n as int).drop_last() =~= t.take(m as int));
        assert(t.take(n as int) =~= t.take(m as int).push(t[m as int]));
        let st = sweep(t.take(m as int));
        let x = t[m as int];
        let st2 = sweep(t.take(n as int));
        assert(st2 == sweep_step(st, x));
        lemma_covers_push(t.take(m as int), x, f, b);
        match st.1 {
            None => {
                assert(st.0.len() == 0) by {
                    assert(m == 0);
                    assert(t.take(0) =~= Seq::<(FileId, Range)>::empty());
                }
                assert(with_current(st2) =~= st.0.push(x));
                assert(with_current(st) =~= st.0);
                lemma_covers_push(st.0, x, f, b);
            },
            Some(cur) => {
                let j = choose|j: int| 0 <= j < m && #[trigger] t[j].0 == cur.0 && t[j].1.start_byte == cur.1.start_byte;
                assert(range_le(t[j], x));
                assert(with_current(st) =~= st.0.push(cur));
                lemma_covers_push(st.0, cur, f, b);
                if cur.0 == x.0 && cur.1.end_byte >= x.1.start_byte {
                    let grown = st2.1->0;
                    assert(with_current(st2) =~= st.0.push(grown));
                    lemma_covers_push(st.0, grown, f, b);
                    assert(in_range(grown, f, b) == (in_range(cur, f, b) || in_range(x, f, b)));
                } else {
                    assert(with_current(st2) =~= with_current(st).push(x));
                    lemma_covers_push(with_current(st), x, f, b);
                }
            },
        }
    }
}

/// Merging keeps exactly what the ranges cover: a byte of a file lies in a merged range
/// if and only if it lies in one of the ranges given.
pub proof fn merged_ranges_cover_the_same(ranges: Seq<(FileId, Range)>, f: u64, b: int)
    ensures
        covers(merged(ranges), f, b) == covers(ranges, f, b),
{
    let t = sort_ranges(ranges);
    lemma_sort_ranges_sorted(ranges);
    lemma_sort_contains(ranges);
    lemma_sweep_covers(t, t.len(), f, b);
    assert(t.take(t.len() as int) =~= t);
    assert(merged(ranges) == with_current(sweep(t)));
    if covers(t, f, b) {
        let y = choose|y: (FileId, Range)| t.contains(y) && #[trigger] in_range(y, f, b);
        assert(ranges.contains(y));
    }
    if covers(ranges, f, b) {
        let y = choose|y: (FileId, Range)| ranges.contains(y) && #[trigger] in_range(y, f, b);
        assert(t.contains(y));
    }
}

} // verus!
