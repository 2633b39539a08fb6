//! Tokens and term counts for TF-IDF similarity.
//!
//! Code is split into runs of alphanumeric characters, lower-cased, and stripped of a few
//! keywords and literals; term counts are scaled to percentages of the token count. The
//! floating-point scoring built on these counts lives outside the library.

use vstd::prelude::*;

use crate::text::{chars_of, str_eq, string_from_chars, to_lowercase, unicode_lowercase};
use crate::types::{FileId, Range};

verus! {

/// Code fragment for indexing.
#[derive(Debug, Clone)]
pub struct CodeFragment {
    pub id: String,
    pub file_id: FileId,
    pub range: Range,
    pub text: String,
}

/// Whether Unicode counts the character as alphabetic or numeric (`char::is_alphanumeric`).
pub uninterp spec fn unicode_alphanumeric(c: char) -> bool;

pub open spec fn ascii_alphanumeric(c: char) -> bool {
    ('0' <= c && c <= '9') || ('a' <= c && c <= 'z') || ('A' <= c && c <= 'Z')
}

/// `char::is_alphanumeric`. The answer is named; for an ASCII character it holds exactly of
/// the digits and the Latin letters.
#[verifier::external_body]
pub(crate) fn is_alphanumeric(c: char) -> (b: bool)
    ensures
        b == unicode_alphanumeric(c),
        (c as u32) < 128 ==> (b <==> ascii_alphanumeric(c)),
{
    c.is_alphanumeric()
}

/// The words left out of the tokens.
pub open spec fn stop_word(t: Seq<char>) -> bool {
    t =~= seq!['i', 'f'] || t =~= seq!['e', 'l', 's', 'e'] || t =~= seq!['f', 'o', 'r'] || t =~= seq![
        'w',
        'h',
        'i',
        'l',
        'e',
    ] || t =~= seq!['r', 'e', 't', 'u', 'r', 'n'] || t =~= seq!['t', 'r', 'u', 'e'] || t =~= seq![
        'f',
        'a',
        'l',
        's',
        'e',
    ] || t =~= seq!['n', 'i', 'l'] || t =~= seq!['n', 'o', 'n', 'e']
}

/// Whether a term is a stop word.
pub fn is_stop_word(term: &str) -> (b: bool)
    ensures
        b == stop_word(term@),
{
    let r = str_eq(term, "if") || str_eq(term, "else") || str_eq(term, "for") || str_eq(term, "while")
        || str_eq(term, "return") || str_eq(term, "true") || str_eq(term, "false") || str_eq(term, "nil")
        || str_eq(term, "none");
    proof {
        reveal_strlit("if");
        reveal_strlit("else");
        reveal_strlit("for");
        reveal_strlit("while");
        reveal_strlit("return");
        reveal_strlit("true");
        reveal_strlit("false");
        reveal_strlit("nil");
        reveal_strlit("none");
        assert("if"@ =~= seq!['i', 'f']);
        assert("else"@ =~= seq!['e', 'l', 's', 'e']);
        assert("for"@ =~= seq!['f', 'o', 'r']);
        assert("while"@ =~= seq!['w', 'h', 'i', 'l', 'e']);
        assert("return"@ =~= seq!['r', 'e', 't', 'u', 'r', 'n']);
        assert("true"@ =~= seq!['t', 'r', 'u', 'e']);
        assert("false"@ =~= seq!['f', 'a', 'l', 's', 'e']);
        assert("nil"@ =~= seq!['n', 'i', 'l']);
        assert("none"@ =~= seq!['n', 'o', 'n', 'e']);
    }
    r
}

/// A finished word adds its lower-cased form, unless that is a stop word.
pub open spec fn emit(tokens: Seq<Seq<char>>, word: Seq<char>) -> Seq<Seq<char>> {
    if stop_word(unicode_lowercase(word)) {
        tokens
    } else {
        tokens.push(unicode_lowercase(word))
    }
}

/// Tokens so far and the word in progress, after the first `n` characters.
pub open spec fn scan_tokens(t: Seq<char>, n: nat) -> (Seq<Seq<char>>, Seq<char>)
    decreases n,
{
    if n == 0 {
        (seq![], seq![])
    } else {
        let (toks, cur) = scan_tokens(t, (n - 1) as nat);
        if unicode_alphanumeric(t[n - 1]) {
            (toks, cur.push(t[n - 1]))
        } else if cur.len() > 0 {
            (emit(toks, cur), seq![])
        } else {
            (toks, seq![])
        }
    }
}

/// The tokens of a text: its runs of alphanumeric characters, lower-cased, without the
/// stop words.
pub open spec fn tokens_of(t: Seq<char>) -> Seq<Seq<char>> {
    let (toks, cur) = scan_tokens(t, t.len());
    if cur.len() > 0 {
        emit(toks, cur)
    } else {
        toks
    }
}

/// Adds the lower-cased word to the tokens unless it is a stop word.
fn push_token(tokens: &mut Vec<String>, word: &[char])
    ensures
        final(tokens)@.map_values(|s: String| s@) == emit(old(tokens)@.map_values(|s: String| s@), word@),
{
    let w = string_from_chars(word);
    let lower = to_lowercase(w.as_str());
    if !is_stop_word(lower.as_str()) {
        let ghost before = tokens@;
        tokens.push(lower);
        proof {
            assert(tokens@.map_values(|s: String| s@) =~= before.map_values(|s: String| s@).push(lower@));
        }
    }
}

/// Tokenizes code into lower-cased alphanumeric terms without the stop words.
pub fn tokenize_code(text: &str) -> (tokens: Vec<String>)
    ensures
        tokens@.map_values(|s: String| s@) == tokens_of(text@),
{
    let chars = chars_of(text);
    let mut tokens: Vec<String> = Vec::new();
    let mut current: Vec<char> = Vec::new();
    let mut i: usize = 0;
    while i < chars.len()
        invariant
            i <= chars@.len(),
            chars@ == text@,
            tokens@.map_values(|s: String| s@) == scan_tokens(text@, i as nat).0,
            current@ == scan_tokens(text@, i as nat).1,
        decreases chars@.len() - i,
    {
        let ch = chars[i];
        if is_alphanumeric(ch) {
            current.push(ch);
        } else if current.len() > 0 {
            push_token(&mut tokens, current.as_slice());
            current = Vec::new();
        }
        i += 1;
        proof {
            assert(current@ =~= scan_tokens(text@, i as nat).1);
        }
    }
    if current.len() > 0 {
        push_token(&mut tokens, current.as_slice());
    }
    tokens
}

// ---------------------------------------------------------------------------
// Term counts.

/// Number of times `t` occurs among the tokens.
pub open spec fn occurrences(tokens: Seq<Seq<char>>, t: Seq<char>) -> nat
    decreases tokens.len(),
{
    if tokens.len() == 0 {
        0
    } else {
        occurrences(tokens.drop_last(), t) + if tokens.last() == t {
            1nat
        } else {
            0nat
        }
    }
}

/// A count scaled to a percentage of the token count, and never below 1.
pub open spec fn scaled(count: nat, total: nat) -> nat {
    let len = if total == 0 {
        1
    } else {
        total
    };
    let v = count * 100 / len;
    if v == 0 {
        1
    } else {
        v
    }
}

/// The distinct tokens, in the order each first occurs.
pub open spec fn distinct_terms(tokens: Seq<Seq<char>>) -> Seq<Seq<char>>
    decreases tokens.len(),
{
    if tokens.len() == 0 {
        seq![]
    } else {
        let prev = distinct_terms(tokens.drop_last());
        if prev.contains(tokens.last()) {
            prev
        } else {
            prev.push(tokens.last())
        }
    }
}

/// The term counts of the tokens: each distinct token, in the order it first occurs, with
/// its count as a percentage of the token count (at least 1).
pub open spec fn term_counts(tokens: Seq<Seq<char>>) -> Seq<(Seq<char>, nat)> {
    distinct_terms(tokens).map_values(|t: Seq<char>| (t, scaled(occurrences(tokens, t), tokens.len())))
}

pub open spec fn count_view(c: Seq<(String, usize)>) -> Seq<(Seq<char>, nat)> {
    c.map_values(|p: (String, usize)| (p.0@, p.1 as nat))
}

proof fn lemma_occurrences_bound(tokens: Seq<Seq<char>>, t: Seq<char>)
    ensures
        occurrences(tokens, t) <= tokens.len(),
        !tokens.contains(t) ==> occurrences(tokens, t) == 0,
        tokens.contains(t) ==> occurrences(tokens, t) >= 1,
    decreases tokens.len(),
{
    if tokens.len() > 0 {
        lemma_occurrences_bound(tokens.drop_last(), t);
        if tokens.contains(t) && tokens.last() != t {
            let k = choose|k: int| 0 <= k < tokens.len() && tokens[k] == t;
            assert(tokens.drop_last()[k] == t);
        }
        if !tokens.contains(t) {
            assert(!tokens.drop_last().contains(t)) by {
                if tokens.drop_last().contains(t) {
                    let k = choose|k: int| 0 <= k < tokens.drop_last().len() && tokens.drop_last()[k] == t;
                    assert(tokens[k] == t);
                }
            }
        }
        if tokens.last() == t {
            assert(tokens[tokens.len() - 1] == t);
        }
    }
}

proof fn lemma_distinct_terms(tokens: Seq<Seq<char>>)
    ensures
        distinct_terms(tokens).no_duplicates(),
        forall|t: Seq<char>| #[trigger] distinct_terms(tokens).contains(t) <==> tokens.contains(t),
    decreases tokens.len(),
{
    if tokens.len() > 0 {
        let d = tokens.drop_last();
        let last = tokens.last();
        lemma_distinct_terms(d);
        let pd = distinct_terms(d);
        let pt = distinct_terms(tokens);
        assert forall|t: Seq<char>| #[trigger] pt.contains(t) implies tokens.contains(t) by {
            if pd.contains(t) {
                let k = choose|k: int| 0 <= k < d.len() && d[k] == t;
                assert(tokens[k] == t);
            } else {
                let k = choose|k: int| 0 <= k < pt.len() && pt[k] == t;
                if k < pd.len() {
                    assert(pd[k] == t);
                }
                assert(t == last);
                assert(tokens[tokens.len() - 1] == t);
            }
        }
        assert forall|t: Seq<char>| tokens.contains(t) implies #[trigger] pt.contains(t) by {
            let k = choose|k: int| 0 <= k < tokens.len() && tokens[k] == t;
            if k < d.len() {
                assert(d[k] == t);
                assert(pd.contains(t));
                let j = choose|j: int| 0 <= j < pd.len() && pd[j] == t;
                assert(pt[j] == t);
            } else {
                assert(t == last);
                if pd.contains(t) {
                    let j = choose|j: int| 0 <= j < pd.len() && pd[j] == t;
                    assert(pt[j] == t);
                } else {
                    assert(pt[pd.len() as int] == t);
                }
            }
        }
    }
}

/// The number of the documents that hold the term.
pub open spec fn holding(docs: Seq<Seq<Seq<char>>>, t: Seq<char>) -> nat
    decreases docs.len(),
{
    if docs.len() == 0 {
        0
    } else {
        holding(docs.drop_last(), t) + if docs.last().contains(t) {
            1nat
        } else {
            0nat
        }
    }
}

/// The document frequencies: each distinct term of the documents, in the order it first
/// occurs, with the number of documents that hold it.
pub open spec fn doc_frequencies(docs: Seq<Seq<Seq<char>>>) -> Seq<(Seq<char>, nat)> {
    distinct_terms(docs.flatten()).map_values(|t: Seq<char>| (t, holding(docs, t)))
}

pub open spec fn strings_view(v: Seq<String>) -> Seq<Seq<char>> {
    v.map_values(|s: String| s@)
}

pub open spec fn docs_view(d: Seq<Vec<String>>) -> Seq<Seq<Seq<char>>> {
    d.map_values(|v: Vec<String>| strings_view(v@))
}

/// The distinct strings, in the order each first occurs.
fn distinct_strings(tokens: &Vec<String>) -> (r: Vec<String>)
    ensures
        strings_view(r@) == distinct_terms(strings_view(tokens@)),
{
    let ghost tv = strings_view(tokens@);
    let mut out: Vec<String> = Vec::new();
    let mut i: usize = 0;
    while i < tokens.len()
        invariant
            i <= tokens@.len(),
            tv == strings_view(tokens@),
            strings_view(out@) == distinct_terms(tv.take(i as int)),
        decreases tokens@.len() - i,
    {
        proof {
            assert(tv.take(i + 1).drop_last() =~= tv.take(i as int));
            assert(tv.take(i + 1).last() == tokens@[i as int]@);
        }
        if !crate::mcp::contains_string(&out, tokens[i].as_str()) {
            let ghost before = out@;
            out.push(tokens[i].clone());
            proof {
                assert(strings_view(out@) =~= strings_view(before).push(tokens@[i as int]@));
            }
        }
        i += 1;
    }
    proof {
        assert(tv.take(tokens@.len() as int) =~= tv);
    }
    out
}

/// Counts, for each distinct term of the documents (in the order it first occurs), the
/// documents that hold it.
pub fn document_frequencies(docs: &Vec<Vec<String>>) -> (r: Vec<(String, usize)>)
    ensures
        count_view(r@) == doc_frequencies(docs_view(docs@)),
{
    let ghost dv = docs_view(docs@);
    let mut flat: Vec<String> = Vec::new();
    let mut i: usize = 0;
    while i < docs.len()
        invariant
            i <= docs@.len(),
            dv == docs_view(docs@),
            strings_view(flat@) == dv.take(i as int).flatten(),
        decreases docs@.len() - i,
    {
        let ghost f0 = strings_view(flat@);
        let mut j: usize = 0;
        while j < docs[i].len()
            invariant
                i < docs@.len(),
                j <= docs@[i as int]@.len(),
                dv == docs_view(docs@),
                strings_view(flat@) == f0 + strings_view(docs@[i as int]@).take(j as int),
            decreases docs@[i as int]@.len() - j,
        {
            let ghost before = flat@;
            let item = docs[i][j].clone();
            proof {
                assert(item@ == docs@[i as int]@[j as int]@);
            }
            flat.push(item);
            j += 1;
            proof {
                let d = strings_view(docs@[i as int]@);
                assert(d.take(j as int) =~= d.take(j - 1).push(d[j - 1]));
                assert(strings_view(flat@) =~= strings_view(before).push(item@));
                assert(strings_view(flat@) =~= f0 + strings_view(docs@[i as int]@).take(j as int));
            }
        }
        proof {
            let d = strings_view(docs@[i as int]@);
            assert(d.take(d.len() as int) =~= d);
            assert(dv[i as int] == d);
            assert(dv.take(i + 1) =~= dv.take(i as int).push(d));
            dv.take(i as int).lemma_flatten_push(d);
        }
        i += 1;
    }
    proof {
        assert(dv.take(docs@.len() as int) =~= dv);
    }
    let vocab = distinct_strings(&flat);
    let ghost vv = strings_view(vocab@);
    let mut out: Vec<(String, usize)> = Vec::new();
    let mut k: usize = 0;
    while k < vocab.len()
        invariant
            k <= vocab@.len(),
            vv == strings_view(vocab@),
            vv == distinct_terms(dv.flatten()),
            dv == docs_view(docs@),
            count_view(out@) == vv.take(k as int).map_values(|t: Seq<char>| (t, holding(dv, t))),
        decreases vocab@.len() - k,
    {
        let t = vocab[k].as_str();
        let mut c: usize = 0;
        let mut d: usize = 0;
        while d < docs.len()
            invariant
                d <= docs@.len(),
                dv == docs_view(docs@),
                c == holding(dv.take(d as int), t@),
                c <= d,
            decreases docs@.len() - d,
        {
            proof {
                assert(dv.take(d + 1).drop_last() =~= dv.take(d as int));
                assert(dv.take(d + 1).last() == strings_view(docs@[d as int]@));
            }
            if crate::mcp::contains_string(&docs[d], t) {
                c += 1;
            }
            d += 1;
        }
        proof {
            assert(dv.take(docs@.len() as int) =~= dv);
        }
        let ghost before = out@;
        let term = vocab[k].clone();
        proof {
            assert(term@ == vocab@[k as int]@);
            assert(vv[k as int] == t@);
        }
        out.push((term, c));
        k += 1;
        proof {
            assert(count_view(out@) =~= count_view(before).push((vv[k - 1], c as nat)));
            assert(vv.take(k as int) =~= vv.take(k - 1).push(vv[k - 1]));
            assert(count_view(out@) =~= vv.take(k as int).map_values(|t: Seq<char>| (t, holding(dv, t))));
        }
    }
    proof {
        assert(vv.take(vocab@.len() as int) =~= vv);
    }
    out
}

/// Where `t` stands in the list of (term, count) pairs, if anywhere.
fn find_term(counts: &Vec<(String, usize)>, t: &str) -> (r: Option<usize>)
    ensures
        r matches Some(k) ==> k < counts@.len() && counts@[k as int].0@ == t@,
        r is None ==> forall|k: int| 0 <= k < counts@.len() ==> counts@[k].0@ != t@,
{
    let mut k: usize = 0;
    while k < counts.len()
        invariant
            k <= counts@.len(),
            forall|j: int| 0 <= j < k ==> counts@[j].0@ != t@,
        decreases counts@.len() - k,
    {
        if str_eq(counts[k].0.as_str(), t) {
            return Some(k);
        }
        k += 1;
    }
    None
}

/// Counts term frequencies: each distinct token, in the order it first occurs, with its
/// count scaled to a percentage of the number of tokens (and at least 1).
pub fn count_terms(tokens: &[String]) -> (counts: Vec<(String, usize)>)
    requires
        tokens@.len() * 100 <= usize::MAX,
    ensures
        count_view(counts@) == term_counts(tokens@.map_values(|s: String| s@)),
{
    let ghost tv = tokens@.map_values(|s: String| s@);
    let mut counts: Vec<(String, usize)> = Vec::new();
    let mut i: usize = 0;
    while i < tokens.len()
        invariant
            i <= tokens@.len(),
            tv == tokens@.map_values(|s: String| s@),
            counts@.map_values(|p: (String, usize)| p.0@) == distinct_terms(tv.take(i as int)),
            forall|k: int| 0 <= k < counts@.len() ==> #[trigger] counts@[k].1 as nat == occurrences(tv.take(i as int), counts@[k].0@),
        decreases tokens@.len() - i,
    {
        let ghost before = counts@;
        let ghost prefix = tv.take(i as int);
        let ghost next = tv.take(i + 1);
        proof {
            assert(next.drop_last() =~= prefix);
            assert(next.last() == tokens@[i as int]@);
            lemma_distinct_terms(prefix);
            lemma_occurrences_bound(prefix, tokens@[i as int]@);
        }
        match find_term(&counts, tokens[i].as_str()) {
            Some(k) => {
                proof {
                    assert(counts@.map_values(|p: (String, usize)| p.0@)[k as int] == counts@[k as int].0@);
                    assert(distinct_terms(prefix).contains(tokens@[i as int]@));
                    lemma_occurrences_bound(prefix, counts@[k as int].0@);
                }
                let (name, c) = counts.remove(k);
                counts.insert(k, (name, c + 1));
                proof {
                    assert(counts@ =~= before.update(k as int, (before[k as int].0, (before[k as int].1 + 1) as usize)));
                    assert(counts@.map_values(|p: (String, usize)| p.0@) =~= before.map_values(|p: (String, usize)| p.0@));
                    assert(distinct_terms(next) =~= distinct_terms(prefix));
                    assert(counts@.map_values(|p: (String, usize)| p.0@) =~= distinct_terms(next));
                    assert forall|j: int| 0 <= j < counts@.len() implies #[trigger] counts@[j].1 as nat == occurrences(next, counts@[j].0@) by {
                        assert(counts@[j].0@ == before[j].0@);
                        assert(occurrences(next, counts@[j].0@) == occurrences(prefix, counts@[j].0@) + if next.last() == counts@[j].0@ { 1nat } else { 0nat });
                        if j != k {
                            assert(before.map_values(|p: (String, usize)| p.0@)[j] == before[j].0@);
                            assert(before.map_values(|p: (String, usize)| p.0@)[k as int] == before[k as int].0@);
                            lemma_distinct_terms(prefix);
                            assert(before[j].0@ != before[k as int].0@);
                        }
                    }
                }
            },
            None => {
                proof {
                    assert(!distinct_terms(prefix).contains(tokens@[i as int]@)) by {
                        if distinct_terms(prefix).contains(tokens@[i as int]@) {
                            let j = choose|j: int| 0 <= j < distinct_terms(prefix).len() && distinct_terms(prefix)[j] == tokens@[i as int]@;
                            assert(counts@.map_values(|p: (String, usize)| p.0@)[j] == counts@[j].0@);
                        }
                    }
                }
                counts.push((tokens[i].clone(), 1));
                proof {
                    assert(counts@.map_values(|p: (String, usize)| p.0@) =~= distinct_terms(next));
                    assert forall|j: int| 0 <= j < counts@.len() implies #[trigger] counts@[j].1 as nat == occurrences(next, counts@[j].0@) by {
                        if j < before.len() {
                            assert(before.map_values(|p: (String, usize)| p.0@)[j] == before[j].0@);
                            assert(counts@[j].0@ != tokens@[i as int]@);
                        }
                    }
                }
            },
        }
        i += 1;
    }
    proof {
        assert(tv.take(tokens@.len() as int) =~= tv);
    }
    let len: usize = if tokens.len() == 0 {
        1
    } else {
        tokens.len()
    };
    let ghost raw = counts@;
    let mut out: Vec<(String, usize)> = Vec::new();
    let mut k: usize = 0;
    while k < counts.len()
        invariant
            k <= counts@.len(),
            counts@ == raw,
            len == if tokens@.len() == 0 { 1 } else { tokens@.len() },
            tokens@.len() * 100 <= usize::MAX,
            tv.len() == tokens@.len(),
            raw.map_values(|p: (String, usize)| p.0@) == distinct_terms(tv),
            forall|j: int| 0 <= j < raw.len() ==> #[trigger] raw[j].1 as nat == occurrences(tv, raw[j].0@),
            count_view(out@) == term_counts(tv).take(k as int),
        decreases counts@.len() - k,
    {
        proof {
            lemma_distinct_terms(tv);
            assert(raw.map_values(|p: (String, usize)| p.0@)[k as int] == raw[k as int].0@);
            assert(distinct_terms(tv)[k as int] == raw[k as int].0@);
            assert(distinct_terms(tv).contains(raw[k as int].0@));
            assert(tv.contains(raw[k as int].0@));
            lemma_occurrences_bound(tv, raw[k as int].0@);
        }
        let c = counts[k].1;
        let v = c * 100 / len;
        let scaled_v = if v == 0 {
            1
        } else {
            v
        };
        let ghost before = out@;
        out.push((counts[k].0.clone(), scaled_v));
        proof {
            assert(term_counts(tv)[k as int] == (distinct_terms(tv)[k as int], scaled(occurrences(tv, distinct_terms(tv)[k as int]), tv.len())));
            assert(distinct_terms(tv)[k as int] == raw[k as int].0@);
            assert(scaled_v as nat == scaled(raw[k as int].1 as nat, tv.len()));
            assert(count_view(out@) =~= count_view(before).push((raw[k as int].0@, scaled_v as nat)));
        }
        k += 1;
        proof {
            assert(count_view(out@) =~= term_counts(tv).take(k as int));
        }
    }
    proof {
        assert(term_counts(tv).take(raw.len() as int) =~= term_counts(tv));
    }
    out
}


// ---------------------------------------------------------------------------
// Laws.

proof fn lemma_scan_no_stop(t: Seq<char>, n: nat)
    ensures
        forall|k: int| 0 <= k < scan_tokens(t, n).0.len() ==> !stop_word(#[trigger] scan_tokens(t, n).0[k]),
    decreases n,
{
    if n > 0 {
        lemma_scan_no_stop(t, (n - 1) as nat);
        let prev = scan_tokens(t, (n - 1) as nat).0;
        let cur = scan_tokens(t, n).0;
        assert forall|k: int| 0 <= k < cur.len() implies !stop_word(#[trigger] cur[k]) by {
            if k < prev.len() {
                assert(cur[k] == prev[k]);
            }
        }
    }
}

/// No token is a stop word.
pub proof fn tokens_have_no_stop_words(t: Seq<char>)
    ensures
        forall|k: int| 0 <= k < tokens_of(t).len() ==> !stop_word(#[trigger] tokens_of(t)[k]),
{
    lemma_scan_no_stop(t, t.len());
    let (toks, cur) = scan_tokens(t, t.len());
    assert forall|k: int| 0 <= k < tokens_of(t).len() implies !stop_word(#[trigger] tokens_of(t)[k]) by {
        if k < toks.len() {
            assert(tokens_of(t)[k] == toks[k]);
        }
    }
}

proof fn lemma_scaled_bounds(count: nat, total: nat)
    requires
        count <= total,
    ensures
        1 <= scaled(count, total) <= 100,
{
    let len: nat = if total == 0 {
        1
    } else {
        total
    };
    assert(count * 100 / len <= 100) by (nonlinear_arith)
        requires
            count <= len,
            len >= 1,
    ;
}

/// Each distinct token gets one count, and every count lies between 1 and 100.
pub proof fn term_counts_are_percentages(tokens: Seq<Seq<char>>)
    ensures
        term_counts(tokens).len() == distinct_terms(tokens).len(),
        forall|k: int| 0 <= k < term_counts(tokens).len() ==> 1 <= (#[trigger] term_counts(tokens)[k]).1 <= 100,
{
    assert forall|k: int| 0 <= k < term_counts(tokens).len() implies 1 <= (#[trigger] term_counts(tokens)[k]).1 <= 100 by {
        let t = distinct_terms(tokens)[k];
        lemma_occurrences_bound(tokens, t);
        lemma_scaled_bounds(occurrences(tokens, t), tokens.len());
    }
}

} // verus!
