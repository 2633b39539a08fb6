//! Candidate ranking based on structural signals.
//!
//! Scores are whole points. The semantic signal enters as points on a 0..=100 scale
//! (a similarity in [0, 1] times one hundred), computed by the caller.

use vstd::prelude::*;

use crate::text::{chars_of, contains_chars, matches_at, occurs_at, seq_contains, str_eq, to_lowercase, unicode_lowercase};
use crate::types::{Relationship, Symbol, SymbolKind};

verus! {

/// Relevance score for a candidate, in points.
#[derive(Debug, Clone, Copy, PartialEq, Eq, Structural)]
pub struct RelevanceScore {
    pub total: i64,
    pub symbol_match: i64,
    pub definition: i64,
    pub reference: i64,
    pub caller: i64,
    pub callee: i64,
    pub test: i64,
    pub lexical: i64,
    pub semantic: i64,
}

impl Default for RelevanceScore {
    /// All signals zero.
    fn default() -> (r: Self)
        ensures
            r == spec_zero_score(),
    {
        RelevanceScore {
            total: 0,
            symbol_match: 0,
            definition: 0,
            reference: 0,
            caller: 0,
            callee: 0,
            test: 0,
            lexical: 0,
            semantic: 0,
        }
    }
}

pub open spec fn spec_zero_score() -> RelevanceScore {
    RelevanceScore {
        total: 0,
        symbol_match: 0,
        definition: 0,
        reference: 0,
        caller: 0,
        callee: 0,
        test: 0,
        lexical: 0,
        semantic: 0,
    }
}

/// Ranked candidate for retrieval.
#[derive(Debug)]
pub struct RankedCandidate {
    pub symbol: Symbol,
    pub score: RelevanceScore,
    pub relationship: Option<Relationship>,
}

/// Points for how the symbol's name matches the query.
pub open spec fn symbol_match_points(name: Seq<char>, query: Seq<char>) -> int {
    if name == query {
        100
    } else if seq_contains(unicode_lowercase(name), unicode_lowercase(query)) {
        50
    } else {
        0
    }
}

/// The name prefix of a candidate made from a lexical match of the query.
pub open spec fn match_prefix() -> Seq<char> {
    seq!['m', 'a', 't', 'c', 'h', ':']
}

/// A candidate made from a lexical match: a variable whose name begins with `match:`
/// (no identifier holds a colon).
pub open spec fn is_lexical_match(symbol: Symbol) -> bool {
    symbol.kind is Variable && occurs_at(symbol.name@, match_prefix(), 0)
}

fn lexical_match_exec(symbol: &Symbol) -> (b: bool)
    ensures
        b == is_lexical_match(*symbol),
{
    if !matches!(symbol.kind, SymbolKind::Variable) {
        return false;
    }
    let name = chars_of(symbol.name.as_str());
    let prefix = ['m', 'a', 't', 'c', 'h', ':'];
    let p = prefix.as_slice();
    proof {
        assert(p@ =~= match_prefix());
    }
    if name.len() < p.len() {
        return false;
    }
    matches_at(name.as_slice(), p, 0)
}

/// The score that the structural signals and the semantic points give a symbol.
pub open spec fn score_of(
    symbol: Symbol,
    relationship: Option<Relationship>,
    query: Seq<char>,
    semantic: u32,
) -> RelevanceScore {
    let symbol_match = symbol_match_points(symbol.name@, query);
    let definition0: int = if symbol.kind.spec_is_definition() {
        80
    } else {
        0
    };
    let reference0: int = if symbol.kind.spec_is_reference() {
        -20
    } else {
        0
    };
    let caller: int = match relationship {
        Some(Relationship::Calls) | Some(Relationship::CalleeOf) => 60,
        _ => 0,
    };
    let reference: int = match relationship {
        Some(Relationship::References) => 40,
        _ => reference0,
    };
    let test: int = match relationship {
        Some(Relationship::Tests) | Some(Relationship::TestFor) => 50,
        _ => 0,
    };
    let definition: int = match relationship {
        Some(Relationship::Implements) | Some(Relationship::ExtendedBy) => 70,
        _ => definition0,
    };
    let lexical: int = if is_lexical_match(symbol) {
        20
    } else {
        0
    };
    RelevanceScore {
        total: (symbol_match + definition + reference + caller + test + lexical + semantic) as i64,
        symbol_match: symbol_match as i64,
        definition: definition as i64,
        reference: reference as i64,
        caller: caller as i64,
        callee: 0,
        test: test as i64,
        lexical: lexical as i64,
        semantic: semantic as i64,
    }
}

fn compute_score(
    symbol: &Symbol,
    relationship: Option<Relationship>,
    query: &str,
    semantic_points: u32,
) -> (score: RelevanceScore)
    ensures
        score == score_of(*symbol, relationship, query@, semantic_points),
{
    let mut score = RelevanceScore::default();

    if str_eq(symbol.name.as_str(), query) {
        score.symbol_match = 100;
    } else {
        let name_lower = chars_of(to_lowercase(symbol.name.as_str()).as_str());
        let query_lower = chars_of(to_lowercase(query).as_str());
        if contains_chars(name_lower.as_slice(), query_lower.as_slice()) {
            score.symbol_match = 50;
        }
    }

    if symbol.kind.is_definition() {
        score.definition = 80;
    }
    if symbol.kind.is_reference() {
        score.reference = -20;
    }

    match relationship {
        Some(Relationship::Calls) | Some(Relationship::CalleeOf) => score.caller = 60,
        Some(Relationship::References) => score.reference = 40,
        Some(Relationship::Tests) | Some(Relationship::TestFor) => score.test = 50,
        Some(Relationship::Implements) | Some(Relationship::ExtendedBy) => score.definition = 70,
        _ => {},
    }

    if lexical_match_exec(symbol) {
        score.lexical = 20;
    }
    score.semantic = semantic_points as i64;
    score.total = score.symbol_match + score.definition + score.reference + score.caller
        + score.callee + score.test + score.lexical + score.semantic;
    score
}

// ---------------------------------------------------------------------------
// Stable ordering by descending total score.

/// Inserts `c` after every element whose total is at least `c`'s.
pub open spec fn insert_by_score(s: Seq<RankedCandidate>, c: RankedCandidate) -> Seq<
    RankedCandidate,
>
    decreases s.len(),
{
    if s.len() == 0 {
        seq![c]
    } else if s.last().score.total >= c.score.total {
        s.push(c)
    } else {
        insert_by_score(s.drop_last(), c).push(s.last())
    }
}

/// Stable sort by descending total score: equal totals keep their input order.
pub open spec fn sort_by_score(s: Seq<RankedCandidate>) -> Seq<RankedCandidate>
    decreases s.len(),
{
    if s.len() == 0 {
        s
    } else {
        insert_by_score(sort_by_score(s.drop_last()), s.last())
    }
}

pub open spec fn sorted_by_score(s: Seq<RankedCandidate>) -> bool {
    forall|i: int, j: int| 0 <= i < j < s.len() ==> s[i].score.total >= s[j].score.total
}

/// Position at which `insert_by_score` places `c` in a sorted sequence.
pub open spec fn is_insert_point(s: Seq<RankedCandidate>, c: RankedCandidate, p: int) -> bool {
    &&& 0 <= p <= s.len()
    &&& forall|k: int| 0 <= k < p ==> s[k].score.total >= c.score.total
    &&& p < s.len() ==> s[p].score.total < c.score.total
}

proof fn lemma_insert_by_score(s: Seq<RankedCandidate>, c: RankedCandidate, p: int)
    requires
        sorted_by_score(s),
        is_insert_point(s, c, p),
    ensures
        insert_by_score(s, c) =~= s.insert(p, c),
        sorted_by_score(insert_by_score(s, c)),
    decreases s.len(),
{
    if s.len() == 0 {
    } else if s.last().score.total >= c.score.total {
        assert(p == s.len()) by {
            if p < s.len() {
                assert(s[p].score.total >= s.last().score.total);
            }
        }
    } else {
        let d = s.drop_last();
        assert(p < s.len());
        assert(is_insert_point(d, c, p));
        lemma_insert_by_score(d, c, p);
        assert(insert_by_score(s, c) =~= d.insert(p, c).push(s.last()));
        assert(d.insert(p, c).push(s.last()) =~= s.insert(p, c));
    }
}

proof fn lemma_sort_by_score_sorted(s: Seq<RankedCandidate>)
    ensures
        sorted_by_score(sort_by_score(s)),
        sort_by_score(s).len() == s.len(),
    decreases s.len(),
{
    if s.len() > 0 {
        let t = sort_by_score(s.drop_last());
        lemma_sort_by_score_sorted(s.drop_last());
        let c = s.last();
        let p = choose_insert_point(t, c);
        lemma_first_below(t, c, 0);
        lemma_insert_by_score(t, c, p);
    }
}

spec fn first_below(s: Seq<RankedCandidate>, c: RankedCandidate, k: int) -> int
    decreases s.len() - k,
{
    if k >= s.len() || k < 0 {
        s.len() as int
    } else if s[k].score.total < c.score.total {
        k
    } else {
        first_below(s, c, k + 1)
    }
}

proof fn lemma_first_below(s: Seq<RankedCandidate>, c: RankedCandidate, k: int)
    requires
        0 <= k <= s.len(),
        sorted_by_score(s),
        forall|j: int| 0 <= j < k ==> s[j].score.total >= c.score.total,
    ensures
        is_insert_point(s, c, first_below(s, c, k)),
    decreases s.len() - k,
{
    if k < s.len() && s[k].score.total >= c.score.total {
        lemma_first_below(s, c, k + 1);
    }
}

spec fn choose_insert_point(s: Seq<RankedCandidate>, c: RankedCandidate) -> int {
    first_below(s, c, 0)
}

/// Sorting candidates that are already in order leaves them as they are.
pub proof fn lemma_sort_sorted_fixed(s: Seq<RankedCandidate>)
    requires
        sorted_by_score(s),
    ensures
        sort_by_score(s) == s,
    decreases s.len(),
{
    if s.len() > 0 {
        let d = s.drop_last();
        assert(sorted_by_score(d));
        lemma_sort_sorted_fixed(d);
        if d.len() == 0 {
            assert(s =~= seq![s.last()]);
        } else {
            assert(d.last().score.total >= s.last().score.total);
            assert(d.push(s.last()) =~= s);
        }
    }
}

/// Reorders the candidates by descending total score; ties keep their order.
pub fn sort_candidates(candidates: Vec<RankedCandidate>) -> (out: Vec<RankedCandidate>)
    ensures
        out@ == sort_by_score(candidates@),
        sorted_by_score(out@),
{
    let ghost orig = candidates@;
    let mut input = candidates;
    let mut out: Vec<RankedCandidate> = Vec::new();
    let ghost mut k: int = 0;
    while input.len() > 0
        invariant
            0 <= k <= orig.len(),
            input@ == orig.subrange(k, orig.len() as int),
            out@ == sort_by_score(orig.subrange(0, k)),
            sorted_by_score(out@),
        decreases input@.len(),
    {
        let c = input.remove(0);
        proof {
            assert(orig.subrange(0, k + 1).drop_last() =~= orig.subrange(0, k));
            assert(orig.subrange(0, k + 1).last() == c);
        }
        let mut p: usize = 0;
        while p < out.len() && out[p].score.total >= c.score.total
            invariant
                p <= out@.len(),
                forall|j: int| 0 <= j < p ==> out@[j].score.total >= c.score.total,
            decreases out@.len() - p,
        {
            p += 1;
        }
        proof {
            lemma_insert_by_score(out@, c, p as int);
        }
        out.insert(p, c);
        proof {
            k = k + 1;
            assert(input@ =~= orig.subrange(k, orig.len() as int));
        }
    }
    proof {
        assert(orig.subrange(0, k) =~= orig);
    }
    out
}

/// The candidates scored: each with the structural signals and its semantic points
/// (zero where none is given).
pub open spec fn scored(
    candidates: Seq<(Symbol, Option<Relationship>)>,
    semantic_points: Seq<u32>,
    query: Seq<char>,
) -> Seq<RankedCandidate> {
    Seq::new(
        candidates.len(),
        |i: int|
            RankedCandidate {
                symbol: candidates[i].0,
                score: score_of(
                    candidates[i].0,
                    candidates[i].1,
                    query,
                    if i < semantic_points.len() {
                        semantic_points[i]
                    } else {
                        0
                    },
                ),
                relationship: candidates[i].1,
            },
    )
}

/// The name signal of a score: 100 points for a name equal to the query; for any other
/// name, 50 points exactly when the lower-cased name holds the lower-cased query (so the
/// case of neither matters), and none otherwise. The total is the sum of all signals.
pub proof fn name_match_is_case_insensitive(symbol: Symbol, relationship: Option<Relationship>, query: Seq<char>, semantic: u32)
    ensures
        ({
            let s = score_of(symbol, relationship, query, semantic);
            &&& symbol.name@ == query ==> s.symbol_match == 100
            &&& symbol.name@ != query ==> (s.symbol_match == 50 <==> seq_contains(unicode_lowercase(symbol.name@), unicode_lowercase(query)))
            &&& symbol.name@ != query ==> (s.symbol_match == 0 <==> !seq_contains(unicode_lowercase(symbol.name@), unicode_lowercase(query)))
            &&& s.total == s.symbol_match + s.definition + s.reference + s.caller + s.callee + s.test + s.lexical + s.semantic
        }),
{
}

/// The other signals of a score: 60 caller points for a `Calls` or `CalleeOf` relation;
/// 40 reference points for `References`, else -20 for a symbol that is itself a
/// reference; 50 test points for `Tests` or `TestFor`; 70 definition points for
/// `Implements` or `ExtendedBy`, else 80 for a symbol that is a definition; 20 lexical
/// points for a lexical match (a variable named `match:` and a line); no callee points;
/// and the semantic points as given.
pub proof fn score_signals(symbol: Symbol, relationship: Option<Relationship>, query: Seq<char>, semantic: u32)
    ensures
        ({
            let s = score_of(symbol, relationship, query, semantic);
            &&& s.caller == (if relationship == Some(Relationship::Calls) || relationship == Some(Relationship::CalleeOf) { 60int } else { 0int })
            &&& s.reference == (if relationship == Some(Relationship::References) { 40int } else if symbol.kind.spec_is_reference() { -20int } else { 0int })
            &&& s.test == (if relationship == Some(Relationship::Tests) || relationship == Some(Relationship::TestFor) { 50int } else { 0int })
            &&& s.definition == (if relationship == Some(Relationship::Implements) || relationship == Some(Relationship::ExtendedBy) { 70int } else if symbol.kind.spec_is_definition() { 80int } else { 0int })
            &&& s.lexical == (if symbol.kind == SymbolKind::Variable && symbol.name@.len() >= 6 && symbol.name@.take(6) == seq!['m', 'a', 't', 'c', 'h', ':'] { 20int } else { 0int })
            &&& s.callee == 0
            &&& s.semantic == semantic
        }),
{
    if symbol.name@.len() >= 6 {
        assert(symbol.name@.subrange(0, 6) == symbol.name@.take(6));
    }
}

/// Rank candidates by structural and semantic signals, best first.
pub fn rank_candidates(
    candidates: Vec<(Symbol, Option<Relationship>)>,
    semantic_points: &[u32],
    query: &str,
) -> (ranked: Vec<RankedCandidate>)
    ensures
        ranked@ == sort_by_score(scored(candidates@, semantic_points@, query@)),
        sorted_by_score(ranked@),
{
    let ghost orig = candidates@;
    assert(orig.len() == candidates.len());
    let mut input = candidates;
    let mut scored_v: Vec<RankedCandidate> = Vec::new();
    let mut i: usize = 0;
    while input.len() > 0
        invariant
            i <= orig.len(),
            orig.len() <= usize::MAX,
            input@ == orig.subrange(i as int, orig.len() as int),
            scored_v@ == scored(orig, semantic_points@, query@).subrange(0, i as int),
        decreases input@.len(),
    {
        let (symbol, relationship) = input.remove(0);
        let semantic = if i < semantic_points.len() {
            semantic_points[i]
        } else {
            0
        };
        let score = compute_score(&symbol, relationship, query, semantic);
        scored_v.push(RankedCandidate { symbol, score, relationship });
        proof {
            assert(orig[i as int] == (symbol, relationship));
        }
        i += 1;
        proof {
            assert(input@ =~= orig.subrange(i as int, orig.len() as int));
            assert(scored_v@ =~= scored(orig, semantic_points@, query@).subrange(0, i as int));
        }
    }
    proof {
        assert(scored_v@ =~= scored(orig, semantic_points@, query@));
    }
    sort_candidates(scored_v)
}

} // verus!
