use codesift::ranking::{rank_candidates, sort_candidates, RankedCandidate, RelevanceScore};
use codesift::types::{FileId, Range, Relationship, Symbol, SymbolId, SymbolKind};

fn sym(name: &str, kind: SymbolKind) -> Symbol {
    Symbol::new(SymbolId::new(0), name.to_string(), kind, FileId::new(0), Range::new(0, 1, 1, 1))
}

fn names(ranked: &[RankedCandidate]) -> Vec<String> {
    ranked.iter().map(|c| c.symbol.name.clone()).collect()
}

#[test]
fn ranking_puts_the_best_first() {
    let cands = vec![
        (sym("Parser", SymbolKind::Struct), None),
        (sym("parse_file", SymbolKind::Function), Some(Relationship::Calls)),
        (sym("x", SymbolKind::Call), None),
    ];
    let ranked = rank_candidates(cands, &[], "parse");
    assert_eq!(names(&ranked), vec!["parse_file", "Parser", "x"]);
    let totals: Vec<i64> = ranked.iter().map(|c| c.score.total).collect();
    assert_eq!(totals, vec![190, 130, -20]);
    assert_eq!(ranked[0].score.symbol_match, 50);
    assert_eq!(ranked[0].score.definition, 80);
    assert_eq!(ranked[0].score.caller, 60);
    assert_eq!(ranked[2].score.reference, -20);
}

#[test]
fn each_signal_gives_its_points() {
    let cands = vec![
        (sym("parse", SymbolKind::Function), None),
        (sym("a", SymbolKind::Import), Some(Relationship::References)),
        (sym("b", SymbolKind::Function), Some(Relationship::Tests)),
        (sym("c", SymbolKind::Trait), Some(Relationship::Implements)),
        (sym("d", SymbolKind::Call), None),
    ];
    let ranked = rank_candidates(cands, &[0, 0, 0, 0, 30], "parse");
    let by_name = |n: &str| ranked.iter().find(|c| c.symbol.name == n).unwrap().score;
    assert_eq!(by_name("parse").total, 180);
    assert_eq!(by_name("parse").symbol_match, 100);
    assert_eq!(by_name("a").reference, 40);
    assert_eq!(by_name("a").total, 40);
    assert_eq!(by_name("b").test, 50);
    assert_eq!(by_name("b").total, 130);
    assert_eq!(by_name("c").definition, 70);
    assert_eq!(by_name("c").total, 70);
    assert_eq!(by_name("d").semantic, 30);
    assert_eq!(by_name("d").total, 10);
}

#[test]
fn equal_scores_keep_their_order() {
    let cands = vec![
        (sym("one", SymbolKind::Function), None),
        (sym("two", SymbolKind::Function), None),
        (sym("three", SymbolKind::Function), None),
    ];
    let ranked = rank_candidates(cands, &[], "zzz");
    assert_eq!(names(&ranked), vec!["one", "two", "three"]);
}

#[test]
fn sorting_sorted_candidates_changes_nothing() {
    let cands = vec![
        (sym("parse", SymbolKind::Function), None),
        (sym("other", SymbolKind::Call), None),
    ];
    let ranked = rank_candidates(cands, &[], "parse");
    let before = names(&ranked);
    let again = sort_candidates(ranked);
    assert_eq!(names(&again), before);
    assert_eq!(RelevanceScore::default().total, 0);
}

#[test]
fn a_lexical_match_gets_twenty_points() {
    let cands = vec![
        (sym("match:let parse = 1;", SymbolKind::Variable), None),
        (sym("matcher", SymbolKind::Variable), None),
        (sym("match:x", SymbolKind::Call), None),
    ];
    let ranked = rank_candidates(cands, &[], "parse");
    let by_name = |n: &str| ranked.iter().find(|c| c.symbol.name == n).unwrap().score;
    // A variable is a definition (80); the line holds the query (50); the match adds 20.
    assert_eq!(by_name("match:let parse = 1;").lexical, 20);
    assert_eq!(by_name("match:let parse = 1;").total, 150);
    assert_eq!(by_name("matcher").lexical, 0);
    assert_eq!(by_name("matcher").total, 80);
    assert_eq!(by_name("match:x").lexical, 0);
}
