use codesift::context::{estimate_tokens, merge_ranges, plan_context};
use codesift::ranking::{RankedCandidate, RelevanceScore};
use codesift::types::{FileId, Range, Symbol, SymbolId, SymbolKind};
use codesift::TokenBudget;
use std::cell::Cell;

fn candidate(name: &str, file: u64, start: usize, end: usize) -> RankedCandidate {
    let symbol = Symbol::new(
        SymbolId::new(0),
        name.to_string(),
        SymbolKind::Function,
        FileId::new(file),
        Range::new(start, end, 1, 2),
    );
    RankedCandidate { symbol, score: RelevanceScore::default(), relationship: None }
}

fn source(file: FileId, range: &Range) -> Option<String> {
    match (file.0, range.start_byte) {
        (0, 0) => Some("fn a() {}".to_string()),
        (1, 0) => Some("fn bbbbbbbbbbbbbbb()".to_string()),
        (2, 0) => Some("aaaa\nbbbb\ncccc\ndddd\neeee\nffff\ngggg\nhhhh\n".to_string()),
        (3, 0) => Some("abc".to_string()),
        (4, 0) => Some("aaaaaaaaaa\n".repeat(5)),
        _ => None,
    }
}

#[test]
fn estimate_tokens_rounds_up_quarters() {
    assert_eq!(estimate_tokens(""), 0);
    assert_eq!(estimate_tokens("abcd"), 1);
    assert_eq!(estimate_tokens("abcde"), 2);
    assert_eq!(estimate_tokens("héllo"), 2);
    assert_eq!(estimate_tokens(&"x".repeat(400)), 100);
}

#[test]
fn merge_ranges_joins_ranges_that_reach_each_other() {
    let ranges = vec![
        (FileId::new(1), Range::new(50, 60, 5, 6)),
        (FileId::new(0), Range::new(10, 20, 2, 3)),
        (FileId::new(0), Range::new(0, 10, 1, 2)),
        (FileId::new(0), Range::new(30, 40, 4, 4)),
        (FileId::new(1), Range::new(55, 70, 6, 8)),
    ];
    let merged = merge_ranges(&ranges);
    assert_eq!(
        merged,
        vec![
            (FileId::new(0), Range::new(0, 20, 1, 3)),
            (FileId::new(0), Range::new(30, 40, 4, 4)),
            (FileId::new(1), Range::new(50, 70, 5, 8)),
        ]
    );
}

#[test]
fn merged_ranges_are_separate_on_values() {
    let ranges = vec![
        (FileId::new(0), Range::new(0, 5, 1, 1)),
        (FileId::new(0), Range::new(6, 9, 2, 2)),
        (FileId::new(0), Range::new(4, 7, 1, 2)),
    ];
    let merged = merge_ranges(&ranges);
    assert_eq!(merged, vec![(FileId::new(0), Range::new(0, 9, 1, 2))]);
    assert!(merge_ranges(&[]).is_empty());
}

#[test]
fn plan_takes_each_range_once_within_budget() {
    let cands = vec![candidate("a", 0, 0, 9), candidate("b", 1, 0, 20), candidate("a_again", 0, 0, 9)];
    let plan = plan_context(cands, &TokenBudget::new(100), source);
    assert_eq!(plan.fragments.len(), 2);
    assert_eq!(plan.fragments[0].symbol_name.as_deref(), Some("a"));
    assert_eq!(plan.fragments[0].content, "fn a() {}");
    assert_eq!(plan.fragments[0].token_count, 3);
    assert_eq!(plan.fragments[1].symbol_name.as_deref(), Some("b"));
    assert_eq!(plan.fragments[1].token_count, 5);
    assert_eq!(plan.total_tokens, 8);
    assert_eq!(plan.total_files, 2);
    assert_eq!(plan.budget.max_tokens, 100);
    assert!(!plan.is_empty());
    assert_eq!(plan.len(), 2);
}

#[test]
fn plan_respects_budget_on_values() {
    // Only one file, and only one symbol, may be used.
    let cands = vec![candidate("a", 0, 0, 9), candidate("b", 1, 0, 20)];
    let one_file = plan_context(cands, &TokenBudget::new(100).with_files(1), source);
    assert_eq!(one_file.fragments.len(), 1);
    assert_eq!(one_file.total_files, 1);

    let cands = vec![candidate("a", 0, 0, 9), candidate("b", 1, 0, 20)];
    let one_symbol = plan_context(cands, &TokenBudget::new(100).with_symbols(1), source);
    assert_eq!(one_symbol.fragments.len(), 1);

    // A source that cannot be read is passed over.
    let cands = vec![candidate("gone", 7, 0, 9), candidate("a", 0, 0, 9)];
    let skipped = plan_context(cands, &TokenBudget::new(100), source);
    assert_eq!(skipped.fragments.len(), 1);
    assert_eq!(skipped.fragments[0].symbol_name.as_deref(), Some("a"));
}

#[test]
fn plan_shortens_the_text_that_does_not_fit() {
    // 40 bytes do not fit in 5 tokens: the head and the note take 20 bytes together.
    let cands = vec![candidate("long", 2, 0, 40)];
    let plan = plan_context(cands, &TokenBudget::new(5), source);
    assert_eq!(plan.fragments.len(), 1);
    assert_eq!(plan.fragments[0].content, "aa...\n[8 more lines]");
    assert_eq!(plan.fragments[0].token_count, 5);
    assert_eq!(plan.total_tokens, 5);
}

#[test]
fn plan_cuts_the_shortened_text_after_a_line() {
    let cands = vec![candidate("long", 2, 0, 40)];
    let plan = plan_context(cands, &TokenBudget::new(8), source);
    assert_eq!(plan.fragments.len(), 1);
    assert_eq!(plan.fragments[0].content, "aaaa\nbbbb\n...\n[6 more lines]");
    assert_eq!(plan.fragments[0].token_count, 7);
    assert_eq!(plan.total_tokens, 7);
}

#[test]
fn plan_leaves_out_a_text_whose_note_does_not_fit() {
    let cands = vec![candidate("tiny", 3, 0, 3)];
    let plan = plan_context(cands, &TokenBudget::new(0), source);
    assert!(plan.is_empty());
    assert_eq!(plan.total_tokens, 0);
    assert_eq!(plan.total_files, 0);

    let cands = vec![candidate("long", 2, 0, 40)];
    let plan = plan_context(cands, &TokenBudget::new(4), source);
    assert!(plan.is_empty());
}

#[test]
fn plan_total_stays_within_the_token_budget() {
    // The first text takes 3 tokens; the second is shortened to the 5 that are left.
    let cands = vec![candidate("a", 0, 0, 9), candidate("long", 2, 0, 40)];
    let plan = plan_context(cands, &TokenBudget::new(8), source);
    assert_eq!(plan.fragments.len(), 2);
    assert_eq!(plan.fragments[1].content, "aa...\n[8 more lines]");
    assert_eq!(plan.total_tokens, 8);
    let empty = plan_context(Vec::new(), &TokenBudget::new(100), source);
    assert!(empty.is_empty());
    assert_eq!(empty.total_files, 0);
}

#[test]
fn plan_cuts_lines_as_far_from_the_limit_as_before() {
    // The head ends at the last newline more than 20 characters before the 40-byte limit.
    let cands = vec![candidate("lines", 4, 0, 55)];
    let plan = plan_context(cands, &TokenBudget::new(10), source);
    assert_eq!(plan.fragments.len(), 1);
    assert_eq!(plan.fragments[0].content, "aaaaaaaaaa\n...\n[4 more lines]");
    assert_eq!(plan.total_tokens, 8);
}

#[test]
fn plan_asks_the_source_once_for_each_candidate_it_takes() {
    let calls = Cell::new(0usize);
    let counting = |file: FileId, range: &Range| {
        calls.set(calls.get() + 1);
        // A source that answers differently each time it is asked.
        if calls.get() % 2 == 1 { source(file, range) } else { None }
    };
    let cands = vec![candidate("a", 0, 0, 9), candidate("a_again", 0, 0, 9), candidate("b", 1, 0, 20)];
    let plan = plan_context(cands, &TokenBudget::new(100), counting);
    // "a_again" shares a's range and is not asked for; "b" is asked once and gets nothing.
    assert_eq!(calls.get(), 2);
    assert_eq!(plan.fragments.len(), 1);
    assert!(plan.total_tokens <= 100);
}

#[test]
fn merged_ranges_cover_the_same_bytes() {
    let ranges = vec![
        (FileId::new(0), Range::new(10, 20, 2, 3)),
        (FileId::new(0), Range::new(0, 10, 1, 2)),
        (FileId::new(0), Range::new(30, 40, 4, 4)),
        (FileId::new(1), Range::new(5, 8, 1, 1)),
    ];
    let merged = merge_ranges(&ranges);
    let covered = |rs: &[(FileId, Range)], f: u64, b: usize| {
        rs.iter().any(|(id, r)| id.0 == f && r.start_byte <= b && b < r.end_byte)
    };
    for f in 0..2u64 {
        for b in 0..45usize {
            assert_eq!(covered(&merged, f, b), covered(&ranges, f, b));
        }
    }
}
