//! The texts the command line prints for a context plan: the compact listing, one line
//! for each file, and the full listing of every fragment. The JSON forms are serde's work
//! and are written outside the library.

use vstd::prelude::*;

use crate::context::{ContextFragment, ContextPlan};
use crate::engine::CodeSift;
use crate::index::Index;
use crate::mcp::{contains_string, plan_paths};
use crate::text::{chars_of, decimal, push_chars, push_decimal, str_eq, string_from_chars};

verus! {

/// What `{:?}` writes for a string: the text in double quotes, with quotes, backslashes
/// and characters that do not print escaped.
pub uninterp spec fn debug_quoted(s: Seq<char>) -> Seq<char>;

/// `<str as Debug>::fmt`, through `format!("{:?}", ..)`. The result is named.
#[verifier::external_body]
fn debug_str(s: &str) -> (r: String)
    ensures
        r@ == debug_quoted(s@),
{
    format!("{:?}", s)
}

/// The items joined by `sep`.
pub open spec fn joined(items: Seq<Seq<char>>, sep: Seq<char>) -> Seq<char>
    decreases items.len(),
{
    if items.len() == 0 {
        seq![]
    } else if items.len() == 1 {
        items[0]
    } else {
        joined(items.drop_last(), sep) + sep + items.last()
    }
}

/// The fragment's lines, `start-end`.
pub open spec fn range_text(f: ContextFragment) -> Seq<char> {
    decimal(f.range.start_line as nat) + seq!['-'] + decimal(f.range.end_line as nat)
}

/// The fragment's file is known and has path `p`.
pub open spec fn in_group(idx: Index, f: ContextFragment, p: Seq<char>) -> bool {
    idx.files_map().dom().contains(f.file_id.0) && idx.files_map()[f.file_id.0].path@ == p
}

/// The line ranges of the first `n` fragments whose file has path `p`.
pub open spec fn group_ranges(idx: Index, frags: Seq<ContextFragment>, p: Seq<char>, n: nat) -> Seq<Seq<char>>
    decreases n,
{
    if n == 0 {
        seq![]
    } else {
        let rest = group_ranges(idx, frags, p, (n - 1) as nat);
        if in_group(idx, frags[n - 1], p) {
            rest.push(range_text(frags[n - 1]))
        } else {
            rest
        }
    }
}

/// The quoted names of the first `n` fragments whose file has path `p` and that name a
/// symbol.
pub open spec fn group_names(idx: Index, frags: Seq<ContextFragment>, p: Seq<char>, n: nat) -> Seq<Seq<char>>
    decreases n,
{
    if n == 0 {
        seq![]
    } else {
        let rest = group_names(idx, frags, p, (n - 1) as nat);
        match frags[n - 1].symbol_name {
            Some(name) => if in_group(idx, frags[n - 1], p) {
                rest.push(debug_quoted(name@))
            } else {
                rest
            },
            None => rest,
        }
    }
}

/// The line of file `p` in the compact listing: the path, the fragments' line ranges, and
/// the list of their symbols as `Debug` writes it.
pub open spec fn compact_line(idx: Index, frags: Seq<ContextFragment>, p: Seq<char>) -> Seq<char> {
    p + seq![':'] + joined(group_ranges(idx, frags, p, frags.len()), seq![',']) + seq![' ', '['] + joined(
        group_names(idx, frags, p, frags.len()),
        seq![',', ' '],
    ) + seq![']', '\n']
}

/// The lines of the first `k` paths.
pub open spec fn compact_lines(idx: Index, frags: Seq<ContextFragment>, paths: Seq<Seq<char>>, k: nat) -> Seq<char>
    decreases k,
{
    if k == 0 {
        seq![]
    } else {
        compact_lines(idx, frags, paths, (k - 1) as nat) + compact_line(idx, frags, paths[k - 1])
    }
}

/// The compact listing of a plan for a query: a note where nothing was found; else a line
/// for each file, the files in the order their first fragment comes, then a blank line
/// and the token, file and symbol counts.
pub open spec fn compact_text(idx: Index, query: Seq<char>, plan: ContextPlan) -> Seq<char> {
    let frags = plan.fragments@;
    if frags.len() == 0 {
        "No results found for: "@ + query + "\n"@
    } else {
        let paths = plan_paths(idx, frags, frags.len());
        compact_lines(idx, frags, paths, paths.len()) + "\nTokens: "@ + decimal(plan.total_tokens as nat) + "/"@
            + decimal(plan.budget.max_tokens as nat) + "\nFiles: "@ + decimal(plan.total_files as nat)
            + "\nSymbols: "@ + decimal(frags.len()) + "\n"@
    }
}

/// The full listing of the first `n` fragments whose file is known: each with its path and
/// first line, its symbol, and its content, then a blank line.
pub open spec fn full_text(idx: Index, frags: Seq<ContextFragment>, n: nat) -> Seq<char>
    decreases n,
{
    if n == 0 {
        seq![]
    } else {
        let f = frags[n - 1];
        full_text(idx, frags, (n - 1) as nat) + if idx.files_map().dom().contains(f.file_id.0) {
            "=== "@ + idx.files_map()[f.file_id.0].path@ + ":"@ + decimal(f.range.start_line as nat) + " ===\n"@
                + match f.symbol_name {
                Some(name) => "Symbol: "@ + name@ + "\n"@,
                None => seq![],
            } + f.content@ + "\n\n"@
        } else {
            seq![]
        }
    }
}

fn push_str(v: &mut Vec<char>, s: &str)
    ensures
        final(v)@ == old(v)@ + s@,
{
    let w = chars_of(s);
    push_chars(v, w.as_slice());
}

proof fn lemma_joined_push(items: Seq<Seq<char>>, sep: Seq<char>, x: Seq<char>)
    ensures
        joined(items.push(x), sep) == if items.len() == 0 {
            x
        } else {
            joined(items, sep) + sep + x
        },
{
    assert(items.push(x).drop_last() =~= items);
    if items.len() == 0 {
        assert(items.push(x)[0] == x);
    }
}

/// The distinct paths of the plan's fragments' files, in the order they first occur.
pub fn plan_file_paths(cs: &CodeSift, plan: &ContextPlan) -> (r: Vec<String>)
    ensures
        r@.map_values(|x: String| x@) == plan_paths(cs.index(), plan.fragments@, plan.fragments@.len()),
{
    let ghost idx = cs.index();
    let ghost frags = plan.fragments@;
    let mut paths: Vec<String> = Vec::new();
    let mut i: usize = 0;
    while i < plan.fragments.len()
        invariant
            i <= frags.len(),
            frags == plan.fragments@,
            idx == cs.index(),
            paths@.map_values(|x: String| x@) == plan_paths(idx, frags, i as nat),
        decreases frags.len() - i,
    {
        match cs.get_file(plan.fragments[i].file_id) {
            Some(file) => {
                if !contains_string(&paths, file.path.as_str()) {
                    let ghost before = paths@;
                    paths.push(file.path.clone());
                    proof {
                        assert(paths@.map_values(|x: String| x@) =~= before.map_values(|x: String| x@).push(file.path@));
                    }
                }
            },
            None => {},
        }
        i += 1;
    }
    paths
}

/// Appends the compact line of file `p`.
fn push_compact_line(cs: &CodeSift, plan: &ContextPlan, p: &str, v: &mut Vec<char>)
    ensures
        final(v)@ == old(v)@ + compact_line(cs.index(), plan.fragments@, p@),
{
    let ghost idx = cs.index();
    let ghost frags = plan.fragments@;
    push_str(v, p);
    push_str(v, ":");
    let ghost head = v@;
    let mut count: usize = 0;
    let mut i: usize = 0;
    while i < plan.fragments.len()
        invariant
            i <= frags.len(),
            frags == plan.fragments@,
            idx == cs.index(),
            count == group_ranges(idx, frags, p@, i as nat).len(),
            count <= i,
            v@ == head + joined(group_ranges(idx, frags, p@, i as nat), seq![',']),
        decreases frags.len() - i,
    {
        let f = &plan.fragments[i];
        match cs.get_file(f.file_id) {
            Some(file) => {
                if str_eq(file.path.as_str(), p) {
                    let ghost before = group_ranges(idx, frags, p@, i as nat);
                    if count > 0 {
                        push_str(v, ",");
                    }
                    let mut r: Vec<char> = Vec::new();
                    push_decimal(&mut r, f.range.start_line as u64);
                    r.push('-');
                    push_decimal(&mut r, f.range.end_line as u64);
                    push_chars(v, r.as_slice());
                    proof {
                        reveal_strlit(",");
                        assert(r@ =~= range_text(*f));
                        lemma_joined_push(before, seq![','], range_text(*f));
                        assert(v@ =~= head + joined(before.push(range_text(*f)), seq![',']));
                    }
                    count += 1;
                }
            },
            None => {},
        }
        i += 1;
    }
    push_str(v, " [");
    let ghost mid = v@;
    let mut count: usize = 0;
    let mut i: usize = 0;
    while i < plan.fragments.len()
        invariant
            i <= frags.len(),
            frags == plan.fragments@,
            idx == cs.index(),
            count == group_names(idx, frags, p@, i as nat).len(),
            count <= i,
            v@ == mid + joined(group_names(idx, frags, p@, i as nat), seq![',', ' ']),
        decreases frags.len() - i,
    {
        let f = &plan.fragments[i];
        match &f.symbol_name {
            Some(name) => match cs.get_file(f.file_id) {
                Some(file) => {
                    if str_eq(file.path.as_str(), p) {
                        let ghost before = group_names(idx, frags, p@, i as nat);
                        if count > 0 {
                            push_str(v, ", ");
                        }
                        let q = debug_str(name.as_str());
                        push_str(v, q.as_str());
                        proof {
                            reveal_strlit(", ");
                            lemma_joined_push(before, seq![',', ' '], debug_quoted(name@));
                            assert(v@ =~= mid + joined(before.push(debug_quoted(name@)), seq![',', ' ']));
                        }
                        count += 1;
                    }
                },
                None => {},
            },
            None => {},
        }
        i += 1;
    }
    push_str(v, "]\n");
    proof {
        reveal_strlit(":");
        reveal_strlit(" [");
        reveal_strlit("]\n");
        assert(v@ =~= old(v)@ + compact_line(idx, frags, p@));
    }
}

/// The compact listing of a plan for a query (see `compact_text`).
pub fn compact_report(cs: &CodeSift, query: &str, plan: &ContextPlan) -> (r: String)
    ensures
        r@ == compact_text(cs.index(), query@, *plan),
{
    let ghost idx = cs.index();
    let ghost frags = plan.fragments@;
    let mut v: Vec<char> = Vec::new();
    if plan.fragments.len() == 0 {
        push_str(&mut v, "No results found for: ");
        push_str(&mut v, query);
        push_str(&mut v, "\n");
        return string_from_chars(v.as_slice());
    }
    let paths = plan_file_paths(cs, plan);
    let ghost pv = plan_paths(idx, frags, frags.len());
    let mut k: usize = 0;
    while k < paths.len()
        invariant
            k <= paths@.len(),
            paths@.map_values(|x: String| x@) == pv,
            pv == plan_paths(idx, frags, frags.len()),
            frags == plan.fragments@,
            idx == cs.index(),
            v@ == compact_lines(idx, frags, pv, k as nat),
        decreases paths@.len() - k,
    {
        proof {
            assert(pv[k as int] == paths@[k as int]@);
        }
        push_compact_line(cs, plan, paths[k].as_str(), &mut v);
        k += 1;
    }
    push_str(&mut v, "\nTokens: ");
    push_decimal(&mut v, plan.total_tokens as u64);
    push_str(&mut v, "/");
    push_decimal(&mut v, plan.budget.max_tokens as u64);
    push_str(&mut v, "\nFiles: ");
    push_decimal(&mut v, plan.total_files as u64);
    push_str(&mut v, "\nSymbols: ");
    push_decimal(&mut v, plan.fragments.len() as u64);
    push_str(&mut v, "\n");
    proof {
        assert(v@ =~= compact_text(idx, query@, *plan));
    }
    string_from_chars(v.as_slice())
}

/// The full listing of a plan (see `full_text`).
pub fn full_report(cs: &CodeSift, plan: &ContextPlan) -> (r: String)
    ensures
        r@ == full_text(cs.index(), plan.fragments@, plan.fragments@.len()),
{
    let ghost idx = cs.index();
    let ghost frags = plan.fragments@;
    let mut v: Vec<char> = Vec::new();
    let mut i: usize = 0;
    while i < plan.fragments.len()
        invariant
            i <= frags.len(),
            frags == plan.fragments@,
            idx == cs.index(),
            v@ == full_text(idx, frags, i as nat),
        decreases frags.len() - i,
    {
        let f = &plan.fragments[i];
        match cs.get_file(f.file_id) {
            Some(file) => {
                let ghost before = v@;
                push_str(&mut v, "=== ");
                push_str(&mut v, file.path.as_str());
                push_str(&mut v, ":");
                push_decimal(&mut v, f.range.start_line as u64);
                push_str(&mut v, " ===\n");
                match &f.symbol_name {
                    Some(name) => {
                        push_str(&mut v, "Symbol: ");
                        push_str(&mut v, name.as_str());
                        push_str(&mut v, "\n");
                    },
                    None => {},
                }
                push_str(&mut v, f.content.as_str());
                push_str(&mut v, "\n\n");
                proof {
                    assert(v@ =~= full_text(idx, frags, (i + 1) as nat));
                }
            },
            None => {},
        }
        i += 1;
    }
    string_from_chars(v.as_slice())
}

} // verus!
