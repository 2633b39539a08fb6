//! Symbol and call extraction from tree-sitter syntax trees.
//!
//! tree-sitter parses the source; its tree comes back listed in preorder, each node with
//! its kind, byte range, rows and depth. Everything after that is verified here: the
//! tree structure recovered from the depths, and which nodes make symbols and calls.

use vstd::prelude::*;

use crate::error::Error;
use crate::text::{chars_of, push_chars, str_eq, string_from_chars, string_from_utf8};
use crate::types::{FileId, Language, Range, Relationship, Symbol, SymbolId, SymbolKind, Visibility};

verus! {

/// A call reference found during parsing.
#[derive(Debug)]
pub struct CallReference {
    pub caller: Option<SymbolId>,
    pub callee_name: String,
    pub range: Range,
}

/// Parsed file with symbols and references.
#[derive(Debug)]
pub struct ParsedFile {
    pub symbols: Vec<Symbol>,
    pub references: Vec<(SymbolId, String, Relationship)>,
    pub calls: Vec<CallReference>,
}

/// A syntax node as tree-sitter lists it: kind, start byte, end byte, start row, end row
/// and depth below the root.
pub type RawNode = (String, usize, usize, usize, usize, u32);

/// A syntax node with its kind taken as characters.
pub type NodeView = (Seq<char>, usize, usize, usize, usize, u32);

pub open spec fn node_views(nodes: Seq<RawNode>) -> Seq<NodeView> {
    nodes.map_values(|n: RawNode| (n.0@, n.1, n.2, n.3, n.4, n.5))
}

pub open spec fn raw_result_view(r: Result<Vec<RawNode>, String>) -> Result<Seq<NodeView>, Seq<char>> {
    match r {
        Ok(v) => Ok(node_views(v@)),
        Err(e) => Err(e@),
    }
}

/// The preorder node list of tree-sitter-rust's syntax tree of `source`, or its error message.
pub uninterp spec fn rust_syntax(source: Seq<u8>) -> Result<Seq<NodeView>, Seq<char>>;

/// The preorder node list of tree-sitter-javascript's syntax tree of `source`, or its error message.
pub uninterp spec fn javascript_syntax(source: Seq<u8>) -> Result<Seq<NodeView>, Seq<char>>;

/// The preorder node list of tree-sitter-python's syntax tree of `source`, or its error message.
pub uninterp spec fn python_syntax(source: Seq<u8>) -> Result<Seq<NodeView>, Seq<char>>;

/// `tree_sitter::Parser::parse` with the tree-sitter-rust grammar; the tree is listed in
/// preorder with a `TreeCursor`. The contract names the list; it claims nothing else.
#[verifier::external_body]
fn parse_rust_nodes(source: &[u8]) -> (r: Result<Vec<RawNode>, String>)
    ensures
        raw_result_view(r) == rust_syntax(source@),
{
    let mut p = tree_sitter::Parser::new();
    p.set_language(&tree_sitter_rust::LANGUAGE.into()).map_err(|e| e.to_string())?;
    let tree = p.parse(source, None).ok_or_else(|| "failed to parse source".to_string())?;
    let (mut out, mut c) = (Vec::new(), tree.walk());
    loop {
        let n = c.node();
        out.push((n.kind().to_string(), n.start_byte(), n.end_byte(), n.start_position().row, n.end_position().row, c.depth()));
        if c.goto_first_child() { continue; }
        while !c.goto_next_sibling() { if !c.goto_parent() { return Ok(out); } }
    }
}

/// `tree_sitter::Parser::parse` with the tree-sitter-javascript grammar; the tree is
/// listed in preorder with a `TreeCursor`. The contract names the list; it claims nothing else.
#[verifier::external_body]
fn parse_javascript_nodes(source: &[u8]) -> (r: Result<Vec<RawNode>, String>)
    ensures
        raw_result_view(r) == javascript_syntax(source@),
{
    let mut p = tree_sitter::Parser::new();
    p.set_language(&tree_sitter_javascript::LANGUAGE.into()).map_err(|e| e.to_string())?;
    let tree = p.parse(source, None).ok_or_else(|| "failed to parse source".to_string())?;
    let (mut out, mut c) = (Vec::new(), tree.walk());
    loop {
        let n = c.node();
        out.push((n.kind().to_string(), n.start_byte(), n.end_byte(), n.start_position().row, n.end_position().row, c.depth()));
        if c.goto_first_child() { continue; }
        while !c.goto_next_sibling() { if !c.goto_parent() { return Ok(out); } }
    }
}

/// `tree_sitter::Parser::parse` with the tree-sitter-python grammar; the tree is listed
/// in preorder with a `TreeCursor`. The contract names the list; it claims nothing else.
#[verifier::external_body]
fn parse_python_nodes(source: &[u8]) -> (r: Result<Vec<RawNode>, String>)
    ensures
        raw_result_view(r) == python_syntax(source@),
{
    let mut p = tree_sitter::Parser::new();
    p.set_language(&tree_sitter_python::LANGUAGE.into()).map_err(|e| e.to_string())?;
    let tree = p.parse(source, None).ok_or_else(|| "failed to parse source".to_string())?;
    let (mut out, mut c) = (Vec::new(), tree.walk());
    loop {
        let n = c.node();
        out.push((n.kind().to_string(), n.start_byte(), n.end_byte(), n.start_position().row, n.end_position().row, c.depth()));
        if c.goto_first_child() { continue; }
        while !c.goto_next_sibling() { if !c.goto_parent() { return Ok(out); } }
    }
}

// ---------------------------------------------------------------------------
// Tree structure from the preorder depths.

/// The parent of a node at depth `d`, from the last node seen at each depth.
pub open spec fn parent_from_stack(stack: Seq<int>, d: int) -> Option<int> {
    if 1 <= d <= stack.len() {
        Some(stack[d - 1])
    } else {
        None
    }
}

pub open spec fn push_on_stack(stack: Seq<int>, j: int, d: int) -> Seq<int> {
    if d <= stack.len() {
        stack.subrange(0, d).push(j)
    } else {
        stack.push(j)
    }
}

/// Parents of the first `n` nodes, and the last node seen at each depth.
pub open spec fn parents_upto(nodes: Seq<NodeView>, n: nat) -> (Seq<Option<int>>, Seq<int>)
    decreases n,
{
    if n == 0 {
        (seq![], seq![])
    } else {
        let (ps, st) = parents_upto(nodes, (n - 1) as nat);
        let d = nodes[n - 1].5 as int;
        (ps.push(parent_from_stack(st, d)), push_on_stack(st, n - 1, d))
    }
}

/// Each node's parent: the last node before it one level up.
pub open spec fn parents(nodes: Seq<NodeView>) -> Seq<Option<int>> {
    parents_upto(nodes, nodes.len()).0
}

/// The children, in order, of node `i` among the first `n` nodes.
pub open spec fn children_upto(ps: Seq<Option<int>>, i: int, n: nat) -> Seq<int>
    decreases n,
{
    if n == 0 {
        seq![]
    } else {
        let rest = children_upto(ps, i, (n - 1) as nat);
        if ps[n - 1] == Some(i) {
            rest.push(n - 1)
        } else {
            rest
        }
    }
}

pub open spec fn children(nodes: Seq<NodeView>, i: int) -> Seq<int> {
    children_upto(parents(nodes), i, nodes.len())
}

proof fn lemma_parents_upto(nodes: Seq<NodeView>, n: nat)
    requires
        n <= nodes.len(),
    ensures
        parents_upto(nodes, n).0.len() == n,
        forall|k: int| 0 <= k < n ==> ((#[trigger] parents_upto(nodes, n).0[k]) matches Some(p) ==> 0 <= p < k),
        forall|k: int| 0 <= k < parents_upto(nodes, n).1.len() ==> 0 <= #[trigger] parents_upto(nodes, n).1[k] < n,
    decreases n,
{
    if n > 0 {
        lemma_parents_upto(nodes, (n - 1) as nat);
    }
}

proof fn lemma_parents_prefix(nodes: Seq<NodeView>, n: nat, m: nat)
    requires
        n <= m <= nodes.len(),
    ensures
        forall|k: int| 0 <= k < n ==> #[trigger] parents_upto(nodes, m).0[k] == parents_upto(nodes, n).0[k],
    decreases m - n,
{
    if n < m {
        lemma_parents_prefix(nodes, n, (m - 1) as nat);
        lemma_parents_upto(nodes, (m - 1) as nat);
    }
}

/// Computes every node's parent.
fn compute_parents(nodes: &Vec<RawNode>) -> (ps: Vec<Option<usize>>)
    ensures
        ps@.len() == nodes@.len(),
        forall|k: int| 0 <= k < ps@.len() ==> #[trigger] opt_int(ps@[k]) == parents(node_views(nodes@))[k],
{
    let ghost nv = node_views(nodes@);
    let mut ps: Vec<Option<usize>> = Vec::new();
    let mut stack: Vec<usize> = Vec::new();
    let mut j: usize = 0;
    while j < nodes.len()
        invariant
            nv == node_views(nodes@),
            nv.len() == nodes@.len(),
            j <= nodes@.len(),
            ps@.len() == j,
            forall|k: int| 0 <= k < j ==> #[trigger] opt_int(ps@[k]) == parents_upto(nv, j as nat).0[k],
            stack@.map_values(|x: usize| x as int) == parents_upto(nv, j as nat).1,
        decreases nodes@.len() - j,
    {
        proof {
            lemma_parents_upto(nv, j as nat);
            lemma_parents_prefix(nv, j as nat, (j + 1) as nat);
        }
        let d = nodes[j].5 as usize;
        let parent = if 1 <= d && d <= stack.len() {
            Some(stack[d - 1])
        } else {
            None
        };
        ps.push(parent);
        if d <= stack.len() {
            stack.truncate(d);
        }
        stack.push(j);
        proof {
            let st = parents_upto(nv, j as nat).1;
            assert(nv[j as int].5 == nodes@[j as int].5);
            assert(stack@.map_values(|x: usize| x as int) =~= push_on_stack(st, j as int, d as int));
            assert forall|k: int| 0 <= k < j + 1 implies #[trigger] opt_int(ps@[k]) == parents_upto(
                nv,
                (j + 1) as nat,
            ).0[k] by {
                if k < j {
                    assert(parents_upto(nv, (j + 1) as nat).0[k] == parents_upto(nv, j as nat).0[k]);
                }
            }
        }
        j += 1;
    }
    ps
}

pub open spec fn opt_int(o: Option<usize>) -> Option<int> {
    match o {
        Some(x) => Some(x as int),
        None => None,
    }
}

/// Lists the children of every node, in order.
fn compute_children(ps: &Vec<Option<usize>>) -> (ch: Vec<Vec<usize>>)
    requires
        forall|k: int| 0 <= k < ps@.len() ==> ((#[trigger] ps@[k]) matches Some(p) ==> p < k),
    ensures
        ch@.len() == ps@.len(),
        forall|i: int|
            0 <= i < ch@.len() ==> (#[trigger] ch@[i])@.map_values(|x: usize| x as int)
                == children_upto(ps@.map_values(|o: Option<usize>| opt_int(o)), i, ps@.len()),
        forall|k: int, m: int| 0 <= k < ch@.len() && 0 <= m < ch@[k]@.len() ==> #[trigger] ch@[k]@[m] < ps@.len(),
{
    let ghost pv = ps@.map_values(|o: Option<usize>| opt_int(o));
    let mut ch: Vec<Vec<usize>> = Vec::new();
    let mut i: usize = 0;
    while i < ps.len()
        invariant
            i <= ps@.len(),
            ch@.len() == i,
            forall|k: int| 0 <= k < i ==> (#[trigger] ch@[k])@.len() == 0,
        decreases ps@.len() - i,
    {
        ch.push(Vec::new());
        i += 1;
    }
    let mut j: usize = 0;
    while j < ps.len()
        invariant
            pv == ps@.map_values(|o: Option<usize>| opt_int(o)),
            forall|k: int| 0 <= k < ps@.len() ==> ((#[trigger] ps@[k]) matches Some(p) ==> p < k),
            j <= ps@.len(),
            ch@.len() == ps@.len(),
            forall|k: int|
                0 <= k < ch@.len() ==> (#[trigger] ch@[k])@.map_values(|x: usize| x as int)
                    == children_upto(pv, k, j as nat),
            forall|k: int, m: int| 0 <= k < ch@.len() && 0 <= m < ch@[k]@.len() ==> #[trigger] ch@[k]@[m] < j,
        decreases ps@.len() - j,
    {
        if let Some(p) = ps[j] {
            let mut list: Vec<usize> = Vec::new();
            ch.set_and_swap(p, &mut list);
            list.push(j);
            ch.set_and_swap(p, &mut list);
            proof {
                assert forall|k: int, m: int| 0 <= k < ch@.len() && 0 <= m < ch@[k]@.len() implies #[trigger] ch@[k]@[m] < j + 1 by {
                    if k == p && m == ch@[k]@.len() - 1 {
                    } else if k == p {
                    }
                }
                assert forall|k: int|
                    0 <= k < ch@.len() implies (#[trigger] ch@[k])@.map_values(|x: usize| x as int)
                    == children_upto(pv, k, (j + 1) as nat) by {
                    assert(pv[j as int] == Some(p as int));
                    if k == p {
                        assert(ch@[k]@.map_values(|x: usize| x as int) =~= children_upto(
                            pv,
                            k,
                            j as nat,
                        ).push(j as int));
                    }
                }
            }
        } else {
            proof {
                assert(pv[j as int] is None);
            }
        }
        j += 1;
    }
    ch
}

// ---------------------------------------------------------------------------
// Node texts, ranges and kinds.

/// The text of a node: its bytes of the source, where they lie in it and are UTF-8.
pub open spec fn node_text(src: Seq<u8>, n: NodeView) -> Option<Seq<char>> {
    if n.1 <= n.2 <= src.len() && vstd::utf8::valid_utf8(src.subrange(n.1 as int, n.2 as int)) {
        Some(vstd::utf8::decode_utf8(src.subrange(n.1 as int, n.2 as int)))
    } else {
        None
    }
}

/// A row as a 1-based line number (the row is taken modulo 2^32).
pub open spec fn row_line(row: usize) -> u32 {
    ((row as int % 4294967296) + 1) as u32
}

/// Every row gives a line number that fits a `u32`.
pub open spec fn rows_fit(nodes: Seq<NodeView>) -> bool {
    forall|k: int|
        0 <= k < nodes.len() ==> (#[trigger] nodes[k]).3 as int % 4294967296 != 4294967295
            && nodes[k].4 as int % 4294967296 != 4294967295
}

pub open spec fn node_range(n: NodeView) -> Range {
    Range { start_byte: n.1, end_byte: n.2, start_line: row_line(n.3), end_line: row_line(n.4) }
}

/// Sets of node kinds that the extraction looks for among a node's children.
#[derive(Clone, Copy, PartialEq, Eq, Structural, Debug)]
pub enum KindSet {
    IdentifierOrFieldExpression,
    IdentifierOrMemberExpression,
    IdentifierOrAttribute,
    IdentifierOrDeclarator,
    TypeIdentifierOrIdentifier,
    Identifier,
    IdentifierOrFunction,
    IdentifierOrClass,
}

pub open spec fn kind_matches(k: Seq<char>, set: KindSet) -> bool {
    match set {
        KindSet::IdentifierOrFieldExpression => k == "identifier"@ || k == "field_expression"@,
        KindSet::IdentifierOrMemberExpression => k == "identifier"@ || k == "member_expression"@,
        KindSet::IdentifierOrAttribute => k == "identifier"@ || k == "attribute"@,
        KindSet::IdentifierOrDeclarator => k == "identifier"@ || k == "declarator"@,
        KindSet::TypeIdentifierOrIdentifier => k == "type_identifier"@ || k == "identifier"@,
        KindSet::Identifier => k == "identifier"@,
        KindSet::IdentifierOrFunction => k == "identifier"@ || k == "function"@,
        KindSet::IdentifierOrClass => k == "identifier"@ || k == "class"@,
    }
}

fn kind_in(k: &str, set: KindSet) -> (r: bool)
    ensures
        r == kind_matches(k@, set),
{
    match set {
        KindSet::IdentifierOrFieldExpression => str_eq(k, "identifier") || str_eq(k, "field_expression"),
        KindSet::IdentifierOrMemberExpression => str_eq(k, "identifier") || str_eq(k, "member_expression"),
        KindSet::IdentifierOrAttribute => str_eq(k, "identifier") || str_eq(k, "attribute"),
        KindSet::IdentifierOrDeclarator => str_eq(k, "identifier") || str_eq(k, "declarator"),
        KindSet::TypeIdentifierOrIdentifier => str_eq(k, "type_identifier") || str_eq(k, "identifier"),
        KindSet::Identifier => str_eq(k, "identifier"),
        KindSet::IdentifierOrFunction => str_eq(k, "identifier") || str_eq(k, "function"),
        KindSet::IdentifierOrClass => str_eq(k, "identifier") || str_eq(k, "class"),
    }
}

/// The first of the nodes `ch` whose kind is in `kinds`.
pub open spec fn first_of_kind(nodes: Seq<NodeView>, ch: Seq<int>, kinds: KindSet) -> Option<
    int,
>
    decreases ch.len(),
{
    if ch.len() == 0 {
        None
    } else if kind_matches(nodes[ch[0]].0, kinds) {
        Some(ch[0])
    } else {
        first_of_kind(nodes, ch.drop_first(), kinds)
    }
}

/// The text of the first of the nodes `ch` whose kind is one of `kinds` and that has a text.
pub open spec fn first_name(
    nodes: Seq<NodeView>,
    src: Seq<u8>,
    ch: Seq<int>,
    kinds: KindSet,
) -> Option<Seq<char>>
    decreases ch.len(),
{
    if ch.len() == 0 {
        None
    } else if kind_matches(nodes[ch[0]].0, kinds) && node_text(src, nodes[ch[0]]) is Some {
        node_text(src, nodes[ch[0]])
    } else {
        first_name(nodes, src, ch.drop_first(), kinds)
    }
}

/// The child of node `i` that names the function a call calls.
pub open spec fn call_target(nodes: Seq<NodeView>, i: int) -> Option<int> {
    let k = nodes[i].0;
    let ch = children(nodes, i);
    if k == "call_expression"@ {
        match first_of_kind(nodes, ch, KindSet::IdentifierOrFieldExpression) {
            Some(c) => Some(c),
            None => first_of_kind(nodes, ch, KindSet::IdentifierOrMemberExpression),
        }
    } else if k == "call"@ {
        first_of_kind(nodes, ch, KindSet::IdentifierOrAttribute)
    } else {
        None
    }
}

/// A call reference with its name taken as characters.
pub struct CallView {
    pub caller: Option<SymbolId>,
    pub callee_name: Seq<char>,
    pub range: Range,
}

pub open spec fn call_view(c: CallReference) -> CallView {
    CallView { caller: c.caller, callee_name: c.callee_name@, range: c.range }
}

/// The call that node `i` makes, where it is a call whose callee has a text.
pub open spec fn call_at(nodes: Seq<NodeView>, src: Seq<u8>, i: int, caller: Option<SymbolId>) -> Option<
    CallView,
> {
    match call_target(nodes, i) {
        Some(c) => match node_text(src, nodes[c]) {
            Some(t) => Some(CallView { caller, callee_name: t, range: node_range(nodes[c]) }),
            None => None,
        },
        None => None,
    }
}

/// The symbol kind that a node kind defines, and the kinds of child that carry its name.
pub open spec fn symbol_rule(k: Seq<char>) -> Option<(SymbolKind, KindSet)> {
    if k == "function_item"@ {
        Some((SymbolKind::Function, KindSet::IdentifierOrDeclarator))
    } else if k == "struct_item"@ {
        Some((SymbolKind::Struct, KindSet::TypeIdentifierOrIdentifier))
    } else if k == "enum_item"@ {
        Some((SymbolKind::Enum, KindSet::TypeIdentifierOrIdentifier))
    } else if k == "trait_item"@ {
        Some((SymbolKind::Trait, KindSet::TypeIdentifierOrIdentifier))
    } else if k == "impl_item"@ {
        Some((SymbolKind::Impl, KindSet::TypeIdentifierOrIdentifier))
    } else if k == "const_item"@ {
        Some((SymbolKind::Constant, KindSet::Identifier))
    } else if k == "function_declaration"@ {
        Some((SymbolKind::Function, KindSet::IdentifierOrFunction))
    } else if k == "class_declaration"@ {
        Some((SymbolKind::Class, KindSet::IdentifierOrClass))
    } else if k == "function_definition"@ {
        Some((SymbolKind::Function, KindSet::Identifier))
    } else if k == "class_definition"@ {
        Some((SymbolKind::Class, KindSet::Identifier))
    } else {
        None
    }
}

/// The kind and name of the symbol that node `i` defines, if it defines one.
pub open spec fn symbol_at(nodes: Seq<NodeView>, src: Seq<u8>, i: int) -> Option<
    (SymbolKind, Seq<char>),
> {
    match symbol_rule(nodes[i].0) {
        Some((kind, targets)) => match first_name(nodes, src, children(nodes, i), targets) {
            Some(name) => Some((kind, name)),
            None => None,
        },
        None => None,
    }
}

/// A symbol with its texts taken as characters.
pub struct SymbolView {
    pub id: SymbolId,
    pub name: Seq<char>,
    pub kind: SymbolKind,
    pub file_id: FileId,
    pub range: Range,
    pub parent: Option<SymbolId>,
    pub visibility: Visibility,
    pub signature: Option<Seq<char>>,
}

pub open spec fn symbol_view(s: Symbol) -> SymbolView {
    SymbolView {
        id: s.id,
        name: s.name@,
        kind: s.kind,
        file_id: s.file_id,
        range: s.range,
        parent: s.parent,
        visibility: s.visibility,
        signature: match s.signature {
            Some(x) => Some(x@),
            None => None,
        },
    }
}

/// What the walk over the nodes has found so far.
pub struct WalkState {
    pub symbols: Seq<SymbolView>,
    pub calls: Seq<CallView>,
    /// For each node walked, the symbol that encloses its children.
    pub child_ctx: Seq<Option<SymbolId>>,
}

/// The walk over the first `n` nodes in preorder: each call is recorded with its
/// enclosing symbol, and each symbol gets the next id and its enclosing symbol as parent.
pub open spec fn walk_upto(nodes: Seq<NodeView>, src: Seq<u8>, file: FileId, n: nat) -> WalkState
    decreases n,
{
    if n == 0 {
        WalkState { symbols: seq![], calls: seq![], child_ctx: seq![] }
    } else {
        let st = walk_upto(nodes, src, file, (n - 1) as nat);
        let i = n - 1;
        let ctx = match parents(nodes)[i] {
            Some(p) => st.child_ctx[p],
            None => None,
        };
        let calls = match call_at(nodes, src, i, ctx) {
            Some(c) => st.calls.push(c),
            None => st.calls,
        };
        match symbol_at(nodes, src, i) {
            Some((kind, name)) => {
                let id = SymbolId(st.symbols.len() as u64);
                WalkState {
                    symbols: st.symbols.push(
                        SymbolView {
                            id,
                            name,
                            kind,
                            file_id: file,
                            range: node_range(nodes[i]),
                            parent: ctx,
                            visibility: Visibility::Public,
                            signature: None,
                        },
                    ),
                    calls,
                    child_ctx: st.child_ctx.push(Some(id)),
                }
            },
            None => WalkState { symbols: st.symbols, calls, child_ctx: st.child_ctx.push(ctx) },
        }
    }
}

/// The symbols and calls of a syntax tree.
pub open spec fn extraction(nodes: Seq<NodeView>, src: Seq<u8>, file: FileId) -> WalkState {
    walk_upto(nodes, src, file, nodes.len())
}

// ---------------------------------------------------------------------------
// Extraction.

/// The text of a node, copied out of the source.
fn node_text_exec(source: &[u8], n: &RawNode) -> (r: Option<String>)
    ensures
        opt_chars(r) == node_text(source@, (n.0@, n.1, n.2, n.3, n.4, n.5)),
{
    let start = n.1;
    let end = n.2;
    if start > end || end > source.len() {
        return None;
    }
    let mut bytes: Vec<u8> = Vec::new();
    let mut i: usize = start;
    while i < end
        invariant
            start <= i <= end <= source@.len(),
            bytes@ == source@.subrange(start as int, i as int),
        decreases end - i,
    {
        bytes.push(source[i]);
        i += 1;
        assert(bytes@ =~= source@.subrange(start as int, i as int));
    }
    string_from_utf8(bytes)
}

pub open spec fn opt_chars(o: Option<String>) -> Option<Seq<char>> {
    match o {
        Some(s) => Some(s@),
        None => None,
    }
}

fn row_line_exec(row: usize) -> (l: u32)
    requires
        row as int % 4294967296 != 4294967295,
    ensures
        l == row_line(row),
{
    let r = (row as u64 % 4294967296u64) as u32;
    r + 1
}

fn first_of_kind_exec(nodes: &Vec<RawNode>, ch: &Vec<usize>, kinds: KindSet) -> (r: Option<usize>)
    requires
        forall|k: int| 0 <= k < ch@.len() ==> #[trigger] ch@[k] < nodes@.len(),
    ensures
        opt_int(r) == first_of_kind(node_views(nodes@), ch@.map_values(|x: usize| x as int), kinds),
        r matches Some(c) ==> c < nodes@.len(),
{
    let ghost nv = node_views(nodes@);
    let ghost chv = ch@.map_values(|x: usize| x as int);
    assert(chv.subrange(0, chv.len() as int) =~= chv);
    let mut i: usize = 0;
    while i < ch.len()
        invariant
            nv == node_views(nodes@),
            chv == ch@.map_values(|x: usize| x as int),
            forall|k: int| 0 <= k < ch@.len() ==> #[trigger] ch@[k] < nodes@.len(),
            i <= ch@.len(),
            first_of_kind(nv, chv, kinds) == first_of_kind(nv, chv.subrange(i as int, chv.len() as int), kinds),
        decreases ch@.len() - i,
    {
        let c = ch[i];
        proof {
            let rest = chv.subrange(i as int, chv.len() as int);
            assert(rest[0] == c as int);
            assert(rest.drop_first() =~= chv.subrange(i + 1, chv.len() as int));
            assert(nv[c as int].0 == nodes@[c as int].0@);
        }
        if kind_in(nodes[c].0.as_str(), kinds) {
            return Some(c);
        }
        i += 1;
    }
    None
}

fn first_name_exec(nodes: &Vec<RawNode>, source: &[u8], ch: &Vec<usize>, kinds: KindSet) -> (r: Option<String>)
    requires
        forall|k: int| 0 <= k < ch@.len() ==> #[trigger] ch@[k] < nodes@.len(),
    ensures
        opt_chars(r) == first_name(node_views(nodes@), source@, ch@.map_values(|x: usize| x as int), kinds),
{
    let ghost nv = node_views(nodes@);
    let ghost chv = ch@.map_values(|x: usize| x as int);
    assert(chv.subrange(0, chv.len() as int) =~= chv);
    let mut i: usize = 0;
    while i < ch.len()
        invariant
            nv == node_views(nodes@),
            chv == ch@.map_values(|x: usize| x as int),
            forall|k: int| 0 <= k < ch@.len() ==> #[trigger] ch@[k] < nodes@.len(),
            i <= ch@.len(),
            first_name(nv, source@, chv, kinds) == first_name(nv, source@, chv.subrange(i as int, chv.len() as int), kinds),
        decreases ch@.len() - i,
    {
        let c = ch[i];
        proof {
            let rest = chv.subrange(i as int, chv.len() as int);
            assert(rest[0] == c as int);
            assert(rest.drop_first() =~= chv.subrange(i + 1, chv.len() as int));
            assert(nv[c as int] == (nodes@[c as int].0@, nodes@[c as int].1, nodes@[c as int].2, nodes@[c as int].3, nodes@[c as int].4, nodes@[c as int].5));
        }
        if kind_in(nodes[c].0.as_str(), kinds) {
            let t = node_text_exec(source, &nodes[c]);
            if t.is_some() {
                return t;
            }
        }
        i += 1;
    }
    None
}

fn symbol_rule_exec(k: &str) -> (r: Option<(SymbolKind, KindSet)>)
    ensures
        r == symbol_rule(k@),
{
    if str_eq(k, "function_item") {
        Some((SymbolKind::Function, KindSet::IdentifierOrDeclarator))
    } else if str_eq(k, "struct_item") {
        Some((SymbolKind::Struct, KindSet::TypeIdentifierOrIdentifier))
    } else if str_eq(k, "enum_item") {
        Some((SymbolKind::Enum, KindSet::TypeIdentifierOrIdentifier))
    } else if str_eq(k, "trait_item") {
        Some((SymbolKind::Trait, KindSet::TypeIdentifierOrIdentifier))
    } else if str_eq(k, "impl_item") {
        Some((SymbolKind::Impl, KindSet::TypeIdentifierOrIdentifier))
    } else if str_eq(k, "const_item") {
        Some((SymbolKind::Constant, KindSet::Identifier))
    } else if str_eq(k, "function_declaration") {
        Some((SymbolKind::Function, KindSet::IdentifierOrFunction))
    } else if str_eq(k, "class_declaration") {
        Some((SymbolKind::Class, KindSet::IdentifierOrClass))
    } else if str_eq(k, "function_definition") {
        Some((SymbolKind::Function, KindSet::Identifier))
    } else if str_eq(k, "class_definition") {
        Some((SymbolKind::Class, KindSet::Identifier))
    } else {
        None
    }
}

/// The symbols and calls of a syntax tree listed in preorder with depths.
pub fn extract_all(nodes: &Vec<RawNode>, source: &[u8], file_id: FileId) -> (r: (Vec<Symbol>, Vec<CallReference>))
    requires
        rows_fit(node_views(nodes@)),
    ensures
        r.0@.map_values(|s: Symbol| symbol_view(s)) == extraction(node_views(nodes@), source@, file_id).symbols,
        r.1@.map_values(|c: CallReference| call_view(c)) == extraction(node_views(nodes@), source@, file_id).calls,
{
    let ghost nv = node_views(nodes@);
    let ps = compute_parents(nodes);
    proof {
        lemma_parents_upto(nv, nv.len());
        assert forall|k: int| 0 <= k < ps@.len() implies ((#[trigger] ps@[k]) matches Some(p) ==> p < k) by {
            assert(opt_int(ps@[k]) == parents(nv)[k]);
        }
        assert(ps@.map_values(|o: Option<usize>| opt_int(o)) =~= parents(nv));
    }
    let ch = compute_children(&ps);
    let mut symbols: Vec<Symbol> = Vec::new();
    let mut calls: Vec<CallReference> = Vec::new();
    let mut child_ctx: Vec<Option<SymbolId>> = Vec::new();
    let mut i: usize = 0;
    while i < nodes.len()
        invariant
            nv == node_views(nodes@),
            nv.len() == nodes@.len(),
            rows_fit(nv),
            ps@.len() == nodes@.len(),
            forall|k: int| 0 <= k < ps@.len() ==> #[trigger] opt_int(ps@[k]) == parents(nv)[k],
            forall|k: int| 0 <= k < ps@.len() ==> ((#[trigger] ps@[k]) matches Some(p) ==> p < k),
            ch@.len() == nodes@.len(),
            forall|k: int| 0 <= k < ch@.len() ==> (#[trigger] ch@[k])@.map_values(|x: usize| x as int) == children(nv, k),
            forall|k: int, m: int| 0 <= k < ch@.len() && 0 <= m < ch@[k]@.len() ==> #[trigger] ch@[k]@[m] < nodes@.len(),
            i <= nodes@.len(),
            symbols@.len() <= i,
            child_ctx@.len() == i,
            ({
                let st = walk_upto(nv, source@, file_id, i as nat);
                &&& symbols@.map_values(|s: Symbol| symbol_view(s)) == st.symbols
                &&& calls@.map_values(|c: CallReference| call_view(c)) == st.calls
                &&& child_ctx@ == st.child_ctx
            }),
        decreases nodes@.len() - i,
    {
        let ghost st = walk_upto(nv, source@, file_id, i as nat);
        let ctx = match ps[i] {
            Some(p) => child_ctx[p],
            None => None,
        };
        proof {
            assert(opt_int(ps@[i as int]) == parents(nv)[i as int]);
            assert(nv[i as int] == (nodes@[i as int].0@, nodes@[i as int].1, nodes@[i as int].2, nodes@[i as int].3, nodes@[i as int].4, nodes@[i as int].5));
            assert(ch@[i as int]@.map_values(|x: usize| x as int) == children(nv, i as int));
        }
        let kind = nodes[i].0.as_str();
        let children_i = &ch[i];
        // The call this node makes.
        let target = if str_eq(kind, "call_expression") {
            match first_of_kind_exec(nodes, children_i, KindSet::IdentifierOrFieldExpression) {
                Some(c) => Some(c),
                None => first_of_kind_exec(nodes, children_i, KindSet::IdentifierOrMemberExpression),
            }
        } else if str_eq(kind, "call") {
            first_of_kind_exec(nodes, children_i, KindSet::IdentifierOrAttribute)
        } else {
            None
        };
        proof {
            assert(opt_int(target) == call_target(nv, i as int));
        }
        if let Some(c) = target {
            proof {
                assert(nv[c as int] == (nodes@[c as int].0@, nodes@[c as int].1, nodes@[c as int].2, nodes@[c as int].3, nodes@[c as int].4, nodes@[c as int].5));
                assert(rows_fit(nv) ==> nv[c as int].3 as int % 4294967296 != 4294967295);
            }
            if let Some(name) = node_text_exec(source, &nodes[c]) {
                let range = Range::new(nodes[c].1, nodes[c].2, row_line_exec(nodes[c].3), row_line_exec(nodes[c].4));
                calls.push(CallReference { caller: ctx, callee_name: name, range });
            }
        }
        proof {
            assert(calls@.map_values(|c: CallReference| call_view(c)) =~= walk_upto(nv, source@, file_id, (i + 1) as nat).calls);
        }
        // The symbol this node defines.
        let rule = symbol_rule_exec(kind);
        let found = match rule {
            Some((sk, targets)) => match first_name_exec(nodes, source, children_i, targets) {
                Some(name) => Some((sk, name)),
                None => None,
            },
            None => None,
        };
        match found {
            Some((sk, name)) => {
                let id = SymbolId(symbols.len() as u64);
                proof {
                    assert(rows_fit(nv) ==> nv[i as int].3 as int % 4294967296 != 4294967295);
                }
                let range = Range::new(nodes[i].1, nodes[i].2, row_line_exec(nodes[i].3), row_line_exec(nodes[i].4));
                symbols.push(Symbol {
                    id,
                    name,
                    kind: sk,
                    file_id,
                    range,
                    parent: ctx,
                    visibility: Visibility::Public,
                    signature: None,
                });
                child_ctx.push(Some(id));
            },
            None => {
                child_ctx.push(ctx);
            },
        }
        proof {
            assert(symbols@.map_values(|s: Symbol| symbol_view(s)) =~= walk_upto(nv, source@, file_id, (i + 1) as nat).symbols);
            assert(child_ctx@ =~= walk_upto(nv, source@, file_id, (i + 1) as nat).child_ctx);
        }
        i += 1;
    }
    (symbols, calls)
}

// ---------------------------------------------------------------------------
// The parser.

/// The grammar's result for a source in a language, where the language has a grammar here.
pub open spec fn syntax_of(lang: Language, source: Seq<u8>) -> Option<Result<Seq<NodeView>, Seq<char>>> {
    match lang {
        Language::Rust => Some(rust_syntax(source)),
        Language::JavaScript | Language::TypeScript => Some(javascript_syntax(source)),
        Language::Python => Some(python_syntax(source)),
        _ => None,
    }
}

pub open spec fn unsupported_message(lang: Language) -> Seq<char> {
    seq!['u', 'n', 's', 'u', 'p', 'p', 'o', 'r', 't', 'e', 'd', ' ', 'l', 'a', 'n', 'g', 'u', 'a', 'g', 'e', ':', ' '] + crate::types::language_name(lang)
}

pub open spec fn line_overflow_message() -> Seq<char> {
    seq!['l', 'i', 'n', 'e', ' ', 'n', 'u', 'm', 'b', 'e', 'r', ' ', 'o', 'u', 't', ' ', 'o', 'f', ' ', 'r', 'a', 'n', 'g', 'e']
}

/// What `Parser::parse` gives back: the symbols and calls of the tree, or the error message.
pub open spec fn parse_outcome(lang: Language, source: Seq<u8>, file: FileId) -> Result<(Seq<SymbolView>, Seq<CallView>), Seq<char>> {
    match syntax_of(lang, source) {
        None => Err(unsupported_message(lang)),
        Some(Err(m)) => Err(m),
        Some(Ok(nodes)) => if rows_fit(nodes) {
            Ok((extraction(nodes, source, file).symbols, extraction(nodes, source, file).calls))
        } else {
            Err(line_overflow_message())
        },
    }
}

/// Whether every row of the list gives a line number that fits a `u32`.
pub fn rows_fit_exec(nodes: &Vec<RawNode>) -> (b: bool)
    ensures
        b == rows_fit(node_views(nodes@)),
{
    let ghost nv = node_views(nodes@);
    let mut k: usize = 0;
    while k < nodes.len()
        invariant
            k <= nodes@.len(),
            nv == node_views(nodes@),
            forall|j: int| 0 <= j < k ==> (#[trigger] nv[j]).3 as int % 4294967296 != 4294967295
                && nv[j].4 as int % 4294967296 != 4294967295,
        decreases nodes@.len() - k,
    {
        assert(nv[k as int] == (nodes@[k as int].0@, nodes@[k as int].1, nodes@[k as int].2, nodes@[k as int].3, nodes@[k as int].4, nodes@[k as int].5));
        if nodes[k].3 as u64 % 4294967296u64 == 4294967295u64 || nodes[k].4 as u64 % 4294967296u64 == 4294967295u64 {
            return false;
        }
        k += 1;
    }
    true
}

/// Extracts symbols from source code with tree-sitter.
#[derive(Clone, Copy, Debug)]
pub struct Parser;

impl Parser {
    pub fn new() -> (p: Self) {
        Parser
    }

    /// Parses `source` in `lang` and extracts its symbols and calls.
    ///
    /// Rust, JavaScript (also for TypeScript) and Python have a grammar; any other language
    /// is refused. Each symbol's id is its position in the list; `references` stays empty.
    pub fn parse(&mut self, source: &[u8], lang: Language, file_id: FileId) -> (r: Result<ParsedFile, Error>)
        ensures
            parse_outcome(lang, source@, file_id) matches Ok((syms, cs)) ==> (r matches Ok(pf) && pf.symbols@.map_values(|s: Symbol| symbol_view(s)) == syms
                && pf.calls@.map_values(|c: CallReference| call_view(c)) == cs && pf.references@.len() == 0),
            parse_outcome(lang, source@, file_id) matches Err(m) ==> (r matches Err(Error::Parse(e)) && e@ == m),
    {
        let raw = match lang {
            Language::Rust => parse_rust_nodes(source),
            Language::JavaScript | Language::TypeScript => parse_javascript_nodes(source),
            Language::Python => parse_python_nodes(source),
            _ => {
                let mut msg = chars_of("unsupported language: ");
                let name = chars_of(lang.name());
                push_chars(&mut msg, name.as_slice());
                proof {
                    reveal_strlit("unsupported language: ");
                    assert(msg@ =~= unsupported_message(lang));
                }
                return Err(Error::Parse(string_from_chars(msg.as_slice())));
            },
        };
        match raw {
            Err(m) => Err(Error::Parse(m)),
            Ok(nodes) => {
                if !rows_fit_exec(&nodes) {
                    let msg = String::from_str("line number out of range");
                    proof {
                        reveal_strlit("line number out of range");
                        assert(msg@ =~= line_overflow_message());
                    }
                    return Err(Error::Parse(msg));
                }
                let (symbols, calls) = extract_all(&nodes, source, file_id);
                Ok(ParsedFile { symbols, references: Vec::new(), calls })
            },
        }
    }
}

impl Default for Parser {
    fn default() -> (p: Self) {
        Parser::new()
    }
}


// ---------------------------------------------------------------------------
// Laws.

proof fn lemma_walk_ids(nodes: Seq<NodeView>, src: Seq<u8>, file: FileId, n: nat)
    requires
        n <= nodes.len(),
    ensures
        walk_upto(nodes, src, file, n).child_ctx.len() == n,
        forall|k: int| 0 <= k < n ==> ((#[trigger] walk_upto(nodes, src, file, n).child_ctx[k]) matches Some(c) ==> c.0 < walk_upto(nodes, src, file, n).symbols.len()),
        forall|k: int| 0 <= k < walk_upto(nodes, src, file, n).symbols.len() ==> {
            let s = #[trigger] walk_upto(nodes, src, file, n).symbols[k];
            &&& s.id == SymbolId(k as u64)
            &&& s.file_id == file
            &&& (s.parent matches Some(p) ==> p.0 < k)
        },
        walk_upto(nodes, src, file, n).symbols.len() <= n,
        forall|k: int| 0 <= k < walk_upto(nodes, src, file, n).calls.len() ==> ((#[trigger] walk_upto(nodes, src, file, n).calls[k]).caller matches Some(c) ==> c.0 < walk_upto(nodes, src, file, n).symbols.len()),
    decreases n,
{
    if n > 0 {
        let m = (n - 1) as nat;
        lemma_walk_ids(nodes, src, file, m);
        lemma_parents_upto(nodes, nodes.len());
        lemma_parents_prefix(nodes, n, nodes.len());
        lemma_parents_upto(nodes, n);
        let st = walk_upto(nodes, src, file, m);
        let st2 = walk_upto(nodes, src, file, n);
        let i = m as int;
        assert(parents(nodes)[i] == parents_upto(nodes, n).0[i]);
        let ctx = match parents(nodes)[i] {
            Some(p) => st.child_ctx[p],
            None => None,
        };
        assert(ctx matches Some(c) ==> c.0 < st.symbols.len());
        assert forall|k: int| 0 <= k < st2.calls.len() implies ((#[trigger] st2.calls[k]).caller matches Some(c) ==> c.0 < st2.symbols.len()) by {
            if k < st.calls.len() {
                assert(st2.calls[k] == st.calls[k]);
            }
        }
        assert forall|k: int| 0 <= k < n implies ((#[trigger] st2.child_ctx[k]) matches Some(c) ==> c.0 < st2.symbols.len()) by {
            if k < m {
                assert(st2.child_ctx[k] == st.child_ctx[k]);
            }
        }
        assert forall|k: int| 0 <= k < st2.symbols.len() implies {
            let s = #[trigger] st2.symbols[k];
            &&& s.id == SymbolId(k as u64)
            &&& s.file_id == file
            &&& (s.parent matches Some(p) ==> p.0 < k)
        } by {
            if k < st.symbols.len() {
                assert(st2.symbols[k] == st.symbols[k]);
            }
        }
    }
}

/// Every call that parsing a file finds inside a symbol names that symbol by its number
/// among the file's symbols.
pub proof fn parsed_callers_are_symbols(lang: Language, source: Seq<u8>, file: FileId)
    ensures
        parse_outcome(lang, source, file) matches Ok((syms, cs)) ==> forall|k: int| 0 <= k < cs.len() ==> ((#[trigger] cs[k]).caller matches Some(c) ==> c.0 < syms.len()),
{
    if let Some(Ok(nodes)) = syntax_of(lang, source) {
        lemma_walk_ids(nodes, source, file, nodes.len());
    }
}

/// The symbols of a file are numbered from 0 in the order they are found, all belong to
/// the file, and each one's enclosing symbol comes before it.
pub proof fn extracted_symbols_are_numbered(nodes: Seq<NodeView>, src: Seq<u8>, file: FileId)
    ensures
        forall|k: int| 0 <= k < extraction(nodes, src, file).symbols.len() ==> {
            let s = #[trigger] extraction(nodes, src, file).symbols[k];
            &&& s.id == SymbolId(k as u64)
            &&& s.file_id == file
            &&& (s.parent matches Some(p) ==> p.0 < k)
        },
{
    lemma_walk_ids(nodes, src, file, nodes.len());
}

/// The symbol that encloses node `i`: what the walk records for its parent.
pub open spec fn enclosing_symbol(nodes: Seq<NodeView>, src: Seq<u8>, file: FileId, i: int) -> Option<SymbolId> {
    match parents(nodes)[i] {
        Some(p) => walk_upto(nodes, src, file, i as nat).child_ctx[p],
        None => None,
    }
}

proof fn lemma_first_callee(nodes: Seq<NodeView>, ch: Seq<int>, p: int)
    requires
        0 <= p < ch.len(),
        nodes[ch[p]].0 == "identifier"@ || nodes[ch[p]].0 == "field_expression"@,
        forall|q: int| 0 <= q < p ==> nodes[#[trigger] ch[q]].0 != "identifier"@ && nodes[ch[q]].0 != "field_expression"@,
    ensures
        first_of_kind(nodes, ch, KindSet::IdentifierOrFieldExpression) == Some(ch[p]),
    decreases p,
{
    if p > 0 {
        let d = ch.drop_first();
        assert(nodes[ch[0]].0 != "identifier"@ && nodes[ch[0]].0 != "field_expression"@);
        assert forall|q: int| 0 <= q < p - 1 implies nodes[#[trigger] d[q]].0 != "identifier"@ && nodes[d[q]].0 != "field_expression"@ by {
            assert(d[q] == ch[q + 1]);
        }
        assert(d[p - 1] == ch[p]);
        lemma_first_callee(nodes, d, p - 1);
    }
}

/// The calls found so far only grow as the walk goes on.
proof fn lemma_calls_grow(nodes: Seq<NodeView>, src: Seq<u8>, file: FileId, m: nat, n: nat)
    requires
        m <= n,
    ensures
        walk_upto(nodes, src, file, m).calls.len() <= walk_upto(nodes, src, file, n).calls.len(),
        forall|j: int| 0 <= j < walk_upto(nodes, src, file, m).calls.len() ==> walk_upto(nodes, src, file, n).calls[j]
            == walk_upto(nodes, src, file, m).calls[j],
    decreases n,
{
    if n > m {
        lemma_calls_grow(nodes, src, file, m, (n - 1) as nat);
    }
}

/// A call expression whose first child that is an identifier or a field expression (a
/// Rust method call such as `self.b()`) has a text is recorded as a call: its callee name
/// is that child's text, its range that child's, and its caller the enclosing symbol.
pub proof fn call_expressions_are_recorded(nodes: Seq<NodeView>, src: Seq<u8>, file: FileId, i: int, p: int, t: Seq<char>)
    requires
        0 <= i < nodes.len(),
        nodes[i].0 == "call_expression"@,
        0 <= p < children(nodes, i).len(),
        nodes[children(nodes, i)[p]].0 == "identifier"@ || nodes[children(nodes, i)[p]].0 == "field_expression"@,
        forall|q: int| 0 <= q < p ==> nodes[#[trigger] children(nodes, i)[q]].0 != "identifier"@
            && nodes[children(nodes, i)[q]].0 != "field_expression"@,
        node_text(src, nodes[children(nodes, i)[p]]) == Some(t),
    ensures
        extraction(nodes, src, file).calls.contains(
            CallView {
                caller: enclosing_symbol(nodes, src, file, i),
                callee_name: t,
                range: node_range(nodes[children(nodes, i)[p]]),
            },
        ),
{
    let ch = children(nodes, i);
    lemma_first_callee(nodes, ch, p);
    let c = CallView { caller: enclosing_symbol(nodes, src, file, i), callee_name: t, range: node_range(nodes[ch[p]]) };
    assert(call_at(nodes, src, i, enclosing_symbol(nodes, src, file, i)) == Some(c));
    let st = walk_upto(nodes, src, file, i as nat);
    let st1 = walk_upto(nodes, src, file, (i + 1) as nat);
    assert(st1.calls == st.calls.push(c));
    lemma_calls_grow(nodes, src, file, (i + 1) as nat, nodes.len());
    let k = st.calls.len() as int;
    assert(st1.calls[k] == c);
    assert(extraction(nodes, src, file).calls[k] == c);
}

} // verus!
