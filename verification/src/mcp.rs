//! The tool protocol for AI coding agents (MCP over JSON-RPC 2.0).
//!
//! Requests arrive as JSON and responses leave as JSON outside the library; here a request
//! is the plain values the server reads of it, and the answer is what the server decides:
//! which method runs, which tool, with which arguments, and the text each tool writes.

use vstd::prelude::*;

use crate::context::{ContextFragment, ContextPlan};
use crate::engine::{context_planned, engine_searched, source_text, CodeSift};
use crate::error::{error_text, Error};
use crate::index::{default_budget, Index, LexicalMatch, TokenBudget};
use crate::graph::traversal;
use crate::search::{contents_fit, match_view, MatchView};
use crate::text::{chars_of, decimal, push_chars, push_decimal, str_eq, string_from_chars, trim_chars, trimmed};
use crate::types::{kind_name, FileEntry, FileId, Symbol, SymbolId};

verus! {

/// Invalid JSON was received.
pub const PARSE_ERROR: i32 = -32700;

/// The JSON sent is not a valid request.
pub const INVALID_REQUEST: i32 = -32600;

/// The method does not exist.
pub const METHOD_NOT_FOUND: i32 = -32601;

/// Invalid method parameters.
pub const INVALID_PARAMS: i32 = -32602;

/// Internal JSON-RPC error.
pub const INTERNAL_ERROR: i32 = -32603;

/// The arguments a tool reads: each is present when the request gives it with the
/// right JSON type (a string, or an unsigned integer).
#[derive(Debug)]
pub struct ToolArgs {
    pub query: Option<String>,
    pub name: Option<String>,
    pub symbol: Option<String>,
    pub max_tokens: Option<u64>,
    pub max_files: Option<u64>,
    pub depth: Option<u64>,
}

/// The parameters of a request: absent, or present with the tool name (where it is a
/// string) and the arguments (empty unless they are an object).
#[derive(Debug)]
pub enum Params {
    Absent,
    Present { name: Option<String>, arguments: ToolArgs },
}

/// A JSON-RPC request, as the server reads it (the id is echoed outside the library).
#[derive(Debug)]
pub struct Request {
    pub jsonrpc: String,
    pub method: String,
    pub params: Params,
}

/// A JSON-RPC error: its code and message.
#[derive(Debug)]
pub struct RpcError {
    pub code: i32,
    pub message: String,
}

/// A block of tool output.
#[derive(Debug)]
pub enum ContentBlock {
    Text { text: String },
}

/// MCP tool result.
#[derive(Debug)]
pub struct ToolResult {
    pub content: Vec<ContentBlock>,
    pub is_error: Option<bool>,
}

/// One property of a tool's input: its name, JSON type, description and default.
#[derive(Debug)]
pub struct SchemaProperty {
    pub name: String,
    pub kind: String,
    pub description: Option<String>,
    pub default: Option<u64>,
}

/// A tool's input: an object with these properties, of which some are required.
#[derive(Debug)]
pub struct InputSchema {
    pub properties: Vec<SchemaProperty>,
    pub required: Vec<String>,
}

/// MCP tool definitions.
#[derive(Debug)]
pub struct Tool {
    pub name: String,
    pub description: String,
    pub input_schema: InputSchema,
}

/// What a request is answered with.
#[derive(Debug)]
pub enum Outcome {
    /// The server is initialized (protocol 2024-11-05, server codesift 0.1.0, tools).
    Initialized,
    /// The tools on offer.
    Tools(Vec<Tool>),
    /// A tool's result.
    Called(ToolResult),
    Shutdown,
    Cancelled,
    /// Health: the numbers of files and symbols indexed.
    Health { files: usize, symbols: usize },
}

// ---------------------------------------------------------------------------
// Views.

pub open spec fn block_text(b: ContentBlock) -> Seq<char> {
    match b {
        ContentBlock::Text { text } => text@,
    }
}

/// A tool result as its texts and error flag.
pub open spec fn result_view(r: ToolResult) -> (Seq<Seq<char>>, Option<bool>) {
    (r.content@.map_values(|b: ContentBlock| block_text(b)), r.is_error)
}

/// A result of one text.
pub open spec fn text_result(t: Seq<char>, e: Option<bool>) -> (Seq<Seq<char>>, Option<bool>) {
    (seq![t], e)
}

pub struct PropertySpec {
    pub name: Seq<char>,
    pub kind: Seq<char>,
    pub description: Option<Seq<char>>,
    pub default: Option<u64>,
}

pub struct ToolSpec {
    pub name: Seq<char>,
    pub description: Seq<char>,
    pub properties: Seq<PropertySpec>,
    pub required: Seq<Seq<char>>,
}

pub open spec fn opt_text(o: Option<String>) -> Option<Seq<char>> {
    match o {
        Some(s) => Some(s@),
        None => None,
    }
}

pub open spec fn property_view(p: SchemaProperty) -> PropertySpec {
    PropertySpec { name: p.name@, kind: p.kind@, description: opt_text(p.description), default: p.default }
}

pub open spec fn tool_view(t: Tool) -> ToolSpec {
    ToolSpec {
        name: t.name@,
        description: t.description@,
        properties: t.input_schema.properties@.map_values(|p: SchemaProperty| property_view(p)),
        required: t.input_schema.required@.map_values(|s: String| s@),
    }
}

pub open spec fn string_prop(name: Seq<char>, description: Seq<char>) -> PropertySpec {
    PropertySpec { name, kind: "string"@, description: Some(description), default: None }
}

pub open spec fn integer_prop(name: Seq<char>, default: u64) -> PropertySpec {
    PropertySpec { name, kind: "integer"@, description: None, default: Some(default) }
}

/// The tools on offer, in order.
pub open spec fn tool_specs() -> Seq<ToolSpec> {
    seq![
        ToolSpec {
            name: "search_code"@,
            description: "Search for text in code files"@,
            properties: seq![string_prop("query"@, "Search pattern"@), integer_prop("max_tokens"@, 2000)],
            required: seq!["query"@],
        },
        ToolSpec {
            name: "find_symbol"@,
            description: "Find a symbol (function, struct, etc.) by name"@,
            properties: seq![string_prop("name"@, "Symbol name"@), integer_prop("max_tokens"@, 2000)],
            required: seq!["name"@],
        },
        ToolSpec {
            name: "get_context"@,
            description: "Get minimal context for a query with token budget"@,
            properties: seq![
                string_prop("query"@, "Query string"@),
                integer_prop("max_tokens"@, 2000),
                integer_prop("max_files"@, 10),
            ],
            required: seq!["query"@],
        },
        ToolSpec {
            name: "find_callers"@,
            description: "Find functions that call a given symbol"@,
            properties: seq![string_prop("symbol"@, "Symbol name"@), integer_prop("depth"@, 2)],
            required: seq!["symbol"@],
        },
        ToolSpec {
            name: "find_callees"@,
            description: "Find functions called by a given symbol"@,
            properties: seq![string_prop("symbol"@, "Symbol name"@), integer_prop("depth"@, 2)],
            required: seq!["symbol"@],
        },
        ToolSpec {
            name: "get_definition"@,
            description: "Get the definition of a symbol"@,
            properties: seq![string_prop("name"@, "Symbol name"@)],
            required: seq!["name"@],
        },
        ToolSpec {
            name: "find_references"@,
            description: "Find all references to a symbol"@,
            properties: seq![string_prop("name"@, "Symbol name"@)],
            required: seq!["name"@],
        },
    ]
}

// ---------------------------------------------------------------------------
// The texts the tools write.

pub open spec fn missing_text(arg: Seq<char>) -> Seq<char> {
    "Missing '"@ + arg + "' argument"@
}

pub open spec fn not_found_text(name: Seq<char>) -> Seq<char> {
    "Symbol '"@ + name + "' not found"@
}

/// The number of distinct files among the matches.
pub open spec fn distinct_files(ms: Seq<MatchView>) -> nat {
    ms.map_values(|m: MatchView| m.file_id.0).to_set().len()
}

pub open spec fn matches_text(ms: Seq<MatchView>) -> Seq<char> {
    "Found "@ + decimal(ms.len()) + " matches in "@ + decimal(distinct_files(ms)) + " files"@
}

/// A symbol's line: name, kind, and where it is.
pub open spec fn symbol_line(s: Symbol, f: FileEntry) -> Seq<char> {
    "- "@ + s.name@ + " ("@ + kind_name(s.kind) + ") at "@ + f.path@ + ":"@ + decimal(s.range.start_line as nat)
        + ":"@ + decimal(s.range.end_line as nat) + "\n"@
}

/// A symbol's place: its file's path and its lines.
pub open spec fn place_line(s: Symbol, f: FileEntry) -> Seq<char> {
    "- "@ + f.path@ + ":"@ + decimal(s.range.start_line as nat) + ":"@ + decimal(s.range.end_line as nat) + "\n"@
}

/// The lines for the symbols `ids` whose file is known, each written by `line`.
pub open spec fn lines_for(idx: Index, ids: Seq<SymbolId>, place_only: bool) -> Seq<char>
    decreases ids.len(),
{
    if ids.len() == 0 {
        seq![]
    } else {
        let s = idx.symbols_map()[ids.last().0];
        lines_for(idx, ids.drop_last(), place_only) + if idx.files_map().dom().contains(s.file_id.0) {
            if place_only {
                place_line(s, idx.files_map()[s.file_id.0])
            } else {
                symbol_line(s, idx.files_map()[s.file_id.0])
            }
        } else {
            seq![]
        }
    }
}

/// Two spaces for each level.
pub open spec fn indent(d: nat) -> Seq<char> {
    Seq::new(2 * d, |i: int| ' ')
}

/// The lines for the symbols reached, with their depths, for the symbols still known.
pub open spec fn walk_lines(idx: Index, rs: Seq<(SymbolId, usize)>) -> Seq<char>
    decreases rs.len(),
{
    if rs.len() == 0 {
        seq![]
    } else {
        let (id, d) = rs.last();
        walk_lines(idx, rs.drop_last()) + if idx.symbols_map().dom().contains(id.0) {
            indent(d as nat) + " depth "@ + decimal(d as nat) + ": "@ + idx.symbols_map()[id.0].name@ + "\n"@
        } else {
            seq![]
        }
    }
}

/// For each of the symbols in turn, the callers (going up) or callees it reaches within
/// `depth` levels, or the note that there are none.
pub open spec fn relatives_text(cs: CodeSift, ids: Seq<SymbolId>, up: bool, depth: usize) -> Seq<char>
    decreases ids.len(),
{
    if ids.len() == 0 {
        seq![]
    } else {
        let s = cs.index().symbols_map()[ids.last().0];
        let rs = traversal(cs.graph().edges(), up, s.id.0, depth as nat);
        relatives_text(cs, ids.drop_last(), up, depth) + if rs.len() == 0 {
            if up {
                "  (no callers found)\n"@
            } else {
                "  (no callees found)\n"@
            }
        } else {
            walk_lines(cs.index(), rs)
        }
    }
}

/// A fragment's text in the context listing: its lines and symbol, then its trimmed content.
pub open spec fn fragment_text(f: ContextFragment) -> Seq<char> {
    (match f.symbol_name {
        Some(n) => "["@ + decimal(f.range.start_line as nat) + ":"@ + decimal(f.range.end_line as nat) + "] "@ + n@ + "\n"@,
        None => seq![],
    }) + trimmed(f.content@) + "\n"@
}

/// The distinct paths of the fragments' files, in the order they first occur.
pub open spec fn plan_paths(idx: Index, frags: Seq<ContextFragment>, n: nat) -> Seq<Seq<char>>
    decreases n,
{
    if n == 0 {
        seq![]
    } else {
        let prev = plan_paths(idx, frags, (n - 1) as nat);
        let f = frags[n - 1];
        if idx.files_map().dom().contains(f.file_id.0) && !prev.contains(idx.files_map()[f.file_id.0].path@) {
            prev.push(idx.files_map()[f.file_id.0].path@)
        } else {
            prev
        }
    }
}

/// The texts of the first `n` fragments whose file has path `p`.
pub open spec fn group_text(idx: Index, frags: Seq<ContextFragment>, p: Seq<char>, n: nat) -> Seq<char>
    decreases n,
{
    if n == 0 {
        seq![]
    } else {
        let f = frags[n - 1];
        group_text(idx, frags, p, (n - 1) as nat) + if idx.files_map().dom().contains(f.file_id.0)
            && idx.files_map()[f.file_id.0].path@ == p {
            fragment_text(f)
        } else {
            seq![]
        }
    }
}

/// The groups of the first `n` paths: a heading, the group's fragments, a blank line.
pub open spec fn groups_text(idx: Index, frags: Seq<ContextFragment>, paths: Seq<Seq<char>>, n: nat) -> Seq<char>
    decreases n,
{
    if n == 0 {
        seq![]
    } else {
        groups_text(idx, frags, paths, (n - 1) as nat) + "=== "@ + paths[n - 1] + " ===\n"@ + group_text(
            idx,
            frags,
            paths[n - 1],
            frags.len(),
        ) + "\n"@
    }
}

/// The context listing of a plan: its totals, then its fragments grouped by file, the
/// files in the order their first fragment comes.
pub open spec fn context_text(idx: Index, plan: ContextPlan) -> Seq<char> {
    let frags = plan.fragments@;
    let paths = plan_paths(idx, frags, frags.len());
    "Context ("@ + decimal(plan.total_tokens as nat) + " tokens / "@ + decimal(plan.budget.max_tokens as nat)
        + " budget)\n"@ + "Files: "@ + decimal(plan.total_files as nat) + ", Symbols: "@ + decimal(frags.len())
        + "\n\n"@ + groups_text(idx, frags, paths, paths.len())
}

/// A numeric argument, or its default.
pub open spec fn arg_or(a: Option<u64>, default: u64) -> usize {
    (match a {
        Some(v) => v,
        None => default,
    }) as usize
}

/// The budget of a tool given its token limit.
pub open spec fn tokens_budget(max_tokens: usize) -> TokenBudget {
    TokenBudget { max_tokens, ..default_budget() }
}

/// The budget of a tool given its token and file limits.
pub open spec fn files_budget(max_tokens: usize, max_files: usize) -> TokenBudget {
    TokenBudget { max_tokens, max_files, ..default_budget() }
}

// ---------------------------------------------------------------------------
// What each tool gives.

pub open spec fn search_code_result(cs: CodeSift, args: ToolArgs, r: ToolResult) -> bool {
    match args.query {
        None => result_view(r) == text_result(missing_text("query"@), Some(true)),
        Some(q) => exists|ms: Seq<MatchView>|
            #[trigger] engine_searched(cs, q@, tokens_budget(arg_or(args.max_tokens, 2000)), ms)
                && result_view(r) == text_result(matches_text(ms), None),
    }
}

pub open spec fn find_symbol_result(cs: CodeSift, args: ToolArgs, r: ToolResult) -> bool {
    match args.name {
        None => result_view(r) == text_result(missing_text("name"@), Some(true)),
        Some(n) => {
            let ids = cs.index().ids_named(n@);
            if ids.len() == 0 {
                result_view(r) == text_result(not_found_text(n@), Some(true))
            } else {
                result_view(r) == text_result(
                    "Found "@ + decimal(ids.len()) + " symbol(s):\n"@ + lines_for(cs.index(), ids, false),
                    None,
                )
            }
        },
    }
}

pub open spec fn get_context_result(cs: CodeSift, args: ToolArgs, r: ToolResult) -> bool {
    match args.query {
        None => result_view(r) == text_result(missing_text("query"@), Some(true)),
        Some(q) => exists|pr: Result<ContextPlan, Error>|
            #[trigger] context_planned(cs, q@, files_budget(arg_or(args.max_tokens, 2000), arg_or(args.max_files, 10)), pr)
                && result_view(r) == match pr {
                Ok(plan) => text_result(context_text(cs.index(), plan), None),
                Err(e) => text_result(error_text(e), Some(true)),
            },
    }
}

pub open spec fn relatives_result(cs: CodeSift, args: ToolArgs, up: bool, r: ToolResult) -> bool {
    match args.symbol {
        None => result_view(r) == text_result(missing_text("symbol"@), Some(true)),
        Some(s) => {
            let ids = cs.index().ids_named(s@);
            if ids.len() == 0 {
                result_view(r) == text_result(not_found_text(s@), Some(true))
            } else {
                result_view(r) == text_result(
                    (if up {
                        "Callers of '"@
                    } else {
                        "Callees of '"@
                    }) + s@ + "':\n"@ + relatives_text(cs, ids, up, arg_or(args.depth, 2)),
                    None,
                )
            }
        },
    }
}

pub open spec fn get_definition_result(cs: CodeSift, args: ToolArgs, r: ToolResult) -> bool {
    match args.name {
        None => result_view(r) == text_result(missing_text("name"@), Some(true)),
        Some(n) => {
            let ids = cs.index().ids_named(n@);
            if ids.len() == 0 {
                result_view(r) == text_result(not_found_text(n@), Some(true))
            } else {
                let s = cs.index().symbols_map()[ids[0].0];
                if cs.index().files_map().dom().contains(s.file_id.0) {
                    let source = match source_text(cs.index().contents_map(), s.file_id, s.range) {
                        Some(t) => t,
                        None => seq![],
                    };
                    result_view(r) == text_result(
                        cs.index().files_map()[s.file_id.0].path@ + ":"@ + decimal(s.range.start_line as nat) + ":"@
                            + decimal(s.range.end_line as nat) + "\n\n"@ + source,
                        None,
                    )
                } else {
                    result_view(r) == text_result("Failed to get file"@, Some(true))
                }
            }
        },
    }
}

pub open spec fn find_references_result(cs: CodeSift, args: ToolArgs, r: ToolResult) -> bool {
    match args.name {
        None => result_view(r) == text_result(missing_text("name"@), Some(true)),
        Some(n) => {
            let ids = cs.index().ids_named(n@);
            if ids.len() == 0 {
                result_view(r) == text_result(not_found_text(n@), Some(true))
            } else {
                result_view(r) == text_result(
                    "References to '"@ + n@ + "':\n"@ + lines_for(cs.index(), ids, true),
                    None,
                )
            }
        },
    }
}

/// What running the named tool gives.
pub open spec fn tool_outcome(cs: CodeSift, name: Seq<char>, args: ToolArgs, r: ToolResult) -> bool {
    if name == "search_code"@ {
        search_code_result(cs, args, r)
    } else if name == "find_symbol"@ {
        find_symbol_result(cs, args, r)
    } else if name == "get_context"@ {
        get_context_result(cs, args, r)
    } else if name == "find_callers"@ {
        relatives_result(cs, args, true, r)
    } else if name == "find_callees"@ {
        relatives_result(cs, args, false, r)
    } else if name == "get_definition"@ {
        get_definition_result(cs, args, r)
    } else if name == "find_references"@ {
        find_references_result(cs, args, r)
    } else {
        result_view(r) == text_result("Unknown tool: "@ + name, Some(true))
    }
}

/// The arguments of `get_context` keep the search limit within `usize`.
pub open spec fn args_fit(name: Seq<char>, args: ToolArgs) -> bool {
    name == "get_context"@ ==> arg_or(args.max_files, 10) * 100 <= usize::MAX
}

// ---------------------------------------------------------------------------
// Building texts.

fn push_str(v: &mut Vec<char>, s: &str)
    ensures
        final(v)@ == old(v)@ + s@,
{
    let w = chars_of(s);
    push_chars(v, w.as_slice());
}

fn text_block(v: &Vec<char>, is_error: Option<bool>) -> (r: ToolResult)
    ensures
        result_view(r) == text_result(v@, is_error),
{
    let mut content: Vec<ContentBlock> = Vec::new();
    content.push(ContentBlock::Text { text: string_from_chars(v.as_slice()) });
    let r = ToolResult { content, is_error };
    proof {
        assert(result_view(r).0 =~= seq![v@]);
    }
    r
}

fn error_result(v: &Vec<char>) -> (r: ToolResult)
    ensures
        result_view(r) == text_result(v@, Some(true)),
{
    text_block(v, Some(true))
}

fn missing(arg: &str) -> (r: ToolResult)
    ensures
        result_view(r) == text_result(missing_text(arg@), Some(true)),
{
    let mut v: Vec<char> = Vec::new();
    push_str(&mut v, "Missing '");
    push_str(&mut v, arg);
    push_str(&mut v, "' argument");
    proof {
        assert(v@ =~= missing_text(arg@));
    }
    error_result(&v)
}

fn not_found(name: &str) -> (r: ToolResult)
    ensures
        result_view(r) == text_result(not_found_text(name@), Some(true)),
{
    let mut v: Vec<char> = Vec::new();
    push_str(&mut v, "Symbol '");
    push_str(&mut v, name);
    push_str(&mut v, "' not found");
    proof {
        assert(v@ =~= not_found_text(name@));
    }
    error_result(&v)
}

fn string_prop_exec(name: &str, description: &str) -> (p: SchemaProperty)
    ensures
        property_view(p) == string_prop(name@, description@),
{
    SchemaProperty {
        name: String::from_str(name),
        kind: String::from_str("string"),
        description: Some(String::from_str(description)),
        default: None,
    }
}

fn integer_prop_exec(name: &str, default: u64) -> (p: SchemaProperty)
    ensures
        property_view(p) == integer_prop(name@, default),
{
    SchemaProperty { name: String::from_str(name), kind: String::from_str("integer"), description: None, default: Some(default) }
}

fn make_tool(name: &str, description: &str, properties: Vec<SchemaProperty>, required: &str) -> (t: Tool)
    ensures
        t.name@ == name@,
        t.description@ == description@,
        t.input_schema.properties@ == properties@,
        t.input_schema.required@.map_values(|s: String| s@) == seq![required@],
{
    let mut req: Vec<String> = Vec::new();
    req.push(String::from_str(required));
    let t = Tool {
        name: String::from_str(name),
        description: String::from_str(description),
        input_schema: InputSchema { properties, required: req },
    };
    proof {
        assert(t.input_schema.required@.map_values(|s: String| s@) =~= seq![required@]);
    }
    t
}

/// Where `s` stands among the strings' texts.
pub(crate) fn contains_string(v: &Vec<String>, s: &str) -> (b: bool)
    ensures
        b == v@.map_values(|x: String| x@).contains(s@),
{
    let mut i: usize = 0;
    while i < v.len()
        invariant
            i <= v@.len(),
            forall|j: int| 0 <= j < i ==> v@[j]@ != s@,
        decreases v@.len() - i,
    {
        if str_eq(v[i].as_str(), s) {
            proof {
                assert(v@.map_values(|x: String| x@)[i as int] == s@);
            }
            return true;
        }
        i += 1;
    }
    proof {
        let vv = v@.map_values(|x: String| x@);
        if vv.contains(s@) {
            let j = choose|j: int| 0 <= j < vv.len() && #[trigger] vv[j] == s@;
            assert(v@[j]@ == s@);
        }
    }
    false
}

// ---------------------------------------------------------------------------
// The server.

/// MCP server state.
pub struct McpServer {
    codesift: CodeSift,
    initialized: bool,
}

impl McpServer {
    pub closed spec fn engine(&self) -> CodeSift {
        self.codesift
    }

    pub closed spec fn is_initialized(&self) -> bool {
        self.initialized
    }

    /// The engine is well formed and every stored content can be searched.
    pub open spec fn wf(&self) -> bool {
        self.engine().wf() && contents_fit(self.engine().index().contents_map())
    }

    pub fn new(codesift: CodeSift) -> (s: Self)
        ensures
            s.engine() == codesift,
            !s.is_initialized(),
    {
        McpServer { codesift, initialized: false }
    }

    /// List available tools.
    pub fn list_tools(&self) -> (r: Vec<Tool>)
        ensures
            r@.map_values(|t: Tool| tool_view(t)) == tool_specs(),
    {
        let mut tools: Vec<Tool> = Vec::new();

        let mut p: Vec<SchemaProperty> = Vec::new();
        p.push(string_prop_exec("query", "Search pattern"));
        p.push(integer_prop_exec("max_tokens", 2000));
        tools.push(make_tool("search_code", "Search for text in code files", p, "query"));

        let mut p: Vec<SchemaProperty> = Vec::new();
        p.push(string_prop_exec("name", "Symbol name"));
        p.push(integer_prop_exec("max_tokens", 2000));
        tools.push(make_tool("find_symbol", "Find a symbol (function, struct, etc.) by name", p, "name"));

        let mut p: Vec<SchemaProperty> = Vec::new();
        p.push(string_prop_exec("query", "Query string"));
        p.push(integer_prop_exec("max_tokens", 2000));
        p.push(integer_prop_exec("max_files", 10));
        tools.push(make_tool("get_context", "Get minimal context for a query with token budget", p, "query"));

        let mut p: Vec<SchemaProperty> = Vec::new();
        p.push(string_prop_exec("symbol", "Symbol name"));
        p.push(integer_prop_exec("depth", 2));
        tools.push(make_tool("find_callers", "Find functions that call a given symbol", p, "symbol"));

        let mut p: Vec<SchemaProperty> = Vec::new();
        p.push(string_prop_exec("symbol", "Symbol name"));
        p.push(integer_prop_exec("depth", 2));
        tools.push(make_tool("find_callees", "Find functions called by a given symbol", p, "symbol"));

        let mut p: Vec<SchemaProperty> = Vec::new();
        p.push(string_prop_exec("name", "Symbol name"));
        tools.push(make_tool("get_definition", "Get the definition of a symbol", p, "name"));

        let mut p: Vec<SchemaProperty> = Vec::new();
        p.push(string_prop_exec("name", "Symbol name"));
        tools.push(make_tool("find_references", "Find all references to a symbol", p, "name"));

        proof {
            let tv = tools@.map_values(|t: Tool| tool_view(t));
            assert forall|k: int| 0 <= k < 7 implies #[trigger] tv[k] == tool_specs()[k] by {
                assert(tv[k].properties =~= tool_specs()[k].properties);
            }
            assert(tv =~= tool_specs());
        }
        tools
    }
}

/// The number of distinct files among the matches.
fn count_files(ms: &Vec<LexicalMatch>) -> (n: usize)
    ensures
        n == distinct_files(ms@.map_values(|m: LexicalMatch| match_view(m))),
{
    let ghost fv = ms@.map_values(|m: LexicalMatch| match_view(m)).map_values(|m: MatchView| m.file_id.0);
    let mut seen: Vec<u64> = Vec::new();
    let mut i: usize = 0;
    while i < ms.len()
        invariant
            i <= ms@.len(),
            fv == ms@.map_values(|m: LexicalMatch| match_view(m)).map_values(|m: MatchView| m.file_id.0),
            seen@.no_duplicates(),
            seen@.to_set() == fv.take(i as int).to_set(),
        decreases ms@.len() - i,
    {
        let f = ms[i].file_id.0;
        let ghost before = seen@;
        proof {
            assert(fv.take(i + 1) =~= fv.take(i as int).push(f));
            assert(fv[i as int] == f);
        }
        let mut known = false;
        let mut k: usize = 0;
        while k < seen.len()
            invariant
                k <= seen@.len(),
                known == exists|j: int| 0 <= j < k && seen@[j] == f,
            decreases seen@.len() - k,
        {
            if seen[k] == f {
                known = true;
            }
            k += 1;
        }
        if !known {
            seen.push(f);
            proof {
                assert forall|a: int, b: int| 0 <= a < b < seen@.len() implies seen@[a] != seen@[b] by {
                    if b == seen@.len() - 1 {
                        assert(seen@[a] == before[a]);
                    }
                }
            }
        }
        proof {
            let t0 = fv.take(i as int);
            let t1 = fv.take(i + 1);
            assert forall|x: u64| seen@.to_set().contains(x) <==> t1.to_set().contains(x) by {
                if seen@.to_set().contains(x) {
                    let j = choose|j: int| 0 <= j < seen@.len() && seen@[j] == x;
                    if j < before.len() {
                        assert(before.to_set().contains(x));
                        let q = choose|q: int| 0 <= q < t0.len() && t0[q] == x;
                        assert(t1[q] == x);
                    } else {
                        assert(t1[i as int] == x);
                    }
                }
                if t1.to_set().contains(x) {
                    let q = choose|q: int| 0 <= q < t1.len() && t1[q] == x;
                    if q < i {
                        assert(t0[q] == x);
                        assert(before.to_set().contains(x));
                        let j = choose|j: int| 0 <= j < before.len() && before[j] == x;
                        assert(seen@[j] == x);
                    } else if known {
                        let j = choose|j: int| 0 <= j < seen@.len() && seen@[j] == f;
                        assert(seen@[j] == x);
                    } else {
                        assert(seen@[seen@.len() - 1] == x);
                    }
                }
            }
            assert(seen@.to_set() =~= t1.to_set());
        }
        i += 1;
    }
    proof {
        assert(fv.take(ms@.len() as int) =~= fv);
        seen@.unique_seq_to_set();
    }
    seen.len()
}

fn push_symbol_line(v: &mut Vec<char>, sym: &Symbol, file: &FileEntry, place_only: bool)
    ensures
        final(v)@ == old(v)@ + if place_only {
            place_line(*sym, *file)
        } else {
            symbol_line(*sym, *file)
        },
{
    push_str(v, "- ");
    if !place_only {
        push_str(v, sym.name.as_str());
        push_str(v, " (");
        push_str(v, sym.kind.name());
        push_str(v, ") at ");
    }
    push_str(v, file.path.as_str());
    push_str(v, ":");
    push_decimal(v, sym.range.start_line as u64);
    push_str(v, ":");
    push_decimal(v, sym.range.end_line as u64);
    push_str(v, "\n");
    proof {
        if place_only {
            assert(v@ =~= old(v)@ + place_line(*sym, *file));
        } else {
            assert(v@ =~= old(v)@ + symbol_line(*sym, *file));
        }
    }
}

fn push_indent(v: &mut Vec<char>, d: usize)
    ensures
        final(v)@ == old(v)@ + indent(d as nat),
{
    let mut k: usize = 0;
    while k < d
        invariant
            k <= d,
            v@ == old(v)@ + indent(k as nat),
        decreases d - k,
    {
        v.push(' ');
        v.push(' ');
        k += 1;
        proof {
            assert(v@ =~= old(v)@ + indent(k as nat));
        }
    }
}

impl McpServer {
    fn tool_search_code(&self, args: &ToolArgs) -> (r: ToolResult)
        requires
            self.wf(),
        ensures
            search_code_result(self.engine(), *args, r),
    {
        let query = match &args.query {
            Some(q) => q,
            None => return missing("query"),
        };
        let max_tokens: usize = match args.max_tokens {
            Some(t) => t as usize,
            None => 2000,
        };
        let budget = TokenBudget::new(max_tokens);
        match self.codesift.search(query.as_str(), Some(budget)) {
            Ok(matches) => {
                let files = count_files(&matches);
                let mut v: Vec<char> = Vec::new();
                push_str(&mut v, "Found ");
                push_decimal(&mut v, matches.len() as u64);
                push_str(&mut v, " matches in ");
                push_decimal(&mut v, files as u64);
                push_str(&mut v, " files");
                let ghost ms = matches@.map_values(|m: LexicalMatch| match_view(m));
                proof {
                    assert(v@ =~= matches_text(ms));
                    assert(engine_searched(self.engine(), query@, tokens_budget(arg_or(args.max_tokens, 2000)), ms));
                }
                text_block(&v, None)
            },
            Err(e) => {
                let m = chars_of(e.message().as_str());
                error_result(&m)
            },
        }
    }

    /// The lines for the named symbols whose file is known.
    fn symbol_lines(&self, name: &str, v: &mut Vec<char>, place_only: bool)
        requires
            self.engine().wf(),
        ensures
            final(v)@ == old(v)@ + lines_for(self.engine().index(), self.engine().index().ids_named(name@), place_only),
    {
        let symbols = self.codesift.find_symbol(name);
        let ghost ids = self.engine().index().ids_named(name@);
        let ghost idx = self.engine().index();
        let mut i: usize = 0;
        while i < symbols.len()
            invariant
                i <= symbols@.len(),
                symbols@.len() == ids.len(),
                forall|j: int| 0 <= j < symbols@.len() ==> *symbols@[j] == idx.symbols_map()[#[trigger] ids[j].0],
                idx == self.engine().index(),
                v@ == old(v)@ + lines_for(idx, ids.take(i as int), place_only),
            decreases symbols@.len() - i,
        {
            let sym = symbols[i];
            proof {
                assert(ids.take(i + 1).drop_last() =~= ids.take(i as int));
                assert(ids.take(i + 1).last() == ids[i as int]);
            }
            let ghost v1 = v@;
            match self.codesift.get_file(sym.file_id) {
                Some(file) => push_symbol_line(v, sym, file, place_only),
                None => {},
            }
            proof {
                let s = idx.symbols_map()[ids[i as int].0];
                assert(*sym == s);
                assert(lines_for(idx, ids.take(i + 1), place_only) == lines_for(idx, ids.take(i as int), place_only) + if idx.files_map().dom().contains(s.file_id.0) {
                    if place_only {
                        place_line(s, idx.files_map()[s.file_id.0])
                    } else {
                        symbol_line(s, idx.files_map()[s.file_id.0])
                    }
                } else {
                    seq![]
                });
            }
            i += 1;
            proof {
                assert(v@ =~= old(v)@ + lines_for(idx, ids.take(i as int), place_only));
            }
        }
        proof {
            assert(ids.take(symbols@.len() as int) =~= ids);
        }
    }

    fn tool_find_symbol(&self, args: &ToolArgs) -> (r: ToolResult)
        requires
            self.engine().wf(),
        ensures
            find_symbol_result(self.engine(), *args, r),
    {
        let name = match &args.name {
            Some(n) => n,
            None => return missing("name"),
        };
        let count = self.codesift.find_symbol(name.as_str()).len();
        if count == 0 {
            return not_found(name.as_str());
        }
        let mut v: Vec<char> = Vec::new();
        push_str(&mut v, "Found ");
        push_decimal(&mut v, count as u64);
        push_str(&mut v, " symbol(s):\n");
        self.symbol_lines(name.as_str(), &mut v, false);
        text_block(&v, None)
    }

    fn tool_find_references(&self, args: &ToolArgs) -> (r: ToolResult)
        requires
            self.engine().wf(),
        ensures
            find_references_result(self.engine(), *args, r),
    {
        let name = match &args.name {
            Some(n) => n,
            None => return missing("name"),
        };
        let count = self.codesift.find_symbol(name.as_str()).len();
        if count == 0 {
            return not_found(name.as_str());
        }
        let mut v: Vec<char> = Vec::new();
        push_str(&mut v, "References to '");
        push_str(&mut v, name.as_str());
        push_str(&mut v, "':\n");
        self.symbol_lines(name.as_str(), &mut v, true);
        text_block(&v, None)
    }

    fn tool_get_definition(&self, args: &ToolArgs) -> (r: ToolResult)
        requires
            self.engine().wf(),
        ensures
            get_definition_result(self.engine(), *args, r),
    {
        let name = match &args.name {
            Some(n) => n,
            None => return missing("name"),
        };
        let symbols = self.codesift.find_symbol(name.as_str());
        if symbols.len() == 0 {
            return not_found(name.as_str());
        }
        let sym = symbols[0];
        match self.codesift.get_file(sym.file_id) {
            Some(file) => {
                let source = match self.codesift.get_source(sym.file_id, &sym.range) {
                    Some(t) => t,
                    None => String::new(),
                };
                let mut v: Vec<char> = Vec::new();
                push_str(&mut v, file.path.as_str());
                push_str(&mut v, ":");
                push_decimal(&mut v, sym.range.start_line as u64);
                push_str(&mut v, ":");
                push_decimal(&mut v, sym.range.end_line as u64);
                push_str(&mut v, "\n\n");
                push_str(&mut v, source.as_str());
                text_block(&v, None)
            },
            None => {
                let m = chars_of("Failed to get file");
                error_result(&m)
            },
        }
    }

    /// For each named symbol, the callers or callees it reaches.
    fn relatives(&self, name: &str, up: bool, depth: usize, v: &mut Vec<char>)
        requires
            self.engine().wf(),
        ensures
            final(v)@ == old(v)@ + relatives_text(self.engine(), self.engine().index().ids_named(name@), up, depth),
    {
        let symbols = self.codesift.find_symbol(name);
        let ghost ids = self.engine().index().ids_named(name@);
        let ghost cs = self.engine();
        let mut i: usize = 0;
        while i < symbols.len()
            invariant
                self.engine().wf(),
                i <= symbols@.len(),
                symbols@.len() == ids.len(),
                forall|j: int| 0 <= j < symbols@.len() ==> *symbols@[j] == cs.index().symbols_map()[#[trigger] ids[j].0],
                cs == self.engine(),
                v@ == old(v)@ + relatives_text(cs, ids.take(i as int), up, depth),
            decreases symbols@.len() - i,
        {
            let sym = symbols[i];
            proof {
                assert(ids.take(i + 1).drop_last() =~= ids.take(i as int));
                assert(ids.take(i + 1).last() == ids[i as int]);
            }
            let found = if up {
                self.codesift.get_callers_upto(sym.id, depth)
            } else {
                self.codesift.get_callees_upto(sym.id, depth)
            };
            if found.len() == 0 {
                if up {
                    push_str(v, "  (no callers found)\n");
                } else {
                    push_str(v, "  (no callees found)\n");
                }
            } else {
                let ghost v0 = v@;
                let mut k: usize = 0;
                while k < found.len()
                    invariant
                        k <= found@.len(),
                        cs == self.engine(),
                        v@ == v0 + walk_lines(cs.index(), found@.take(k as int)),
                    decreases found@.len() - k,
                {
                    let (cid, d) = found[k];
                    proof {
                        assert(found@.take(k + 1).drop_last() =~= found@.take(k as int));
                        assert(found@.take(k + 1).last() == (cid, d));
                    }
                    match self.codesift.get_symbol(cid) {
                        Some(s) => {
                            push_indent(v, d);
                            push_str(v, " depth ");
                            push_decimal(v, d as u64);
                            push_str(v, ": ");
                            push_str(v, s.name.as_str());
                            push_str(v, "\n");
                        },
                        None => {},
                    }
                    k += 1;
                    proof {
                        assert(v@ =~= v0 + walk_lines(cs.index(), found@.take(k as int)));
                    }
                }
                proof {
                    assert(found@.take(found@.len() as int) =~= found@);
                }
            }
            i += 1;
            proof {
                assert(v@ =~= old(v)@ + relatives_text(cs, ids.take(i as int), up, depth));
            }
        }
        proof {
            assert(ids.take(symbols@.len() as int) =~= ids);
        }
    }

    fn tool_relatives(&self, args: &ToolArgs, up: bool) -> (r: ToolResult)
        requires
            self.engine().wf(),
        ensures
            relatives_result(self.engine(), *args, up, r),
    {
        let symbol = match &args.symbol {
            Some(s) => s,
            None => return missing("symbol"),
        };
        let depth: usize = match args.depth {
            Some(d) => d as usize,
            None => 2,
        };
        let count = self.codesift.find_symbol(symbol.as_str()).len();
        if count == 0 {
            return not_found(symbol.as_str());
        }
        let mut v: Vec<char> = Vec::new();
        if up {
            push_str(&mut v, "Callers of '");
        } else {
            push_str(&mut v, "Callees of '");
        }
        push_str(&mut v, symbol.as_str());
        push_str(&mut v, "':\n");
        self.relatives(symbol.as_str(), up, depth, &mut v);
        text_block(&v, None)
    }
}

fn push_fragment(v: &mut Vec<char>, f: &ContextFragment)
    ensures
        final(v)@ == old(v)@ + fragment_text(*f),
{
    match &f.symbol_name {
        Some(n) => {
            push_str(v, "[");
            push_decimal(v, f.range.start_line as u64);
            push_str(v, ":");
            push_decimal(v, f.range.end_line as u64);
            push_str(v, "] ");
            push_str(v, n.as_str());
            push_str(v, "\n");
        },
        None => {},
    }
    let c = chars_of(f.content.as_str());
    let t = trim_chars(c.as_slice());
    push_chars(v, t.as_slice());
    push_str(v, "\n");
    proof {
        assert(v@ =~= old(v)@ + fragment_text(*f));
    }
}

impl McpServer {
    /// The texts of the plan's fragments whose file has path `p`.
    fn push_group(&self, plan: &ContextPlan, p: &str, v: &mut Vec<char>)
        ensures
            final(v)@ == old(v)@ + group_text(self.engine().index(), plan.fragments@, p@, plan.fragments@.len()),
    {
        let ghost idx = self.engine().index();
        let ghost frags = plan.fragments@;
        let mut i: usize = 0;
        while i < plan.fragments.len()
            invariant
                i <= frags.len(),
                frags == plan.fragments@,
                idx == self.engine().index(),
                v@ == old(v)@ + group_text(idx, frags, p@, i as nat),
            decreases frags.len() - i,
        {
            let f = &plan.fragments[i];
            match self.codesift.get_file(f.file_id) {
                Some(file) => {
                    if str_eq(file.path.as_str(), p) {
                        push_fragment(v, f);
                    }
                },
                None => {},
            }
            i += 1;
            proof {
                assert(v@ =~= old(v)@ + group_text(idx, frags, p@, i as nat));
            }
        }
    }

    fn format_context_plan(&self, plan: &ContextPlan) -> (s: Vec<char>)
        ensures
            s@ == context_text(self.engine().index(), *plan),
    {
        let ghost idx = self.engine().index();
        let ghost frags = plan.fragments@;
        let mut v: Vec<char> = Vec::new();
        push_str(&mut v, "Context (");
        push_decimal(&mut v, plan.total_tokens as u64);
        push_str(&mut v, " tokens / ");
        push_decimal(&mut v, plan.budget.max_tokens as u64);
        push_str(&mut v, " budget)\n");
        push_str(&mut v, "Files: ");
        push_decimal(&mut v, plan.total_files as u64);
        push_str(&mut v, ", Symbols: ");
        push_decimal(&mut v, plan.len() as u64);
        push_str(&mut v, "\n\n");
        let ghost head = v@;
        let paths = crate::report::plan_file_paths(&self.codesift, plan);
        let ghost pv = plan_paths(idx, frags, frags.len());
        let mut k: usize = 0;
        while k < paths.len()
            invariant
                k <= paths@.len(),
                paths@.map_values(|x: String| x@) == pv,
                pv == plan_paths(idx, frags, frags.len()),
                frags == plan.fragments@,
                idx == self.engine().index(),
                v@ == head + groups_text(idx, frags, pv, k as nat),
            decreases paths@.len() - k,
        {
            proof {
                assert(pv[k as int] == paths@[k as int]@);
            }
            let ghost v1 = v@;
            push_str(&mut v, "=== ");
            push_str(&mut v, paths[k].as_str());
            push_str(&mut v, " ===\n");
            self.push_group(plan, paths[k].as_str(), &mut v);
            push_str(&mut v, "\n");
            k += 1;
            proof {
                assert(v@ =~= head + groups_text(idx, frags, pv, k as nat));
            }
        }
        proof {
            assert(v@ =~= context_text(idx, *plan));
        }
        v
    }

    fn tool_get_context(&self, args: &ToolArgs) -> (r: ToolResult)
        requires
            self.wf(),
            args_fit("get_context"@, *args),
        ensures
            get_context_result(self.engine(), *args, r),
    {
        let query = match &args.query {
            Some(q) => q,
            None => return missing("query"),
        };
        let max_tokens: usize = match args.max_tokens {
            Some(t) => t as usize,
            None => 2000,
        };
        let max_files: usize = match args.max_files {
            Some(f) => f as usize,
            None => 10,
        };
        let budget = TokenBudget::new(max_tokens).with_files(max_files);
        let planned = self.codesift.plan_context(query.as_str(), Some(budget));
        proof {
            assert(budget == files_budget(arg_or(args.max_tokens, 2000), arg_or(args.max_files, 10)));
            assert(context_planned(self.engine(), query@, budget, planned));
        }
        match planned {
            Ok(plan) => {
                let v = self.format_context_plan(&plan);
                text_block(&v, None)
            },
            Err(e) => {
                let m = chars_of(e.message().as_str());
                error_result(&m)
            },
        }
    }

    /// Execute a tool.
    pub fn execute_tool(&self, name: &str, args: &ToolArgs) -> (r: ToolResult)
        requires
            self.engine().wf(),
            searches(name@) ==> contents_fit(self.engine().index().contents_map()),
            args_fit(name@, *args),
        ensures
            tool_outcome(self.engine(), name@, *args, r),
    {
        if str_eq(name, "search_code") {
            self.tool_search_code(args)
        } else if str_eq(name, "find_symbol") {
            self.tool_find_symbol(args)
        } else if str_eq(name, "get_context") {
            self.tool_get_context(args)
        } else if str_eq(name, "find_callers") {
            self.tool_relatives(args, true)
        } else if str_eq(name, "find_callees") {
            self.tool_relatives(args, false)
        } else if str_eq(name, "get_definition") {
            self.tool_get_definition(args)
        } else if str_eq(name, "find_references") {
            self.tool_find_references(args)
        } else {
            let mut v: Vec<char> = Vec::new();
            push_str(&mut v, "Unknown tool: ");
            push_str(&mut v, name);
            error_result(&v)
        }
    }
}

/// The error of a request.
pub open spec fn rpc_error(r: Result<Outcome, RpcError>, code: i32, message: Seq<char>) -> bool {
    r matches Err(e) && e.code == code && e.message@ == message
}

/// What a request is answered with.
pub open spec fn answer(cs: CodeSift, request: Request, r: Result<Outcome, RpcError>) -> bool {
    let m = request.method@;
    if request.jsonrpc@ != "2.0"@ {
        rpc_error(r, INVALID_REQUEST, "Invalid JSON-RPC version"@)
    } else if m == "initialize"@ {
        r matches Ok(Outcome::Initialized)
    } else if m == "tools/list"@ {
        r matches Ok(Outcome::Tools(ts)) && ts@.map_values(|t: Tool| tool_view(t)) == tool_specs()
    } else if m == "tools/call"@ {
        match request.params {
            Params::Absent => rpc_error(r, INVALID_PARAMS, "Missing params"@),
            Params::Present { name: None, .. } => rpc_error(r, INVALID_PARAMS, "Missing 'name' param"@),
            Params::Present { name: Some(n), arguments } => r matches Ok(Outcome::Called(tr)) && tool_outcome(cs, n@, arguments, tr),
        }
    } else if m == "shutdown"@ {
        r matches Ok(Outcome::Shutdown)
    } else if m == "cancel"@ {
        r matches Ok(Outcome::Cancelled)
    } else if m == "health"@ {
        r matches Ok(Outcome::Health { files, symbols }) && files == cs.index().files_map().dom().len()
            && symbols == cs.index().symbols_map().dom().len()
    } else {
        rpc_error(r, METHOD_NOT_FOUND, "Unknown method: "@ + m)
    }
}

/// The tools that search the stored contents.
pub open spec fn searches(name: Seq<char>) -> bool {
    name == "search_code"@ || name == "get_context"@
}

/// The request calls a tool that searches the stored contents.
pub open spec fn request_searches(request: Request) -> bool {
    request.method@ == "tools/call"@ && (request.params matches Params::Present { name: Some(n), .. } && searches(n@))
}

/// The arguments of a tool call keep the search limit within `usize`.
pub open spec fn request_fits(request: Request) -> bool {
    request.params matches Params::Present { name: Some(n), arguments } ==> args_fit(n@, arguments)
}

impl McpServer {
    /// Process a JSON-RPC request and decide its answer. Initializing marks the server
    /// initialized; nothing else changes it.
    pub fn handle(&mut self, request: Request) -> (r: Result<Outcome, RpcError>)
        requires
            old(self).engine().wf(),
            request_fits(request),
            request_searches(request) ==> contents_fit(old(self).engine().index().contents_map()),
        ensures
            final(self).engine() == old(self).engine(),
            answer(old(self).engine(), request, r),
            final(self).is_initialized() == (old(self).is_initialized() || (request.jsonrpc@ == "2.0"@ && request.method@ == "initialize"@)),
    {
        if !str_eq(request.jsonrpc.as_str(), "2.0") {
            return Err(RpcError { code: INVALID_REQUEST, message: String::from_str("Invalid JSON-RPC version") });
        }
        let m = request.method.as_str();
        if str_eq(m, "initialize") {
            self.initialized = true;
            Ok(Outcome::Initialized)
        } else if str_eq(m, "tools/list") {
            Ok(Outcome::Tools(self.list_tools()))
        } else if str_eq(m, "tools/call") {
            match &request.params {
                Params::Absent => Err(RpcError { code: INVALID_PARAMS, message: String::from_str("Missing params") }),
                Params::Present { name, arguments } => match name {
                    None => Err(RpcError { code: INVALID_PARAMS, message: String::from_str("Missing 'name' param") }),
                    Some(n) => Ok(Outcome::Called(self.execute_tool(n.as_str(), arguments))),
                },
            }
        } else if str_eq(m, "shutdown") {
            Ok(Outcome::Shutdown)
        } else if str_eq(m, "cancel") {
            Ok(Outcome::Cancelled)
        } else if str_eq(m, "health") {
            Ok(Outcome::Health { files: self.codesift.file_count(), symbols: self.codesift.symbol_count() })
        } else {
            let mut v: Vec<char> = Vec::new();
            push_str(&mut v, "Unknown method: ");
            push_str(&mut v, m);
            Err(RpcError { code: METHOD_NOT_FOUND, message: string_from_chars(v.as_slice()) })
        }
    }
}

/// `find_callers` and `find_callees` called without a depth answer exactly as when called
/// with depth 2, the default that their input schema advertises.
pub proof fn relatives_default_depth_is_two(cs: CodeSift, args: ToolArgs, r: ToolResult)
    requires
        args.depth is None,
    ensures
        tool_specs()[3].name == "find_callers"@ && tool_specs()[3].properties[1] == integer_prop("depth"@, 2),
        tool_specs()[4].name == "find_callees"@ && tool_specs()[4].properties[1] == integer_prop("depth"@, 2),
        tool_outcome(cs, "find_callers"@, args, r) <==> tool_outcome(cs, "find_callers"@, ToolArgs { depth: Some(2), ..args }, r),
        tool_outcome(cs, "find_callees"@, args, r) <==> tool_outcome(cs, "find_callees"@, ToolArgs { depth: Some(2), ..args }, r),
{
    reveal_strlit("find_callers");
    reveal_strlit("find_callees");
    reveal_strlit("search_code");
    reveal_strlit("find_symbol");
    reveal_strlit("get_context");
    let with2 = ToolArgs { depth: Some(2), ..args };
    assert(arg_or(args.depth, 2) == arg_or(with2.depth, 2));
}

} // verus!
