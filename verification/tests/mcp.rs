use codesift::mcp::{
    ContentBlock, McpServer, Outcome, Params, Request, ToolArgs, ToolResult, INVALID_PARAMS, INVALID_REQUEST,
    METHOD_NOT_FOUND,
};
use codesift::repository::{FileFacts, Repository, WalkEntry};
use codesift::CodeSift;

const SAMPLE: &str = "fn caller() { callee(); }\nfn callee() {}\n";

fn server() -> McpServer {
    let walked = vec![WalkEntry {
        path: "/repo/main.rs".to_string(),
        is_file: true,
        facts: Some(FileFacts { size_bytes: SAMPLE.len() as u64, modified_at: 0, content: SAMPLE.as_bytes().to_vec() }),
    }];
    let repo = Repository::from_walk("/repo".to_string(), walked);
    let cs = CodeSift::from_repository(&repo, "/repo".to_string(), &vec![Ok(SAMPLE.as_bytes().to_vec())]).unwrap();
    McpServer::new(cs)
}

fn no_args() -> ToolArgs {
    ToolArgs { query: None, name: None, symbol: None, max_tokens: None, max_files: None, depth: None }
}

fn request(method: &str, params: Params) -> Request {
    Request { jsonrpc: "2.0".to_string(), method: method.to_string(), params }
}

fn text(r: &ToolResult) -> String {
    match &r.content[0] {
        ContentBlock::Text { text } => text.clone(),
    }
}

fn call(s: &mut McpServer, name: &str, args: ToolArgs) -> ToolResult {
    match s.handle(request("tools/call", Params::Present { name: Some(name.to_string()), arguments: args })) {
        Ok(Outcome::Called(r)) => r,
        other => panic!("unexpected answer: {:?}", other),
    }
}

#[test]
fn initialize_is_answered() {
    let mut s = server();
    assert!(matches!(s.handle(request("initialize", Params::Absent)), Ok(Outcome::Initialized)));
    assert!(matches!(s.handle(request("initialize", Params::Absent)), Ok(Outcome::Initialized)));
}

#[test]
fn refused_requests_get_their_error() {
    let mut s = server();
    let bad = Request { jsonrpc: "1.0".to_string(), method: "initialize".to_string(), params: Params::Absent };
    let e = s.handle(bad).unwrap_err();
    assert_eq!((e.code, e.message.as_str()), (INVALID_REQUEST, "Invalid JSON-RPC version"));
    let e = s.handle(request("resources/list", Params::Absent)).unwrap_err();
    assert_eq!((e.code, e.message.as_str()), (METHOD_NOT_FOUND, "Unknown method: resources/list"));
    let e = s.handle(request("tools/call", Params::Absent)).unwrap_err();
    assert_eq!((e.code, e.message.as_str()), (INVALID_PARAMS, "Missing params"));
    let e = s.handle(request("tools/call", Params::Present { name: None, arguments: no_args() })).unwrap_err();
    assert_eq!((e.code, e.message.as_str()), (INVALID_PARAMS, "Missing 'name' param"));
}

#[test]
fn tools_are_listed_in_order() {
    let s = server();
    let names: Vec<String> = s.list_tools().iter().map(|t| t.name.clone()).collect();
    assert_eq!(
        names,
        vec!["search_code", "find_symbol", "get_context", "find_callers", "find_callees", "get_definition", "find_references"]
    );
    let tools = s.list_tools();
    assert_eq!(tools[2].input_schema.properties.len(), 3);
    assert_eq!(tools[2].input_schema.properties[2].default, Some(10));
    assert_eq!(tools[0].input_schema.required, vec!["query".to_string()]);
    let mut s = server();
    match s.handle(request("tools/list", Params::Absent)) {
        Ok(Outcome::Tools(ts)) => assert_eq!(ts.len(), 7),
        other => panic!("unexpected answer: {:?}", other),
    }
}

#[test]
fn other_methods_answer_plainly() {
    let mut s = server();
    assert!(matches!(s.handle(request("shutdown", Params::Absent)), Ok(Outcome::Shutdown)));
    assert!(matches!(s.handle(request("cancel", Params::Absent)), Ok(Outcome::Cancelled)));
    assert!(matches!(s.handle(request("health", Params::Absent)), Ok(Outcome::Health { files: 1, symbols: 2 })));
}

#[test]
fn find_symbol_lists_where_symbols_are() {
    let mut s = server();
    let r = call(&mut s, "find_symbol", ToolArgs { name: Some("callee".to_string()), ..no_args() });
    assert_eq!(text(&r), "Found 1 symbol(s):\n- callee (Function) at /repo/main.rs:2:2\n");
    assert_eq!(r.is_error, None);
    let r = call(&mut s, "find_symbol", ToolArgs { name: Some("nothing".to_string()), ..no_args() });
    assert_eq!(text(&r), "Symbol 'nothing' not found");
    assert_eq!(r.is_error, Some(true));
    let r = call(&mut s, "find_symbol", no_args());
    assert_eq!(text(&r), "Missing 'name' argument");
}

#[test]
fn search_code_counts_matches_and_files() {
    let mut s = server();
    let r = call(&mut s, "search_code", ToolArgs { query: Some("callee".to_string()), ..no_args() });
    assert_eq!(text(&r), "Found 2 matches in 1 files");
    let r = call(&mut s, "search_code", no_args());
    assert_eq!(text(&r), "Missing 'query' argument");
}

#[test]
fn callers_and_callees_are_walked() {
    let mut s = server();
    let r = call(&mut s, "find_callers", ToolArgs { symbol: Some("callee".to_string()), ..no_args() });
    assert_eq!(text(&r), "Callers of 'callee':\n   depth 1: caller\n");
    let r = call(&mut s, "find_callees", ToolArgs { symbol: Some("callee".to_string()), ..no_args() });
    assert_eq!(text(&r), "Callees of 'callee':\n  (no callees found)\n");
    let r = call(&mut s, "find_callers", ToolArgs { symbol: Some("callee".to_string()), depth: Some(0), ..no_args() });
    assert_eq!(text(&r), "Callers of 'callee':\n  (no callers found)\n");
}

#[test]
fn definitions_and_references_show_the_source() {
    let mut s = server();
    let r = call(&mut s, "get_definition", ToolArgs { name: Some("callee".to_string()), ..no_args() });
    assert_eq!(text(&r), "/repo/main.rs:2:2\n\nfn callee() {}");
    let r = call(&mut s, "find_references", ToolArgs { name: Some("caller".to_string()), ..no_args() });
    assert_eq!(text(&r), "References to 'caller':\n- /repo/main.rs:1:1\n");
}

#[test]
fn context_is_grouped_by_file() {
    let mut s = server();
    let r = call(&mut s, "get_context", ToolArgs { query: Some("callee".to_string()), ..no_args() });
    assert_eq!(
        text(&r),
        "Context (11 tokens / 2000 budget)\nFiles: 1, Symbols: 2\n\n=== /repo/main.rs ===\n[2:2] callee\nfn callee() {}\n[1:1] match:fn caller() { callee(); }\nfn caller() { callee(); }\n\n"
    );
}

#[test]
fn unknown_tools_are_errors() {
    let s = server();
    let r = s.execute_tool("rename", &no_args());
    assert_eq!(text(&r), "Unknown tool: rename");
    assert_eq!(r.is_error, Some(true));
}
