//! CodeSift: token-efficient code intelligence.
//!
//! An index of a repository's files and symbols, a call graph, lexical search, ranking and
//! context planning within a token budget. Reading files, walking directories and talking
//! to clients happen outside the library; what they find comes in as plain values.

use vstd::prelude::*;

pub mod text;
pub mod error;
pub mod types;
pub mod ranking;
pub mod index;
pub mod context;
pub mod tables;
pub mod graph;
pub mod parser;
pub mod search;
pub mod semantic;
pub mod retrieval;
pub mod paths;
pub mod repository;
pub mod storage;
pub mod watcher;
pub mod engine;
pub mod mcp;
pub mod report;

pub use crate::context::{ContextFragment, ContextPlan};
pub use crate::engine::CodeSift;
pub use crate::graph::ReferenceIndex;
pub use crate::index::TokenBudget;
pub use crate::watcher::FileChange;
