//! Core types: identifiers, languages, source ranges, symbols and files.

use vstd::prelude::*;

use crate::text::{chars_are, chars_of, to_lowercase, unicode_lowercase};

verus! {

/// Unique identifier for a file in the index.
#[derive(Debug, Clone, Copy, PartialEq, Eq, Structural, Hash, PartialOrd, Ord)]
pub struct FileId(pub u64);

impl FileId {
    pub fn new(id: u64) -> (r: Self)
        ensures
            r.0 == id,
    {
        FileId(id)
    }
}

/// Unique identifier for a symbol.
#[derive(Debug, Clone, Copy, PartialEq, Eq, Structural, Hash)]
pub struct SymbolId(pub u64);

impl SymbolId {
    pub fn new(id: u64) -> (r: Self)
        ensures
            r.0 == id,
    {
        SymbolId(id)
    }
}

/// Language identifier.
#[derive(Debug, Clone, Copy, PartialEq, Eq, Structural, Hash)]
pub enum Language {
    Rust,
    JavaScript,
    TypeScript,
    Python,
    Go,
    Java,
    C,
    Cpp,
    Html,
    Css,
    Json,
    Toml,
    Markdown,
    Unknown,
}

/// The language that a lower-case file extension names.
pub open spec fn extension_language(e: Seq<char>) -> Language {
    if e =~= seq!['r', 's'] {
        Language::Rust
    } else if e =~= seq!['j', 's'] || e =~= seq!['m', 'j', 's'] || e =~= seq!['c', 'j', 's'] || e
        =~= seq!['j', 's', 'x'] {
        Language::JavaScript
    } else if e =~= seq!['t', 's'] || e =~= seq!['t', 's', 'x'] || e =~= seq!['m', 't', 's'] || e
        =~= seq!['c', 't', 's'] {
        Language::TypeScript
    } else if e =~= seq!['p', 'y'] || e =~= seq!['p', 'y', 'w'] {
        Language::Python
    } else if e =~= seq!['g', 'o'] {
        Language::Go
    } else if e =~= seq!['j', 'a', 'v', 'a'] {
        Language::Java
    } else if e =~= seq!['c'] {
        Language::C
    } else if e =~= seq!['h'] || e =~= seq!['h', 'p', 'p'] || e =~= seq!['c', 'p', 'p'] || e
        =~= seq!['c', 'c'] || e =~= seq!['c', 'x', 'x'] || e =~= seq!['c', '+', '+'] {
        Language::Cpp
    } else if e =~= seq!['h', 't', 'm', 'l'] || e =~= seq!['h', 't', 'm'] {
        Language::Html
    } else if e =~= seq!['c', 's', 's'] || e =~= seq!['s', 'c', 's', 's'] || e =~= seq![
        's',
        'a',
        's',
        's',
    ] || e =~= seq!['l', 'e', 's', 's'] {
        Language::Css
    } else if e =~= seq!['j', 's', 'o', 'n'] {
        Language::Json
    } else if e =~= seq!['t', 'o', 'm', 'l'] {
        Language::Toml
    } else if e =~= seq!['m', 'd'] || e =~= seq!['m', 'a', 'r', 'k', 'd', 'o', 'w', 'n'] {
        Language::Markdown
    } else {
        Language::Unknown
    }
}

/// The name of a language as its variant is written (the `Debug` form).
pub open spec fn language_name(l: Language) -> Seq<char> {
    match l {
        Language::Rust => seq!['R', 'u', 's', 't'],
        Language::JavaScript => seq!['J', 'a', 'v', 'a', 'S', 'c', 'r', 'i', 'p', 't'],
        Language::TypeScript => seq!['T', 'y', 'p', 'e', 'S', 'c', 'r', 'i', 'p', 't'],
        Language::Python => seq!['P', 'y', 't', 'h', 'o', 'n'],
        Language::Go => seq!['G', 'o'],
        Language::Java => seq!['J', 'a', 'v', 'a'],
        Language::C => seq!['C'],
        Language::Cpp => seq!['C', 'p', 'p'],
        Language::Html => seq!['H', 't', 'm', 'l'],
        Language::Css => seq!['C', 's', 's'],
        Language::Json => seq!['J', 's', 'o', 'n'],
        Language::Toml => seq!['T', 'o', 'm', 'l'],
        Language::Markdown => seq!['M', 'a', 'r', 'k', 'd', 'o', 'w', 'n'],
        Language::Unknown => seq!['U', 'n', 'k', 'n', 'o', 'w', 'n'],
    }
}

/// The tree-sitter grammar name of a language, where it has one.
pub open spec fn grammar_name(l: Language) -> Option<Seq<char>> {
    match l {
        Language::Rust => Some(seq!['r', 'u', 's', 't']),
        Language::JavaScript => Some(seq!['j', 'a', 'v', 'a', 's', 'c', 'r', 'i', 'p', 't']),
        Language::TypeScript => Some(seq!['t', 'y', 'p', 'e', 's', 'c', 'r', 'i', 'p', 't']),
        Language::Python => Some(seq!['p', 'y', 't', 'h', 'o', 'n']),
        Language::Go => Some(seq!['g', 'o']),
        Language::Java => Some(seq!['j', 'a', 'v', 'a']),
        Language::C => Some(seq!['c']),
        Language::Cpp => Some(seq!['c', 'p', 'p']),
        Language::Html => Some(seq!['h', 't', 'm', 'l']),
        Language::Css => Some(seq!['c', 's', 's']),
        _ => None,
    }
}

/// Language named by a lower-case extension (the extension list of `from_extension`).
fn language_of_lower(e: &[char]) -> (l: Language)
    ensures
        l == extension_language(e@),
{
    if chars_are(e, &['r', 's']) {
        Language::Rust
    } else if chars_are(e, &['j', 's']) || chars_are(e, &['m', 'j', 's']) || chars_are(
        e,
        &['c', 'j', 's'],
    ) || chars_are(e, &['j', 's', 'x']) {
        Language::JavaScript
    } else if chars_are(e, &['t', 's']) || chars_are(e, &['t', 's', 'x']) || chars_are(
        e,
        &['m', 't', 's'],
    ) || chars_are(e, &['c', 't', 's']) {
        Language::TypeScript
    } else if chars_are(e, &['p', 'y']) || chars_are(e, &['p', 'y', 'w']) {
        Language::Python
    } else if chars_are(e, &['g', 'o']) {
        Language::Go
    } else if chars_are(e, &['j', 'a', 'v', 'a']) {
        Language::Java
    } else if chars_are(e, &['c']) {
        Language::C
    } else if chars_are(e, &['h']) || chars_are(e, &['h', 'p', 'p']) || chars_are(e, &['c', 'p', 'p'])
        || chars_are(e, &['c', 'c']) || chars_are(e, &['c', 'x', 'x']) || chars_are(
        e,
        &['c', '+', '+'],
    ) {
        Language::Cpp
    } else if chars_are(e, &['h', 't', 'm', 'l']) || chars_are(e, &['h', 't', 'm']) {
        Language::Html
    } else if chars_are(e, &['c', 's', 's']) || chars_are(e, &['s', 'c', 's', 's']) || chars_are(
        e,
        &['s', 'a', 's', 's'],
    ) || chars_are(e, &['l', 'e', 's', 's']) {
        Language::Css
    } else if chars_are(e, &['j', 's', 'o', 'n']) {
        Language::Json
    } else if chars_are(e, &['t', 'o', 'm', 'l']) {
        Language::Toml
    } else if chars_are(e, &['m', 'd']) || chars_are(e, &['m', 'a', 'r', 'k', 'd', 'o', 'w', 'n']) {
        Language::Markdown
    } else {
        Language::Unknown
    }
}

impl Language {
    /// Language of a file extension, compared without regard to case.
    pub fn from_extension(ext: &str) -> (l: Language)
        ensures
            l == extension_language(unicode_lowercase(ext@)),
    {
        let lower = to_lowercase(ext);
        let chars = chars_of(lower.as_str());
        language_of_lower(chars.as_slice())
    }

    pub fn tree_sitter_lang(&self) -> (r: Option<&'static str>)
        ensures
            r is Some <==> grammar_name(*self) is Some,
            r is Some ==> r->0@ == grammar_name(*self)->0,
    {
        let r = match self {
            Language::Rust => Some("rust"),
            Language::JavaScript => Some("javascript"),
            Language::TypeScript => Some("typescript"),
            Language::Python => Some("python"),
            Language::Go => Some("go"),
            Language::Java => Some("java"),
            Language::C => Some("c"),
            Language::Cpp => Some("cpp"),
            Language::Html => Some("html"),
            Language::Css => Some("css"),
            _ => None,
        };
        proof {
            reveal_strlit("rust");
            reveal_strlit("javascript");
            reveal_strlit("typescript");
            reveal_strlit("python");
            reveal_strlit("go");
            reveal_strlit("java");
            reveal_strlit("c");
            reveal_strlit("cpp");
            reveal_strlit("html");
            reveal_strlit("css");
        }
        r
    }

    /// The name of the language as its variant is written.
    pub fn name(&self) -> (r: &'static str)
        ensures
            r@ == language_name(*self),
    {
        let r = match self {
            Language::Rust => "Rust",
            Language::JavaScript => "JavaScript",
            Language::TypeScript => "TypeScript",
            Language::Python => "Python",
            Language::Go => "Go",
            Language::Java => "Java",
            Language::C => "C",
            Language::Cpp => "Cpp",
            Language::Html => "Html",
            Language::Css => "Css",
            Language::Json => "Json",
            Language::Toml => "Toml",
            Language::Markdown => "Markdown",
            Language::Unknown => "Unknown",
        };
        proof {
            reveal_strlit("Rust");
            reveal_strlit("JavaScript");
            reveal_strlit("TypeScript");
            reveal_strlit("Python");
            reveal_strlit("Go");
            reveal_strlit("Java");
            reveal_strlit("C");
            reveal_strlit("Cpp");
            reveal_strlit("Html");
            reveal_strlit("Css");
            reveal_strlit("Json");
            reveal_strlit("Toml");
            reveal_strlit("Markdown");
            reveal_strlit("Unknown");
        }
        r
    }
}

/// Source code range (byte offsets and 1-based lines in a file).
#[derive(Debug, Clone, Copy, PartialEq, Eq, Structural, Hash)]
pub struct Range {
    pub start_byte: usize,
    pub end_byte: usize,
    pub start_line: u32,
    pub end_line: u32,
}

impl Range {
    pub fn new(start_byte: usize, end_byte: usize, start_line: u32, end_line: u32) -> (r: Self)
        ensures
            r.start_byte == start_byte,
            r.end_byte == end_byte,
            r.start_line == start_line,
            r.end_line == end_line,
    {
        Range { start_byte, end_byte, start_line, end_line }
    }

    pub open spec fn spec_contains(&self, byte: int) -> bool {
        self.start_byte <= byte < self.end_byte
    }

    pub open spec fn spec_contains_range(&self, other: Range) -> bool {
        self.start_byte <= other.start_byte && self.end_byte >= other.end_byte
    }

    pub open spec fn spec_overlaps(&self, other: Range) -> bool {
        self.start_byte < other.end_byte && other.start_byte < self.end_byte
    }

    /// Whether `byte` lies in the half-open byte range.
    pub fn contains(&self, byte: usize) -> (b: bool)
        ensures
            b == self.spec_contains(byte as int),
    {
        self.start_byte <= byte && byte < self.end_byte
    }

    pub fn contains_range(&self, other: &Range) -> (b: bool)
        ensures
            b == self.spec_contains_range(*other),
    {
        self.start_byte <= other.start_byte && self.end_byte >= other.end_byte
    }

    pub fn overlaps(&self, other: &Range) -> (b: bool)
        ensures
            b == self.spec_overlaps(*other),
    {
        self.start_byte < other.end_byte && other.start_byte < self.end_byte
    }

    /// Number of lines spanned; a range whose end line precedes its start counts one line.
    pub fn line_count(&self) -> (n: u32)
        requires
            self.end_line - self.start_line < u32::MAX,
        ensures
            n == (if self.end_line >= self.start_line {
                self.end_line - self.start_line + 1
            } else {
                1
            }),
    {
        self.end_line.saturating_sub(self.start_line) + 1
    }
}

/// Symbol kinds.
#[derive(Debug, Clone, Copy, PartialEq, Eq, Structural, Hash)]
pub enum SymbolKind {
    Module,
    Function,
    Method,
    Struct,
    Enum,
    Trait,
    Impl,
    Field,
    Constant,
    Variable,
    Type,
    Interface,
    Class,
    Import,
    Call,
}

/// The name of a symbol kind as its variant is written (the `Debug` form).
pub open spec fn kind_name(k: SymbolKind) -> Seq<char> {
    match k {
        SymbolKind::Module => "Module"@,
        SymbolKind::Function => "Function"@,
        SymbolKind::Method => "Method"@,
        SymbolKind::Struct => "Struct"@,
        SymbolKind::Enum => "Enum"@,
        SymbolKind::Trait => "Trait"@,
        SymbolKind::Impl => "Impl"@,
        SymbolKind::Field => "Field"@,
        SymbolKind::Constant => "Constant"@,
        SymbolKind::Variable => "Variable"@,
        SymbolKind::Type => "Type"@,
        SymbolKind::Interface => "Interface"@,
        SymbolKind::Class => "Class"@,
        SymbolKind::Import => "Import"@,
        SymbolKind::Call => "Call"@,
    }
}

impl SymbolKind {
    /// The name of the kind as its variant is written.
    pub fn name(&self) -> (r: &'static str)
        ensures
            r@ == kind_name(*self),
    {
        match self {
            SymbolKind::Module => "Module",
            SymbolKind::Function => "Function",
            SymbolKind::Method => "Method",
            SymbolKind::Struct => "Struct",
            SymbolKind::Enum => "Enum",
            SymbolKind::Trait => "Trait",
            SymbolKind::Impl => "Impl",
            SymbolKind::Field => "Field",
            SymbolKind::Constant => "Constant",
            SymbolKind::Variable => "Variable",
            SymbolKind::Type => "Type",
            SymbolKind::Interface => "Interface",
            SymbolKind::Class => "Class",
            SymbolKind::Import => "Import",
            SymbolKind::Call => "Call",
        }
    }

    pub open spec fn spec_is_definition(self) -> bool {
        !(self is Import || self is Call)
    }

    pub open spec fn spec_is_reference(self) -> bool {
        self is Import || self is Call
    }

    /// Every kind but imports and calls is a definition.
    pub fn is_definition(&self) -> (b: bool)
        ensures
            b == self.spec_is_definition(),
    {
        match self {
            SymbolKind::Module | SymbolKind::Function | SymbolKind::Method | SymbolKind::Struct
            | SymbolKind::Enum | SymbolKind::Trait | SymbolKind::Impl | SymbolKind::Field
            | SymbolKind::Constant | SymbolKind::Variable | SymbolKind::Type
            | SymbolKind::Interface | SymbolKind::Class => true,
            _ => false,
        }
    }

    pub fn is_reference(&self) -> (b: bool)
        ensures
            b == self.spec_is_reference(),
    {
        match self {
            SymbolKind::Import | SymbolKind::Call => true,
            _ => false,
        }
    }
}

/// Visibility modifier.
#[derive(Debug, Clone, Copy, PartialEq, Eq, Structural, Hash)]
pub enum Visibility {
    Public,
    Private,
    Protected,
    Internal,
}

/// A symbol (function, struct, etc.) in the codebase.
#[derive(Debug)]
pub struct Symbol {
    pub id: SymbolId,
    pub name: String,
    pub kind: SymbolKind,
    pub file_id: FileId,
    pub range: Range,
    pub parent: Option<SymbolId>,
    pub visibility: Visibility,
    pub signature: Option<String>,
}

pub fn clone_opt_string(s: &Option<String>) -> (r: Option<String>)
    ensures
        r == *s,
{
    match s {
        Some(x) => Some(x.clone()),
        None => None,
    }
}

impl Clone for Symbol {
    fn clone(&self) -> (r: Self)
        ensures
            r == *self,
    {
        Symbol {
            id: self.id,
            name: self.name.clone(),
            kind: self.kind,
            file_id: self.file_id,
            range: self.range,
            parent: self.parent,
            visibility: self.visibility,
            signature: clone_opt_string(&self.signature),
        }
    }
}

impl Symbol {
    /// A public symbol with no parent and no signature.
    pub fn new(id: SymbolId, name: String, kind: SymbolKind, file_id: FileId, range: Range) -> (r:
        Self)
        ensures
            r.id == id,
            r.name == name,
            r.kind == kind,
            r.file_id == file_id,
            r.range == range,
            r.parent is None,
            r.visibility == Visibility::Public,
            r.signature is None,
    {
        Symbol {
            id,
            name,
            kind,
            file_id,
            range,
            parent: None,
            visibility: Visibility::Public,
            signature: None,
        }
    }

    pub fn with_parent(self, parent: SymbolId) -> (r: Self)
        ensures
            r == (Symbol { parent: Some(parent), ..self }),
    {
        let mut s = self;
        s.parent = Some(parent);
        s
    }

    pub fn with_signature(self, sig: String) -> (r: Self)
        ensures
            r == (Symbol { signature: Some(sig), ..self }),
    {
        let mut s = self;
        s.signature = Some(sig);
        s
    }
}

/// File metadata in the index. The path is held as text.
#[derive(Debug)]
pub struct FileEntry {
    pub id: FileId,
    pub path: String,
    pub language: Language,
    pub size_bytes: u64,
    pub line_count: u32,
    pub modified_at: u64,
    pub is_binary: bool,
    pub is_generated: bool,
    pub is_vendor: bool,
}

impl Clone for FileEntry {
    fn clone(&self) -> (r: Self)
        ensures
            r == *self,
    {
        FileEntry {
            id: self.id,
            path: self.path.clone(),
            language: self.language,
            size_bytes: self.size_bytes,
            line_count: self.line_count,
            modified_at: self.modified_at,
            is_binary: self.is_binary,
            is_generated: self.is_generated,
            is_vendor: self.is_vendor,
        }
    }
}

/// Number of `\n` bytes.
pub open spec fn newline_count(b: Seq<u8>) -> nat
    decreases b.len(),
{
    if b.len() == 0 {
        0
    } else {
        newline_count(b.drop_last()) + if b.last() == 10u8 {
            1nat
        } else {
            0nat
        }
    }
}

/// A zero byte among the first 8192 marks a file as binary.
pub open spec fn looks_binary(b: Seq<u8>) -> bool {
    exists|i: int| 0 <= i < b.len() && i < 8192 && b[i] == 0u8
}

impl FileEntry {
    /// The entry for a file read from disk: its language comes from the path's extension (a
    /// path without one makes no entry), its line count is one more than its `\n` bytes,
    /// and a zero byte among the first 8192 marks it binary. The id is 0 until an index
    /// assigns one.
    pub fn from_parts(path: String, size_bytes: u64, modified_at: u64, content: &[u8]) -> (r: Option<FileEntry>)
        requires
            newline_count(content@) % 4294967296 != 4294967295,
        ensures
            crate::paths::extension(path@) is None ==> r is None,
            crate::paths::extension(path@) matches Some(e) ==> (r matches Some(f) && f.id == FileId(0)
                && f.path@ == path@ && f.language == extension_language(unicode_lowercase(e))
                && f.size_bytes == size_bytes && f.modified_at == modified_at && f.line_count == (
                newline_count(content@) % 4294967296) + 1 && f.is_binary == looks_binary(content@)
                && !f.is_generated && !f.is_vendor),
    {
        let ext = match crate::paths::extension_of(path.as_str()) {
            Some(e) => e,
            None => return None,
        };
        let language = Language::from_extension(ext.as_str());
        let mut count: u64 = 0;
        let mut binary = false;
        let mut i: usize = 0;
        while i < content.len()
            invariant
                i <= content@.len(),
                count == newline_count(content@.take(i as int)) % 18446744073709551616,
                binary == exists|j: int| 0 <= j < i && j < 8192 && content@[j] == 0u8,
            decreases content@.len() - i,
        {
            proof {
                assert(content@.take(i + 1).drop_last() =~= content@.take(i as int));
            }
            if content[i] == 10u8 {
                count = count.wrapping_add(1);
            }
            if i < 8192 && content[i] == 0u8 {
                binary = true;
            }
            i += 1;
        }
        proof {
            assert(content@.take(content@.len() as int) =~= content@);
        }
        let lines = (count % 4294967296) as u32;
        Some(FileEntry {
            id: FileId(0),
            path,
            language,
            size_bytes,
            line_count: lines + 1,
            modified_at,
            is_binary: binary,
            is_generated: false,
            is_vendor: false,
        })
    }
}

/// Relationship between symbols.
#[derive(Debug, Clone, Copy, PartialEq, Eq, Structural, Hash)]
pub enum Relationship {
    Defines,
    References,
    Calls,
    CalleeOf,
    Implements,
    ExtendedBy,
    Imports,
    Exports,
    Tests,
    TestFor,
}

impl Relationship {
    pub open spec fn spec_is_directed(self) -> bool {
        self is Calls || self is CalleeOf || self is Implements || self is ExtendedBy
            || self is Imports || self is Exports
    }

    pub fn is_directed(&self) -> (b: bool)
        ensures
            b == self.spec_is_directed(),
    {
        match self {
            Relationship::Calls | Relationship::CalleeOf | Relationship::Implements
            | Relationship::ExtendedBy | Relationship::Imports | Relationship::Exports => true,
            _ => false,
        }
    }
}


// ---------------------------------------------------------------------------
// Laws.

/// Overlap is symmetric, every range contains itself, and a range that contains a
/// non-empty range overlaps it.
pub proof fn range_relations(a: Range, b: Range)
    ensures
        a.spec_overlaps(b) == b.spec_overlaps(a),
        a.spec_contains_range(a),
        a.spec_contains_range(b) && b.start_byte < b.end_byte ==> a.spec_overlaps(b),
{
}

} // verus!
