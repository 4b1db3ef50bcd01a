//! Error model: every parse error carries a 1-based line:col position, a
//! category and a human-readable explanation.
use vstd::prelude::*;
use crate::text::{chars_of, extend, extend_str, string_of, usize_to_chars, decimal};

verus! {

/// Error categories.
#[derive(Debug, Clone, Copy, PartialEq, Eq, Structural)]
#[non_exhaustive]
pub enum ErrorKind {
    /// Indentation is not a multiple of 2 spaces.
    BadIndent,
    /// A tab appears outside quoted strings and `"""` blocks.
    Tab,
    /// A `-` marker is not followed by exactly one space.
    BadListMarker,
    /// A list-item key does not align with the first key of its item.
    MisalignedKey,
    /// A key has no value and no indented subtree.
    MissingValue,
    /// The same key/path appears twice.
    DuplicateKey,
    /// A path is both a leaf and an interior node.
    LeafInteriorConflict,
    /// A dotted path is malformed (empty segment, leading/trailing dot).
    BadPath,
    /// A quoted string or `"""` block is not terminated.
    Unterminated,
    /// A `__...__` key is not a defined metakey.
    UnknownMetakey,
    /// A metakey appears outside the document root.
    MetakeyOutsideRoot,
    /// Nesting exceeds the depth limit.
    DepthLimit,
    /// A character is not allowed in this position.
    UnexpectedCharacter,
    /// A navigation operation was attempted on a node that is not a map.
    NotAMap,
    /// A key was not found in a map during navigation.
    KeyNotFound,
}

/// The stable machine-readable name of an error category.
pub open spec fn kind_name(k: ErrorKind) -> Seq<char> {
    match k {
        ErrorKind::BadIndent => "bad-indent"@,
        ErrorKind::Tab => "tab"@,
        ErrorKind::BadListMarker => "bad-list-marker"@,
        ErrorKind::MisalignedKey => "misaligned-key"@,
        ErrorKind::MissingValue => "missing-value"@,
        ErrorKind::DuplicateKey => "duplicate-key"@,
        ErrorKind::LeafInteriorConflict => "leaf-interior-conflict"@,
        ErrorKind::BadPath => "bad-path"@,
        ErrorKind::Unterminated => "unterminated"@,
        ErrorKind::UnknownMetakey => "unknown-metakey"@,
        ErrorKind::MetakeyOutsideRoot => "metakey-outside-root"@,
        ErrorKind::DepthLimit => "depth-limit"@,
        ErrorKind::UnexpectedCharacter => "unexpected-character"@,
        ErrorKind::NotAMap => "not-a-map"@,
        ErrorKind::KeyNotFound => "key-not-found"@,
    }
}

impl ErrorKind {
    /// The stable machine-readable name of this category.
    pub fn as_str(self) -> (s: &'static str)
        ensures
            s@ == kind_name(self),
    {
        match self {
            ErrorKind::BadIndent => "bad-indent",
            ErrorKind::Tab => "tab",
            ErrorKind::BadListMarker => "bad-list-marker",
            ErrorKind::MisalignedKey => "misaligned-key",
            ErrorKind::MissingValue => "missing-value",
            ErrorKind::DuplicateKey => "duplicate-key",
            ErrorKind::LeafInteriorConflict => "leaf-interior-conflict",
            ErrorKind::BadPath => "bad-path",
            ErrorKind::Unterminated => "unterminated",
            ErrorKind::UnknownMetakey => "unknown-metakey",
            ErrorKind::MetakeyOutsideRoot => "metakey-outside-root",
            ErrorKind::DepthLimit => "depth-limit",
            ErrorKind::UnexpectedCharacter => "unexpected-character",
            ErrorKind::NotAMap => "not-a-map",
            ErrorKind::KeyNotFound => "key-not-found",
        }
    }

    /// The display form of this category: its machine-readable name.
    pub fn to_string(self) -> (s: String)
        ensures
            s@ == kind_name(self),
    {
        String::from_str(self.as_str())
    }
}

/// A KVD parse/validation error with position and category.
#[derive(Debug, Clone, PartialEq, Eq)]
pub struct Error {
    /// Error category.
    pub kind: ErrorKind,
    /// 1-based line number.
    pub line: usize,
    /// 1-based column number.
    pub col: usize,
    /// Human-readable explanation.
    pub message: String,
}

/// The display form `line:col: kind: message`.
pub open spec fn error_display(kind: ErrorKind, line: nat, col: nat, message: Seq<char>) -> Seq<char> {
    decimal(line) + ":"@ + decimal(col) + ": "@ + kind_name(kind) + ": "@ + message
}

impl Error {
    /// Creates a new error with position and message.
    pub fn new(kind: ErrorKind, line: usize, col: usize, message: &str) -> (e: Error)
        ensures
            e.kind == kind,
            e.line == line,
            e.col == col,
            e.message@ == message@,
    {
        Error { kind, line, col, message: String::from_str(message) }
    }

    /// Creates a new error whose message is given as characters.
    pub fn from_chars(kind: ErrorKind, line: usize, col: usize, message: &Vec<char>) -> (e: Error)
        ensures
            e.kind == kind,
            e.line == line,
            e.col == col,
            e.message@ == message@,
    {
        Error { kind, line, col, message: string_of(message) }
    }

    /// The display form `line:col: kind: message`.
    pub fn to_string(&self) -> (s: String)
        ensures
            s@ == error_display(self.kind, self.line as nat, self.col as nat, self.message@),
    {
        let mut v = usize_to_chars(self.line);
        extend_str(&mut v, ":");
        let c = usize_to_chars(self.col);
        extend(&mut v, &c);
        extend_str(&mut v, ": ");
        extend_str(&mut v, self.kind.as_str());
        extend_str(&mut v, ": ");
        extend_str(&mut v, self.message.as_str());
        string_of(&v)
    }
}

} // verus!
