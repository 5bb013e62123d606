use vstd::prelude::*;

verus! {

/// The kind of a node or token in a syntax tree, as a raw number.
pub type SyntaxKind = u16;

// Nodes
pub const FN: SyntaxKind = 1;
pub const NAME: SyntaxKind = 2;
pub const PARAM_LIST: SyntaxKind = 3;
pub const BIN_EXPR: SyntaxKind = 4;

// Trivia
pub const WHITESPACE: SyntaxKind = 999;

// Tokens
pub const IDENT: SyntaxKind = 1001;
pub const FN_KW: SyntaxKind = 1002;
pub const INT: SyntaxKind = 1003;
pub const PLUS: SyntaxKind = 1004;
pub const STAR: SyntaxKind = 1005;

} // verus!
