use vstd::prelude::*;

verus! {

/// Keywords of the Nix language.
#[derive(Clone, Copy, Debug)]
pub enum Keyword {
    If,
    Then,
    Else,
    Assert,
    With,
    Let,
    In,
    Rec,
    Inherit,
    Or,
    /// `...`
    Ellipsis,
}

/// Punctuation of the Nix language.
#[derive(Clone, Copy, Debug)]
pub enum Punctuation {
    /// `(`
    POpen,
    /// `)`
    PClose,
    /// `[`
    SOpen,
    /// `]`
    SClose,
    /// `{`
    COpen,
    /// `}`
    CClose,
    Comma,
    Semicolon,
    Colon,
    Period,
}

/// Operators of the Nix language.
#[derive(Clone, Copy, Debug)]
pub enum Operator {
    /// `==`
    LEq,
    /// `!=`
    LNEq,
    /// `&&`
    LAnd,
    /// `||`
    LOr,
    /// `->`
    LImpl,
    /// `<=`
    LessEq,
    /// `>=`
    GrEq,
    /// `=`
    Assign,
    /// `//`
    Update,
    /// `++`
    Concat,
    /// `<|`, an experimental feature of Nix
    PipeFrom,
    /// `|>`, an experimental feature of Nix
    PipeInto,
}

/// The value `null`.
#[derive(Clone, Copy, Debug)]
pub struct NULL;

} // verus!
