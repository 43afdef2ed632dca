//! The lexical units the scanner produces and the parser consumes.

use vstd::prelude::*;

verus! {

/// The class of a token. A `Name` carries its text: a bare value as
/// written, or a quoted literal with quotes removed and escapes resolved.
#[derive(Debug, PartialEq, Eq)]
pub enum TokenKind {
    Colon,
    Indent,
    Name(String),
    Newline,
    EOF,
}

/// The mathematical content of a [`TokenKind`].
pub ghost enum KindView {
    Colon,
    Indent,
    Name(Seq<char>),
    Newline,
    EOF,
}

impl View for TokenKind {
    type V = KindView;

    open spec fn view(&self) -> KindView {
        match self {
            TokenKind::Colon => KindView::Colon,
            TokenKind::Indent => KindView::Indent,
            TokenKind::Name(text) => KindView::Name(text@),
            TokenKind::Newline => KindView::Newline,
            TokenKind::EOF => KindView::EOF,
        }
    }
}

impl Clone for TokenKind {
    fn clone(&self) -> (copy: TokenKind)
        ensures
            copy == *self,
    {
        match self {
            TokenKind::Colon => TokenKind::Colon,
            TokenKind::Indent => TokenKind::Indent,
            TokenKind::Name(text) => TokenKind::Name(text.clone()),
            TokenKind::Newline => TokenKind::Newline,
            TokenKind::EOF => TokenKind::EOF,
        }
    }
}

/// One lexical unit: its class, the text it stands for and the 1-based
/// line it was found on.
#[derive(Debug, PartialEq, Eq)]
pub struct Token {
    pub kind: TokenKind,
    pub lexeme: String,
    pub line: u64,
}

/// The mathematical content of a [`Token`].
pub ghost struct TokenView {
    pub kind: KindView,
    pub lexeme: Seq<char>,
    pub line: nat,
}

impl View for Token {
    type V = TokenView;

    open spec fn view(&self) -> TokenView {
        TokenView { kind: self.kind@, lexeme: self.lexeme@, line: self.line as nat }
    }
}

impl Clone for Token {
    fn clone(&self) -> (copy: Token)
        ensures
            copy == *self,
    {
        Token { kind: self.kind.clone(), lexeme: self.lexeme.clone(), line: self.line }
    }
}

/// The views of a list of tokens, in order.
pub open spec fn token_views(tokens: Seq<Token>) -> Seq<TokenView> {
    tokens.map_values(|t: Token| t@)
}

impl Token {
    /// Builds a token from its three parts.
    pub fn new(kind: TokenKind, lexeme: String, line: u64) -> (t: Token)
        ensures
            t == (Token { kind, lexeme, line }),
    {
        Token { kind, lexeme, line }
    }
}

} // verus!
