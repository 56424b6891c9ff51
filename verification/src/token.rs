//! Tokens: the classified units of source text that scanning emits.

use vstd::prelude::*;

verus! {

/// The closed set of token kinds: single-character punctuation, one- or
/// two-character operators, the literal classes, the fixed keywords, and the
/// terminal end-of-file marker.
#[derive(Clone, Copy, PartialEq, Eq, Structural, Debug)]
pub enum TokenType {
    // Single-character tokens.
    LeftParen,
    RightParen,
    LeftBrace,
    RightBrace,
    Comma,
    Dot,
    Minus,
    Plus,
    SemiColon,
    Slash,
    Star,
    // One or two character tokens.
    Bang,
    BangEqual,
    Equal,
    EqualEqual,
    Greater,
    GreaterEqual,
    Less,
    LessEqual,
    // Literals.
    Identifier,
    String,
    Number,
    // Keywords.
    And,
    Class,
    Else,
    False,
    Fun,
    For,
    If,
    Nil,
    Or,
    Print,
    Return,
    Super,
    This,
    True,
    Var,
    While,
    EOF,
}

/// The value a literal token carries. A keyword token carries the matched
/// text, a string token the unescaped body between the quotes, and a number
/// token the exact numeric source text; converting that text to a binary
/// floating-point value is left to the consumer.
#[derive(PartialEq, Eq, Debug)]
pub enum Literal {
    Identifier(String),
    String(String),
    Number(String),
}

/// What a literal holds, for use in contracts.
pub ghost enum LiteralView {
    Identifier(Seq<char>),
    String(Seq<char>),
    Number(Seq<char>),
}

impl View for Literal {
    type V = LiteralView;

    open spec fn view(&self) -> LiteralView {
        match self {
            Literal::Identifier(s) => LiteralView::Identifier(s@),
            Literal::String(s) => LiteralView::String(s@),
            Literal::Number(s) => LiteralView::Number(s@),
        }
    }
}

/// One classified unit of source text: its kind, the exact source substring
/// it covers, the value it carries if any, and the line it was recorded on.
#[derive(Debug)]
pub struct Token {
    pub token_type: TokenType,
    pub lexeme: String,
    pub literal: Option<Literal>,
    pub line: u128,
}

/// What a token holds, for use in contracts.
pub ghost struct TokenView {
    pub token_type: TokenType,
    pub lexeme: Seq<char>,
    pub literal: Option<LiteralView>,
    pub line: int,
}

impl View for Token {
    type V = TokenView;

    open spec fn view(&self) -> TokenView {
        TokenView {
            token_type: self.token_type,
            lexeme: self.lexeme@,
            literal: match self.literal {
                Some(l) => Some(l@),
                None => None,
            },
            line: self.line as int,
        }
    }
}

/// The views of a whole token sequence, in order.
pub open spec fn views_of_tokens(v: Seq<Token>) -> Seq<TokenView> {
    v.map_values(|t: Token| t@)
}

pub proof fn lemma_views_of_tokens_push(v: Seq<Token>, t: Token)
    ensures
        views_of_tokens(v.push(t)) == views_of_tokens(v).push(t@),
{
    assert(views_of_tokens(v.push(t)) =~= views_of_tokens(v).push(t@));
}

} // verus!
