//! The scanner: a cursor-driven character classifier that consumes the whole
//! source buffer once, in ascending position order, and produces the token
//! sequence plus the accumulated diagnostics. It is proved to implement the
//! model in `scan_spec` exactly.

use vstd::prelude::*;

use crate::char_class::{is_alpha, is_digit, is_ident};
use crate::helper::{lemma_views_of_errors_push, views_of_errors, Error};
use crate::scan_spec::{
    digit_run_end, ident_run_end, lemma_digit_run_end, lemma_ident_run_end,
    lemma_newline_count_nonneg, lemma_scan_to, lemma_step_bounds, lemma_step_line, newline_count,
    number_end, opt_error_seq, opt_token_seq, scan_to, spec_keyword, spec_scan, spec_scan_from,
    spec_step, string_step,
};
use crate::token::{
    lemma_views_of_tokens_push, views_of_tokens, Literal, LiteralView, Token, TokenType, TokenView,
};

verus! {

/// Relies on String::push: appends exactly the given character.
#[verifier::external_body]
fn push_char(s: &mut String, c: char)
    ensures
        final(s)@ == old(s)@.push(c),
{
    s.push(c);
}

/// The exact source substring between two cursor positions, as owned text.
fn text_of_range(source: &Vec<char>, start: usize, end: usize) -> (r: String)
    requires
        start <= end <= source@.len(),
    ensures
        r@ == source@.subrange(start as int, end as int),
{
    let mut r = String::new();
    let mut i: usize = start;
    while i < end
        invariant
            start <= i <= end <= source@.len(),
            r@ == source@.subrange(start as int, i as int),
        decreases end - i,
    {
        push_char(&mut r, source[i]);
        proof {
            assert(r@ =~= source@.subrange(start as int, i as int + 1));
        }
        i = i + 1;
    }
    r
}

/// Exact case-sensitive lookup of a source range in the keyword table.
fn keyword_kind(source: &Vec<char>, start: usize, end: usize) -> (r: Option<TokenType>)
    requires
        start <= end <= source@.len(),
    ensures
        r == spec_keyword(source@.subrange(start as int, end as int)),
{
    let n = end - start;
    if n == 3 && source[start] == 'a' && source[start + 1] == 'n' && source[start + 2] == 'd' {
        Some(TokenType::And)
    } else if n == 5 && source[start] == 'c' && source[start + 1] == 'l' && source[start + 2]
        == 'a' && source[start + 3] == 's' && source[start + 4] == 's' {
        Some(TokenType::Class)
    } else if n == 4 && source[start] == 'e' && source[start + 1] == 'l' && source[start + 2]
        == 's' && source[start + 3] == 'e' {
        Some(TokenType::Else)
    } else if n == 5 && source[start] == 'f' && source[start + 1] == 'a' && source[start + 2]
        == 'l' && source[start + 3] == 's' && source[start + 4] == 'e' {
        Some(TokenType::False)
    } else if n == 3 && source[start] == 'f' && source[start + 1] == 'o' && source[start + 2]
        == 'r' {
        Some(TokenType::For)
    } else if n == 3 && source[start] == 'f' && source[start + 1] == 'u' && source[start + 2]
        == 'n' {
        Some(TokenType::Fun)
    } else if n == 2 && source[start] == 'i' && source[start + 1] == 'f' {
        Some(TokenType::If)
    } else if n == 3 && source[start] == 'n' && source[start + 1] == 'i' && source[start + 2]
        == 'l' {
        Some(TokenType::Nil)
    } else if n == 2 && source[start] == 'o' && source[start + 1] == 'r' {
        Some(TokenType::Or)
    } else if n == 5 && source[start] == 'p' && source[start + 1] == 'r' && source[start + 2]
        == 'i' && source[start + 3] == 'n' && source[start + 4] == 't' {
        Some(TokenType::Print)
    } else if n == 6 && source[start] == 'r' && source[start + 1] == 'e' && source[start + 2]
        == 't' && source[start + 3] == 'u' && source[start + 4] == 'r' && source[start + 5]
        == 'n' {
        Some(TokenType::Return)
    } else if n == 5 && source[start] == 's' && source[start + 1] == 'u' && source[start + 2]
        == 'p' && source[start + 3] == 'e' && source[start + 4] == 'r' {
        Some(TokenType::Super)
    } else if n == 4 && source[start] == 't' && source[start + 1] == 'h' && source[start + 2]
        == 'i' && source[start + 3] == 's' {
        Some(TokenType::This)
    } else if n == 4 && source[start] == 't' && source[start + 1] == 'r' && source[start + 2]
        == 'u' && source[start + 3] == 'e' {
        Some(TokenType::True)
    } else if n == 3 && source[start] == 'v' && source[start + 1] == 'a' && source[start + 2]
        == 'r' {
        Some(TokenType::Var)
    } else if n == 5 && source[start] == 'w' && source[start + 1] == 'h' && source[start + 2]
        == 'i' && source[start + 3] == 'l' && source[start + 4] == 'e' {
        Some(TokenType::While)
    } else {
        None
    }
}

/// The scanner's whole state: the decoded source, the tokens and diagnostics
/// gathered so far, the two cursors, and the running line counter.
pub struct Scanner {
    pub source: Vec<char>,
    pub tokens: Vec<Token>,
    pub start: usize,
    pub current: usize,
    pub line: u128,
    pub errors: Vec<Error>,
}

impl Scanner {
    /// The scanner's invariant: the cursors stay ordered and inside the
    /// buffer, and the line counter starts at 1 and grows by at most one per
    /// consumed character (which also keeps it far from overflowing).
    pub open spec fn wf(self) -> bool {
        &&& self.start <= self.current <= self.source@.len()
        &&& 1 <= self.line
        &&& self.line as int - 1 <= self.current as int
    }

    /// Builds a scanner over one finalized source text, with empty outputs,
    /// both cursors at the beginning, and the line counter at 1.
    pub fn new(source: &String) -> (s: Scanner)
        ensures
            s.wf(),
            s.source@ == source@,
            s.tokens@.len() == 0,
            s.errors@.len() == 0,
            s.start == 0,
            s.current == 0,
            s.line == 1,
    {
        let text = source.as_str();
        let n = text.unicode_len();
        let mut chars: Vec<char> = Vec::new();
        let mut i: usize = 0;
        while i < n
            invariant
                i <= n,
                n == source@.len(),
                text@ == source@,
                chars@ == source@.subrange(0, i as int),
            decreases n - i,
        {
            let c = text.get_char(i);
            chars.push(c);
            proof {
                assert(chars@ =~= source@.subrange(0, i as int + 1));
            }
            i = i + 1;
        }
        proof {
            assert(chars@ =~= source@);
        }
        Scanner {
            source: chars,
            tokens: Vec::new(),
            start: 0,
            current: 0,
            line: 1,
            errors: Vec::new(),
        }
    }

    /// Whether the cursor has consumed the whole buffer.
    pub fn is_at_end(&self) -> (r: bool)
        ensures
            r == (self.current >= self.source@.len()),
    {
        self.current >= self.source.len()
    }

    /// Consumes and returns the character under the cursor.
    pub fn advance(&mut self) -> (c: char)
        requires
            old(self).current < old(self).source@.len(),
        ensures
            c == old(self).source@[old(self).current as int],
            final(self).current == old(self).current + 1,
            final(self).source == old(self).source,
            final(self).tokens == old(self).tokens,
            final(self).errors == old(self).errors,
            final(self).start == old(self).start,
            final(self).line == old(self).line,
    {
        let result = self.source[self.current];
        proof {
            assert(self.current < self.source.len());
        }
        self.current = self.current + 1;
        result
    }

    /// The character under the cursor, or NUL at the end of the buffer;
    /// consumes nothing.
    pub fn peek(&self) -> (c: char)
        ensures
            c == if self.current < self.source@.len() {
                self.source@[self.current as int]
            } else {
                '\0'
            },
    {
        if self.is_at_end() {
            return '\0';
        }
        self.source[self.current]
    }

    /// The character one past the cursor, or NUL when none exists.
    pub fn peek_next(&self) -> (c: char)
        ensures
            c == if self.current + 1 < self.source@.len() {
                self.source@[self.current as int + 1]
            } else {
                '\0'
            },
    {
        if self.is_at_end() {
            return '\0';
        }
        proof {
            assert(self.current < self.source.len());
        }
        if self.current + 1 >= self.source.len() {
            return '\0';
        }
        self.source[self.current + 1]
    }

    /// One character of lookahead: consumes the character under the cursor
    /// exactly when it equals the expected one.
    pub fn matches(&mut self, expected: char) -> (r: bool)
        ensures
            r == (old(self).current < old(self).source@.len() && old(self).source@[old(
                self,
            ).current as int] == expected),
            final(self).current as int == old(self).current as int + if r {
                1int
            } else {
                0int
            },
            final(self).source == old(self).source,
            final(self).tokens == old(self).tokens,
            final(self).errors == old(self).errors,
            final(self).start == old(self).start,
            final(self).line == old(self).line,
    {
        if self.is_at_end() || self.source[self.current] != expected {
            return false;
        }
        proof {
            assert(self.current < self.source.len());
        }
        self.current = self.current + 1;
        true
    }

    /// Emits a token with no literal whose lexeme is the source text between
    /// `start` and the cursor.
    fn add_token(&mut self, token: TokenType)
        requires
            old(self).start <= old(self).current <= old(self).source@.len(),
        ensures
            views_of_tokens(final(self).tokens@) == views_of_tokens(old(self).tokens@).push(
                (TokenView {
                    token_type: token,
                    lexeme: old(self).source@.subrange(
                        old(self).start as int,
                        old(self).current as int,
                    ),
                    literal: None,
                    line: old(self).line as int,
                }),
            ),
            final(self).source == old(self).source,
            final(self).errors == old(self).errors,
            final(self).start == old(self).start,
            final(self).current == old(self).current,
            final(self).line == old(self).line,
    {
        self.add_token_literal(token, None);
    }

    /// Emits a token carrying the given literal; its lexeme is the source
    /// text between `start` and the cursor.
    fn add_token_literal(&mut self, token: TokenType, literal: Option<Literal>)
        requires
            old(self).start <= old(self).current <= old(self).source@.len(),
        ensures
            views_of_tokens(final(self).tokens@) == views_of_tokens(old(self).tokens@).push(
                (TokenView {
                    token_type: token,
                    lexeme: old(self).source@.subrange(
                        old(self).start as int,
                        old(self).current as int,
                    ),
                    literal: match literal {
                        Some(l) => Some(l@),
                        None => None,
                    },
                    line: old(self).line as int,
                }),
            ),
            final(self).source == old(self).source,
            final(self).errors == old(self).errors,
            final(self).start == old(self).start,
            final(self).current == old(self).current,
            final(self).line == old(self).line,
    {
        let text = text_of_range(&self.source, self.start, self.current);
        let t = Token { token_type: token, lexeme: text, literal, line: self.line };
        proof {
            lemma_views_of_tokens_push(self.tokens@, t);
        }
        self.tokens.push(t);
    }

    /// Scans a string literal after its opening quote has been consumed:
    /// the body runs to the closing quote (newlines inside it advance the
    /// line counter), or to the end of the buffer when no closing quote
    /// exists — then the token still carries what was consumed and no
    /// diagnostic is recorded, a deliberate, documented choice.
    pub fn string(&mut self)
        requires
            old(self).wf(),
            old(self).current == old(self).start + 1,
        ensures
            final(self).wf(),
            final(self).source == old(self).source,
            final(self).start == old(self).start,
            final(self).errors == old(self).errors,
            ({
                let st = string_step(
                    old(self).source@,
                    old(self).start as int,
                    old(self).line as int,
                );
                final(self).current as int == st.next && final(self).line as int == st.line
                    && views_of_tokens(final(self).tokens@) == views_of_tokens(old(self).tokens@)
                    + opt_token_seq(st.token)
            }),
    {
        let ghost s = self.source@;
        let ghost i0 = self.current as int;
        let ghost line0 = self.line as int;
        let ghost qe = scan_to(s, i0, '"');
        proof {
            lemma_scan_to(s, i0, '"');
        }
        while self.peek() != '"' && !self.is_at_end()
            invariant
                self.wf(),
                self.source == old(self).source,
                self.source@ == s,
                self.start == old(self).start,
                self.tokens == old(self).tokens,
                self.errors == old(self).errors,
                i0 == old(self).start + 1,
                i0 <= self.current as int <= qe,
                qe == scan_to(s, i0, '"'),
                line0 == old(self).line as int,
                self.line as int == line0 + newline_count(s.subrange(i0, self.current as int)),
            decreases s.len() - self.current,
        {
            proof {
                lemma_scan_to(s, i0, '"');
                assert(self.current < self.source.len());
                let cur = self.current as int;
                let pre = s.subrange(i0, cur);
                let post = s.subrange(i0, cur + 1);
                assert(post =~= pre.push(s[cur]));
                assert(post.drop_last() =~= pre);
            }
            if self.peek() == '\n' {
                self.line = self.line + 1;
            }
            self.advance();
        }
        proof {
            lemma_scan_to(s, i0, '"');
            assert(self.current as int == qe);
        }
        if self.is_at_end() {
            let body = text_of_range(&self.source, self.start + 1, self.current);
            self.add_token_literal(TokenType::String, Some(Literal::String(body)));
        } else {
            self.advance();
            let body = text_of_range(&self.source, self.start + 1, self.current - 1);
            self.add_token_literal(TokenType::String, Some(Literal::String(body)));
        }
        proof {
            let st = string_step(old(self).source@, old(self).start as int, old(self).line as int);
            assert(views_of_tokens(self.tokens@) =~= views_of_tokens(old(self).tokens@)
                + opt_token_seq(st.token));
        }
    }

    /// Scans a number literal: the maximal digit run from the cursor, then
    /// one `.` and a further maximal digit run, but only when at least one
    /// digit follows the `.`. The token's literal carries the exact numeric
    /// source text.
    pub fn number(&mut self)
        requires
            old(self).wf(),
        ensures
            final(self).wf(),
            final(self).source == old(self).source,
            final(self).start == old(self).start,
            final(self).errors == old(self).errors,
            final(self).line == old(self).line,
            ({
                let next = number_end(old(self).source@, old(self).current as int);
                let text = old(self).source@.subrange(old(self).start as int, next);
                final(self).current as int == next && views_of_tokens(final(self).tokens@)
                    == views_of_tokens(old(self).tokens@).push(
                    (TokenView {
                        token_type: TokenType::Number,
                        lexeme: text,
                        literal: Some(LiteralView::Number(text)),
                        line: old(self).line as int,
                    }),
                )
            }),
    {
        let ghost s = self.source@;
        let ghost i0 = self.current as int;
        let ghost d = digit_run_end(s, i0);
        proof {
            lemma_digit_run_end(s, i0);
        }
        while !self.is_at_end() && is_digit(self.peek())
            invariant
                self.wf(),
                self.source == old(self).source,
                self.source@ == s,
                self.start == old(self).start,
                self.tokens == old(self).tokens,
                self.errors == old(self).errors,
                self.line == old(self).line,
                i0 <= self.current as int <= d,
                d == digit_run_end(s, i0),
            decreases s.len() - self.current,
        {
            proof {
                lemma_digit_run_end(s, i0);
            }
            self.advance();
        }
        proof {
            lemma_digit_run_end(s, i0);
            assert(self.current as int == d);
        }
        if self.peek() == '.' && is_digit(self.peek_next()) {
            self.advance();
            let ghost d2 = digit_run_end(s, d + 1);
            proof {
                lemma_digit_run_end(s, d + 1);
            }
            while !self.is_at_end() && is_digit(self.peek())
                invariant
                    self.wf(),
                    self.source == old(self).source,
                    self.source@ == s,
                    self.start == old(self).start,
                    self.tokens == old(self).tokens,
                    self.errors == old(self).errors,
                    self.line == old(self).line,
                    d + 1 <= self.current as int <= d2,
                    d2 == digit_run_end(s, d + 1),
                decreases s.len() - self.current,
            {
                proof {
                    lemma_digit_run_end(s, d + 1);
                }
                self.advance();
            }
            proof {
                lemma_digit_run_end(s, d + 1);
                assert(self.current as int == d2);
            }
        }
        let text = text_of_range(&self.source, self.start, self.current);
        self.add_token_literal(TokenType::Number, Some(Literal::Number(text)));
    }

    /// Scans an identifier: the maximal identifier run from the cursor,
    /// looked up in the keyword table. A hit emits the keyword kind with the
    /// matched text as its literal; a miss emits a plain identifier with no
    /// literal.
    pub fn identifier(&mut self)
        requires
            old(self).wf(),
        ensures
            final(self).wf(),
            final(self).source == old(self).source,
            final(self).start == old(self).start,
            final(self).errors == old(self).errors,
            final(self).line == old(self).line,
            ({
                let e = ident_run_end(old(self).source@, old(self).current as int);
                let text = old(self).source@.subrange(old(self).start as int, e);
                final(self).current as int == e && views_of_tokens(final(self).tokens@)
                    == views_of_tokens(old(self).tokens@).push(
                    (match spec_keyword(text) {
                        Some(k) => TokenView {
                            token_type: k,
                            lexeme: text,
                            literal: Some(LiteralView::Identifier(text)),
                            line: old(self).line as int,
                        },
                        None => TokenView {
                            token_type: TokenType::Identifier,
                            lexeme: text,
                            literal: None,
                            line: old(self).line as int,
                        },
                    }),
                )
            }),
    {
        let ghost s = self.source@;
        let ghost i0 = self.current as int;
        let ghost e = ident_run_end(s, i0);
        proof {
            lemma_ident_run_end(s, i0);
        }
        while !self.is_at_end() && is_ident(self.peek())
            invariant
                self.wf(),
                self.source == old(self).source,
                self.source@ == s,
                self.start == old(self).start,
                self.tokens == old(self).tokens,
                self.errors == old(self).errors,
                self.line == old(self).line,
                i0 <= self.current as int <= e,
                e == ident_run_end(s, i0),
            decreases s.len() - self.current,
        {
            proof {
                lemma_ident_run_end(s, i0);
            }
            self.advance();
        }
        proof {
            lemma_ident_run_end(s, i0);
            assert(self.current as int == e);
        }
        let kind = keyword_kind(&self.source, self.start, self.current);
        match kind {
            Some(k) => {
                let text = text_of_range(&self.source, self.start, self.current);
                self.add_token_literal(k, Some(Literal::Identifier(text)));
            },
            None => {
                self.add_token(TokenType::Identifier);
            },
        }
    }

    /// One dispatch step: consumes the character under the cursor and
    /// whatever belongs to the unit it begins, emitting at most one token or
    /// one diagnostic — exactly what `spec_step` says.
    pub fn scan_token(&mut self)
        requires
            old(self).wf(),
            old(self).start == old(self).current,
            old(self).current < old(self).source@.len(),
        ensures
            final(self).wf(),
            final(self).source == old(self).source,
            final(self).start == old(self).start,
            ({
                let st = spec_step(old(self).source@, old(self).current as int, old(self).line as int);
                final(self).current as int == st.next && final(self).line as int == st.line
                    && views_of_tokens(final(self).tokens@) == views_of_tokens(old(self).tokens@)
                    + opt_token_seq(st.token) && views_of_errors(final(self).errors@)
                    == views_of_errors(old(self).errors@) + opt_error_seq(st.diag)
            }),
    {
        let ghost s = self.source@;
        let ghost pos = self.current as int;
        let ghost line0 = self.line as int;
        proof {
            lemma_step_bounds(s, pos, line0);
            lemma_step_line(s, pos, line0);
            lemma_newline_count_nonneg(s.subrange(pos, spec_step(s, pos, line0).next));
        }
        let c = self.advance();
        match c {
            '(' => self.add_token(TokenType::LeftParen),
            ')' => self.add_token(TokenType::RightParen),
            '{' => self.add_token(TokenType::LeftBrace),
            '}' => self.add_token(TokenType::RightBrace),
            ',' => self.add_token(TokenType::Comma),
            '.' => self.add_token(TokenType::Dot),
            '-' => self.add_token(TokenType::Minus),
            '+' => self.add_token(TokenType::Plus),
            ';' => self.add_token(TokenType::SemiColon),
            '*' => self.add_token(TokenType::Star),
            '!' => {
                let matches_eq = self.matches('=');
                self.add_token(
                    if matches_eq {
                        TokenType::BangEqual
                    } else {
                        TokenType::Bang
                    },
                );
            },
            '=' => {
                let matches_eq = self.matches('=');
                self.add_token(
                    if matches_eq {
                        TokenType::EqualEqual
                    } else {
                        TokenType::Equal
                    },
                );
            },
            '<' => {
                let matches_eq = self.matches('=');
                self.add_token(
                    if matches_eq {
                        TokenType::LessEqual
                    } else {
                        TokenType::Less
                    },
                );
            },
            '>' => {
                let matches_eq = self.matches('=');
                self.add_token(
                    if matches_eq {
                        TokenType::GreaterEqual
                    } else {
                        TokenType::Greater
                    },
                );
            },
            '/' => {
                let matches_comment = self.matches('/');
                if matches_comment {
                    let ghost ce = scan_to(s, pos + 2, '\n');
                    proof {
                        lemma_scan_to(s, pos + 2, '\n');
                    }
                    while self.peek() != '\n' && !self.is_at_end()
                        invariant
                            self.wf(),
                            self.source == old(self).source,
                            self.source@ == s,
                            self.start == old(self).start,
                            self.tokens == old(self).tokens,
                            self.errors == old(self).errors,
                            self.line == old(self).line,
                            pos + 2 <= self.current as int <= ce,
                            ce == scan_to(s, pos + 2, '\n'),
                        decreases s.len() - self.current,
                    {
                        proof {
                            lemma_scan_to(s, pos + 2, '\n');
                        }
                        self.advance();
                    }
                    proof {
                        lemma_scan_to(s, pos + 2, '\n');
                        assert(self.current as int == ce);
                    }
                } else {
                    self.add_token(TokenType::Slash);
                }
            },
            // Whitespace: the space, the carriage return and the tab are
            // skipped without a token; the newline also advances the line
            // counter.
            ' ' | '\r' | '\t' => (),
            '\n' => {
                proof {
                    assert(self.current <= self.source.len());
                }
                self.line = self.line + 1;
            },
            '"' => self.string(),
            _ => {
                if is_digit(c) {
                    self.number();
                } else if is_alpha(c) {
                    self.identifier();
                } else {
                    let e = Error::new(self.line, "Unexpected Character".to_owned());
                    proof {
                        lemma_views_of_errors_push(self.errors@, e);
                    }
                    self.errors.push(e);
                }
            },
        }
        proof {
            let st = spec_step(s, pos, line0);
            assert(views_of_tokens(self.tokens@) =~= views_of_tokens(old(self).tokens@)
                + opt_token_seq(st.token));
            assert(views_of_errors(self.errors@) =~= views_of_errors(old(self).errors@)
                + opt_error_seq(st.diag));
        }
    }

    /// The single entry point: consumes the whole buffer once, appends the
    /// terminal end-of-file token unconditionally, and returns a copy of the
    /// accumulated diagnostics.
    pub fn scan_tokens(&mut self) -> (errors: Vec<Error>)
        requires
            old(self).wf(),
        ensures
            final(self).wf(),
            final(self).source == old(self).source,
            final(self).current == final(self).source@.len(),
            ({
                let out = spec_scan_from(
                    old(self).source@,
                    old(self).current as int,
                    old(self).line as int,
                );
                views_of_tokens(final(self).tokens@) == views_of_tokens(old(self).tokens@)
                    + out.tokens + seq![
                    (TokenView {
                        token_type: TokenType::EOF,
                        lexeme: Seq::empty(),
                        literal: None,
                        line: out.end_line,
                    }),
                ] && views_of_errors(final(self).errors@) == views_of_errors(old(self).errors@)
                    + out.errors && final(self).line as int == out.end_line && views_of_errors(
                    errors@,
                ) == views_of_errors(final(self).errors@)
            }),
    {
        let ghost s = self.source@;
        let ghost out0 = spec_scan_from(s, old(self).current as int, old(self).line as int);
        while !self.is_at_end()
            invariant
                self.wf(),
                self.source == old(self).source,
                self.source@ == s,
                out0 == spec_scan_from(s, old(self).current as int, old(self).line as int),
                views_of_tokens(old(self).tokens@) + out0.tokens == views_of_tokens(self.tokens@)
                    + spec_scan_from(s, self.current as int, self.line as int).tokens,
                views_of_errors(old(self).errors@) + out0.errors == views_of_errors(self.errors@)
                    + spec_scan_from(s, self.current as int, self.line as int).errors,
                out0.end_line == spec_scan_from(s, self.current as int, self.line as int).end_line,
            decreases s.len() - self.current,
        {
            self.start = self.current;
            let ghost pos = self.current as int;
            let ghost l0 = self.line as int;
            let ghost st = spec_step(s, pos, l0);
            self.scan_token();
            proof {
                lemma_step_bounds(s, pos, l0);
                assert(spec_scan_from(s, pos, l0).tokens == opt_token_seq(st.token)
                    + spec_scan_from(s, st.next, st.line).tokens);
                assert(spec_scan_from(s, pos, l0).errors == opt_error_seq(st.diag)
                    + spec_scan_from(s, st.next, st.line).errors);
                assert(views_of_tokens(old(self).tokens@) + out0.tokens =~= views_of_tokens(
                    self.tokens@,
                ) + spec_scan_from(s, self.current as int, self.line as int).tokens);
                assert(views_of_errors(old(self).errors@) + out0.errors =~= views_of_errors(
                    self.errors@,
                ) + spec_scan_from(s, self.current as int, self.line as int).errors);
            }
        }
        proof {
            assert(views_of_tokens(self.tokens@) =~= views_of_tokens(old(self).tokens@)
                + out0.tokens);
            assert(views_of_errors(self.errors@) =~= views_of_errors(old(self).errors@)
                + out0.errors);
        }
        let t = Token {
            token_type: TokenType::EOF,
            lexeme: String::new(),
            literal: None,
            line: self.line,
        };
        proof {
            lemma_views_of_tokens_push(self.tokens@, t);
            assert(views_of_tokens(self.tokens@).push(t@) =~= views_of_tokens(self.tokens@)
                + seq![t@]);
        }
        self.tokens.push(t);
        let ghost snap = *self;
        let mut result: Vec<Error> = Vec::new();
        let mut i: usize = 0;
        while i < self.errors.len()
            invariant
                *self == snap,
                i <= self.errors@.len(),
                result@.len() == i,
                forall|j: int| 0 <= j < i ==> result@[j]@ == self.errors@[j]@,
            decreases self.errors@.len() - i,
        {
            let e_line = self.errors[i].line();
            let e_reason = self.errors[i].reason().clone();
            result.push(Error::new(e_line, e_reason));
            i = i + 1;
        }
        proof {
            assert(views_of_errors(result@) =~= views_of_errors(self.errors@));
        }
        result
    }
}

/// Scans one complete source text and reports whether any lexical error was
/// found in it.
pub fn run(source: String) -> (had_errors: bool)
    ensures
        had_errors == (spec_scan(source@).errors.len() != 0),
{
    let mut scanner = Scanner::new(&source);
    let errors = scanner.scan_tokens();
    proof {
        assert(views_of_errors(errors@).len() == errors@.len());
    }
    errors.len() != 0
}

} // verus!
