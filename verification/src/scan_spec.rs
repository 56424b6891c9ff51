//! The mathematical model of scanning: what one dispatch step consumes and
//! emits, and what a whole pass over the source produces. The executable
//! `Scanner` is proved to implement exactly this model.

use vstd::prelude::*;

use crate::char_class::{is_alpha_char, is_digit_char, is_ident_char};
use crate::helper::ErrorView;
use crate::token::{LiteralView, TokenType, TokenView};

verus! {

/// First index at or after `i` holding `stop`, or the length of `s`.
pub open spec fn scan_to(s: Seq<char>, i: int, stop: char) -> int
    recommends
        0 <= i <= s.len(),
    decreases s.len() - i,
{
    if 0 <= i < s.len() && s[i] != stop {
        scan_to(s, i + 1, stop)
    } else {
        i
    }
}

/// First index at or after `i` holding a non-digit, or the length of `s`.
pub open spec fn digit_run_end(s: Seq<char>, i: int) -> int
    recommends
        0 <= i <= s.len(),
    decreases s.len() - i,
{
    if 0 <= i < s.len() && is_digit_char(s[i]) {
        digit_run_end(s, i + 1)
    } else {
        i
    }
}

/// First index at or after `i` holding a non-identifier character, or the
/// length of `s`.
pub open spec fn ident_run_end(s: Seq<char>, i: int) -> int
    recommends
        0 <= i <= s.len(),
    decreases s.len() - i,
{
    if 0 <= i < s.len() && is_ident_char(s[i]) {
        ident_run_end(s, i + 1)
    } else {
        i
    }
}

/// How many newline characters `s` holds.
pub open spec fn newline_count(s: Seq<char>) -> int
    decreases s.len(),
{
    if s.len() == 0 {
        0
    } else {
        newline_count(s.drop_last()) + if s.last() == '\n' {
            1int
        } else {
            0int
        }
    }
}

pub proof fn lemma_scan_to(s: Seq<char>, i: int, stop: char)
    requires
        0 <= i <= s.len(),
    ensures
        i <= scan_to(s, i, stop) <= s.len(),
        forall|j: int| i <= j < scan_to(s, i, stop) ==> s[j] != stop,
        scan_to(s, i, stop) < s.len() ==> s[scan_to(s, i, stop)] == stop,
    decreases s.len() - i,
{
    if 0 <= i < s.len() && s[i] != stop {
        lemma_scan_to(s, i + 1, stop);
    }
}

pub proof fn lemma_digit_run_end(s: Seq<char>, i: int)
    requires
        0 <= i <= s.len(),
    ensures
        i <= digit_run_end(s, i) <= s.len(),
        forall|j: int| i <= j < digit_run_end(s, i) ==> is_digit_char(s[j]),
        digit_run_end(s, i) < s.len() ==> !is_digit_char(s[digit_run_end(s, i)]),
    decreases s.len() - i,
{
    if 0 <= i < s.len() && is_digit_char(s[i]) {
        lemma_digit_run_end(s, i + 1);
    }
}

pub proof fn lemma_ident_run_end(s: Seq<char>, i: int)
    requires
        0 <= i <= s.len(),
    ensures
        i <= ident_run_end(s, i) <= s.len(),
        forall|j: int| i <= j < ident_run_end(s, i) ==> is_ident_char(s[j]),
        ident_run_end(s, i) < s.len() ==> !is_ident_char(s[ident_run_end(s, i)]),
    decreases s.len() - i,
{
    if 0 <= i < s.len() && is_ident_char(s[i]) {
        lemma_ident_run_end(s, i + 1);
    }
}

pub proof fn lemma_newline_count_concat(a: Seq<char>, b: Seq<char>)
    ensures
        newline_count(a + b) == newline_count(a) + newline_count(b),
    decreases b.len(),
{
    if b.len() == 0 {
        assert(a + b =~= a);
    } else {
        lemma_newline_count_concat(a, b.drop_last());
        assert((a + b).drop_last() =~= a + b.drop_last());
        assert((a + b).last() == b.last());
    }
}

pub proof fn lemma_newline_count_zero(s: Seq<char>)
    requires
        forall|j: int| 0 <= j < s.len() ==> s[j] != '\n',
    ensures
        newline_count(s) == 0,
    decreases s.len(),
{
    if s.len() > 0 {
        lemma_newline_count_zero(s.drop_last());
    }
}

pub proof fn lemma_newline_count_nonneg(s: Seq<char>)
    ensures
        0 <= newline_count(s) <= s.len(),
    decreases s.len(),
{
    if s.len() > 0 {
        lemma_newline_count_nonneg(s.drop_last());
    }
}

/// The case-sensitive keyword table: which reserved word a piece of text is,
/// if any.
pub open spec fn spec_keyword(s: Seq<char>) -> Option<TokenType> {
    if s =~= seq!['a', 'n', 'd'] {
        Some(TokenType::And)
    } else if s =~= seq!['c', 'l', 'a', 's', 's'] {
        Some(TokenType::Class)
    } else if s =~= seq!['e', 'l', 's', 'e'] {
        Some(TokenType::Else)
    } else if s =~= seq!['f', 'a', 'l', 's', 'e'] {
        Some(TokenType::False)
    } else if s =~= seq!['f', 'o', 'r'] {
        Some(TokenType::For)
    } else if s =~= seq!['f', 'u', 'n'] {
        Some(TokenType::Fun)
    } else if s =~= seq!['i', 'f'] {
        Some(TokenType::If)
    } else if s =~= seq!['n', 'i', 'l'] {
        Some(TokenType::Nil)
    } else if s =~= seq!['o', 'r'] {
        Some(TokenType::Or)
    } else if s =~= seq!['p', 'r', 'i', 'n', 't'] {
        Some(TokenType::Print)
    } else if s =~= seq!['r', 'e', 't', 'u', 'r', 'n'] {
        Some(TokenType::Return)
    } else if s =~= seq!['s', 'u', 'p', 'e', 'r'] {
        Some(TokenType::Super)
    } else if s =~= seq!['t', 'h', 'i', 's'] {
        Some(TokenType::This)
    } else if s =~= seq!['t', 'r', 'u', 'e'] {
        Some(TokenType::True)
    } else if s =~= seq!['v', 'a', 'r'] {
        Some(TokenType::Var)
    } else if s =~= seq!['w', 'h', 'i', 'l', 'e'] {
        Some(TokenType::While)
    } else {
        None
    }
}

/// What one dispatch step does: where the cursor and the line counter end
/// up, and the token or the diagnostic the step emits, if any.
pub ghost struct ScanStep {
    pub next: int,
    pub line: int,
    pub token: Option<TokenView>,
    pub diag: Option<ErrorView>,
}

/// A step that consumes exactly the character at `pos` and emits a token of
/// the given kind with no literal.
pub open spec fn one_char_step(kind: TokenType, s: Seq<char>, pos: int, line: int) -> ScanStep {
    ScanStep {
        next: pos + 1,
        line,
        token: Some(
            TokenView {
                token_type: kind,
                lexeme: s.subrange(pos, pos + 1),
                literal: None,
                line,
            },
        ),
        diag: None,
    }
}

/// A step for `!`, `=`, `<` or `>`: one character of lookahead decides
/// between the two-character variant (when an `=` follows) and the
/// one-character variant.
pub open spec fn two_char_step(
    with_eq: TokenType,
    alone: TokenType,
    s: Seq<char>,
    pos: int,
    line: int,
) -> ScanStep {
    if pos + 1 < s.len() && s[pos + 1] == '=' {
        ScanStep {
            next: pos + 2,
            line,
            token: Some(
                TokenView {
                    token_type: with_eq,
                    lexeme: s.subrange(pos, pos + 2),
                    literal: None,
                    line,
                },
            ),
            diag: None,
        }
    } else {
        one_char_step(alone, s, pos, line)
    }
}

/// A string-literal step: the body runs to the closing quote, or to the end
/// of the buffer when no closing quote exists (then the token still carries
/// what was consumed and no diagnostic is recorded). Newlines inside the
/// body advance the line counter, so the token is recorded on the line of
/// its last character.
pub open spec fn string_step(s: Seq<char>, pos: int, line: int) -> ScanStep {
    let e = scan_to(s, pos + 1, '"');
    let next = if e < s.len() {
        e + 1
    } else {
        e
    };
    let body = s.subrange(pos + 1, e);
    let after = line + newline_count(body);
    ScanStep {
        next,
        line: after,
        token: Some(
            TokenView {
                token_type: TokenType::String,
                lexeme: s.subrange(pos, next),
                literal: Some(LiteralView::String(body)),
                line: after,
            },
        ),
        diag: None,
    }
}

/// Where a number that started just before `i` ends: the maximal digit run,
/// then one `.` and a further maximal digit run, but only when at least one
/// digit follows the `.` (otherwise the `.` is left for the next token).
pub open spec fn number_end(s: Seq<char>, i: int) -> int {
    let d = digit_run_end(s, i);
    if d < s.len() && s[d] == '.' && d + 1 < s.len() && is_digit_char(s[d + 1]) {
        digit_run_end(s, d + 1)
    } else {
        d
    }
}

/// A number-literal step. The literal carries the exact numeric source text.
pub open spec fn number_step(s: Seq<char>, pos: int, line: int) -> ScanStep {
    let next = number_end(s, pos + 1);
    let text = s.subrange(pos, next);
    ScanStep {
        next,
        line,
        token: Some(
            TokenView {
                token_type: TokenType::Number,
                lexeme: text,
                literal: Some(LiteralView::Number(text)),
                line,
            },
        ),
        diag: None,
    }
}

/// An identifier step: the maximal identifier run is looked up in the
/// keyword table; on a hit the keyword kind is emitted with the text as its
/// literal, on a miss a plain identifier with no literal.
pub open spec fn ident_step(s: Seq<char>, pos: int, line: int) -> ScanStep {
    let e = ident_run_end(s, pos + 1);
    let text = s.subrange(pos, e);
    ScanStep {
        next: e,
        line,
        token: match spec_keyword(text) {
            Some(k) => Some(
                TokenView {
                    token_type: k,
                    lexeme: text,
                    literal: Some(LiteralView::Identifier(text)),
                    line,
                },
            ),
            None => Some(
                TokenView { token_type: TokenType::Identifier, lexeme: text, literal: None, line },
            ),
        },
        diag: None,
    }
}

/// One dispatch step at `pos`: what the character there begins, what the
/// step consumes, and what it emits.
pub open spec fn spec_step(s: Seq<char>, pos: int, line: int) -> ScanStep
    recommends
        0 <= pos < s.len(),
{
    let c = s[pos];
    if c == '(' {
        one_char_step(TokenType::LeftParen, s, pos, line)
    } else if c == ')' {
        one_char_step(TokenType::RightParen, s, pos, line)
    } else if c == '{' {
        one_char_step(TokenType::LeftBrace, s, pos, line)
    } else if c == '}' {
        one_char_step(TokenType::RightBrace, s, pos, line)
    } else if c == ',' {
        one_char_step(TokenType::Comma, s, pos, line)
    } else if c == '.' {
        one_char_step(TokenType::Dot, s, pos, line)
    } else if c == '-' {
        one_char_step(TokenType::Minus, s, pos, line)
    } else if c == '+' {
        one_char_step(TokenType::Plus, s, pos, line)
    } else if c == ';' {
        one_char_step(TokenType::SemiColon, s, pos, line)
    } else if c == '*' {
        one_char_step(TokenType::Star, s, pos, line)
    } else if c == '!' {
        two_char_step(TokenType::BangEqual, TokenType::Bang, s, pos, line)
    } else if c == '=' {
        two_char_step(TokenType::EqualEqual, TokenType::Equal, s, pos, line)
    } else if c == '<' {
        two_char_step(TokenType::LessEqual, TokenType::Less, s, pos, line)
    } else if c == '>' {
        two_char_step(TokenType::GreaterEqual, TokenType::Greater, s, pos, line)
    } else if c == '/' {
        if pos + 1 < s.len() && s[pos + 1] == '/' {
            // A comment: everything up to but excluding the newline (or the
            // end of the buffer) is discarded.
            ScanStep { next: scan_to(s, pos + 2, '\n'), line, token: None, diag: None }
        } else {
            one_char_step(TokenType::Slash, s, pos, line)
        }
    } else if c == ' ' || c == '\r' || c == '\t' {
        ScanStep { next: pos + 1, line, token: None, diag: None }
    } else if c == '\n' {
        ScanStep { next: pos + 1, line: line + 1, token: None, diag: None }
    } else if c == '"' {
        string_step(s, pos, line)
    } else if is_digit_char(c) {
        number_step(s, pos, line)
    } else if is_alpha_char(c) {
        ident_step(s, pos, line)
    } else {
        ScanStep {
            next: pos + 1,
            line,
            token: None,
            diag: Some(ErrorView { line, reason: "Unexpected Character"@ }),
        }
    }
}

/// Every step consumes at least one character and stays inside the buffer.
pub proof fn lemma_step_bounds(s: Seq<char>, pos: int, line: int)
    requires
        0 <= pos < s.len(),
    ensures
        pos < spec_step(s, pos, line).next <= s.len(),
{
    let c = s[pos];
    if c == '/' && pos + 1 < s.len() && s[pos + 1] == '/' {
        lemma_scan_to(s, pos + 2, '\n');
    }
    if c == '"' {
        lemma_scan_to(s, pos + 1, '"');
    }
    if is_digit_char(c) {
        let d = digit_run_end(s, pos + 1);
        lemma_digit_run_end(s, pos + 1);
        if d < s.len() && s[d] == '.' && d + 1 < s.len() && is_digit_char(s[d + 1]) {
            lemma_digit_run_end(s, d + 1);
        }
    }
    if is_alpha_char(c) {
        lemma_ident_run_end(s, pos + 1);
    }
}

/// The line counter after a step has counted exactly the newlines the step
/// consumed, and a step's token is recorded on the resulting line.
pub proof fn lemma_step_line(s: Seq<char>, pos: int, line: int)
    requires
        0 <= pos < s.len(),
    ensures
        spec_step(s, pos, line).line == line + newline_count(
            s.subrange(pos, spec_step(s, pos, line).next),
        ),
        spec_step(s, pos, line).token matches Some(t) ==> t.line == spec_step(s, pos, line).line,
{
    let st = spec_step(s, pos, line);
    let c = s[pos];
    lemma_step_bounds(s, pos, line);
    if c == '(' || c == ')' || c == '{' || c == '}' || c == ',' || c == '.' || c == '-' || c == '+'
        || c == ';' || c == '*' || c == '!' || c == '=' || c == '<' || c == '>' || c == ' ' || c
        == '\r' || c == '\t' {
        assert forall|j: int| 0 <= j < st.next - pos implies s.subrange(pos, st.next)[j]
            != '\n' by {
            assert(s.subrange(pos, st.next)[j] == s[pos + j]);
        }
        lemma_newline_count_zero(s.subrange(pos, st.next));
    } else if c == '/' {
        if pos + 1 < s.len() && s[pos + 1] == '/' {
            lemma_scan_to(s, pos + 2, '\n');
        }
        assert forall|j: int| 0 <= j < st.next - pos implies s.subrange(pos, st.next)[j]
            != '\n' by {
            assert(s.subrange(pos, st.next)[j] == s[pos + j]);
        }
        lemma_newline_count_zero(s.subrange(pos, st.next));
    } else if c == '\n' {
        let one = s.subrange(pos, pos + 1);
        assert(one.len() == 1 && one.last() == '\n');
        lemma_newline_count_zero(one.drop_last());
        assert(newline_count(one) == 1);
    } else if c == '"' {
        let e = scan_to(s, pos + 1, '"');
        lemma_scan_to(s, pos + 1, '"');
        let body = s.subrange(pos + 1, e);
        let quote = s.subrange(pos, pos + 1);
        lemma_newline_count_zero(quote);
        lemma_newline_count_concat(quote, body);
        if e < s.len() {
            let close = s.subrange(e, e + 1);
            assert(s.subrange(pos, e + 1) =~= quote + body + close);
            lemma_newline_count_concat(quote + body, close);
            lemma_newline_count_zero(close);
        } else {
            assert(s.subrange(pos, e) =~= quote + body);
        }
    } else if is_digit_char(c) {
        let d = digit_run_end(s, pos + 1);
        lemma_digit_run_end(s, pos + 1);
        if d < s.len() && s[d] == '.' && d + 1 < s.len() && is_digit_char(s[d + 1]) {
            lemma_digit_run_end(s, d + 1);
        }
        assert forall|j: int| 0 <= j < st.next - pos implies s.subrange(pos, st.next)[j]
            != '\n' by {
            assert(s.subrange(pos, st.next)[j] == s[pos + j]);
        }
        lemma_newline_count_zero(s.subrange(pos, st.next));
    } else if is_alpha_char(c) {
        lemma_ident_run_end(s, pos + 1);
        assert forall|j: int| 0 <= j < st.next - pos implies s.subrange(pos, st.next)[j]
            != '\n' by {
            assert(s.subrange(pos, st.next)[j] == s[pos + j]);
        }
        lemma_newline_count_zero(s.subrange(pos, st.next));
    } else {
        assert forall|j: int| 0 <= j < st.next - pos implies s.subrange(pos, st.next)[j]
            != '\n' by {
            assert(s.subrange(pos, st.next)[j] == s[pos + j]);
        }
        lemma_newline_count_zero(s.subrange(pos, st.next));
    }
}

/// What a whole pass from a given cursor and line produces: the emitted
/// tokens in order, the recorded diagnostics in order, and the final line
/// counter. The end-of-file token is not part of this sequence; the scanner
/// appends it unconditionally.
pub ghost struct ScanOut {
    pub tokens: Seq<TokenView>,
    pub errors: Seq<ErrorView>,
    pub end_line: int,
}

pub open spec fn opt_token_seq(t: Option<TokenView>) -> Seq<TokenView> {
    match t {
        Some(x) => seq![x],
        None => Seq::empty(),
    }
}

pub open spec fn opt_error_seq(d: Option<ErrorView>) -> Seq<ErrorView> {
    match d {
        Some(x) => seq![x],
        None => Seq::empty(),
    }
}

pub open spec fn spec_scan_from(s: Seq<char>, pos: int, line: int) -> ScanOut
    recommends
        0 <= pos <= s.len(),
    decreases s.len() - pos,
    via spec_scan_from_decreases
{
    if pos < 0 || pos >= s.len() {
        ScanOut { tokens: Seq::empty(), errors: Seq::empty(), end_line: line }
    } else {
        let st = spec_step(s, pos, line);
        let rest = spec_scan_from(s, st.next, st.line);
        ScanOut {
            tokens: opt_token_seq(st.token) + rest.tokens,
            errors: opt_error_seq(st.diag) + rest.errors,
            end_line: rest.end_line,
        }
    }
}

#[via_fn]
proof fn spec_scan_from_decreases(s: Seq<char>, pos: int, line: int) {
    if 0 <= pos < s.len() {
        lemma_step_bounds(s, pos, line);
    }
}

/// What scanning a whole source from its beginning produces. Lines are
/// counted from 1.
pub open spec fn spec_scan(s: Seq<char>) -> ScanOut {
    spec_scan_from(s, 0, 1)
}

} // verus!
