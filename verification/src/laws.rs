//! Laws of the scanning model: where each token starts, how its recorded
//! line relates to the newlines before it, what scanning a keyword or an
//! identifier run in isolation yields, and how the emitted lexemes piece the
//! source back together.

use vstd::prelude::*;

use crate::char_class::{is_alpha_char, is_digit_char, is_ident_char};
use crate::scan_spec::{
    ident_run_end, lemma_ident_run_end, lemma_newline_count_concat, lemma_step_bounds,
    lemma_step_line, newline_count, opt_token_seq, spec_keyword, spec_scan, spec_scan_from,
    spec_step,
};
use crate::token::{LiteralView, TokenType, TokenView};

verus! {

/// A token emitted at `pos` covers exactly the characters the step consumed.
pub proof fn lemma_step_token(s: Seq<char>, pos: int, line: int)
    requires
        0 <= pos < s.len(),
    ensures
        ({
            let st = spec_step(s, pos, line);
            st.token matches Some(t) ==> t.lexeme == s.subrange(pos, st.next)
        }),
{
    lemma_step_bounds(s, pos, line);
}

/// The start position of each emitted token, in emission order.
pub open spec fn spec_token_starts(s: Seq<char>, pos: int, line: int) -> Seq<int>
    recommends
        0 <= pos <= s.len(),
    decreases s.len() - pos,
    via spec_token_starts_decreases
{
    if pos < 0 || pos >= s.len() {
        Seq::empty()
    } else {
        let st = spec_step(s, pos, line);
        let rest = spec_token_starts(s, st.next, st.line);
        match st.token {
            Some(_) => seq![pos] + rest,
            None => rest,
        }
    }
}

#[via_fn]
proof fn spec_token_starts_decreases(s: Seq<char>, pos: int, line: int) {
    if 0 <= pos < s.len() {
        lemma_step_bounds(s, pos, line);
    }
}

/// Start positions and emitted tokens line up: there is one start per
/// token, starts never precede the cursor, and each token's lexeme is the
/// exact source substring beginning at its start.
pub proof fn lemma_token_positions(s: Seq<char>, pos: int, line: int)
    requires
        0 <= pos <= s.len(),
    ensures
        spec_token_starts(s, pos, line).len() == spec_scan_from(s, pos, line).tokens.len(),
        forall|i: int|
            0 <= i < spec_scan_from(s, pos, line).tokens.len() ==> {
                let t = #[trigger] spec_scan_from(s, pos, line).tokens[i];
                let p = spec_token_starts(s, pos, line)[i];
                pos <= p && p + t.lexeme.len() <= s.len() && t.lexeme == s.subrange(
                    p,
                    p + t.lexeme.len(),
                )
            },
    decreases s.len() - pos,
{
    if 0 <= pos < s.len() {
        let st = spec_step(s, pos, line);
        lemma_step_bounds(s, pos, line);
        lemma_step_token(s, pos, line);
        lemma_token_positions(s, st.next, st.line);
        let toks = spec_scan_from(s, pos, line).tokens;
        let starts = spec_token_starts(s, pos, line);
        let rtoks = spec_scan_from(s, st.next, st.line).tokens;
        let rstarts = spec_token_starts(s, st.next, st.line);
        match st.token {
            Some(t) => {
                assert(toks =~= seq![t] + rtoks);
                assert(starts =~= seq![pos] + rstarts);
                assert(t.lexeme == s.subrange(pos, st.next));
                assert(t.lexeme.len() == st.next - pos);
                assert forall|i: int| 0 <= i < toks.len() implies {
                    let tt = #[trigger] toks[i];
                    let p = starts[i];
                    pos <= p && p + tt.lexeme.len() <= s.len() && tt.lexeme == s.subrange(
                        p,
                        p + tt.lexeme.len(),
                    )
                } by {
                    if i > 0 {
                        assert(toks[i] == rtoks[i - 1]);
                        assert(starts[i] == rstarts[i - 1]);
                    }
                }
            },
            None => {
                assert(toks =~= rtoks);
                assert(starts =~= rstarts);
            },
        }
    }
}

/// Law: every token is recorded on the line of the last character of its
/// lexeme — 1 plus the newlines strictly before the end of its lexeme; and
/// a token whose lexeme holds no newline (every token but a string literal
/// spanning lines) is recorded on 1 plus the newlines strictly before the
/// position where its scan began.
pub proof fn lemma_token_line_numbers(s: Seq<char>, pos: int, line: int, i: int)
    requires
        0 <= pos <= s.len(),
        line == 1 + newline_count(s.subrange(0, pos)),
        0 <= i < spec_scan_from(s, pos, line).tokens.len(),
    ensures
        ({
            let t = spec_scan_from(s, pos, line).tokens[i];
            let p = spec_token_starts(s, pos, line)[i];
            t.line == 1 + newline_count(s.subrange(0, p + t.lexeme.len())) && (newline_count(
                t.lexeme,
            ) == 0 ==> t.line == 1 + newline_count(s.subrange(0, p)))
        }),
    decreases s.len() - pos,
{
    let st = spec_step(s, pos, line);
    lemma_step_bounds(s, pos, line);
    lemma_step_line(s, pos, line);
    lemma_step_token(s, pos, line);
    lemma_token_positions(s, pos, line);
    let toks = spec_scan_from(s, pos, line).tokens;
    let starts = spec_token_starts(s, pos, line);
    let rtoks = spec_scan_from(s, st.next, st.line).tokens;
    let rstarts = spec_token_starts(s, st.next, st.line);
    // The recursion's precondition: the line after this step again counts
    // the newlines before the new cursor.
    assert(s.subrange(0, st.next) =~= s.subrange(0, pos) + s.subrange(pos, st.next));
    lemma_newline_count_concat(s.subrange(0, pos), s.subrange(pos, st.next));
    match st.token {
        Some(t) => {
            assert(toks =~= seq![t] + rtoks);
            assert(starts =~= seq![pos] + rstarts);
            if i == 0 {
                assert(t.line == st.line);
                assert(t.lexeme == s.subrange(pos, st.next));
            } else {
                lemma_token_line_numbers(s, st.next, st.line, i - 1);
                assert(toks[i] == rtoks[i - 1]);
                assert(starts[i] == rstarts[i - 1]);
            }
        },
        None => {
            assert(toks =~= rtoks);
            assert(starts =~= rstarts);
            lemma_token_line_numbers(s, st.next, st.line, i);
        },
    }
}

/// Law, for a whole-source scan: a token whose lexeme holds no newline is
/// recorded on 1 plus the count of newline characters strictly before the
/// position where its scan began; a string literal spanning lines is the
/// one exception, and is recorded on the line of its closing quote — 1 plus
/// the newlines strictly before the end of its lexeme.
pub proof fn lemma_scan_token_lines(s: Seq<char>, i: int)
    requires
        0 <= i < spec_scan(s).tokens.len(),
    ensures
        ({
            let t = spec_scan(s).tokens[i];
            let p = spec_token_starts(s, 0, 1)[i];
            t.line == 1 + newline_count(s.subrange(0, p + t.lexeme.len())) && (newline_count(
                t.lexeme,
            ) == 0 ==> t.line == 1 + newline_count(s.subrange(0, p)))
        }),
{
    assert(newline_count(s.subrange(0, 0)) == 0);
    lemma_token_line_numbers(s, 0, 1, i);
}

/// Law: scanning a keyword's exact text in isolation yields exactly one
/// token, whose kind is the keyword's mapped kind, whose lexeme is the text,
/// whose literal carries the text, and whose line is 1 — and no diagnostic.
pub proof fn lemma_keyword_in_isolation(s: Seq<char>, k: TokenType)
    requires
        spec_keyword(s) == Some(k),
    ensures
        spec_scan(s).tokens == seq![
            (TokenView {
                token_type: k,
                lexeme: s,
                literal: Some(LiteralView::Identifier(s)),
                line: 1,
            }),
        ],
        spec_scan(s).errors == Seq::<crate::helper::ErrorView>::empty(),
{
    assert(is_alpha_char(s[0]));
    assert(!is_digit_char(s[0]));
    assert forall|j: int| 0 <= j < s.len() implies is_ident_char(s[j]) by {}
    lemma_ident_run_end(s, 1);
    let e = ident_run_end(s, 1);
    assert(e == s.len());
    let st = spec_step(s, 0, 1);
    assert(st.token matches Some(t) && t.lexeme =~= s);
    assert(s.subrange(0, e) =~= s);
    assert(spec_scan(s).tokens =~= opt_token_seq(st.token) + spec_scan_from(
        s,
        s.len() as int,
        1,
    ).tokens);
    assert(spec_scan(s).tokens =~= seq![
        (TokenView {
            token_type: k,
            lexeme: s,
            literal: Some(LiteralView::Identifier(s)),
            line: 1,
        }),
    ]);
    assert(spec_scan(s).errors =~= Seq::<crate::helper::ErrorView>::empty());
}

/// A character that the dispatch sends somewhere other than identifier
/// scanning: punctuation, an operator start, whitespace, a newline, a
/// quote, a slash, or a digit.
pub open spec fn dispatch_special(c: char) -> bool {
    c == '(' || c == ')' || c == '{' || c == '}' || c == ',' || c == '.' || c == '-' || c == '+'
        || c == ';' || c == '*' || c == '!' || c == '=' || c == '<' || c == '>' || c == '/' || c
        == ' ' || c == '\r' || c == '\t' || c == '\n' || c == '"' || is_digit_char(c)
}

/// Law: a maximal identifier run is emitted as a single token: the keyword
/// kind carrying the text when the run is in the keyword table, and a plain
/// identifier with no literal when it is not.
pub proof fn lemma_identifier_run(s: Seq<char>, pos: int, line: int)
    requires
        0 <= pos < s.len(),
        is_alpha_char(s[pos]),
        !dispatch_special(s[pos]),
    ensures
        ({
            let e = ident_run_end(s, pos + 1);
            let text = s.subrange(pos, e);
            spec_step(s, pos, line).next == e && spec_step(s, pos, line).token == Some(
                (match spec_keyword(text) {
                    Some(k) => TokenView {
                        token_type: k,
                        lexeme: text,
                        literal: Some(LiteralView::Identifier(text)),
                        line,
                    },
                    None => TokenView {
                        token_type: TokenType::Identifier,
                        lexeme: text,
                        literal: None,
                        line,
                    },
                }),
            ) && spec_step(s, pos, line).diag is None
        }),
{
}

/// One piece of the source, as scanning saw it: either the lexeme of an
/// emitted token, or a skipped stretch (whitespace, a newline, a comment,
/// or an unrecognized character).
pub ghost enum ScanPiece {
    Lexed(TokenView),
    Skipped(Seq<char>),
}

pub open spec fn piece_text(p: ScanPiece) -> Seq<char> {
    match p {
        ScanPiece::Lexed(t) => t.lexeme,
        ScanPiece::Skipped(x) => x,
    }
}

pub open spec fn pieces_text(ps: Seq<ScanPiece>) -> Seq<char>
    decreases ps.len(),
{
    if ps.len() == 0 {
        Seq::empty()
    } else {
        piece_text(ps[0]) + pieces_text(ps.drop_first())
    }
}

/// The tokens among a sequence of pieces, in order.
pub open spec fn lexed_of(ps: Seq<ScanPiece>) -> Seq<TokenView>
    decreases ps.len(),
{
    if ps.len() == 0 {
        Seq::empty()
    } else {
        match ps[0] {
            ScanPiece::Lexed(t) => seq![t] + lexed_of(ps.drop_first()),
            ScanPiece::Skipped(_) => lexed_of(ps.drop_first()),
        }
    }
}

/// How scanning splits the source into pieces: one piece per step, the
/// token's lexeme where the step emitted one and the skipped stretch where
/// it did not.
pub open spec fn spec_pieces(s: Seq<char>, pos: int, line: int) -> Seq<ScanPiece>
    recommends
        0 <= pos <= s.len(),
    decreases s.len() - pos,
    via spec_pieces_decreases
{
    if pos < 0 || pos >= s.len() {
        Seq::empty()
    } else {
        let st = spec_step(s, pos, line);
        let piece = match st.token {
            Some(t) => ScanPiece::Lexed(t),
            None => ScanPiece::Skipped(s.subrange(pos, st.next)),
        };
        seq![piece] + spec_pieces(s, st.next, st.line)
    }
}

#[via_fn]
proof fn spec_pieces_decreases(s: Seq<char>, pos: int, line: int) {
    if 0 <= pos < s.len() {
        lemma_step_bounds(s, pos, line);
    }
}

/// Law, round trip: laying the pieces' texts end to end reproduces the
/// scanned source exactly — so concatenating every emitted lexeme in
/// emission order reproduces the source with precisely the skipped
/// stretches (whitespace, newlines, comments, unrecognized characters)
/// removed.
pub proof fn lemma_pieces_cover_source(s: Seq<char>, pos: int, line: int)
    requires
        0 <= pos <= s.len(),
    ensures
        pieces_text(spec_pieces(s, pos, line)) == s.subrange(pos, s.len() as int),
    decreases s.len() - pos,
{
    if pos >= s.len() {
        assert(pieces_text(spec_pieces(s, pos, line)) =~= s.subrange(pos, s.len() as int));
    } else {
        let st = spec_step(s, pos, line);
        lemma_step_bounds(s, pos, line);
        lemma_step_token(s, pos, line);
        lemma_pieces_cover_source(s, st.next, st.line);
        let ps = spec_pieces(s, pos, line);
        let rest = spec_pieces(s, st.next, st.line);
        assert(ps.drop_first() =~= rest);
        assert(piece_text(ps[0]) == s.subrange(pos, st.next));
        assert(s.subrange(pos, s.len() as int) =~= s.subrange(pos, st.next) + s.subrange(
            st.next,
            s.len() as int,
        ));
    }
}

/// Law, round trip: the tokens a scan emits are exactly the lexed pieces of
/// the source, in order.
pub proof fn lemma_tokens_are_lexed_pieces(s: Seq<char>, pos: int, line: int)
    requires
        0 <= pos <= s.len(),
    ensures
        spec_scan_from(s, pos, line).tokens == lexed_of(spec_pieces(s, pos, line)),
    decreases s.len() - pos,
{
    if pos >= s.len() {
        assert(spec_scan_from(s, pos, line).tokens =~= lexed_of(spec_pieces(s, pos, line)));
    } else {
        let st = spec_step(s, pos, line);
        lemma_step_bounds(s, pos, line);
        lemma_tokens_are_lexed_pieces(s, st.next, st.line);
        let ps = spec_pieces(s, pos, line);
        assert(ps.drop_first() =~= spec_pieces(s, st.next, st.line));
        match st.token {
            Some(t) => {
                assert(spec_scan_from(s, pos, line).tokens =~= seq![t] + spec_scan_from(
                    s,
                    st.next,
                    st.line,
                ).tokens);
            },
            None => {
                assert(spec_scan_from(s, pos, line).tokens =~= spec_scan_from(
                    s,
                    st.next,
                    st.line,
                ).tokens);
            },
        }
    }
}

/// Law: every skipped piece is either one character (a space, a carriage
/// return, a tab, a newline, or an unrecognized character) or a comment:
/// two slashes followed by the rest of the line, with no newline inside.
pub proof fn lemma_skipped_pieces_shape(s: Seq<char>, pos: int, line: int, i: int)
    requires
        0 <= pos <= s.len(),
        0 <= i < spec_pieces(s, pos, line).len(),
        spec_pieces(s, pos, line)[i] matches ScanPiece::Skipped(_),
    ensures
        ({
            let x = spec_pieces(s, pos, line)[i]->Skipped_0;
            x.len() == 1 || (x.len() >= 2 && x[0] == '/' && x[1] == '/' && forall|j: int|
                0 <= j < x.len() ==> x[j] != '\n')
        }),
    decreases s.len() - pos,
{
    let st = spec_step(s, pos, line);
    lemma_step_bounds(s, pos, line);
    let ps = spec_pieces(s, pos, line);
    assert(ps.drop_first() =~= spec_pieces(s, st.next, st.line));
    if i == 0 {
        if st.token is None {
            let x = s.subrange(pos, st.next);
            let c = s[pos];
            if c == '/' && pos + 1 < s.len() && s[pos + 1] == '/' {
                crate::scan_spec::lemma_scan_to(s, pos + 2, '\n');
                assert(x.len() >= 2 && x[0] == '/' && x[1] == '/');
                assert forall|j: int| 0 <= j < x.len() implies x[j] != '\n' by {
                    assert(x[j] == s[pos + j]);
                }
            } else {
                assert(x.len() == 1);
            }
        }
    } else {
        lemma_skipped_pieces_shape(s, st.next, st.line, i - 1);
        assert(ps[i] == spec_pieces(s, st.next, st.line)[i - 1]);
    }
}

} // verus!
