use vstd::prelude::*;
use crate::ast::{Literal, LiteralView};
use crate::text::{char_alphabetic, chars_of, is_alphabetic, push_char};
use crate::tokens::{
    script_keyword, spec_script_keyword, spec_sql_keyword, spec_symbol, sql_keyword, symbol_of,
    token_ok, tokens_ok, Span, SpecToken, Symbol, Token, TokenType,
};

verus! {

/// Why a source text could not be split into tokens.
#[derive(Clone, Copy, Debug, PartialEq, Eq, Structural)]
pub enum ScanError {
    UnexpectedCharacter { span: Span },
    UnterminatedString { span: Span },
    MalformedNumberLiteral { span: Span },
}

// ---------------------------------------------------------------------------
// Characters
// ---------------------------------------------------------------------------

pub open spec fn is_digit(c: char) -> bool {
    '0' <= c <= '9'
}

pub open spec fn ascii_lower(c: char) -> char {
    if 'A' <= c <= 'Z' {
        ((c as u32) + 32) as char
    } else {
        c
    }
}

pub open spec fn ascii_upper(c: char) -> char {
    if 'a' <= c <= 'z' {
        ((c as u32) - 32) as char
    } else {
        c
    }
}

pub open spec fn ascii_upper_seq(w: Seq<char>) -> Seq<char> {
    w.map_values(|c: char| ascii_upper(c))
}

/// The number of bytes that `c` takes in UTF-8.
pub open spec fn char_utf8_len(c: char) -> nat {
    if (c as u32) < 0x80 {
        1
    } else if (c as u32) < 0x800 {
        2
    } else if (c as u32) < 0x10000 {
        3
    } else {
        4
    }
}

/// The number of bytes that `s` takes in UTF-8.
pub open spec fn utf8_len(s: Seq<char>) -> nat
    decreases s.len(),
{
    if s.len() == 0 {
        0
    } else {
        utf8_len(s.drop_last()) + char_utf8_len(s.last())
    }
}

pub open spec fn is_ident_char(c: char) -> bool {
    char_alphabetic(c) || c == '_'
}

// ---------------------------------------------------------------------------
// Runs of characters
// ---------------------------------------------------------------------------

/// The end of the run of ASCII digits that starts at `i`.
pub open spec fn digits_end(s: Seq<char>, i: int) -> int
    decreases s.len() - i,
{
    if 0 <= i < s.len() && is_digit(s[i]) {
        digits_end(s, i + 1)
    } else {
        i
    }
}

/// The index of the first `"` at or after `i`, or the length of `s`.
pub open spec fn quote_end(s: Seq<char>, i: int) -> int
    decreases s.len() - i,
{
    if 0 <= i < s.len() && s[i] != '"' {
        quote_end(s, i + 1)
    } else {
        i
    }
}

/// The end of the run of identifier characters that starts at `i`.
pub open spec fn ident_end(s: Seq<char>, i: int) -> int
    decreases s.len() - i,
{
    if 0 <= i < s.len() && is_ident_char(s[i]) {
        ident_end(s, i + 1)
    } else {
        i
    }
}

/// The index of the first newline at or after `i`, or the length of `s`.
pub open spec fn newline_end(s: Seq<char>, i: int) -> int
    decreases s.len() - i,
{
    if 0 <= i < s.len() && s[i] != '\n' {
        newline_end(s, i + 1)
    } else {
        i
    }
}


proof fn lemma_digits_end(s: Seq<char>, i: int)
    requires
        0 <= i <= s.len(),
    ensures
        i <= digits_end(s, i) <= s.len(),
        digits_end(s, i) < s.len() ==> !is_digit(s[digits_end(s, i)]),
        forall|j: int| i <= j < digits_end(s, i) ==> is_digit(#[trigger] s[j]),
    decreases s.len() - i,
{
    if i < s.len() && is_digit(s[i]) {
        lemma_digits_end(s, i + 1);
    }
}

proof fn lemma_quote_end(s: Seq<char>, i: int)
    requires
        0 <= i <= s.len(),
    ensures
        i <= quote_end(s, i) <= s.len(),
        quote_end(s, i) < s.len() ==> s[quote_end(s, i)] == '"',
        forall|j: int| i <= j < quote_end(s, i) ==> #[trigger] s[j] != '"',
    decreases s.len() - i,
{
    if i < s.len() && s[i] != '"' {
        lemma_quote_end(s, i + 1);
    }
}

proof fn lemma_ident_end(s: Seq<char>, i: int)
    requires
        0 <= i <= s.len(),
    ensures
        i <= ident_end(s, i) <= s.len(),
        ident_end(s, i) < s.len() ==> !is_ident_char(s[ident_end(s, i)]),
        forall|j: int| i <= j < ident_end(s, i) ==> is_ident_char(#[trigger] s[j]),
    decreases s.len() - i,
{
    if i < s.len() && is_ident_char(s[i]) {
        lemma_ident_end(s, i + 1);
    }
}

proof fn lemma_newline_end(s: Seq<char>, i: int)
    requires
        0 <= i <= s.len(),
    ensures
        i <= newline_end(s, i) <= s.len(),
        newline_end(s, i) < s.len() ==> s[newline_end(s, i)] == '\n',
        forall|j: int| i <= j < newline_end(s, i) ==> #[trigger] s[j] != '\n',
    decreases s.len() - i,
{
    if i < s.len() && s[i] != '\n' {
        lemma_newline_end(s, i + 1);
    }
}

// ---------------------------------------------------------------------------
// One step of the scanner
// ---------------------------------------------------------------------------

/// What the scanner does at one position of the source.
pub enum Step {
    /// Whitespace or a comment: go on at `next`, on line `line`.
    Skip { next: int, line: nat },
    /// A token, and the position after it.
    Emit { token: SpecToken, next: int },
    Fail(ScanError),
    /// The scanner reads past the end of the source, or counts more lines than
    /// it can hold.
    Panic,
}

pub open spec fn span_of(start: int, end: int, line: nat) -> Span {
    Span { start: start as usize, end: end as usize, line: line as u32, line_end: line as u32 }
}

pub open spec fn plain_token(t: TokenType, lexeme: Seq<char>, start: int, end: int, line: nat) -> SpecToken {
    SpecToken { tok_type: t, literal: None, lexeme: Some(lexeme), span: span_of(start, end, line) }
}

pub open spec fn string_step(s: Seq<char>, pos: int, line: nat) -> Step {
    let q = quote_end(s, pos + 1);
    let raw = s.subrange(pos + 1, q);
    if q >= s.len() {
        Step::Fail(
            ScanError::UnterminatedString { span: span_of(pos, pos + utf8_len(raw), line) },
        )
    } else {
        Step::Emit {
            token: SpecToken {
                tok_type: TokenType::Str,
                literal: Some(LiteralView::Str(raw)),
                lexeme: Some(raw),
                span: span_of(pos, pos + utf8_len(raw) + 2, line),
            },
            next: q + 1,
        }
    }
}

/// Where the fraction of a number ends, given where its integer digits end.
pub open spec fn fraction_end(s: Seq<char>, p1: int) -> int {
    if p1 < s.len() && s[p1] == '.' && p1 + 1 < s.len() && is_digit(s[p1 + 1]) {
        digits_end(s, p1 + 1)
    } else {
        p1
    }
}

/// Where the sign of an exponent ends, given where its `e` ends.
pub open spec fn sign_end(s: Seq<char>, p: int) -> int {
    if p < s.len() && (s[p] == '-' || s[p] == '+') {
        p + 1
    } else {
        p
    }
}

pub open spec fn number_step(s: Seq<char>, pos: int, line: nat) -> Step {
    let p1 = digits_end(s, pos);
    if p1 < s.len() && s[p1] == '.' && p1 + 1 >= s.len() {
        Step::Panic
    } else {
        let p2 = fraction_end(s, p1);
        if p2 < s.len() && ascii_lower(s[p2]) == 'e' {
            let p3 = sign_end(s, p2 + 1);
            if p3 >= s.len() || !is_digit(s[p3]) {
                Step::Fail(ScanError::MalformedNumberLiteral { span: span_of(pos, p3, line) })
            } else {
                let p4 = digits_end(s, p3);
                let raw = s.subrange(pos, p4);
                Step::Emit {
                    token: SpecToken {
                        tok_type: TokenType::Num,
                        literal: Some(LiteralView::Num(raw)),
                        lexeme: Some(raw),
                        span: span_of(pos, p4, line),
                    },
                    next: p4,
                }
            }
        } else {
            let raw = s.subrange(pos, p2);
            Step::Emit {
                token: SpecToken {
                    tok_type: TokenType::Num,
                    literal: Some(LiteralView::Num(raw)),
                    lexeme: Some(raw),
                    span: span_of(pos, p2, line),
                },
                next: p2,
            }
        }
    }
}

/// The token type of a word: a script keyword as written, else an SQL
/// keyword in any case, else an identifier.
pub open spec fn word_type(raw: Seq<char>, dollar: bool) -> TokenType {
    match spec_script_keyword(raw) {
        Some(t) => t,
        None => match spec_sql_keyword(ascii_upper_seq(raw)) {
            Some(k) => TokenType::SqlKeyword(k),
            None => TokenType::Identifier { dollar },
        },
    }
}

pub open spec fn identifier_step(s: Seq<char>, pos: int, line: nat, dollar: bool) -> Step {
    let i = ident_end(s, pos + 1);
    let raw = s.subrange(pos, i);
    let t = word_type(raw, dollar);
    Step::Emit {
        token: SpecToken {
            tok_type: t,
            literal: if t is Identifier { Some(LiteralView::Str(raw)) } else { None },
            lexeme: Some(raw),
            span: span_of(pos, pos + utf8_len(raw), line),
        },
        next: i,
    }
}

pub open spec fn single_symbol(c: char) -> Symbol {
    if c == '!' {
        Symbol::Bang
    } else if c == '=' {
        Symbol::Equal
    } else if c == '<' {
        Symbol::Less
    } else {
        Symbol::Greater
    }
}

pub open spec fn double_symbol(c: char) -> Symbol {
    if c == '!' {
        Symbol::BangEqual
    } else if c == '=' {
        Symbol::EqualEqual
    } else if c == '<' {
        Symbol::LessEqual
    } else {
        Symbol::GreaterEqual
    }
}

pub open spec fn double_step(s: Seq<char>, pos: int, line: nat) -> Step {
    let c = s[pos];
    if pos + 1 < s.len() && s[pos + 1] == '=' {
        Step::Emit {
            token: plain_token(TokenType::Symbol(double_symbol(c)), seq![c, '='], pos, pos + 2, line),
            next: pos + 2,
        }
    } else {
        Step::Emit {
            token: plain_token(TokenType::Symbol(single_symbol(c)), seq![c], pos, pos + 1, line),
            next: pos + 1,
        }
    }
}

pub open spec fn slash_step(s: Seq<char>, pos: int, line: nat) -> Step {
    if pos + 1 < s.len() && s[pos + 1] == '/' {
        Step::Skip { next: newline_end(s, pos + 2), line }
    } else {
        Step::Emit {
            token: plain_token(TokenType::Symbol(Symbol::Slash), seq!['/'], pos, pos + 1, line),
            next: pos + 1,
        }
    }
}

pub open spec fn other_step(s: Seq<char>, pos: int, line: nat) -> Step {
    match spec_symbol(s[pos]) {
        Some(sym) => Step::Emit {
            token: plain_token(TokenType::Symbol(sym), seq![s[pos]], pos, pos + 1, line),
            next: pos + 1,
        },
        None => Step::Fail(ScanError::UnexpectedCharacter { span: span_of(pos, pos + 1, line) }),
    }
}

/// What the scanner does at position `pos`, on line `line`.
pub open spec fn step(s: Seq<char>, pos: int, line: nat) -> Step {
    let c = s[pos];
    if c == '\n' {
        if line + 1 > u32::MAX {
            Step::Panic
        } else {
            Step::Skip { next: pos + 1, line: line + 1 }
        }
    } else if c == ' ' || c == '\r' || c == '\t' {
        Step::Skip { next: pos + 1, line }
    } else if c == '"' {
        string_step(s, pos, line)
    } else if is_digit(c) {
        number_step(s, pos, line)
    } else if ('A' <= c <= 'Z') || ('a' <= c <= 'z') || c == '_' {
        identifier_step(s, pos, line, false)
    } else if c == '$' {
        identifier_step(s, pos, line, true)
    } else if c == '!' || c == '=' || c == '<' || c == '>' {
        double_step(s, pos, line)
    } else if c == '/' {
        slash_step(s, pos, line)
    } else {
        other_step(s, pos, line)
    }
}

// ---------------------------------------------------------------------------
// The whole scan
// ---------------------------------------------------------------------------

pub enum ScanOutcome {
    Done { tokens: Seq<SpecToken>, line: nat },
    Failed(ScanError),
    Panicked,
}

/// Scans `s` from `pos`, on line `line`, with `acc` the tokens found so far.
pub open spec fn scan_from(s: Seq<char>, pos: int, line: nat, acc: Seq<SpecToken>) -> ScanOutcome
    decreases s.len() - pos,
{
    if pos < 0 || pos >= s.len() {
        ScanOutcome::Done { tokens: acc, line }
    } else {
        match step(s, pos, line) {
            Step::Skip { next, line: l } => if pos < next && next <= s.len() {
                scan_from(s, next, l, acc)
            } else {
                ScanOutcome::Panicked
            },
            Step::Emit { token, next } => if pos < next && next <= s.len() {
                scan_from(s, next, line, acc.push(token))
            } else {
                ScanOutcome::Panicked
            },
            Step::Fail(e) => ScanOutcome::Failed(e),
            Step::Panic => ScanOutcome::Panicked,
        }
    }
}

/// The end-of-input token that follows `acc`.
pub open spec fn eof_token(acc: Seq<SpecToken>, line: nat) -> SpecToken {
    let start: int = if acc.len() == 0 { 0 } else { acc.last().span.end + 1 };
    SpecToken {
        tok_type: TokenType::Eof,
        literal: None,
        lexeme: None,
        span: span_of(start, start, line),
    }
}

/// Whether scanning `s` reads past its end or overflows its line counter.
pub open spec fn scan_panics(s: Seq<char>) -> bool {
    scan_from(s, 0, 0, Seq::empty()) is Panicked
}

/// The tokens of `s`, ending with an end-of-input token, or the first error.
pub open spec fn spec_scan(s: Seq<char>) -> Result<Seq<SpecToken>, ScanError> {
    match scan_from(s, 0, 0, Seq::empty()) {
        ScanOutcome::Done { tokens, line } => Ok(tokens.push(eof_token(tokens, line))),
        ScanOutcome::Failed(e) => Err(e),
        ScanOutcome::Panicked => Err(ScanError::UnexpectedCharacter { span: span_of(0, 0, 0) }),
    }
}

pub open spec fn tokens_view(v: Seq<Token>) -> Seq<SpecToken> {
    v.map_values(|t: Token| t@)
}

// ---------------------------------------------------------------------------
// Laws of the scanner
// ---------------------------------------------------------------------------

/// The source text that a token stands for: for a string, its text between the
/// quotes; for any other token, its lexeme.
pub open spec fn token_matches_source(s: Seq<char>, t: SpecToken) -> bool {
    t.lexeme matches Some(l) && if t.tok_type == TokenType::Str {
        &&& 0 <= t.span.start
        &&& t.span.start + l.len() + 2 <= s.len()
        &&& s[t.span.start as int] == '"'
        &&& s.subrange(t.span.start + 1, t.span.start + 1 + l.len()) == l
        &&& s[t.span.start + 1 + l.len()] == '"'
    } else {
        &&& 0 < l.len()
        &&& t.span.start + l.len() <= s.len()
        &&& s.subrange(t.span.start as int, t.span.start + l.len()) == l
    }
}

/// What holds of the tokens found before position `pos`, on line `line`.
pub open spec fn tokens_inv(s: Seq<char>, acc: Seq<SpecToken>, pos: int, line: nat) -> bool {
    &&& forall|i: int| 0 <= i < acc.len() ==> (#[trigger] acc[i]).tok_type != TokenType::Eof
    &&& forall|i: int| 0 <= i < acc.len() ==> token_matches_source(s, #[trigger] acc[i])
    &&& forall|i: int| 0 <= i < acc.len() ==> token_ok(#[trigger] acc[i])
    &&& forall|i: int| 0 <= i < acc.len() ==> (#[trigger] acc[i]).span.start < pos
    &&& forall|i: int| 0 <= i < acc.len() ==> (#[trigger] acc[i]).span.line <= line
    &&& forall|i: int, j: int| 0 <= i < j < acc.len() ==> (#[trigger] acc[i]).span.start < (#[trigger] acc[j]).span.start
    &&& forall|i: int, j: int| 0 <= i < j < acc.len() ==> (#[trigger] acc[i]).span.line <= (#[trigger] acc[j]).span.line
}

proof fn lemma_step_facts(s: Seq<char>, pos: int, line: nat)
    requires
        0 <= pos < s.len(),
        s.len() <= usize::MAX,
        line <= u32::MAX,
    ensures
        match step(s, pos, line) {
            Step::Skip { next, line: l } => pos < next <= s.len() && line <= l <= u32::MAX,
            Step::Emit { token, next } => {
                &&& pos < next <= s.len()
                &&& token.tok_type != TokenType::Eof
                &&& token.span.start == pos
                &&& token.span.line == line
                &&& token_matches_source(s, token)
                &&& token_ok(token)
            },
            _ => true,
        },
{
    let c = s[pos];
    if c == '"' {
        lemma_quote_end(s, pos + 1);
        let q = quote_end(s, pos + 1);
        if q < s.len() {
            let raw = s.subrange(pos + 1, q);
            assert(s.subrange(pos + 1, pos + 1 + raw.len()) =~= raw);
        }
    } else if is_digit(c) {
        lemma_digits_end(s, pos);
        let p1 = digits_end(s, pos);
        if p1 + 1 < s.len() {
            lemma_digits_end(s, p1 + 1);
        }
        let p2 = fraction_end(s, p1);
        if p2 < s.len() && ascii_lower(s[p2]) == 'e' {
            let p3 = sign_end(s, p2 + 1);
            if p3 < s.len() {
                lemma_digits_end(s, p3);
            }
        }
    } else if ('A' <= c <= 'Z') || ('a' <= c <= 'z') || c == '_' || c == '$' {
        lemma_ident_end(s, pos + 1);
    } else if c == '!' || c == '=' || c == '<' || c == '>' {
        if pos + 1 < s.len() && s[pos + 1] == '=' {
            assert(s.subrange(pos, pos + 2) =~= seq![c, '=']);
        } else {
            assert(s.subrange(pos, pos + 1) =~= seq![c]);
        }
    } else if c == '/' {
        if pos + 1 < s.len() && s[pos + 1] == '/' {
            lemma_newline_end(s, pos + 2);
        } else {
            assert(s.subrange(pos, pos + 1) =~= seq!['/']);
        }
    } else {
        assert(s.subrange(pos, pos + 1) =~= seq![c]);
    }
}

proof fn lemma_scan_from_inv(s: Seq<char>, pos: int, line: nat, acc: Seq<SpecToken>)
    requires
        0 <= pos <= s.len(),
        s.len() <= usize::MAX,
        line <= u32::MAX,
        tokens_inv(s, acc, pos, line),
    ensures
        scan_from(s, pos, line, acc) matches ScanOutcome::Done { tokens, line: l } ==> tokens_inv(
            s,
            tokens,
            s.len() as int,
            l,
        ) && l <= u32::MAX,
    decreases s.len() - pos,
{
    if pos < s.len() {
        lemma_step_facts(s, pos, line);
        match step(s, pos, line) {
            Step::Skip { next, line: l } => {
                lemma_scan_from_inv(s, next, l, acc);
            },
            Step::Emit { token, next } => {
                let acc2 = acc.push(token);
                assert(tokens_inv(s, acc2, next, line)) by {
                    assert forall|i: int| 0 <= i < acc2.len() implies (#[trigger] acc2[i]).span.start < next by {
                        if i < acc.len() {
                            assert(acc2[i] == acc[i]);
                        }
                    }
                }
                lemma_scan_from_inv(s, next, line, acc2);
            },
            _ => {},
        }
    }
}

/// A successful scan ends with exactly one end-of-input token; every other
/// token stands for the text of the source at its start position; the tokens
/// start at increasing positions, on lines that never decrease.
pub proof fn law_scan_tokens(s: Seq<char>)
    requires
        s.len() <= usize::MAX / 8,
        spec_scan(s) is Ok,
    ensures
        ({
            let toks = spec_scan(s)->Ok_0;
            &&& toks.len() >= 1
            &&& toks.last().tok_type == TokenType::Eof
            &&& tokens_inv(s, toks.drop_last(), s.len() as int, toks.last().span.line as nat)
        }),
{
    lemma_scan_from_inv(s, 0, 0, Seq::empty());
    match scan_from(s, 0, 0, Seq::empty()) {
        ScanOutcome::Done { tokens, line } => {
            let toks = tokens.push(eof_token(tokens, line));
            assert(toks.drop_last() =~= tokens);
        },
        _ => {},
    }
}

/// Every token stream that a scan produces can be handed to the parser: it
/// ends with the end-of-input token, and each identifier, string and number
/// token carries its text and literal.
pub proof fn law_scan_output_parseable(s: Seq<char>)
    requires
        s.len() <= usize::MAX / 8,
        spec_scan(s) is Ok,
    ensures
        tokens_ok(spec_scan(s)->Ok_0),
{
    law_scan_tokens(s);
    let toks = spec_scan(s)->Ok_0;
    assert forall|i: int| 0 <= i < toks.len() implies token_ok(#[trigger] toks[i]) by {
        if i < toks.len() - 1 {
            assert(toks[i] == toks.drop_last()[i]);
        }
    }
}

/// Spaces, tabs and carriage returns are passed over: where the scan stands
/// on one, it goes on from the next character on the same line, with no
/// token and no error.
pub proof fn law_whitespace_is_skipped(s: Seq<char>, pos: int, line: nat, acc: Seq<SpecToken>)
    requires
        0 <= pos < s.len(),
        s[pos] == ' ' || s[pos] == '\t' || s[pos] == '\r',
    ensures
        scan_from(s, pos, line, acc) == scan_from(s, pos + 1, line, acc),
{
}

proof fn lemma_blank_rest(s: Seq<char>, pos: int, line: nat, acc: Seq<SpecToken>)
    requires
        0 <= pos <= s.len(),
        forall|j: int| pos <= j < s.len() ==> #[trigger] s[j] == ' ' || s[j] == '\t' || s[j] == '\r',
    ensures
        scan_from(s, pos, line, acc) == (ScanOutcome::Done { tokens: acc, line }),
    decreases s.len() - pos,
{
    if pos < s.len() {
        law_whitespace_is_skipped(s, pos, line, acc);
        lemma_blank_rest(s, pos + 1, line, acc);
    }
}

/// A source of spaces, tabs and carriage returns alone scans to the single
/// end-of-input token, at the start of the first line.
pub proof fn law_blank_source_scans_to_end_token(s: Seq<char>)
    requires
        forall|j: int| 0 <= j < s.len() ==> #[trigger] s[j] == ' ' || s[j] == '\t' || s[j] == '\r',
    ensures
        spec_scan(s) == Ok::<Seq<SpecToken>, ScanError>(
            seq![
                SpecToken {
                    tok_type: TokenType::Eof,
                    literal: None,
                    lexeme: None,
                    span: Span { start: 0, end: 0, line: 0, line_end: 0 },
                },
            ],
        ),
{
    lemma_blank_rest(s, 0, 0, Seq::empty());
    assert(Seq::<SpecToken>::empty().push(eof_token(Seq::empty(), 0)) =~= seq![
        SpecToken {
            tok_type: TokenType::Eof,
            literal: None,
            lexeme: None,
            span: Span { start: 0, end: 0, line: 0, line_end: 0 },
        },
    ]);
}

// ---------------------------------------------------------------------------
// Where tokens stand in the source
// ---------------------------------------------------------------------------

/// The number of newlines among the first `n` characters of `s`.
pub open spec fn newlines_before(s: Seq<char>, n: int) -> nat
    decreases n,
{
    if n <= 0 {
        0
    } else {
        newlines_before(s, n - 1) + if n - 1 < s.len() && s[n - 1] == '\n' {
            1nat
        } else {
            0nat
        }
    }
}

/// Whether every character of `s` is an ASCII character.
pub open spec fn is_ascii_text(s: Seq<char>) -> bool {
    forall|j: int| 0 <= j < s.len() ==> (#[trigger] s[j] as u32) < 0x80
}

/// Whether the text of a token holds a newline.
pub open spec fn lexeme_has_newline(t: SpecToken) -> bool {
    t.lexeme matches Some(l) && l.contains('\n')
}

/// A token covers the source from its start to its end: a string its text
/// between quotes, any other token its lexeme.
pub open spec fn covers_source(s: Seq<char>, t: SpecToken) -> bool {
    match t.lexeme {
        Some(l) => {
            &&& t.span.start < t.span.end <= s.len()
            &&& s.subrange(t.span.start as int, t.span.end as int) == if t.tok_type == TokenType::Str {
                seq!['"'] + l + seq!['"']
            } else {
                l
            }
        },
        None => false,
    }
}

/// What holds of the spans of the tokens found before position `pos`, on
/// line `line`.
pub open spec fn spans_inv(s: Seq<char>, acc: Seq<SpecToken>, pos: int, line: nat) -> bool {
    &&& forall|i: int|
        0 <= i < acc.len() ==> (#[trigger] acc[i]).span.start < acc[i].span.end <= 4 * pos
    &&& forall|i: int| 0 <= i < acc.len() ==> (#[trigger] acc[i]).span.line == acc[i].span.line_end
    &&& is_ascii_text(s) ==> forall|i: int|
        0 <= i < acc.len() ==> covers_source(s, #[trigger] acc[i]) && acc[i].span.end <= pos
    &&& is_ascii_text(s) ==> forall|i: int, j: int|
        0 <= i < j < acc.len() ==> (#[trigger] acc[i]).span.end <= (#[trigger] acc[j]).span.start
    &&& (forall|i: int| 0 <= i < acc.len() ==> !lexeme_has_newline(#[trigger] acc[i])) ==> {
        &&& line == newlines_before(s, pos)
        &&& forall|i: int|
            0 <= i < acc.len() ==> (#[trigger] acc[i]).span.line == newlines_before(
                s,
                acc[i].span.start as int,
            )
    }
}

proof fn lemma_utf8_bounds(x: Seq<char>)
    ensures
        x.len() <= utf8_len(x) <= 4 * x.len(),
        (forall|j: int| 0 <= j < x.len() ==> (#[trigger] x[j] as u32) < 0x80) ==> utf8_len(x) == x.len(),
    decreases x.len(),
{
    if x.len() > 0 {
        let d = x.drop_last();
        assert forall|j: int| 0 <= j < d.len() implies d[j] == x[j] by {}
        lemma_utf8_bounds(d);
        if forall|j: int| 0 <= j < x.len() ==> (#[trigger] x[j] as u32) < 0x80 {
            assert((x[x.len() - 1] as u32) < 0x80);
            assert forall|j: int| 0 <= j < d.len() implies (#[trigger] d[j] as u32) < 0x80 by {
                assert(d[j] == x[j]);
            }
        }
    }
}

/// A stretch of the source without newlines leaves the count as it was.
proof fn lemma_newlines_flat(s: Seq<char>, a: int, b: int)
    requires
        0 <= a <= b <= s.len(),
        forall|j: int| a <= j < b ==> #[trigger] s[j] != '\n',
    ensures
        newlines_before(s, b) == newlines_before(s, a),
    decreases b - a,
{
    if a < b {
        lemma_newlines_flat(s, a, b - 1);
    }
}

/// Where a step emits a token, it covers the source it reads; a skip reads
/// no newline, or a single one that moves to the next line.
proof fn lemma_step_spans(s: Seq<char>, pos: int, line: nat)
    requires
        0 <= pos < s.len(),
        s.len() <= usize::MAX / 8,
        line <= u32::MAX,
    ensures
        match step(s, pos, line) {
            Step::Skip { next, line: l } => if l == line {
                forall|j: int| pos <= j < next ==> #[trigger] s[j] != '\n'
            } else {
                l == line + 1 && next == pos + 1 && s[pos] == '\n'
            },
            Step::Emit { token, next } => {
                &&& token.span.start < token.span.end <= 4 * next
                &&& token.span.line == token.span.line_end
                &&& is_ascii_text(s) ==> token.span.end == next && covers_source(s, token)
                &&& !lexeme_has_newline(token) ==> forall|j: int| pos <= j < next ==> #[trigger] s[j] != '\n'
            },
            _ => true,
        },
{
    lemma_step_facts(s, pos, line);
    let c = s[pos];
    if c == '\n' {
    } else if c == ' ' || c == '\r' || c == '\t' {
    } else if c == '"' {
        lemma_quote_end(s, pos + 1);
        let q = quote_end(s, pos + 1);
        if q < s.len() {
            let raw = s.subrange(pos + 1, q);
            lemma_utf8_bounds(raw);
            if is_ascii_text(s) {
                assert forall|j: int| 0 <= j < raw.len() implies (#[trigger] raw[j] as u32) < 0x80 by {
                    assert(raw[j] == s[pos + 1 + j]);
                }
                assert(s.subrange(pos, q + 1) =~= seq!['"'] + raw + seq!['"']);
            }
            if !raw.contains('\n') {
                assert forall|j: int| pos <= j < q + 1 implies #[trigger] s[j] != '\n' by {
                    if pos < j < q {
                        assert(raw[j - pos - 1] == s[j]);
                    }
                }
            }
        }
    } else if is_digit(c) {
        lemma_digits_end(s, pos);
        let p1 = digits_end(s, pos);
        if p1 + 1 < s.len() {
            lemma_digits_end(s, p1 + 1);
        }
        let p2 = fraction_end(s, p1);
        if p2 < s.len() && ascii_lower(s[p2]) == 'e' {
            let p3 = sign_end(s, p2 + 1);
            if p3 < s.len() {
                lemma_digits_end(s, p3);
                let p4 = digits_end(s, p3);
                let raw = s.subrange(pos, p4);
                assert forall|j: int| pos <= j < p4 implies #[trigger] s[j] != '\n' by {
                    if !lexeme_has_newline(
                        SpecToken {
                            tok_type: TokenType::Num,
                            literal: Some(LiteralView::Num(raw)),
                            lexeme: Some(raw),
                            span: span_of(pos, p4, line),
                        },
                    ) {
                        assert(raw[j - pos] == s[j]);
                    }
                }
            }
        }
    } else if ('A' <= c <= 'Z') || ('a' <= c <= 'z') || c == '_' || c == '$' {
        lemma_ident_end(s, pos + 1);
        let i = ident_end(s, pos + 1);
        let raw = s.subrange(pos, i);
        lemma_utf8_bounds(raw);
        if is_ascii_text(s) {
            assert forall|j: int| 0 <= j < raw.len() implies (#[trigger] raw[j] as u32) < 0x80 by {
                assert(raw[j] == s[pos + j]);
            }
        }
        assert forall|j: int| pos <= j < i && !raw.contains('\n') implies #[trigger] s[j] != '\n' by {
            assert(raw[j - pos] == s[j]);
        }
    } else if c == '!' || c == '=' || c == '<' || c == '>' {
        if pos + 1 < s.len() && s[pos + 1] == '=' {
            assert(seq![c, '='][0] == s[pos]);
        }
    } else if c == '/' {
        if pos + 1 < s.len() && s[pos + 1] == '/' {
            lemma_newline_end(s, pos + 2);
        }
    } else {
    }
}

proof fn lemma_scan_from_spans(s: Seq<char>, pos: int, line: nat, acc: Seq<SpecToken>)
    requires
        0 <= pos <= s.len(),
        s.len() <= usize::MAX / 8,
        line <= u32::MAX,
        spans_inv(s, acc, pos, line),
    ensures
        scan_from(s, pos, line, acc) matches ScanOutcome::Done { tokens, line: l } ==> spans_inv(
            s,
            tokens,
            s.len() as int,
            l,
        ),
    decreases s.len() - pos,
{
    if pos < s.len() {
        lemma_step_facts(s, pos, line);
        lemma_step_spans(s, pos, line);
        match step(s, pos, line) {
            Step::Skip { next, line: l } => {
                if l == line {
                    lemma_newlines_flat(s, pos, next);
                } else {
                    assert(newlines_before(s, pos + 1) == newlines_before(s, pos) + 1);
                }
                lemma_scan_from_spans(s, next, l, acc);
            },
            Step::Emit { token, next } => {
                let acc2 = acc.push(token);
                assert(spans_inv(s, acc2, next, line)) by {
                    assert forall|i: int| 0 <= i < acc.len() implies acc2[i] == acc[i] by {}
                    assert(acc2[acc.len() as int] == token);
                    if forall|i: int| 0 <= i < acc2.len() ==> !lexeme_has_newline(#[trigger] acc2[i]) {
                        assert forall|i: int| 0 <= i < acc.len() implies !lexeme_has_newline(#[trigger] acc[i]) by {
                            assert(acc2[i] == acc[i]);
                        }
                        assert(!lexeme_has_newline(acc2[acc.len() as int]));
                        lemma_newlines_flat(s, pos, next);
                    }
                }
                lemma_scan_from_spans(s, next, line, acc2);
            },
            _ => {},
        }
    }
}

/// A successful scan ends with exactly one end-of-input token, which carries
/// no text and no literal; it starts and ends at 0 when it is the only token,
/// and one past the end of the token before it otherwise.
pub proof fn law_scan_end_token(s: Seq<char>)
    requires
        s.len() <= usize::MAX / 8,
        spec_scan(s) is Ok,
    ensures
        ({
            let toks = spec_scan(s)->Ok_0;
            let n = toks.len();
            &&& n >= 1
            &&& toks[n - 1].tok_type == TokenType::Eof
            &&& toks[n - 1].lexeme is None
            &&& toks[n - 1].literal is None
            &&& forall|i: int| 0 <= i < n - 1 ==> (#[trigger] toks[i]).tok_type != TokenType::Eof
            &&& toks[n - 1].span.start == toks[n - 1].span.end
            &&& toks[n - 1].span.start == if n == 1 {
                0
            } else {
                toks[n - 2].span.end + 1
            }
        }),
{
    law_scan_tokens(s);
    lemma_scan_from_inv(s, 0, 0, Seq::empty());
    lemma_scan_from_spans(s, 0, 0, Seq::empty());
    if let ScanOutcome::Done { tokens, line } = scan_from(s, 0, 0, Seq::empty()) {
        let toks = tokens.push(eof_token(tokens, line));
        assert(toks.drop_last() =~= tokens);
        assert forall|i: int| 0 <= i < toks.len() - 1 implies (#[trigger] toks[i]).tok_type != TokenType::Eof by {
            assert(toks[i] == tokens[i]);
        }
        if tokens.len() > 0 {
            assert(toks[toks.len() - 2] == tokens.last());
            assert(tokens.last().span.end <= 4 * s.len());
        }
    }
}

/// In a successful scan of an ASCII source, each token but the last covers
/// the source from its start to its end, the tokens follow one another
/// without overlapping, and each stays on one line.
pub proof fn law_scan_token_spans(s: Seq<char>)
    requires
        s.len() <= usize::MAX / 8,
        spec_scan(s) is Ok,
        is_ascii_text(s),
    ensures
        ({
            let toks = spec_scan(s)->Ok_0;
            let n = toks.len();
            &&& forall|i: int| 0 <= i < n - 1 ==> covers_source(s, #[trigger] toks[i])
            &&& forall|i: int| 0 <= i < n - 1 ==> (#[trigger] toks[i]).span.line == toks[i].span.line_end
            &&& forall|i: int, j: int|
                0 <= i < j < n - 1 ==> (#[trigger] toks[i]).span.end <= (#[trigger] toks[j]).span.start
        }),
{
    lemma_scan_from_spans(s, 0, 0, Seq::empty());
    if let ScanOutcome::Done { tokens, line } = scan_from(s, 0, 0, Seq::empty()) {
        let toks = tokens.push(eof_token(tokens, line));
        assert forall|i: int| 0 <= i < toks.len() - 1 implies toks[i] == tokens[i] by {}
    }
}

/// In a successful scan where no token's text holds a newline, each token
/// stands on the line given by the newlines before its start, and the
/// end-of-input token on the line given by all the newlines of the source.
pub proof fn law_scan_token_lines(s: Seq<char>)
    requires
        s.len() <= usize::MAX / 8,
        spec_scan(s) is Ok,
        forall|i: int| 0 <= i < spec_scan(s)->Ok_0.len() - 1 ==> !lexeme_has_newline(#[trigger] spec_scan(s)->Ok_0[i]),
    ensures
        ({
            let toks = spec_scan(s)->Ok_0;
            let n = toks.len();
            &&& forall|i: int|
                0 <= i < n - 1 ==> (#[trigger] toks[i]).span.line == newlines_before(s, toks[i].span.start as int)
                    && toks[i].span.line_end == toks[i].span.line
            &&& toks[n - 1].span.line == newlines_before(s, s.len() as int)
        }),
{
    lemma_scan_from_inv(s, 0, 0, Seq::empty());
    lemma_scan_from_spans(s, 0, 0, Seq::empty());
    if let ScanOutcome::Done { tokens, line } = scan_from(s, 0, 0, Seq::empty()) {
        let toks = tokens.push(eof_token(tokens, line));
        assert forall|i: int| 0 <= i < tokens.len() implies toks[i] == tokens[i] by {}
        assert forall|i: int| 0 <= i < tokens.len() implies !lexeme_has_newline(#[trigger] tokens[i]) by {
            assert(toks[i] == tokens[i]);
        }
    }
}

// ---------------------------------------------------------------------------
// Character helpers
// ---------------------------------------------------------------------------

pub fn is_ascii_digit(c: char) -> (r: bool)
    ensures
        r == is_digit(c),
{
    '0' <= c && c <= '9'
}

pub fn to_ascii_lowercase(c: char) -> (r: char)
    ensures
        r == ascii_lower(c),
{
    if 'A' <= c && c <= 'Z' {
        (((c as u32) + 32) as u8) as char
    } else {
        c
    }
}

pub fn to_ascii_uppercase(c: char) -> (r: char)
    ensures
        r == ascii_upper(c),
{
    if 'a' <= c && c <= 'z' {
        (((c as u32) - 32) as u8) as char
    } else {
        c
    }
}

pub fn utf8_char_len(c: char) -> (r: usize)
    ensures
        r == char_utf8_len(c),
        1 <= r <= 4,
{
    let x = c as u32;
    if x < 0x80 {
        1
    } else if x < 0x800 {
        2
    } else if x < 0x10000 {
        3
    } else {
        4
    }
}

proof fn lemma_utf8_push(s: Seq<char>, c: char)
    ensures
        utf8_len(s.push(c)) == utf8_len(s) + char_utf8_len(c),
{
    assert(s.push(c).drop_last() =~= s);
}

// ---------------------------------------------------------------------------
// The scanner
// ---------------------------------------------------------------------------

/// Splits a source text into tokens.
pub struct Scanner {
    chars: Vec<char>,
    pos: usize,
    line: u32,
}

impl Scanner {
    /// The tokens of `source`, ending with an end-of-input token, or the first
    /// error met on the way.
    pub fn scan(source: &str) -> (r: Result<Vec<Token>, ScanError>)
        requires
            !scan_panics(source@),
            source@.len() <= usize::MAX / 8,
        ensures
            match r {
                Ok(tokens) => spec_scan(source@) == Ok::<Seq<SpecToken>, ScanError>(tokens_view(tokens@)),
                Err(e) => spec_scan(source@) == Err::<Seq<SpecToken>, ScanError>(e),
            },
    {
        Self::scan_checked(source).unwrap()
    }

    /// Scans `source` as [`Scanner::scan`] does, or gives `None` where that
    /// scan would read past the end of the source (a number that ends in a
    /// dot at the very end) or count more lines than a `u32` holds.
    pub fn scan_checked(source: &str) -> (r: Option<Result<Vec<Token>, ScanError>>)
        requires
            source@.len() <= usize::MAX / 8,
        ensures
            r is None <==> scan_panics(source@),
            match r {
                Some(Ok(tokens)) => spec_scan(source@) == Ok::<Seq<SpecToken>, ScanError>(tokens_view(tokens@)),
                Some(Err(e)) => spec_scan(source@) == Err::<Seq<SpecToken>, ScanError>(e),
                None => true,
            },
    {
        let mut scanner = Scanner { chars: chars_of(source), pos: 0, line: 0 };
        scanner.scan_tokens()
    }

    fn match_next(&mut self, expected: char) -> (r: bool)
        ensures
            r == (old(self).pos < old(self).chars@.len() && old(self).chars@[old(self).pos as int] == expected),
            final(self).pos == if r { old(self).pos + 1 } else { old(self).pos as int },
            final(self).chars@ == old(self).chars@,
            final(self).line == old(self).line,
    {
        if self.is_at_end() {
            return false;
        }
        if self.chars[self.pos] != expected {
            return false;
        }
        let len = self.chars.len();
        assert(self.pos < len);
        self.pos = self.pos + 1;
        true
    }

    fn peek(&self, offset: usize) -> (c: char)
        requires
            self.pos < self.chars@.len() ==> self.pos + offset < self.chars@.len(),
        ensures
            self.pos >= self.chars@.len() ==> c == '\0',
            self.pos < self.chars@.len() ==> c == self.chars@[self.pos + offset],
    {
        if self.is_at_end() {
            return '\0';
        }
        let len = self.chars.len();
        assert(self.pos + offset < len);
        self.chars[self.pos + offset]
    }

    fn advance(&mut self) -> (r: (usize, char))
        requires
            old(self).pos < old(self).chars@.len(),
        ensures
            r == (old(self).pos, old(self).chars@[old(self).pos as int]),
            final(self).pos == old(self).pos + 1,
            final(self).chars@ == old(self).chars@,
            final(self).line == old(self).line,
    {
        let len = self.chars.len();
        let c = self.chars[self.pos];
        let p = self.pos;
        assert(p < len);
        self.pos = self.pos + 1;
        (p, c)
    }

    fn is_at_end(&self) -> (r: bool)
        ensures
            r == (self.pos >= self.chars@.len()),
    {
        self.pos >= self.chars.len()
    }


    fn scan_string(&mut self, start: usize) -> (r: Result<Token, ScanError>)
        requires
            old(self).pos == start,
            start < old(self).chars@.len(),
            old(self).chars@[start as int] == '"',
            old(self).chars@.len() <= usize::MAX / 8,
        ensures
            final(self).chars@ == old(self).chars@,
            final(self).line == old(self).line,
            match string_step(old(self).chars@, start as int, old(self).line as nat) {
                Step::Emit { token, next } => r matches Ok(t) && t@ == token && final(self).pos == next
                    && t.span.end <= 4 * next,
                Step::Fail(e) => r == Err::<Token, ScanError>(e),
                _ => false,
            },
    {
        let ghost s = self.chars@;
        self.advance();
        let mut raw_str = String::new();
        let mut bytes: usize = 0;
        while self.peek(0) != '"' && !self.is_at_end()
            invariant
                self.chars@ == s,
                self.line == old(self).line,
                start < self.pos <= s.len(),
                s.len() <= usize::MAX / 8,
                raw_str@ == s.subrange(start + 1, self.pos as int),
                bytes == utf8_len(raw_str@),
                bytes <= 4 * (self.pos - start - 1),
                quote_end(s, start + 1) == quote_end(s, self.pos as int),
            decreases s.len() - self.pos,
        {
            let (_, c) = self.advance();
            proof {
                lemma_utf8_push(raw_str@, c);
            }
            push_char(&mut raw_str, c);
            bytes = bytes + utf8_char_len(c);
            assert(raw_str@ =~= s.subrange(start + 1, self.pos as int));
        }
        assert(quote_end(s, self.pos as int) == self.pos);

        if self.is_at_end() {
            return Err(ScanError::UnterminatedString {
                span: Span { start: start, end: start + bytes, line: self.line, line_end: self.line },
            });
        }

        self.advance();

        let len = bytes;
        Ok(Token {
            tok_type: TokenType::Str,
            literal: Some(Literal::Str(raw_str.clone())),
            lexeme: Some(raw_str),
            span: Span { start: start, end: start + len + 2, line: self.line, line_end: self.line },
        })
    }

    /// Consumes the run of ASCII digits at the current position.
    fn scan_digits(&mut self, Ghost(start): Ghost<int>, raw_str: &mut String)
        requires
            0 <= start <= old(self).pos <= old(self).chars@.len(),
            old(raw_str)@ == old(self).chars@.subrange(start, old(self).pos as int),
        ensures
            final(self).chars@ == old(self).chars@,
            final(self).line == old(self).line,
            final(self).pos == digits_end(old(self).chars@, old(self).pos as int),
            old(self).pos <= final(self).pos <= old(self).chars@.len(),
            final(raw_str)@ == final(self).chars@.subrange(start, final(self).pos as int),
    {
        let ghost s = self.chars@;
        proof {
            lemma_digits_end(s, old(self).pos as int);
        }
        while is_ascii_digit(self.peek(0))
            invariant
                self.chars@ == s,
                self.line == old(self).line,
                0 <= start <= old(self).pos <= self.pos <= s.len(),
                raw_str@ == s.subrange(start, self.pos as int),
                digits_end(s, old(self).pos as int) == digits_end(s, self.pos as int),
            decreases s.len() - self.pos,
        {
            let (_, c) = self.advance();
            push_char(raw_str, c);
            assert(raw_str@ =~= s.subrange(start, self.pos as int));
        }
    }

    /// Scans a number; `None` where the number ends in a dot that ends the
    /// source, where reading the character after the dot fails.
    fn scan_number(&mut self, start: usize) -> (r: Option<Result<Token, ScanError>>)
        requires
            old(self).pos == start,
            start < old(self).chars@.len(),
            is_digit(old(self).chars@[start as int]),
        ensures
            final(self).chars@ == old(self).chars@,
            final(self).line == old(self).line,
            match number_step(old(self).chars@, start as int, old(self).line as nat) {
                Step::Emit { token, next } => r matches Some(Ok(t)) && t@ == token && final(self).pos == next
                    && t.span.end <= 4 * next,
                Step::Fail(e) => r == Some(Err::<Token, ScanError>(e)),
                Step::Panic => r is None,
                _ => false,
            },
    {
        let ghost s = self.chars@;
        let mut raw_str = String::new();
        assert(raw_str@ =~= s.subrange(start as int, start as int));
        self.scan_digits(Ghost(start as int), &mut raw_str);

        if self.peek(0) == '.' {
            if self.pos >= self.chars.len() - 1 {
                return None;
            }
            if is_ascii_digit(self.peek(1)) {
                let (_, c) = self.advance();
                push_char(&mut raw_str, c);
                assert(raw_str@ =~= s.subrange(start as int, self.pos as int));
                self.scan_digits(Ghost(start as int), &mut raw_str);
            }
        }
        assert(self.pos == fraction_end(s, digits_end(s, start as int)));

        if to_ascii_lowercase(self.peek(0)) == 'e' {
            let (_, c) = self.advance();
            push_char(&mut raw_str, c);

            if self.peek(0) == '-' || self.peek(0) == '+' {
                let (_, c) = self.advance();
                push_char(&mut raw_str, c);
            }
            assert(raw_str@ =~= s.subrange(start as int, self.pos as int));
            if self.is_at_end() || !is_ascii_digit(self.peek(0)) {
                return Some(Err(ScanError::MalformedNumberLiteral {
                    span: Span { start: start, end: self.pos, line: self.line, line_end: self.line },
                }));
            }
            self.scan_digits(Ghost(start as int), &mut raw_str);
        }

        Some(Ok(Token {
            tok_type: TokenType::Num,
            literal: Some(Literal::Num(raw_str.clone())),
            lexeme: Some(raw_str),
            span: Span { start: start, end: self.pos, line: self.line, line_end: self.line },
        }))
    }

    fn scan_identifier(&mut self, start: usize, is_dollar: bool) -> (r: Token)
        requires
            old(self).pos == start,
            start < old(self).chars@.len(),
            old(self).chars@.len() <= usize::MAX / 8,
        ensures
            final(self).chars@ == old(self).chars@,
            final(self).line == old(self).line,
            match identifier_step(old(self).chars@, start as int, old(self).line as nat, is_dollar) {
                Step::Emit { token, next } => r@ == token && final(self).pos == next
                    && r.span.end <= 4 * next,
                _ => false,
            },
    {
        let ghost s = self.chars@;
        let mut raw_str = String::new();
        let mut word: Vec<char> = Vec::new();
        let (_, first) = self.advance();
        push_char(&mut raw_str, first);
        word.push(first);
        let mut bytes: usize = utf8_char_len(first);
        proof {
            lemma_utf8_push(Seq::<char>::empty(), first);
            assert(Seq::<char>::empty().push(first) =~= raw_str@);
            assert(raw_str@ =~= s.subrange(start as int, self.pos as int));
        }
        while is_alphabetic(self.peek(0)) || self.peek(0) == '_'
            invariant
                self.chars@ == s,
                self.line == old(self).line,
                start < self.pos <= s.len(),
                s.len() <= usize::MAX / 8,
                raw_str@ == s.subrange(start as int, self.pos as int),
                word@ == raw_str@,
                bytes == utf8_len(raw_str@),
                bytes <= 4 * (self.pos - start),
                ident_end(s, start + 1) == ident_end(s, self.pos as int),
            decreases s.len() - self.pos,
        {
            let (_, c) = self.advance();
            proof {
                lemma_utf8_push(raw_str@, c);
            }
            push_char(&mut raw_str, c);
            word.push(c);
            bytes = bytes + utf8_char_len(c);
            assert(raw_str@ =~= s.subrange(start as int, self.pos as int));
        }
        assert(ident_end(s, self.pos as int) == self.pos);
        let span = Span { start: start, end: start + bytes, line: self.line, line_end: self.line };

        match script_keyword(word.as_slice()) {
            Some(t) => Token { tok_type: t, literal: None, lexeme: Some(raw_str), span },
            None => {
                let mut upper: Vec<char> = Vec::new();
                let mut i: usize = 0;
                while i < word.len()
                    invariant
                        i <= word@.len(),
                        upper@ == ascii_upper_seq(word@).subrange(0, i as int),
                    decreases word@.len() - i,
                {
                    upper.push(to_ascii_uppercase(word[i]));
                    i = i + 1;
                    assert(upper@ =~= ascii_upper_seq(word@).subrange(0, i as int));
                }
                assert(upper@ =~= ascii_upper_seq(word@));
                match sql_keyword(upper.as_slice()) {
                    Some(k) => Token {
                        tok_type: TokenType::SqlKeyword(k),
                        literal: None,
                        lexeme: Some(raw_str),
                        span,
                    },
                    None => Token {
                        tok_type: TokenType::Identifier { dollar: is_dollar },
                        literal: Some(Literal::Str(raw_str.clone())),
                        lexeme: Some(raw_str),
                        span,
                    },
                }
            },
        }
    }

    fn scan_slash(&mut self, start: usize) -> (r: Option<Token>)
        requires
            old(self).pos == start,
            start < old(self).chars@.len(),
            old(self).chars@[start as int] == '/',
        ensures
            final(self).chars@ == old(self).chars@,
            final(self).line == old(self).line,
            match slash_step(old(self).chars@, start as int, old(self).line as nat) {
                Step::Emit { token, next } => r matches Some(t) && t@ == token && final(self).pos == next,
                Step::Skip { next, line } => r is None && final(self).pos == next && line == old(self).line,
                _ => false,
            },
    {
        let ghost s = self.chars@;
        self.advance();
        if self.match_next('/') {
            while !self.is_at_end() && self.peek(0) != '\n'
                invariant
                    self.chars@ == s,
                    self.line == old(self).line,
                    start + 2 <= self.pos <= s.len(),
                    newline_end(s, start + 2) == newline_end(s, self.pos as int),
                decreases s.len() - self.pos,
            {
                self.advance();
            }
            None
        } else {
            let mut lexeme = String::new();
            push_char(&mut lexeme, '/');
            assert(lexeme@ =~= seq!['/']);
            Some(Token {
                tok_type: TokenType::Symbol(Symbol::Slash),
                literal: None,
                lexeme: Some(lexeme),
                span: Span { start: start, end: start + 1, line: self.line, line_end: self.line },
            })
        }
    }

    fn scan_double_token(&mut self, start: usize, c: char) -> (r: Token)
        requires
            old(self).pos == start,
            start < old(self).chars@.len(),
            old(self).chars@[start as int] == c,
            c == '!' || c == '=' || c == '<' || c == '>',
        ensures
            final(self).chars@ == old(self).chars@,
            final(self).line == old(self).line,
            match double_step(old(self).chars@, start as int, old(self).line as nat) {
                Step::Emit { token, next } => r@ == token && final(self).pos == next,
                _ => false,
            },
    {
        self.advance();
        let mut lexeme = String::new();
        push_char(&mut lexeme, c);
        if self.match_next('=') {
            push_char(&mut lexeme, '=');
            assert(lexeme@ =~= seq![c, '=']);
            Token {
                tok_type: match c {
                    '!' => TokenType::Symbol(Symbol::BangEqual),
                    '=' => TokenType::Symbol(Symbol::EqualEqual),
                    '<' => TokenType::Symbol(Symbol::LessEqual),
                    _ => TokenType::Symbol(Symbol::GreaterEqual),
                },
                literal: None,
                lexeme: Some(lexeme),
                span: Span { start: start, end: start + 2, line: self.line, line_end: self.line },
            }
        } else {
            assert(lexeme@ =~= seq![c]);
            Token {
                tok_type: match c {
                    '!' => TokenType::Symbol(Symbol::Bang),
                    '=' => TokenType::Symbol(Symbol::Equal),
                    '<' => TokenType::Symbol(Symbol::Less),
                    _ => TokenType::Symbol(Symbol::Greater),
                },
                literal: None,
                lexeme: Some(lexeme),
                span: Span { start: start, end: start + 1, line: self.line, line_end: self.line },
            }
        }
    }

    fn scan_other(&mut self, start: usize, other: char) -> (r: Result<Token, ScanError>)
        requires
            old(self).pos == start,
            start < old(self).chars@.len(),
            old(self).chars@[start as int] == other,
        ensures
            final(self).chars@ == old(self).chars@,
            final(self).line == old(self).line,
            match other_step(old(self).chars@, start as int, old(self).line as nat) {
                Step::Emit { token, next } => r matches Ok(t) && t@ == token && final(self).pos == next,
                Step::Fail(e) => r == Err::<Token, ScanError>(e),
                _ => false,
            },
    {
        self.advance();
        if let Some(sym) = symbol_of(other) {
            let mut lexeme = String::new();
            push_char(&mut lexeme, other);
            assert(lexeme@ =~= seq![other]);
            Ok(Token {
                tok_type: TokenType::Symbol(sym),
                literal: None,
                lexeme: Some(lexeme),
                span: Span { start: start, end: start + 1, line: self.line, line_end: self.line },
            })
        } else {
            Err(ScanError::UnexpectedCharacter {
                span: Span { start: start, end: start + 1, line: self.line, line_end: self.line },
            })
        }
    }

    fn scan_eof(&mut self, start: usize) -> (r: Token)
        ensures
            *final(self) == *old(self),
            r@ == (SpecToken {
                tok_type: TokenType::Eof,
                literal: None,
                lexeme: None,
                span: span_of(start as int, start as int, old(self).line as nat),
            }),
    {
        Token {
            tok_type: TokenType::Eof,
            literal: None,
            lexeme: None,
            span: Span { start, end: start, line: self.line, line_end: self.line },
        }
    }


    fn scan_tokens(&mut self) -> (r: Option<Result<Vec<Token>, ScanError>>)
        requires
            old(self).pos == 0,
            old(self).line == 0,
            old(self).chars@.len() <= usize::MAX / 8,
        ensures
            r is None <==> scan_panics(old(self).chars@),
            match r {
                Some(Ok(tokens)) => spec_scan(old(self).chars@) == Ok::<Seq<SpecToken>, ScanError>(tokens_view(tokens@)),
                Some(Err(e)) => spec_scan(old(self).chars@) == Err::<Seq<SpecToken>, ScanError>(e),
                None => true,
            },
    {
        let ghost s = self.chars@;
        let ghost total = scan_from(s, 0, 0, Seq::empty());
        let mut tokens: Vec<Token> = vec![];
        assert(tokens_view(tokens@) =~= Seq::<SpecToken>::empty());

        while !self.is_at_end()
            invariant
                self.chars@ == s,
                s == old(self).chars@,
                self.pos <= s.len(),
                s.len() <= usize::MAX / 8,
                total == scan_from(s, 0, 0, Seq::empty()),
                scan_from(s, self.pos as int, self.line as nat, tokens_view(tokens@)) == total,
                forall|i: int| 0 <= i < tokens@.len() ==> #[trigger] tokens@[i].span.end <= 4 * self.pos,
            decreases s.len() - self.pos,
        {
            let start_idx = self.pos;
            let start_char = self.chars[self.pos];
            let ghost acc = tokens_view(tokens@);
            let ghost line0 = self.line as nat;
            assert(scan_from(s, start_idx as int, line0, acc) == total);
            proof {
                lemma_step_facts(s, start_idx as int, line0);
            }
            let matched: Option<Token> = match start_char {
                '\n' => {
                    if self.line == u32::MAX {
                        return None;
                    }
                    self.line = self.line + 1;
                    self.advance();
                    None
                },
                ' ' | '\r' | '\t' => {
                    self.advance();
                    None
                },
                '"' => match self.scan_string(start_idx) {
                    Ok(t) => Some(t),
                    Err(e) => {
                        assert(step(s, start_idx as int, line0) == string_step(s, start_idx as int, line0));
                        assert(total == ScanOutcome::Failed(e));
                        return Some(Err(e));
                    },
                },
                '0'..='9' => match self.scan_number(start_idx) {
                    Some(Ok(t)) => Some(t),
                    Some(Err(e)) => return Some(Err(e)),
                    None => return None,
                },
                'A'..='Z' | 'a'..='z' | '_' => Some(self.scan_identifier(start_idx, false)),
                '$' => Some(self.scan_identifier(start_idx, true)),
                '!' | '=' | '<' | '>' => Some(self.scan_double_token(start_idx, start_char)),
                '/' => self.scan_slash(start_idx),
                _ => match self.scan_other(start_idx, start_char) {
                    Ok(t) => Some(t),
                    Err(e) => return Some(Err(e)),
                },
            };
            if let Some(token) = matched {
                tokens.push(token);
                assert(tokens_view(tokens@) =~= acc.push(token@));
            }
        }

        assert(total == ScanOutcome::Done { tokens: tokens_view(tokens@), line: self.line as nat });
        let ghost acc = tokens_view(tokens@);
        if tokens.len() == 0 {
            let eof = self.scan_eof(0);
            tokens.push(eof);
        } else {
            let last_end = tokens[tokens.len() - 1].span.end;
            assert(acc.last() == tokens@[tokens@.len() - 1]@);
            let eof = self.scan_eof(last_end + 1);
            tokens.push(eof);
        }
        assert(tokens_view(tokens@) =~= acc.push(eof_token(acc, self.line as nat)));
        Some(Ok(tokens))
    }

}

} // verus!
