use vstd::prelude::*;
use crate::ast::{Literal, LiteralView};

verus! {

/// A region of the source text. `start` and `end` count characters from the
/// start of the source (for strings and identifiers `end` adds the UTF-8 length
/// of the text); `line` and `line_end` count the newlines seen before it.
#[derive(Clone, Copy, Debug, PartialEq, Eq, Structural)]
pub struct Span {
    pub start: usize,
    pub end: usize,
    pub line: u32,
    pub line_end: u32,
}

impl Span {
    /// The smallest span that covers both `self` and `other`.
    pub open spec fn spec_merge(self, other: Span) -> Span {
        Span {
            start: if self.start <= other.start { self.start } else { other.start },
            end: if self.end >= other.end { self.end } else { other.end },
            line: if self.line <= other.line { self.line } else { other.line },
            line_end: if self.line_end >= other.line_end { self.line_end } else { other.line_end },
        }
    }

    pub fn merge(&self, other: &Span) -> (r: Span)
        ensures
            r == self.spec_merge(*other),
    {
        Span {
            start: if self.start <= other.start { self.start } else { other.start },
            end: if self.end >= other.end { self.end } else { other.end },
            line: if self.line <= other.line { self.line } else { other.line },
            line_end: if self.line_end >= other.line_end { self.line_end } else { other.line_end },
        }
    }

    /// The empty span at the very start of the source.
    pub open spec fn spec_zero() -> Span {
        Span { start: 0, end: 0, line: 0, line_end: 0 }
    }
}

impl Default for Span {
    fn default() -> (r: Span)
        ensures
            r == Span::spec_zero(),
    {
        Span { start: 0, end: 0, line: 0, line_end: 0 }
    }
}

/// Something that covers a region of the source text.
pub trait Spanned {
    spec fn spec_span(&self) -> Span;

    fn get_span(&self) -> (s: Span)
        ensures
            s == self.spec_span(),
    ;
}

impl Spanned for Span {
    open spec fn spec_span(&self) -> Span {
        *self
    }

    fn get_span(&self) -> (s: Span) {
        *self
    }
}

#[derive(Clone, Copy, Debug, PartialEq, Eq, Structural)]
pub enum Symbol {
    Comma,
    Colon,
    Semicolon,
    Dot,
    Minus,
    Plus,
    Slash,
    Star,
    LeftParen,
    RightParen,
    LeftBrace,
    RightBrace,
    LeftBracket,
    RightBracket,
    Bang,
    BangEqual,
    Equal,
    EqualEqual,
    Greater,
    GreaterEqual,
    Less,
    LessEqual,
    LogicalAnd,
    LogicalOr,
}

#[derive(Clone, Copy, Debug, PartialEq, Eq, Structural)]
pub enum Keyword {
    And,
    Or,
    Class,
    Else,
    Fun,
    For,
    If,
    Break,
    Continue,
    Return,
    Super,
    This,
    Var,
    While,
    Loop,
}

#[derive(Clone, Copy, Debug, PartialEq, Eq, Structural)]
pub enum SqlKeyword {
    Begin, Transaction, Rollback, Commit, Where, Having, Asc, Desc, Order, By, Explain, Is, Not,
    Null, Offset, Like, Limit, And, Or, Join, Inner, Outer, Right, Left, On, Create, Insert, Update,
    Delete, Drop, Into, Values, Index, Collection, Select, From, As, Cross, Default, Group, Key, Of,
    Only, Primary, References, SetKw, System, Unique, Read, Write, Union, Intersect, Except, All,
    Distinct, In, Between,
}

#[derive(Clone, Copy, Debug, PartialEq, Eq, Structural)]
pub enum TokenType {
    Str,
    Num,
    Null,
    Undefined,
    False,
    True,
    Identifier { dollar: bool },
    Symbol(Symbol),
    Keyword(Keyword),
    SqlKeyword(SqlKeyword),
    Eof,
}

/// The single characters that stand for a symbol on their own.
pub open spec fn spec_symbol(c: char) -> Option<Symbol> {
    if c == '(' {
        Some(Symbol::LeftParen)
    } else if c == ')' {
        Some(Symbol::RightParen)
    } else if c == '{' {
        Some(Symbol::LeftBrace)
    } else if c == '}' {
        Some(Symbol::RightBrace)
    } else if c == '[' {
        Some(Symbol::LeftBracket)
    } else if c == ']' {
        Some(Symbol::RightBracket)
    } else if c == ',' {
        Some(Symbol::Comma)
    } else if c == '.' {
        Some(Symbol::Dot)
    } else if c == '-' {
        Some(Symbol::Minus)
    } else if c == '+' {
        Some(Symbol::Plus)
    } else if c == ';' {
        Some(Symbol::Semicolon)
    } else if c == '*' {
        Some(Symbol::Star)
    } else if c == ':' {
        Some(Symbol::Colon)
    } else if c == '/' {
        Some(Symbol::Slash)
    } else {
        None
    }
}

/// Looks a character up among the single-character symbols.
pub fn symbol_of(c: char) -> (r: Option<Symbol>)
    ensures
        r == spec_symbol(c),
{
    match c {
        '(' => Some(Symbol::LeftParen),
        ')' => Some(Symbol::RightParen),
        '{' => Some(Symbol::LeftBrace),
        '}' => Some(Symbol::RightBrace),
        '[' => Some(Symbol::LeftBracket),
        ']' => Some(Symbol::RightBracket),
        ',' => Some(Symbol::Comma),
        '.' => Some(Symbol::Dot),
        '-' => Some(Symbol::Minus),
        '+' => Some(Symbol::Plus),
        ';' => Some(Symbol::Semicolon),
        '*' => Some(Symbol::Star),
        ':' => Some(Symbol::Colon),
        '/' => Some(Symbol::Slash),
        _ => None,
    }
}

/// Compares two character slices element by element.
pub fn chars_eq(a: &[char], b: &[char]) -> (r: bool)
    ensures
        r == (a@ == b@),
{
    if a.len() != b.len() {
        return false;
    }
    let mut i: usize = 0;
    while i < a.len()
        invariant
            a@.len() == b@.len(),
            i <= a@.len(),
            forall|j: int| 0 <= j < i ==> a@[j] == b@[j],
        decreases a@.len() - i,
    {
        if a[i] != b[i] {
            return false;
        }
        i = i + 1;
    }
    assert(a@ =~= b@);
    true
}

/// The SQL keywords, looked up by their upper-case spelling.
pub open spec fn spec_sql_keyword(w: Seq<char>) -> Option<SqlKeyword> {
    if w == seq!['B', 'E', 'G', 'I', 'N'] {
        Some(SqlKeyword::Begin)
    } else if w == seq!['T', 'R', 'A', 'N', 'S', 'A', 'C', 'T', 'I', 'O', 'N'] {
        Some(SqlKeyword::Transaction)
    } else if w == seq!['R', 'O', 'L', 'L', 'B', 'A', 'C', 'K'] {
        Some(SqlKeyword::Rollback)
    } else if w == seq!['C', 'O', 'M', 'M', 'I', 'T'] {
        Some(SqlKeyword::Commit)
    } else if w == seq!['W', 'H', 'E', 'R', 'E'] {
        Some(SqlKeyword::Where)
    } else if w == seq!['H', 'A', 'V', 'I', 'N', 'G'] {
        Some(SqlKeyword::Having)
    } else if w == seq!['A', 'S', 'C'] {
        Some(SqlKeyword::Asc)
    } else if w == seq!['D', 'E', 'S', 'C'] {
        Some(SqlKeyword::Desc)
    } else if w == seq!['O', 'R', 'D', 'E', 'R'] {
        Some(SqlKeyword::Order)
    } else if w == seq!['B', 'Y'] {
        Some(SqlKeyword::By)
    } else if w == seq!['E', 'X', 'P', 'L', 'A', 'I', 'N'] {
        Some(SqlKeyword::Explain)
    } else if w == seq!['I', 'S'] {
        Some(SqlKeyword::Is)
    } else if w == seq!['N', 'O', 'T'] {
        Some(SqlKeyword::Not)
    } else if w == seq!['N', 'U', 'L', 'L'] {
        Some(SqlKeyword::Null)
    } else if w == seq!['O', 'F', 'F', 'S', 'E', 'T'] {
        Some(SqlKeyword::Offset)
    } else if w == seq!['L', 'I', 'K', 'E'] {
        Some(SqlKeyword::Like)
    } else if w == seq!['L', 'I', 'M', 'I', 'T'] {
        Some(SqlKeyword::Limit)
    } else if w == seq!['A', 'N', 'D'] {
        Some(SqlKeyword::And)
    } else if w == seq!['O', 'R'] {
        Some(SqlKeyword::Or)
    } else if w == seq!['J', 'O', 'I', 'N'] {
        Some(SqlKeyword::Join)
    } else if w == seq!['I', 'N', 'N', 'E', 'R'] {
        Some(SqlKeyword::Inner)
    } else if w == seq!['O', 'U', 'T', 'E', 'R'] {
        Some(SqlKeyword::Outer)
    } else if w == seq!['R', 'I', 'G', 'H', 'T'] {
        Some(SqlKeyword::Right)
    } else if w == seq!['L', 'E', 'F', 'T'] {
        Some(SqlKeyword::Left)
    } else if w == seq!['O', 'N'] {
        Some(SqlKeyword::On)
    } else if w == seq!['C', 'R', 'E', 'A', 'T', 'E'] {
        Some(SqlKeyword::Create)
    } else if w == seq!['I', 'N', 'S', 'E', 'R', 'T'] {
        Some(SqlKeyword::Insert)
    } else if w == seq!['U', 'P', 'D', 'A', 'T', 'E'] {
        Some(SqlKeyword::Update)
    } else if w == seq!['D', 'E', 'L', 'E', 'T', 'E'] {
        Some(SqlKeyword::Delete)
    } else if w == seq!['D', 'R', 'O', 'P'] {
        Some(SqlKeyword::Drop)
    } else if w == seq!['I', 'N', 'T', 'O'] {
        Some(SqlKeyword::Into)
    } else if w == seq!['V', 'A', 'L', 'U', 'E', 'S'] {
        Some(SqlKeyword::Values)
    } else if w == seq!['I', 'N', 'D', 'E', 'X'] {
        Some(SqlKeyword::Index)
    } else if w == seq!['C', 'O', 'L', 'L', 'E', 'C', 'T', 'I', 'O', 'N'] {
        Some(SqlKeyword::Collection)
    } else if w == seq!['S', 'E', 'L', 'E', 'C', 'T'] {
        Some(SqlKeyword::Select)
    } else if w == seq!['F', 'R', 'O', 'M'] {
        Some(SqlKeyword::From)
    } else if w == seq!['A', 'S'] {
        Some(SqlKeyword::As)
    } else if w == seq!['C', 'R', 'O', 'S', 'S'] {
        Some(SqlKeyword::Cross)
    } else if w == seq!['D', 'E', 'F', 'A', 'U', 'L', 'T'] {
        Some(SqlKeyword::Default)
    } else if w == seq!['G', 'R', 'O', 'U', 'P'] {
        Some(SqlKeyword::Group)
    } else if w == seq!['K', 'E', 'Y'] {
        Some(SqlKeyword::Key)
    } else if w == seq!['O', 'F'] {
        Some(SqlKeyword::Of)
    } else if w == seq!['O', 'N', 'L', 'Y'] {
        Some(SqlKeyword::Only)
    } else if w == seq!['P', 'R', 'I', 'M', 'A', 'R', 'Y'] {
        Some(SqlKeyword::Primary)
    } else if w == seq!['R', 'E', 'F', 'E', 'R', 'E', 'N', 'C', 'E', 'S'] {
        Some(SqlKeyword::References)
    } else if w == seq!['S', 'E', 'T'] {
        Some(SqlKeyword::SetKw)
    } else if w == seq!['S', 'Y', 'S', 'T', 'E', 'M'] {
        Some(SqlKeyword::System)
    } else if w == seq!['U', 'N', 'I', 'Q', 'U', 'E'] {
        Some(SqlKeyword::Unique)
    } else if w == seq!['R', 'E', 'A', 'D'] {
        Some(SqlKeyword::Read)
    } else if w == seq!['W', 'R', 'I', 'T', 'E'] {
        Some(SqlKeyword::Write)
    } else if w == seq!['U', 'N', 'I', 'O', 'N'] {
        Some(SqlKeyword::Union)
    } else if w == seq!['I', 'N', 'T', 'E', 'R', 'S', 'E', 'C', 'T'] {
        Some(SqlKeyword::Intersect)
    } else if w == seq!['E', 'X', 'C', 'E', 'P', 'T'] {
        Some(SqlKeyword::Except)
    } else if w == seq!['A', 'L', 'L'] {
        Some(SqlKeyword::All)
    } else if w == seq!['D', 'I', 'S', 'T', 'I', 'N', 'C', 'T'] {
        Some(SqlKeyword::Distinct)
    } else if w == seq!['I', 'N'] {
        Some(SqlKeyword::In)
    } else if w == seq!['B', 'E', 'T', 'W', 'E', 'E', 'N'] {
        Some(SqlKeyword::Between)
    } else {
        None
    }
}

/// The case-sensitive keywords of the scripting language.
pub open spec fn spec_script_keyword(w: Seq<char>) -> Option<TokenType> {
    if w == seq!['a', 'n', 'd'] {
        Some(TokenType::Keyword(Keyword::And))
    } else if w == seq!['o', 'r'] {
        Some(TokenType::Keyword(Keyword::Or))
    } else if w == seq!['c', 'l', 'a', 's', 's'] {
        Some(TokenType::Keyword(Keyword::Class))
    } else if w == seq!['e', 'l', 's', 'e'] {
        Some(TokenType::Keyword(Keyword::Else))
    } else if w == seq!['f', 'o', 'r'] {
        Some(TokenType::Keyword(Keyword::For))
    } else if w == seq!['f', 'u', 'n'] {
        Some(TokenType::Keyword(Keyword::Fun))
    } else if w == seq!['i', 'f'] {
        Some(TokenType::Keyword(Keyword::If))
    } else if w == seq!['b', 'r', 'e', 'a', 'k'] {
        Some(TokenType::Keyword(Keyword::Break))
    } else if w == seq!['c', 'o', 'n', 't', 'i', 'n', 'u', 'e'] {
        Some(TokenType::Keyword(Keyword::Continue))
    } else if w == seq!['r', 'e', 't', 'u', 'r', 'n'] {
        Some(TokenType::Keyword(Keyword::Return))
    } else if w == seq!['s', 'u', 'p', 'e', 'r'] {
        Some(TokenType::Keyword(Keyword::Super))
    } else if w == seq!['t', 'h', 'i', 's'] {
        Some(TokenType::Keyword(Keyword::This))
    } else if w == seq!['v', 'a', 'r'] {
        Some(TokenType::Keyword(Keyword::Var))
    } else if w == seq!['w', 'h', 'i', 'l', 'e'] {
        Some(TokenType::Keyword(Keyword::While))
    } else if w == seq!['l', 'o', 'o', 'p'] {
        Some(TokenType::Keyword(Keyword::Loop))
    } else if w == seq!['t', 'r', 'u', 'e'] {
        Some(TokenType::True)
    } else if w == seq!['f', 'a', 'l', 's', 'e'] {
        Some(TokenType::False)
    } else if w == seq!['n', 'u', 'l', 'l'] {
        Some(TokenType::Null)
    } else if w == seq!['u', 'n', 'd', 'e', 'f', 'i', 'n', 'e', 'd'] {
        Some(TokenType::Undefined)
    } else {
        None
    }
}

/// Looks `w` up among the SQL keywords, by its upper-case spelling.
pub fn sql_keyword(w: &[char]) -> (r: Option<SqlKeyword>)
    ensures
        r == spec_sql_keyword(w@),
{
    if chars_eq(w, &['B', 'E', 'G', 'I', 'N']) {
        Some(SqlKeyword::Begin)
    } else if chars_eq(w, &['T', 'R', 'A', 'N', 'S', 'A', 'C', 'T', 'I', 'O', 'N']) {
        Some(SqlKeyword::Transaction)
    } else if chars_eq(w, &['R', 'O', 'L', 'L', 'B', 'A', 'C', 'K']) {
        Some(SqlKeyword::Rollback)
    } else if chars_eq(w, &['C', 'O', 'M', 'M', 'I', 'T']) {
        Some(SqlKeyword::Commit)
    } else if chars_eq(w, &['W', 'H', 'E', 'R', 'E']) {
        Some(SqlKeyword::Where)
    } else if chars_eq(w, &['H', 'A', 'V', 'I', 'N', 'G']) {
        Some(SqlKeyword::Having)
    } else if chars_eq(w, &['A', 'S', 'C']) {
        Some(SqlKeyword::Asc)
    } else if chars_eq(w, &['D', 'E', 'S', 'C']) {
        Some(SqlKeyword::Desc)
    } else if chars_eq(w, &['O', 'R', 'D', 'E', 'R']) {
        Some(SqlKeyword::Order)
    } else if chars_eq(w, &['B', 'Y']) {
        Some(SqlKeyword::By)
    } else if chars_eq(w, &['E', 'X', 'P', 'L', 'A', 'I', 'N']) {
        Some(SqlKeyword::Explain)
    } else if chars_eq(w, &['I', 'S']) {
        Some(SqlKeyword::Is)
    } else if chars_eq(w, &['N', 'O', 'T']) {
        Some(SqlKeyword::Not)
    } else if chars_eq(w, &['N', 'U', 'L', 'L']) {
        Some(SqlKeyword::Null)
    } else if chars_eq(w, &['O', 'F', 'F', 'S', 'E', 'T']) {
        Some(SqlKeyword::Offset)
    } else if chars_eq(w, &['L', 'I', 'K', 'E']) {
        Some(SqlKeyword::Like)
    } else if chars_eq(w, &['L', 'I', 'M', 'I', 'T']) {
        Some(SqlKeyword::Limit)
    } else if chars_eq(w, &['A', 'N', 'D']) {
        Some(SqlKeyword::And)
    } else if chars_eq(w, &['O', 'R']) {
        Some(SqlKeyword::Or)
    } else if chars_eq(w, &['J', 'O', 'I', 'N']) {
        Some(SqlKeyword::Join)
    } else if chars_eq(w, &['I', 'N', 'N', 'E', 'R']) {
        Some(SqlKeyword::Inner)
    } else if chars_eq(w, &['O', 'U', 'T', 'E', 'R']) {
        Some(SqlKeyword::Outer)
    } else if chars_eq(w, &['R', 'I', 'G', 'H', 'T']) {
        Some(SqlKeyword::Right)
    } else if chars_eq(w, &['L', 'E', 'F', 'T']) {
        Some(SqlKeyword::Left)
    } else if chars_eq(w, &['O', 'N']) {
        Some(SqlKeyword::On)
    } else if chars_eq(w, &['C', 'R', 'E', 'A', 'T', 'E']) {
        Some(SqlKeyword::Create)
    } else if chars_eq(w, &['I', 'N', 'S', 'E', 'R', 'T']) {
        Some(SqlKeyword::Insert)
    } else if chars_eq(w, &['U', 'P', 'D', 'A', 'T', 'E']) {
        Some(SqlKeyword::Update)
    } else if chars_eq(w, &['D', 'E', 'L', 'E', 'T', 'E']) {
        Some(SqlKeyword::Delete)
    } else if chars_eq(w, &['D', 'R', 'O', 'P']) {
        Some(SqlKeyword::Drop)
    } else if chars_eq(w, &['I', 'N', 'T', 'O']) {
        Some(SqlKeyword::Into)
    } else if chars_eq(w, &['V', 'A', 'L', 'U', 'E', 'S']) {
        Some(SqlKeyword::Values)
    } else if chars_eq(w, &['I', 'N', 'D', 'E', 'X']) {
        Some(SqlKeyword::Index)
    } else if chars_eq(w, &['C', 'O', 'L', 'L', 'E', 'C', 'T', 'I', 'O', 'N']) {
        Some(SqlKeyword::Collection)
    } else if chars_eq(w, &['S', 'E', 'L', 'E', 'C', 'T']) {
        Some(SqlKeyword::Select)
    } else if chars_eq(w, &['F', 'R', 'O', 'M']) {
        Some(SqlKeyword::From)
    } else if chars_eq(w, &['A', 'S']) {
        Some(SqlKeyword::As)
    } else if chars_eq(w, &['C', 'R', 'O', 'S', 'S']) {
        Some(SqlKeyword::Cross)
    } else if chars_eq(w, &['D', 'E', 'F', 'A', 'U', 'L', 'T']) {
        Some(SqlKeyword::Default)
    } else if chars_eq(w, &['G', 'R', 'O', 'U', 'P']) {
        Some(SqlKeyword::Group)
    } else if chars_eq(w, &['K', 'E', 'Y']) {
        Some(SqlKeyword::Key)
    } else if chars_eq(w, &['O', 'F']) {
        Some(SqlKeyword::Of)
    } else if chars_eq(w, &['O', 'N', 'L', 'Y']) {
        Some(SqlKeyword::Only)
    } else if chars_eq(w, &['P', 'R', 'I', 'M', 'A', 'R', 'Y']) {
        Some(SqlKeyword::Primary)
    } else if chars_eq(w, &['R', 'E', 'F', 'E', 'R', 'E', 'N', 'C', 'E', 'S']) {
        Some(SqlKeyword::References)
    } else if chars_eq(w, &['S', 'E', 'T']) {
        Some(SqlKeyword::SetKw)
    } else if chars_eq(w, &['S', 'Y', 'S', 'T', 'E', 'M']) {
        Some(SqlKeyword::System)
    } else if chars_eq(w, &['U', 'N', 'I', 'Q', 'U', 'E']) {
        Some(SqlKeyword::Unique)
    } else if chars_eq(w, &['R', 'E', 'A', 'D']) {
        Some(SqlKeyword::Read)
    } else if chars_eq(w, &['W', 'R', 'I', 'T', 'E']) {
        Some(SqlKeyword::Write)
    } else if chars_eq(w, &['U', 'N', 'I', 'O', 'N']) {
        Some(SqlKeyword::Union)
    } else if chars_eq(w, &['I', 'N', 'T', 'E', 'R', 'S', 'E', 'C', 'T']) {
        Some(SqlKeyword::Intersect)
    } else if chars_eq(w, &['E', 'X', 'C', 'E', 'P', 'T']) {
        Some(SqlKeyword::Except)
    } else if chars_eq(w, &['A', 'L', 'L']) {
        Some(SqlKeyword::All)
    } else if chars_eq(w, &['D', 'I', 'S', 'T', 'I', 'N', 'C', 'T']) {
        Some(SqlKeyword::Distinct)
    } else if chars_eq(w, &['I', 'N']) {
        Some(SqlKeyword::In)
    } else if chars_eq(w, &['B', 'E', 'T', 'W', 'E', 'E', 'N']) {
        Some(SqlKeyword::Between)
    } else {
        None
    }
}

/// Looks `w` up among the case-sensitive keywords of the scripting language.
pub fn script_keyword(w: &[char]) -> (r: Option<TokenType>)
    ensures
        r == spec_script_keyword(w@),
{
    if chars_eq(w, &['a', 'n', 'd']) {
        Some(TokenType::Keyword(Keyword::And))
    } else if chars_eq(w, &['o', 'r']) {
        Some(TokenType::Keyword(Keyword::Or))
    } else if chars_eq(w, &['c', 'l', 'a', 's', 's']) {
        Some(TokenType::Keyword(Keyword::Class))
    } else if chars_eq(w, &['e', 'l', 's', 'e']) {
        Some(TokenType::Keyword(Keyword::Else))
    } else if chars_eq(w, &['f', 'o', 'r']) {
        Some(TokenType::Keyword(Keyword::For))
    } else if chars_eq(w, &['f', 'u', 'n']) {
        Some(TokenType::Keyword(Keyword::Fun))
    } else if chars_eq(w, &['i', 'f']) {
        Some(TokenType::Keyword(Keyword::If))
    } else if chars_eq(w, &['b', 'r', 'e', 'a', 'k']) {
        Some(TokenType::Keyword(Keyword::Break))
    } else if chars_eq(w, &['c', 'o', 'n', 't', 'i', 'n', 'u', 'e']) {
        Some(TokenType::Keyword(Keyword::Continue))
    } else if chars_eq(w, &['r', 'e', 't', 'u', 'r', 'n']) {
        Some(TokenType::Keyword(Keyword::Return))
    } else if chars_eq(w, &['s', 'u', 'p', 'e', 'r']) {
        Some(TokenType::Keyword(Keyword::Super))
    } else if chars_eq(w, &['t', 'h', 'i', 's']) {
        Some(TokenType::Keyword(Keyword::This))
    } else if chars_eq(w, &['v', 'a', 'r']) {
        Some(TokenType::Keyword(Keyword::Var))
    } else if chars_eq(w, &['w', 'h', 'i', 'l', 'e']) {
        Some(TokenType::Keyword(Keyword::While))
    } else if chars_eq(w, &['l', 'o', 'o', 'p']) {
        Some(TokenType::Keyword(Keyword::Loop))
    } else if chars_eq(w, &['t', 'r', 'u', 'e']) {
        Some(TokenType::True)
    } else if chars_eq(w, &['f', 'a', 'l', 's', 'e']) {
        Some(TokenType::False)
    } else if chars_eq(w, &['n', 'u', 'l', 'l']) {
        Some(TokenType::Null)
    } else if chars_eq(w, &['u', 'n', 'd', 'e', 'f', 'i', 'n', 'e', 'd']) {
        Some(TokenType::Undefined)
    } else {
        None
    }
}

/// A token carries what the parser reads from it: identifiers and strings
/// their text, numbers their text and literal.
pub open spec fn token_ok(t: SpecToken) -> bool {
    match t.tok_type {
        TokenType::Identifier { .. } => t.lexeme is Some && t.literal matches Some(
            LiteralView::Str(_),
        ),
        TokenType::Str => t.lexeme is Some && t.literal matches Some(LiteralView::Str(_)),
        TokenType::Num => t.lexeme is Some && t.literal matches Some(LiteralView::Num(_)),
        _ => true,
    }
}

/// A token stream the parser accepts as input: it ends with the end-of-input
/// token and every token carries what the parser reads from it.
pub open spec fn tokens_ok(ts: Seq<SpecToken>) -> bool {
    &&& ts.len() > 0
    &&& ts.last().tok_type == TokenType::Eof
    &&& forall|i: int| 0 <= i < ts.len() ==> token_ok(#[trigger] ts[i])
}

/// A variable, function or collection name.
#[derive(Debug, PartialEq, Eq)]
pub struct Identifier {
    pub name: String,
    pub dollar: bool,
}

impl Clone for Identifier {
    fn clone(&self) -> (r: Self)
        ensures
            r == *self,
    {
        Identifier { name: self.name.clone(), dollar: self.dollar }
    }
}

/// The mathematical content of a token.
pub struct SpecToken {
    pub tok_type: TokenType,
    pub literal: Option<LiteralView>,
    pub lexeme: Option<Seq<char>>,
    pub span: Span,
}

#[derive(Debug, PartialEq)]
pub struct Token {
    pub tok_type: TokenType,
    pub literal: Option<Literal>,
    pub lexeme: Option<String>,
    pub span: Span,
}

pub open spec fn option_literal_view(l: Option<Literal>) -> Option<LiteralView> {
    match l {
        Some(v) => Some(v@),
        None => None,
    }
}

pub open spec fn option_string_view(s: Option<String>) -> Option<Seq<char>> {
    match s {
        Some(v) => Some(v@),
        None => None,
    }
}

impl View for Token {
    type V = SpecToken;

    open spec fn view(&self) -> SpecToken {
        SpecToken {
            tok_type: self.tok_type,
            literal: option_literal_view(self.literal),
            lexeme: option_string_view(self.lexeme),
            span: self.span,
        }
    }
}

impl Clone for Token {
    fn clone(&self) -> (r: Self)
        ensures
            r@ == self@,
    {
        let literal = match &self.literal {
            Some(l) => Some(l.clone()),
            None => None,
        };
        let lexeme = match &self.lexeme {
            Some(s) => Some(s.clone()),
            None => None,
        };
        Token { tok_type: self.tok_type, literal, lexeme, span: self.span }
    }
}

impl Spanned for Token {
    open spec fn spec_span(&self) -> Span {
        self.span
    }

    fn get_span(&self) -> (s: Span) {
        self.span
    }
}

impl Token {
    /// The name that an identifier token carries.
    pub open spec fn spec_identifier(self) -> Option<(Seq<char>, bool)> {
        match self.tok_type {
            TokenType::Identifier { dollar } => match self.lexeme {
                Some(l) => Some((l@, dollar)),
                None => None,
            },
            _ => None,
        }
    }

    /// For an identifier token, the identifier it names.
    pub fn extract_identifier(&self) -> (r: Option<Identifier>)
        ensures
            match self.spec_identifier() {
                Some((name, dollar)) => r matches Some(id) && id.name@ == name && id.dollar == dollar,
                None => r is None,
            },
    {
        match self.tok_type {
            TokenType::Identifier { dollar } => match &self.lexeme {
                Some(l) => Some(Identifier { name: l.clone(), dollar }),
                None => None,
            },
            _ => None,
        }
    }
}

} // verus!
