//! The lexer: turns source text into a flat token stream that ends with one
//! end-of-file token. Matching is greedy: at each position the longest
//! prefix that forms a token wins.

use vstd::prelude::*;

verus! {

/// A token's kind, with the text or value that some kinds carry.
#[derive(Clone, Debug, PartialEq)]
pub enum TokInfo<'a> {
    EOF,
    Extern,
    Unsafe,
    And,
    Arrow,
    Assert,
    Bar,
    Bool,
    CDots,
    CloseBrace,
    CloseBracket,
    ClosePar,
    CloseStaticPar,
    Colon,
    Coma,
    Const,
    Current,
    Sharp,
    Div,
    Dot,
    Equal,
    Else,
    Enum,
    False,
    Function,
    Gt,
    Gte,
    Hat,
    IConst(i64),
    Ident(&'a str),
    If,
    Impl,
    Int,
    Let,
    Lt,
    Lte,
    Merge,
    Minus,
    Mod,
    Neq,
    Node,
    Nor,
    Not,
    OpenBrace,
    OpenBracket,
    OpenPar,
    OpenStaticPar,
    Operator,
    Or,
    Percent,
    Plus,
    Power,
    Pre,
    FBy,
    RConst(&'a str),
    Real,
    Returns,
    Semicolon,
    Slash,
    Star,
    Step,
    Struct,
    Tel,
    Then,
    True,
    Type,
    Var,
    When,
    With,
    Xor,
    Model,
    Package,
    Needs,
    Provides,
    Uses,
    Is,
    Body,
    End,
    Include,
    Str(&'a str),
}

/// A place in the source: line (from 1), column (from 0) and byte offset.
#[derive(Clone, Copy, Debug, PartialEq, Eq)]
pub struct Location {
    pub line: u64,
    pub col: u64,
    pub pos: u64,
}

/// A range of a source file.
#[derive(Clone, Copy, Debug, PartialEq, Eq)]
pub struct Span<'f> {
    pub file: &'f str,
    pub start: Location,
    pub end: Location,
}

/// A value with the place it was read from.
#[derive(Clone, Debug, PartialEq)]
pub struct Spanned<'f, T> {
    pub span: Span<'f>,
    pub item: T,
}

/// A token of the source.
pub type Tok<'a, 'f> = Spanned<'f, TokInfo<'a>>;

/// Why a source cannot be lexed.
#[derive(Clone, Copy, Debug, PartialEq, Eq)]
pub enum Error {
    UnclosedStr,
    UnclosedComment,
}

// ---------------------------------------------------------------------------
// What each word is

/// The keyword, operator or punctuation that the word spells, if any.
#[verifier::opaque]
pub open spec fn keyword_kind<'a>(w: Seq<char>) -> Option<TokInfo<'a>> {
    if w.len() == 6 && w[0] == 'e' && w[1] == 'x' && w[2] == 't' && w[3] == 'e' && w[4] == 'r' && w[5] == 'n' {
        Some(TokInfo::Extern)
    } else if w.len() == 6 && w[0] == 'u' && w[1] == 'n' && w[2] == 's' && w[3] == 'a' && w[4] == 'f' && w[5] == 'e' {
        Some(TokInfo::Unsafe)
    } else if w.len() == 3 && w[0] == 'a' && w[1] == 'n' && w[2] == 'd' {
        Some(TokInfo::And)
    } else if w.len() == 6 && w[0] == 'a' && w[1] == 's' && w[2] == 's' && w[3] == 'e' && w[4] == 'r' && w[5] == 't' {
        Some(TokInfo::Assert)
    } else if w.len() == 4 && w[0] == 'b' && w[1] == 'o' && w[2] == 'o' && w[3] == 'l' {
        Some(TokInfo::Bool)
    } else if w.len() == 5 && w[0] == 'c' && w[1] == 'o' && w[2] == 'n' && w[3] == 's' && w[4] == 't' {
        Some(TokInfo::Const)
    } else if w.len() == 7 && w[0] == 'c' && w[1] == 'u' && w[2] == 'r' && w[3] == 'r' && w[4] == 'e' && w[5] == 'n' && w[6] == 't' {
        Some(TokInfo::Current)
    } else if w.len() == 3 && w[0] == 'd' && w[1] == 'i' && w[2] == 'v' {
        Some(TokInfo::Div)
    } else if w.len() == 4 && w[0] == 'e' && w[1] == 'l' && w[2] == 's' && w[3] == 'e' {
        Some(TokInfo::Else)
    } else if w.len() == 4 && w[0] == 'e' && w[1] == 'n' && w[2] == 'u' && w[3] == 'm' {
        Some(TokInfo::Enum)
    } else if w.len() == 8 && w[0] == 'f' && w[1] == 'u' && w[2] == 'n' && w[3] == 'c' && w[4] == 't' && w[5] == 'i' && w[6] == 'o' && w[7] == 'n' {
        Some(TokInfo::Function)
    } else if w.len() == 5 && w[0] == 'f' && w[1] == 'a' && w[2] == 'l' && w[3] == 's' && w[4] == 'e' {
        Some(TokInfo::False)
    } else if w.len() == 2 && w[0] == 'i' && w[1] == 'f' {
        Some(TokInfo::If)
    } else if w.len() == 3 && w[0] == 'i' && w[1] == 'n' && w[2] == 't' {
        Some(TokInfo::Int)
    } else if w.len() == 3 && w[0] == 'l' && w[1] == 'e' && w[2] == 't' {
        Some(TokInfo::Let)
    } else if w.len() == 3 && w[0] == 'm' && w[1] == 'o' && w[2] == 'd' {
        Some(TokInfo::Mod)
    } else if w.len() == 4 && w[0] == 'n' && w[1] == 'o' && w[2] == 'd' && w[3] == 'e' {
        Some(TokInfo::Node)
    } else if w.len() == 3 && w[0] == 'n' && w[1] == 'o' && w[2] == 't' {
        Some(TokInfo::Not)
    } else if w.len() == 8 && w[0] == 'o' && w[1] == 'p' && w[2] == 'e' && w[3] == 'r' && w[4] == 'a' && w[5] == 't' && w[6] == 'o' && w[7] == 'r' {
        Some(TokInfo::Operator)
    } else if w.len() == 2 && w[0] == 'o' && w[1] == 'r' {
        Some(TokInfo::Or)
    } else if w.len() == 3 && w[0] == 'n' && w[1] == 'o' && w[2] == 'r' {
        Some(TokInfo::Nor)
    } else if w.len() == 3 && w[0] == 'f' && w[1] == 'b' && w[2] == 'y' {
        Some(TokInfo::FBy)
    } else if w.len() == 3 && w[0] == 'p' && w[1] == 'r' && w[2] == 'e' {
        Some(TokInfo::Pre)
    } else if w.len() == 4 && w[0] == 'r' && w[1] == 'e' && w[2] == 'a' && w[3] == 'l' {
        Some(TokInfo::Real)
    } else if w.len() == 7 && w[0] == 'r' && w[1] == 'e' && w[2] == 't' && w[3] == 'u' && w[4] == 'r' && w[5] == 'n' && w[6] == 's' {
        Some(TokInfo::Returns)
    } else if w.len() == 4 && w[0] == 's' && w[1] == 't' && w[2] == 'e' && w[3] == 'p' {
        Some(TokInfo::Step)
    } else if w.len() == 6 && w[0] == 's' && w[1] == 't' && w[2] == 'r' && w[3] == 'u' && w[4] == 'c' && w[5] == 't' {
        Some(TokInfo::Struct)
    } else if w.len() == 3 && w[0] == 't' && w[1] == 'e' && w[2] == 'l' {
        Some(TokInfo::Tel)
    } else if w.len() == 4 && w[0] == 't' && w[1] == 'y' && w[2] == 'p' && w[3] == 'e' {
        Some(TokInfo::Type)
    } else if w.len() == 4 && w[0] == 't' && w[1] == 'h' && w[2] == 'e' && w[3] == 'n' {
        Some(TokInfo::Then)
    } else if w.len() == 4 && w[0] == 't' && w[1] == 'r' && w[2] == 'u' && w[3] == 'e' {
        Some(TokInfo::True)
    } else if w.len() == 3 && w[0] == 'v' && w[1] == 'a' && w[2] == 'r' {
        Some(TokInfo::Var)
    } else if w.len() == 4 && w[0] == 'w' && w[1] == 'h' && w[2] == 'e' && w[3] == 'n' {
        Some(TokInfo::When)
    } else if w.len() == 4 && w[0] == 'w' && w[1] == 'i' && w[2] == 't' && w[3] == 'h' {
        Some(TokInfo::With)
    } else if w.len() == 3 && w[0] == 'x' && w[1] == 'o' && w[2] == 'r' {
        Some(TokInfo::Xor)
    } else if w.len() == 5 && w[0] == 'm' && w[1] == 'o' && w[2] == 'd' && w[3] == 'e' && w[4] == 'l' {
        Some(TokInfo::Model)
    } else if w.len() == 7 && w[0] == 'p' && w[1] == 'a' && w[2] == 'c' && w[3] == 'k' && w[4] == 'a' && w[5] == 'g' && w[6] == 'e' {
        Some(TokInfo::Package)
    } else if w.len() == 5 && w[0] == 'n' && w[1] == 'e' && w[2] == 'e' && w[3] == 'd' && w[4] == 's' {
        Some(TokInfo::Needs)
    } else if w.len() == 8 && w[0] == 'p' && w[1] == 'r' && w[2] == 'o' && w[3] == 'v' && w[4] == 'i' && w[5] == 'd' && w[6] == 'e' && w[7] == 's' {
        Some(TokInfo::Provides)
    } else if w.len() == 4 && w[0] == 'u' && w[1] == 's' && w[2] == 'e' && w[3] == 's' {
        Some(TokInfo::Uses)
    } else if w.len() == 2 && w[0] == 'i' && w[1] == 's' {
        Some(TokInfo::Is)
    } else if w.len() == 4 && w[0] == 'b' && w[1] == 'o' && w[2] == 'd' && w[3] == 'y' {
        Some(TokInfo::Body)
    } else if w.len() == 3 && w[0] == 'e' && w[1] == 'n' && w[2] == 'd' {
        Some(TokInfo::End)
    } else if w.len() == 7 && w[0] == 'i' && w[1] == 'n' && w[2] == 'c' && w[3] == 'l' && w[4] == 'u' && w[5] == 'd' && w[6] == 'e' {
        Some(TokInfo::Include)
    } else if w.len() == 5 && w[0] == 'm' && w[1] == 'e' && w[2] == 'r' && w[3] == 'g' && w[4] == 'e' {
        Some(TokInfo::Merge)
    } else if w.len() == 2 && w[0] == '-' && w[1] == '>' {
        Some(TokInfo::Arrow)
    } else if w.len() == 2 && w[0] == '=' && w[1] == '>' {
        Some(TokInfo::Impl)
    } else if w.len() == 2 && w[0] == '<' && w[1] == '=' {
        Some(TokInfo::Lte)
    } else if w.len() == 2 && w[0] == '<' && w[1] == '>' {
        Some(TokInfo::Neq)
    } else if w.len() == 2 && w[0] == '>' && w[1] == '=' {
        Some(TokInfo::Gte)
    } else if w.len() == 2 && w[0] == '.' && w[1] == '.' {
        Some(TokInfo::CDots)
    } else if w.len() == 2 && w[0] == '*' && w[1] == '*' {
        Some(TokInfo::Power)
    } else if w.len() == 2 && w[0] == '<' && w[1] == '<' {
        Some(TokInfo::OpenStaticPar)
    } else if w.len() == 2 && w[0] == '>' && w[1] == '>' {
        Some(TokInfo::CloseStaticPar)
    } else if w.len() == 1 && w[0] == '+' {
        Some(TokInfo::Plus)
    } else if w.len() == 1 && w[0] == '^' {
        Some(TokInfo::Hat)
    } else if w.len() == 1 && w[0] == '#' {
        Some(TokInfo::Sharp)
    } else if w.len() == 1 && w[0] == '-' {
        Some(TokInfo::Minus)
    } else if w.len() == 1 && w[0] == '/' {
        Some(TokInfo::Slash)
    } else if w.len() == 1 && w[0] == '%' {
        Some(TokInfo::Percent)
    } else if w.len() == 1 && w[0] == '*' {
        Some(TokInfo::Star)
    } else if w.len() == 1 && w[0] == '|' {
        Some(TokInfo::Bar)
    } else if w.len() == 1 && w[0] == '=' {
        Some(TokInfo::Equal)
    } else if w.len() == 1 && w[0] == '.' {
        Some(TokInfo::Dot)
    } else if w.len() == 1 && w[0] == ',' {
        Some(TokInfo::Coma)
    } else if w.len() == 1 && w[0] == ';' {
        Some(TokInfo::Semicolon)
    } else if w.len() == 1 && w[0] == ':' {
        Some(TokInfo::Colon)
    } else if w.len() == 1 && w[0] == '(' {
        Some(TokInfo::OpenPar)
    } else if w.len() == 1 && w[0] == ')' {
        Some(TokInfo::ClosePar)
    } else if w.len() == 1 && w[0] == '{' {
        Some(TokInfo::OpenBrace)
    } else if w.len() == 1 && w[0] == '}' {
        Some(TokInfo::CloseBrace)
    } else if w.len() == 1 && w[0] == '[' {
        Some(TokInfo::OpenBracket)
    } else if w.len() == 1 && w[0] == ']' {
        Some(TokInfo::CloseBracket)
    } else if w.len() == 1 && w[0] == '<' {
        Some(TokInfo::Lt)
    } else if w.len() == 1 && w[0] == '>' {
        Some(TokInfo::Gt)
    } else {
        None
    }
}

pub open spec fn is_digit(c: char) -> bool {
    '0' <= c && c <= '9'
}

pub open spec fn is_sign(c: char) -> bool {
    c == '+' || c == '-'
}

/// One or more decimal digits.
pub open spec fn is_digits(d: Seq<char>) -> bool {
    d.len() > 0 && forall|i: int| 0 <= i < d.len() ==> is_digit(#[trigger] d[i])
}

/// The number the decimal digits stand for.
pub open spec fn digits_value(d: Seq<char>) -> int
    decreases d.len(),
{
    if d.len() == 0 {
        0
    } else {
        10 * digits_value(d.drop_last()) + ((d.last() as u32) as int - 48)
    }
}

/// The value of an integer literal as `i64` reads it: an optional sign,
/// then digits, within the range of `i64`.
pub open spec fn int_value(w: Seq<char>) -> Option<int> {
    if w.len() > 0 && is_sign(w[0]) && is_digits(w.drop_first()) {
        let v = digits_value(w.drop_first());
        let signed = if w[0] == '-' { -v } else { v };
        if i64::MIN <= signed && signed <= i64::MAX { Some(signed) } else { None }
    } else if is_digits(w) {
        let v = digits_value(w);
        if v <= i64::MAX { Some(v) } else { None }
    } else {
        None
    }
}

/// `c` is the lower-case ASCII letter `lower`, in either case.
pub open spec fn same_letter(c: char, lower: char) -> bool {
    c == lower || (c as u32) + 32 == (lower as u32)
}

/// The word spells `lit` (lower-case ASCII), ignoring case.
pub open spec fn spells(b: Seq<char>, lit: Seq<char>) -> bool {
    b.len() == lit.len() && forall|i: int| 0 <= i < b.len() ==> same_letter(#[trigger] b[i], lit[i])
}

/// The number of leading characters before an exponent mark (`e` or `E`).
pub open spec fn mantissa_len(b: Seq<char>) -> nat
    decreases b.len(),
{
    if b.len() == 0 || b[0] == 'e' || b[0] == 'E' {
        0
    } else {
        1 + mantissa_len(b.drop_first())
    }
}

/// Digits with at most one dot, and at least one digit.
pub open spec fn is_mantissa(m: Seq<char>) -> bool {
    &&& forall|i: int| 0 <= i < m.len() ==> is_digit(#[trigger] m[i]) || m[i] == '.'
    &&& exists|i: int| 0 <= i < m.len() && is_digit(#[trigger] m[i])
    &&& forall|i: int, j: int| 0 <= i < j < m.len() && m[i] == '.' ==> m[j] != '.'
}

/// Nothing, or an exponent mark, an optional sign and digits.
pub open spec fn is_exponent(x: Seq<char>) -> bool {
    x.len() == 0 || (x.len() >= 2 && if is_sign(x[1]) {
        is_digits(x.skip(2))
    } else {
        is_digits(x.skip(1))
    })
}

/// A real literal as `f64` reads it: an optional sign, then `inf`,
/// `infinity` or `nan` in any case, or a decimal number with an optional
/// exponent.
pub open spec fn is_real(w: Seq<char>) -> bool {
    let b = if w.len() > 0 && is_sign(w[0]) { w.drop_first() } else { w };
    let k = mantissa_len(b) as int;
    ||| spells(b, seq!['i', 'n', 'f'])
    ||| spells(b, seq!['i', 'n', 'f', 'i', 'n', 'i', 't', 'y'])
    ||| spells(b, seq!['n', 'a', 'n'])
    ||| is_mantissa(b.take(k)) && is_exponent(b.skip(k))
}

/// Whether a character is alphabetic or numeric in Unicode's sense.
pub uninterp spec fn alphanumeric(c: char) -> bool;

/// Relies on char::is_alphanumeric, which depends on the character alone;
/// on ASCII it holds exactly of letters and digits.
#[verifier::external_body]
fn is_alphanumeric(c: char) -> (r: bool)
    ensures
        r == alphanumeric(c),
        (c as u32) < 128 ==> (r <==> (is_digit(c) || ('a' <= c && c <= 'z') || ('A' <= c && c
            <= 'Z'))),
{
    c.is_alphanumeric()
}

/// A word of alphanumeric characters.
pub open spec fn is_ident(w: Seq<char>) -> bool {
    forall|i: int| 0 <= i < w.len() ==> alphanumeric(#[trigger] w[i])
}

/// The word forms a token: a keyword, an integer, a real or an identifier.
#[verifier::opaque]
pub open spec fn recognized(w: Seq<char>) -> bool {
    keyword_kind(w).is_some() || int_value(w).is_some() || is_real(w) || is_ident(w)
}

/// The token kind that a recognized word gets: keywords first, then
/// integers, then reals, then identifiers.
#[verifier::opaque]
pub open spec fn info_is(t: TokInfo, w: Seq<char>) -> bool {
    match t {
        TokInfo::IConst(v) => keyword_kind(w).is_none() && int_value(w) == Some(v as int),
        TokInfo::RConst(x) => x@ == w && keyword_kind(w).is_none() && int_value(w).is_none()
            && is_real(w),
        TokInfo::Ident(x) => x@ == w && keyword_kind(w).is_none() && int_value(w).is_none()
            && !is_real(w) && is_ident(w),
        TokInfo::Str(_) => false,
        TokInfo::EOF => false,
        _ => keyword_kind(w) == Some(t),
    }
}

// ---------------------------------------------------------------------------
// Recognizing words

fn keyword_of<'a>(w: &[char]) -> (r: Option<TokInfo<'a>>)
    ensures
        r == keyword_kind::<'a>(w@),
{
    reveal(keyword_kind);
    let n = w.len();
    if n == 6 && w[0] == 'e' && w[1] == 'x' && w[2] == 't' && w[3] == 'e' && w[4] == 'r' && w[5] == 'n' {
        return Some(TokInfo::Extern);
    }
    if n == 6 && w[0] == 'u' && w[1] == 'n' && w[2] == 's' && w[3] == 'a' && w[4] == 'f' && w[5] == 'e' {
        return Some(TokInfo::Unsafe);
    }
    if n == 3 && w[0] == 'a' && w[1] == 'n' && w[2] == 'd' {
        return Some(TokInfo::And);
    }
    if n == 6 && w[0] == 'a' && w[1] == 's' && w[2] == 's' && w[3] == 'e' && w[4] == 'r' && w[5] == 't' {
        return Some(TokInfo::Assert);
    }
    if n == 4 && w[0] == 'b' && w[1] == 'o' && w[2] == 'o' && w[3] == 'l' {
        return Some(TokInfo::Bool);
    }
    if n == 5 && w[0] == 'c' && w[1] == 'o' && w[2] == 'n' && w[3] == 's' && w[4] == 't' {
        return Some(TokInfo::Const);
    }
    if n == 7 && w[0] == 'c' && w[1] == 'u' && w[2] == 'r' && w[3] == 'r' && w[4] == 'e' && w[5] == 'n' && w[6] == 't' {
        return Some(TokInfo::Current);
    }
    if n == 3 && w[0] == 'd' && w[1] == 'i' && w[2] == 'v' {
        return Some(TokInfo::Div);
    }
    if n == 4 && w[0] == 'e' && w[1] == 'l' && w[2] == 's' && w[3] == 'e' {
        return Some(TokInfo::Else);
    }
    if n == 4 && w[0] == 'e' && w[1] == 'n' && w[2] == 'u' && w[3] == 'm' {
        return Some(TokInfo::Enum);
    }
    if n == 8 && w[0] == 'f' && w[1] == 'u' && w[2] == 'n' && w[3] == 'c' && w[4] == 't' && w[5] == 'i' && w[6] == 'o' && w[7] == 'n' {
        return Some(TokInfo::Function);
    }
    if n == 5 && w[0] == 'f' && w[1] == 'a' && w[2] == 'l' && w[3] == 's' && w[4] == 'e' {
        return Some(TokInfo::False);
    }
    if n == 2 && w[0] == 'i' && w[1] == 'f' {
        return Some(TokInfo::If);
    }
    if n == 3 && w[0] == 'i' && w[1] == 'n' && w[2] == 't' {
        return Some(TokInfo::Int);
    }
    if n == 3 && w[0] == 'l' && w[1] == 'e' && w[2] == 't' {
        return Some(TokInfo::Let);
    }
    if n == 3 && w[0] == 'm' && w[1] == 'o' && w[2] == 'd' {
        return Some(TokInfo::Mod);
    }
    if n == 4 && w[0] == 'n' && w[1] == 'o' && w[2] == 'd' && w[3] == 'e' {
        return Some(TokInfo::Node);
    }
    if n == 3 && w[0] == 'n' && w[1] == 'o' && w[2] == 't' {
        return Some(TokInfo::Not);
    }
    if n == 8 && w[0] == 'o' && w[1] == 'p' && w[2] == 'e' && w[3] == 'r' && w[4] == 'a' && w[5] == 't' && w[6] == 'o' && w[7] == 'r' {
        return Some(TokInfo::Operator);
    }
    if n == 2 && w[0] == 'o' && w[1] == 'r' {
        return Some(TokInfo::Or);
    }
    if n == 3 && w[0] == 'n' && w[1] == 'o' && w[2] == 'r' {
        return Some(TokInfo::Nor);
    }
    if n == 3 && w[0] == 'f' && w[1] == 'b' && w[2] == 'y' {
        return Some(TokInfo::FBy);
    }
    if n == 3 && w[0] == 'p' && w[1] == 'r' && w[2] == 'e' {
        return Some(TokInfo::Pre);
    }
    if n == 4 && w[0] == 'r' && w[1] == 'e' && w[2] == 'a' && w[3] == 'l' {
        return Some(TokInfo::Real);
    }
    if n == 7 && w[0] == 'r' && w[1] == 'e' && w[2] == 't' && w[3] == 'u' && w[4] == 'r' && w[5] == 'n' && w[6] == 's' {
        return Some(TokInfo::Returns);
    }
    if n == 4 && w[0] == 's' && w[1] == 't' && w[2] == 'e' && w[3] == 'p' {
        return Some(TokInfo::Step);
    }
    if n == 6 && w[0] == 's' && w[1] == 't' && w[2] == 'r' && w[3] == 'u' && w[4] == 'c' && w[5] == 't' {
        return Some(TokInfo::Struct);
    }
    if n == 3 && w[0] == 't' && w[1] == 'e' && w[2] == 'l' {
        return Some(TokInfo::Tel);
    }
    if n == 4 && w[0] == 't' && w[1] == 'y' && w[2] == 'p' && w[3] == 'e' {
        return Some(TokInfo::Type);
    }
    if n == 4 && w[0] == 't' && w[1] == 'h' && w[2] == 'e' && w[3] == 'n' {
        return Some(TokInfo::Then);
    }
    if n == 4 && w[0] == 't' && w[1] == 'r' && w[2] == 'u' && w[3] == 'e' {
        return Some(TokInfo::True);
    }
    if n == 3 && w[0] == 'v' && w[1] == 'a' && w[2] == 'r' {
        return Some(TokInfo::Var);
    }
    if n == 4 && w[0] == 'w' && w[1] == 'h' && w[2] == 'e' && w[3] == 'n' {
        return Some(TokInfo::When);
    }
    if n == 4 && w[0] == 'w' && w[1] == 'i' && w[2] == 't' && w[3] == 'h' {
        return Some(TokInfo::With);
    }
    if n == 3 && w[0] == 'x' && w[1] == 'o' && w[2] == 'r' {
        return Some(TokInfo::Xor);
    }
    if n == 5 && w[0] == 'm' && w[1] == 'o' && w[2] == 'd' && w[3] == 'e' && w[4] == 'l' {
        return Some(TokInfo::Model);
    }
    if n == 7 && w[0] == 'p' && w[1] == 'a' && w[2] == 'c' && w[3] == 'k' && w[4] == 'a' && w[5] == 'g' && w[6] == 'e' {
        return Some(TokInfo::Package);
    }
    if n == 5 && w[0] == 'n' && w[1] == 'e' && w[2] == 'e' && w[3] == 'd' && w[4] == 's' {
        return Some(TokInfo::Needs);
    }
    if n == 8 && w[0] == 'p' && w[1] == 'r' && w[2] == 'o' && w[3] == 'v' && w[4] == 'i' && w[5] == 'd' && w[6] == 'e' && w[7] == 's' {
        return Some(TokInfo::Provides);
    }
    if n == 4 && w[0] == 'u' && w[1] == 's' && w[2] == 'e' && w[3] == 's' {
        return Some(TokInfo::Uses);
    }
    if n == 2 && w[0] == 'i' && w[1] == 's' {
        return Some(TokInfo::Is);
    }
    if n == 4 && w[0] == 'b' && w[1] == 'o' && w[2] == 'd' && w[3] == 'y' {
        return Some(TokInfo::Body);
    }
    if n == 3 && w[0] == 'e' && w[1] == 'n' && w[2] == 'd' {
        return Some(TokInfo::End);
    }
    if n == 7 && w[0] == 'i' && w[1] == 'n' && w[2] == 'c' && w[3] == 'l' && w[4] == 'u' && w[5] == 'd' && w[6] == 'e' {
        return Some(TokInfo::Include);
    }
    if n == 5 && w[0] == 'm' && w[1] == 'e' && w[2] == 'r' && w[3] == 'g' && w[4] == 'e' {
        return Some(TokInfo::Merge);
    }
    if n == 2 && w[0] == '-' && w[1] == '>' {
        return Some(TokInfo::Arrow);
    }
    if n == 2 && w[0] == '=' && w[1] == '>' {
        return Some(TokInfo::Impl);
    }
    if n == 2 && w[0] == '<' && w[1] == '=' {
        return Some(TokInfo::Lte);
    }
    if n == 2 && w[0] == '<' && w[1] == '>' {
        return Some(TokInfo::Neq);
    }
    if n == 2 && w[0] == '>' && w[1] == '=' {
        return Some(TokInfo::Gte);
    }
    if n == 2 && w[0] == '.' && w[1] == '.' {
        return Some(TokInfo::CDots);
    }
    if n == 2 && w[0] == '*' && w[1] == '*' {
        return Some(TokInfo::Power);
    }
    if n == 2 && w[0] == '<' && w[1] == '<' {
        return Some(TokInfo::OpenStaticPar);
    }
    if n == 2 && w[0] == '>' && w[1] == '>' {
        return Some(TokInfo::CloseStaticPar);
    }
    if n == 1 && w[0] == '+' {
        return Some(TokInfo::Plus);
    }
    if n == 1 && w[0] == '^' {
        return Some(TokInfo::Hat);
    }
    if n == 1 && w[0] == '#' {
        return Some(TokInfo::Sharp);
    }
    if n == 1 && w[0] == '-' {
        return Some(TokInfo::Minus);
    }
    if n == 1 && w[0] == '/' {
        return Some(TokInfo::Slash);
    }
    if n == 1 && w[0] == '%' {
        return Some(TokInfo::Percent);
    }
    if n == 1 && w[0] == '*' {
        return Some(TokInfo::Star);
    }
    if n == 1 && w[0] == '|' {
        return Some(TokInfo::Bar);
    }
    if n == 1 && w[0] == '=' {
        return Some(TokInfo::Equal);
    }
    if n == 1 && w[0] == '.' {
        return Some(TokInfo::Dot);
    }
    if n == 1 && w[0] == ',' {
        return Some(TokInfo::Coma);
    }
    if n == 1 && w[0] == ';' {
        return Some(TokInfo::Semicolon);
    }
    if n == 1 && w[0] == ':' {
        return Some(TokInfo::Colon);
    }
    if n == 1 && w[0] == '(' {
        return Some(TokInfo::OpenPar);
    }
    if n == 1 && w[0] == ')' {
        return Some(TokInfo::ClosePar);
    }
    if n == 1 && w[0] == '{' {
        return Some(TokInfo::OpenBrace);
    }
    if n == 1 && w[0] == '}' {
        return Some(TokInfo::CloseBrace);
    }
    if n == 1 && w[0] == '[' {
        return Some(TokInfo::OpenBracket);
    }
    if n == 1 && w[0] == ']' {
        return Some(TokInfo::CloseBracket);
    }
    if n == 1 && w[0] == '<' {
        return Some(TokInfo::Lt);
    }
    if n == 1 && w[0] == '>' {
        return Some(TokInfo::Gt);
    }
    None
}

proof fn lemma_digits_grow(d: Seq<char>, k: int)
    requires
        0 <= k <= d.len(),
        forall|i: int| 0 <= i < d.len() ==> is_digit(#[trigger] d[i]),
    ensures
        0 <= digits_value(d.take(k)) <= digits_value(d),
    decreases d.len(),
{
    if d.len() > 0 {
        if k < d.len() {
            assert(d.drop_last().take(k) =~= d.take(k));
            lemma_digits_grow(d.drop_last(), k);
        } else {
            assert(d.take(k) =~= d);
            lemma_digits_grow(d.drop_last(), k - 1);
            assert(d.drop_last().take(k - 1) =~= d.drop_last());
        }
    } else {
        assert(d.take(k) =~= d);
    }
}

/// Reads an integer literal the way `i64` does.
fn parse_int(w: &[char]) -> (r: Option<i64>)
    ensures
        match r {
            Some(v) => int_value(w@) == Some(v as int),
            None => int_value(w@).is_none(),
        },
{
    let n = w.len();
    if n == 0 {
        return None;
    }
    let signed = w[0] == '+' || w[0] == '-';
    let negative = w[0] == '-';
    let start: usize = if signed { 1 } else { 0 };
    let ghost d = w@.skip(start as int);
    assert(signed ==> d =~= w@.drop_first());
    assert(!signed ==> d =~= w@);
    if start >= n {
        return None;
    }
    proof {
        if signed {
            assert(!is_digit(w@[0]));
            assert(!is_digits(w@));
        }
        if is_digits(d) {
            lemma_digits_grow(d, 0);
        }
        assert(int_value(w@) == (if is_digits(d) {
            let sv = if negative { -digits_value(d) } else { digits_value(d) };
            if i64::MIN <= sv && sv <= i64::MAX { Some(sv) } else { None }
        } else {
            None::<int>
        }));
    }
    let mut acc: u64 = 0;
    let mut i: usize = start;
    while i < n
        invariant
            start <= i <= n,
            n == w@.len(),
            d == w@.skip(start as int),
            acc as int == digits_value(d.take(i - start)),
            acc <= 9223372036854775808,
            forall|j: int| start <= j < i ==> is_digit(#[trigger] w@[j]),
            int_value(w@) == (if is_digits(d) {
                let sv = if negative { -digits_value(d) } else { digits_value(d) };
                if i64::MIN <= sv && sv <= i64::MAX { Some(sv) } else { None }
            } else {
                None::<int>
            }),
        decreases n - i,
    {
        let c = w[i];
        if !('0' <= c && c <= '9') {
            assert(!is_digit(d[i - start]));
            assert(!is_digits(d));
            return None;
        }
        let digit = (c as u32 - 48) as u64;
        proof {
            assert(d.take(i - start + 1).drop_last() =~= d.take(i - start));
            assert(d.take(i - start + 1).last() == c);
        }
        if acc > 922337203685477580 {
            proof {
                if is_digits(d) {
                    lemma_digits_grow(d, i - start + 1);
                }
            }
            return None;
        }
        acc = acc * 10 + digit;
        if acc > 9223372036854775808 {
            proof {
                if is_digits(d) {
                    lemma_digits_grow(d, i - start + 1);
                }
            }
            return None;
        }
        i = i + 1;
    }
    assert(d.take(n - start) =~= d);
    assert forall|j: int| 0 <= j < d.len() implies is_digit(#[trigger] d[j]) by {
        assert(d[j] == w@[j + start]);
    }
    assert(is_digits(d));
    assert(acc as int == digits_value(d));
    assert(signed ==> is_sign(w@[0]) && is_digits(w@.drop_first()));
    assert(!signed ==> !is_sign(w@[0]));
    assert(negative ==> signed);
    assert(signed ==> int_value(w@) == Some(if negative { -digits_value(d) } else { digits_value(d) }) || int_value(w@).is_none());
    if negative {
        if acc == 9223372036854775808 {
            assert(int_value(w@) == Some(-digits_value(d)));
            Some(i64::MIN)
        } else {
            Some(-(acc as i64))
        }
    } else if acc > 9223372036854775807 {
        None
    } else {
        Some(acc as i64)
    }
}

/// The word spells `lit` (lower-case ASCII letters) ignoring case, from `start` on.
fn spells_at(w: &[char], start: usize, lit: &[char]) -> (r: bool)
    requires
        start <= w@.len(),
    ensures
        r == spells(w@.skip(start as int), lit@),
{
    let ghost b = w@.skip(start as int);
    let n = w.len();
    if n - start != lit.len() {
        return false;
    }
    let mut i: usize = 0;
    while i < lit.len()
        invariant
            start <= w@.len(),
            n == w@.len(),
            n - start == lit@.len(),
            b == w@.skip(start as int),
            b.len() == lit@.len(),
            i <= lit@.len(),
            forall|j: int| 0 <= j < i ==> same_letter(#[trigger] b[j], lit@[j]),
        decreases lit@.len() - i,
    {
        let c = w[start + i];
        let l = lit[i];
        if !(c == l || ((l as u32) >= 32 && (c as u32) == (l as u32) - 32)) {
            assert(!same_letter(b[i as int], lit@[i as int]));
            return false;
        }
        i = i + 1;
    }
    true
}

proof fn lemma_mantissa_len(b: Seq<char>, k: int)
    requires
        0 <= k <= b.len(),
        forall|j: int| 0 <= j < k ==> b[j] != 'e' && b[j] != 'E',
        k == b.len() || b[k] == 'e' || b[k] == 'E',
    ensures
        mantissa_len(b) == k,
    decreases k,
{
    if k > 0 {
        assert forall|j: int| 0 <= j < k - 1 implies b.drop_first()[j] != 'e' && b.drop_first()[j]
            != 'E' by {
            assert(b.drop_first()[j] == b[j + 1]);
        }
        lemma_mantissa_len(b.drop_first(), k - 1);
    }
}

/// Whether all characters of `w` from `from` to its end are digits, with at least one.
fn digits_from(w: &[char], from: usize) -> (r: bool)
    requires
        from <= w@.len(),
    ensures
        r == is_digits(w@.skip(from as int)),
{
    if from >= w.len() {
        return false;
    }
    let mut i = from;
    while i < w.len()
        invariant
            from <= i <= w@.len(),
            forall|j: int| from <= j < i ==> is_digit(#[trigger] w@[j]),
        decreases w@.len() - i,
    {
        if !('0' <= w[i] && w[i] <= '9') {
            assert(!is_digit(w@.skip(from as int)[i - from]));
            return false;
        }
        i = i + 1;
    }
    assert forall|j: int| 0 <= j < w@.skip(from as int).len() implies is_digit(
        #[trigger] w@.skip(from as int)[j],
    ) by {
        assert(w@.skip(from as int)[j] == w@[j + from]);
    }
    true
}

/// Reads a real literal the way `f64` does, telling only whether it is one.
#[verifier::rlimit(50)]
fn is_real_lit(w: &[char]) -> (r: bool)
    ensures
        r == is_real(w@),
{
    let n = w.len();
    let start: usize = if n > 0 && (w[0] == '+' || w[0] == '-') { 1 } else { 0 };
    let ghost b = w@.skip(start as int);
    assert(start == 1 ==> b =~= w@.drop_first());
    assert(start == 0 ==> b =~= w@);
    if spells_at(w, start, &['i', 'n', 'f']) || spells_at(
        w,
        start,
        &['i', 'n', 'f', 'i', 'n', 'i', 't', 'y'],
    ) || spells_at(w, start, &['n', 'a', 'n']) {
        return true;
    }
    // the mantissa runs up to the first exponent mark

    let mut k = start;
    let mut all_ok = true;
    let mut has_digit = false;
    let mut seen_dot = false;
    let mut no_two = true;
    while k < n && w[k] != 'e' && w[k] != 'E'
        invariant
            start <= k <= n,
            n == w@.len(),
            b == w@.skip(start as int),
            forall|j: int| 0 <= j < k - start ==> b[j] != 'e' && b[j] != 'E',
            all_ok == (forall|j: int| 0 <= j < k - start ==> is_digit(#[trigger] b[j]) || b[j] == '.'),
            has_digit == (exists|j: int| 0 <= j < k - start && is_digit(#[trigger] b[j])),
            seen_dot == (exists|j: int| 0 <= j < k - start && #[trigger] b[j] == '.'),
            no_two == (forall|i: int, j: int|
                0 <= i < j < k - start && #[trigger] b[i] == '.' ==> #[trigger] b[j] != '.'),
        decreases n - k,
    {
        let c = w[k];
        let ghost m = k - start;
        assert(b[m] == c);
        if '0' <= c && c <= '9' {
            has_digit = true;
        } else if c == '.' {
            if seen_dot {
                no_two = false;
                let ghost i0 = choose|j: int| 0 <= j < m && #[trigger] b[j] == '.';
                assert(0 <= i0 < m && b[i0] == '.' && b[m] == '.');
            }
            seen_dot = true;
        } else {
            all_ok = false;
        }
        k = k + 1;
        proof {
            if !no_two {
                assert(exists|i: int, j: int|
                    0 <= i < j < k - start && #[trigger] b[i] == '.' && #[trigger] b[j] == '.');
            }
        }
    }
    let ok = all_ok && no_two;
    let digits: usize = if has_digit { 1 } else { 0 };
    proof {
        lemma_mantissa_len(b, k - start);
        assert(b.take(k - start).len() == k - start);
        assert forall|j: int| 0 <= j < k - start implies b.take(k - start)[j] == b[j] by {}
    }
    if !ok || digits == 0 {
        return false;
    }
    // the exponent: nothing, or a mark, an optional sign and digits
    let ghost x = b.skip(k - start);
    assert(forall|j: int| 0 <= j < x.len() ==> x[j] == w@[k + j]);
    if k == n {
        return true;
    }
    if k + 1 < n && (w[k + 1] == '+' || w[k + 1] == '-') {
        let r = digits_from(w, k + 2);
        assert(x.skip(2) =~= w@.skip(k + 2));
        r
    } else if k + 1 < n {
        let r = digits_from(w, k + 1);
        assert(x.skip(1) =~= w@.skip(k + 1));
        r
    } else {
        false
    }
}

/// Whether every character of the word is alphanumeric.
fn is_ident_word(w: &[char]) -> (r: bool)
    ensures
        r == is_ident(w@),
{
    let mut i: usize = 0;
    while i < w.len()
        invariant
            i <= w@.len(),
            forall|j: int| 0 <= j < i ==> alphanumeric(#[trigger] w@[j]),
        decreases w@.len() - i,
    {
        if !is_alphanumeric(w[i]) {
            return false;
        }
        i = i + 1;
    }
    true
}

proof fn lemma_keyword_shape<'a>(w: Seq<char>)
    ensures
        keyword_kind::<'a>(w) matches Some(t) ==> !(t is IConst || t is RConst || t is Ident
            || t is Str || t is EOF),
{
    reveal(keyword_kind);
}

/// Whether the word forms a token.
fn recognizes(w: &[char]) -> (r: bool)
    ensures
        r == recognized(w@),
{
    reveal(recognized);
    keyword_of(w).is_some() || parse_int(w).is_some() || is_real_lit(w) || is_ident_word(w)
}

/// The token that the word `src[from..to]` forms, if any.
fn match_tok<'a>(src: &'a str, w: &[char], from: usize, to: usize) -> (r: Option<TokInfo<'a>>)
    requires
        from <= to <= src@.len(),
        w@ == src@.subrange(from as int, to as int),
    ensures
        r.is_some() == recognized(w@),
        r matches Some(t) ==> info_is(t, w@),
{
    reveal(recognized);
    reveal(info_is);
    proof {
        lemma_keyword_shape(w@);
    }
    if let Some(k) = keyword_of(w) {
        return Some(k);
    }
    if let Some(v) = parse_int(w) {
        return Some(TokInfo::IConst(v));
    }
    if is_real_lit(w) {
        return Some(TokInfo::RConst(src.substring_char(from, to)));
    }
    if is_ident_word(w) {
        return Some(TokInfo::Ident(src.substring_char(from, to)));
    }
    None
}

// ---------------------------------------------------------------------------
// The token stream of a source

/// `q`, or `n` where `q` lies beyond it.
pub open spec fn clamp(q: int, n: int) -> int {
    if q <= n {
        q
    } else {
        n
    }
}

/// An opener of a string literal or a comment.
pub open spec fn is_opener(w: Seq<char>) -> bool {
    w == seq!['"'] || w == seq!['-', '-'] || w == seq!['/', '*'] || w == seq!['(', '*']
}

/// The scanner stops on a word that opens a string or comment or forms a token.
pub open spec fn accepts(w: Seq<char>) -> bool {
    is_opener(w) || recognized(w)
}

/// The end of the longest word from `p` up to `e` that the scanner stops
/// on; `p` itself where there is none.
pub open spec fn longest(s: Seq<char>, p: int, e: int) -> int
    decreases e - p,
{
    if e <= p {
        p
    } else if accepts(s.subrange(p, e)) {
        e
    } else {
        longest(s, p, e - 1)
    }
}

/// The number of leading characters that are not `c`.
pub open spec fn chars_before(t: Seq<char>, c: char) -> nat
    decreases t.len(),
{
    if t.len() == 0 || t[0] == c {
        0
    } else {
        1 + chars_before(t.drop_first(), c)
    }
}

/// Where the first `a` directly followed by `b` starts; the length where there is none.
pub open spec fn chars_before_pair(t: Seq<char>, a: char, b: char) -> nat
    decreases t.len(),
{
    if t.len() < 2 {
        t.len()
    } else if t[0] == a && t[1] == b {
        0
    } else {
        1 + chars_before_pair(t.drop_first(), a, b)
    }
}

/// What a token is made of: a word, the inside of a string literal, or the
/// end of the source.
pub ghost enum LexKind {
    Word,
    Str,
    Eof,
}

/// A token as character positions of the source.
pub ghost struct SpecTok {
    pub start: int,
    pub end: int,
    pub kind: LexKind,
}

pub open spec fn prepend(t: SpecTok, r: Result<Seq<SpecTok>, Error>) -> Result<Seq<SpecTok>, Error> {
    match r {
        Ok(ts) => Ok(seq![t] + ts),
        Err(e) => Err(e),
    }
}

pub open spec fn prepend_all(pre: Seq<SpecTok>, r: Result<Seq<SpecTok>, Error>) -> Result<
    Seq<SpecTok>,
    Error,
> {
    match r {
        Ok(ts) => Ok(pre + ts),
        Err(e) => Err(e),
    }
}

/// The tokens of the source from character `p` on. Characters where no
/// word starts are skipped; a string literal runs to the next `"`; a line
/// comment to the next newline or the end; a block comment to the closer
/// that its opener calls for. An unclosed string or block comment fails.
pub open spec fn lex_from(s: Seq<char>, p: int) -> Result<Seq<SpecTok>, Error>
    decreases s.len() - p,
{
    if p >= s.len() {
        Ok(seq![SpecTok { start: s.len() as int, end: s.len() as int, kind: LexKind::Eof }])
    } else {
        let e = longest(s, p, s.len() as int);
        if e <= p {
            lex_from(s, p + 1)
        } else {
            let w = s.subrange(p, e);
            if w == seq!['"'] {
                let q = p + 1 + chars_before(s.skip(p + 1), '"');
                if q >= s.len() {
                    Err(Error::UnclosedStr)
                } else {
                    prepend(SpecTok { start: p + 1, end: q, kind: LexKind::Str }, lex_from(s, q + 1))
                }
            } else if w == seq!['-', '-'] {
                lex_from(s, clamp(p + 2 + chars_before(s.skip(p + 2), '\n'), s.len() as int))
            } else if w == seq!['/', '*'] || w == seq!['(', '*'] {
                let closer = if w[0] == '/' { '/' } else { ')' };
                let q = p + 2 + chars_before_pair(s.skip(p + 2), '*', closer);
                if q >= s.len() {
                    Err(Error::UnclosedComment)
                } else {
                    lex_from(s, clamp(q + 2, s.len() as int))
                }
            } else {
                prepend(
                    SpecTok { start: p, end: e, kind: LexKind::Word },
                    lex_from(s, clamp(e, s.len() as int)),
                )
            }
        }
    }
}

/// The line of character `i`: one more than the newlines before it.
pub open spec fn line_at(s: Seq<char>, i: int) -> nat
    decreases i,
{
    if i <= 0 {
        1
    } else {
        line_at(s, i - 1) + if s[i - 1] == '\n' { 1nat } else { 0nat }
    }
}

/// The column of character `i`: the characters since the last newline.
pub open spec fn col_at(s: Seq<char>, i: int) -> nat
    decreases i,
{
    if i <= 0 {
        0
    } else if s[i - 1] == '\n' {
        0
    } else {
        col_at(s, i - 1) + 1
    }
}

/// The number of bytes that UTF-8 takes for the character.
pub open spec fn utf8_width(c: char) -> nat {
    if (c as u32) < 0x80 {
        1
    } else if (c as u32) < 0x800 {
        2
    } else if (c as u32) < 0x10000 {
        3
    } else {
        4
    }
}

/// The byte offset of character `i`.
pub open spec fn byte_at(s: Seq<char>, i: int) -> nat
    decreases i,
{
    if i <= 0 {
        0
    } else {
        byte_at(s, i - 1) + utf8_width(s[i - 1])
    }
}

pub open spec fn location_at(s: Seq<char>, i: int) -> Location {
    Location { line: line_at(s, i) as u64, col: col_at(s, i) as u64, pos: byte_at(s, i) as u64 }
}

/// The token read from `s` in file `file` is the one the positions describe.
pub open spec fn token_is(t: Tok, st: SpecTok, s: Seq<char>, file: &str) -> bool {
    &&& t.span.file == file
    &&& t.span.start == location_at(s, st.start)
    &&& t.span.end == location_at(s, st.end)
    &&& match st.kind {
        LexKind::Word => info_is(t.item, s.subrange(st.start, st.end)),
        LexKind::Str => t.item matches TokInfo::Str(x) && x@ == s.subrange(st.start, st.end),
        LexKind::Eof => t.item == TokInfo::EOF,
    }
}

pub open spec fn tokens_are(ts: Seq<Tok>, sts: Seq<SpecTok>, s: Seq<char>, file: &str) -> bool {
    ts.len() == sts.len() && forall|i: int| 0 <= i < ts.len() ==> token_is(ts[i], sts[i], s, file)
}

/// The empty source lexes to exactly one end-of-file token, at its start,
/// and no error.
pub proof fn lemma_empty_source()
    ensures
        lex_from(Seq::<char>::empty(), 0) == Ok::<Seq<SpecTok>, Error>(
            seq![SpecTok { start: 0, end: 0, kind: LexKind::Eof }],
        ),
        location_at(Seq::<char>::empty(), 0) == (Location { line: 1, col: 0, pos: 0 }),
{
}

/// A successful lex ends with exactly one end-of-file token, at the end of
/// the source, and every token lies within the part of the source read.
pub proof fn lemma_single_eof(s: Seq<char>, p: int)
    requires
        0 <= p <= s.len(),
    ensures
        lex_from(s, p) matches Ok(ts) ==> {
            &&& ts.len() >= 1
            &&& ts.last().kind == LexKind::Eof
            &&& ts.last().start == s.len() && ts.last().end == s.len()
            &&& forall|i: int| 0 <= i < ts.len() - 1 ==> (#[trigger] ts[i]).kind != LexKind::Eof
            &&& forall|i: int| 0 <= i < ts.len() ==> p <= (#[trigger] ts[i]).start <= ts[i].end
                <= s.len()
        },
    decreases s.len() - p,
{
    if p < s.len() {
        let e = longest(s, p, s.len() as int);
        lemma_longest_bounds(s, p, s.len() as int);
        if e <= p {
            lemma_single_eof(s, p + 1);
        } else {
            let w = s.subrange(p, e);
            if w == seq!['"'] {
                let q = p + 1 + chars_before(s.skip(p + 1), '"');
                if q < s.len() {
                    lemma_single_eof(s, q + 1);
                    let st = SpecTok { start: p + 1, end: q, kind: LexKind::Str };
                    if let Ok(ts) = lex_from(s, q + 1) {
                        let all = seq![st] + ts;
                        assert forall|i: int| 0 <= i < all.len() - 1 implies (#[trigger] all[i]).kind
                            != LexKind::Eof by {
                            if i > 0 {
                                assert(all[i] == ts[i - 1]);
                            }
                        }
                        assert forall|i: int| 0 <= i < all.len() implies p <= (#[trigger] all[i]).start
                            <= all[i].end <= s.len() by {
                            if i > 0 {
                                assert(all[i] == ts[i - 1]);
                            }
                        }
                    }
                }
            } else if w == seq!['-', '-'] {
                let q = clamp(p + 2 + chars_before(s.skip(p + 2), '\n'), s.len() as int);
                lemma_single_eof(s, q);
            } else if w == seq!['/', '*'] || w == seq!['(', '*'] {
                let closer = if w[0] == '/' { '/' } else { ')' };
                let q = p + 2 + chars_before_pair(s.skip(p + 2), '*', closer);
                if q < s.len() {
                    lemma_single_eof(s, clamp(q + 2, s.len() as int));
                }
            } else {
                lemma_single_eof(s, e);
                let st = SpecTok { start: p, end: e, kind: LexKind::Word };
                if let Ok(ts) = lex_from(s, e) {
                    let all = seq![st] + ts;
                    assert forall|i: int| 0 <= i < all.len() - 1 implies (#[trigger] all[i]).kind
                        != LexKind::Eof by {
                        if i > 0 {
                            assert(all[i] == ts[i - 1]);
                        }
                    }
                    assert forall|i: int| 0 <= i < all.len() implies p <= (#[trigger] all[i]).start
                        <= all[i].end <= s.len() by {
                        if i > 0 {
                            assert(all[i] == ts[i - 1]);
                        }
                    }
                }
            }
        }
    }
}

proof fn lemma_location_bounds(s: Seq<char>, i: int)
    requires
        0 <= i <= s.len(),
    ensures
        line_at(s, i) <= i + 1,
        col_at(s, i) <= i,
        byte_at(s, i) <= 4 * i,
    decreases i,
{
    if i > 0 {
        lemma_location_bounds(s, i - 1);
    }
}

// ---------------------------------------------------------------------------
// The scanner

/// A lexer for one source text, read from the named file.
pub struct Lexer<'a, 'f> {
    file: &'f str,
    src: &'a str,
}

impl<'a, 'f> Lexer<'a, 'f> {
    /// The name of the file the source was read from.
    pub closed spec fn file_name(&self) -> &'f str {
        self.file
    }

    /// The source text.
    pub closed spec fn source(&self) -> &'a str {
        self.src
    }

    pub fn new(file: &'f str, src: &'a str) -> (r: Self)
        ensures
            r.file_name() == file,
            r.source() == src,
    {
        Lexer { file, src }
    }

    /// The tokens of the source, ending with one end-of-file token, or the
    /// reason it cannot be lexed: exactly what `lex_from` describes.
    pub fn lex(&mut self) -> (r: Result<Vec<Tok<'a, 'f>>, Error>)
        requires
            4 * old(self).source()@.len() + 4 <= u64::MAX,
        ensures
            *final(self) == *old(self),
            match (r, lex_from(final(self).source()@, 0)) {
                (Ok(ts), Ok(sts)) => tokens_are(ts@, sts, final(self).source()@, final(self).file_name()),
                (Err(e), Err(se)) => e == se,
                _ => false,
            },
    {
        let src = self.src;
        let file = self.file;
        let chars = chars_of(src);
        let n = chars.len();
        let ghost s = src@;
        let mut tokens: Vec<Tok<'a, 'f>> = Vec::new();
        let ghost mut done: Seq<SpecTok> = seq![];
        let mut pos: usize = 0;
        let mut here = Location { line: 1, col: 0, pos: 0 };
        assert(prepend_all(done, lex_from(s, 0)) == lex_from(s, 0)) by {
            match lex_from(s, 0) {
                Ok(ts) => assert(done + ts =~= ts),
                Err(_) => {},
            }
        }
        while pos < n
            invariant
                *self == *old(self),
                self.src == src,
                self.file == file,
                chars@ == s,
                s == src@,
                n == s.len(),
                pos <= n,
                4 * n + 4 <= u64::MAX,
                here == location_at(s, pos as int),
                tokens_are(tokens@, done, s, file),
                lex_from(s, 0) == prepend_all(done, lex_from(s, pos as int)),
            decreases n - pos,
        {
            let end = longest_end(&chars, pos);
            proof {
                lemma_longest_bounds(s, pos as int, n as int);
            }
            if end == pos {
                here = advance(&chars, here, pos, pos + 1);
                pos = pos + 1;
            } else {
                let w = &chars.as_slice()[pos..end];
                let ghost wv = s.subrange(pos as int, end as int);
                assert(w@ == wv);
                if end - pos == 1 && w[0] == '"' {
                    assert(wv =~= seq!['"']);
                    let q = find_char(&chars, pos + 1, '"');
                    proof {
                        lemma_chars_before_bound(s.skip(pos + 1), '"');
                    }
                    if q >= n {
                        assert(lex_from(s, pos as int) == Err::<Seq<SpecTok>, Error>(Error::UnclosedStr));
                        assert(lex_from(s, 0) == Err::<Seq<SpecTok>, Error>(Error::UnclosedStr));
                        return Err(Error::UnclosedStr);
                    }
                    let start = advance(&chars, here, pos, pos + 1);
                    let stop = advance(&chars, start, pos + 1, q);
                    let t = token(file, start, stop, TokInfo::Str(src.substring_char(pos + 1, q)));
                    let ghost st = SpecTok { start: pos + 1, end: q as int, kind: LexKind::Str };
                    proof {
                        assert(token_is(t, st, s, file));
                        let ghost old_done = done;
                        done = done.push(st);
                        match lex_from(s, q + 1) {
                            Ok(ts) => assert(old_done + (seq![st] + ts) =~= done + ts),
                            Err(_) => {},
                        }
                    }
                    tokens.push(t);
                    here = advance(&chars, stop, q, q + 1);
                    pos = q + 1;
                } else if end - pos == 2 && w[0] == '-' && w[1] == '-' {
                    assert(wv =~= seq!['-', '-']);
                    let q = find_char(&chars, pos + 2, '\n');
                    proof {
                        lemma_chars_before_bound(s.skip(pos + 2), '\n');
                    }
                    here = advance(&chars, here, pos, q);
                    pos = q;
                } else if end - pos == 2 && (w[0] == '/' || w[0] == '(') && w[1] == '*' {
                    assert(w[0] == '/' ==> wv =~= seq!['/', '*']);
                    assert(w[0] == '(' ==> wv =~= seq!['(', '*']);
                    assert(wv != seq!['"']);
                    assert(wv != seq!['-', '-']);
                    let closer = if w[0] == '/' { '/' } else { ')' };
                    let q = find_pair(&chars, pos + 2, '*', closer);
                    proof {
                        lemma_pair_bound(s.skip(pos + 2), '*', closer);
                    }
                    if q >= n {
                        assert(lex_from(s, pos as int) == Err::<Seq<SpecTok>, Error>(Error::UnclosedComment));
                        assert(lex_from(s, 0) == Err::<Seq<SpecTok>, Error>(Error::UnclosedComment));
                        return Err(Error::UnclosedComment);
                    }
                    here = advance(&chars, here, pos, q + 2);
                    pos = q + 2;
                } else {
                    assert(!is_opener(wv)) by {
                        if wv == seq!['"'] {
                            assert(wv.len() == 1 && wv[0] == '"');
                        }
                        if wv == seq!['-', '-'] {
                            assert(wv.len() == 2 && wv[0] == '-' && wv[1] == '-');
                        }
                        if wv == seq!['/', '*'] {
                            assert(wv.len() == 2 && wv[0] == '/' && wv[1] == '*');
                        }
                        if wv == seq!['(', '*'] {
                            assert(wv.len() == 2 && wv[0] == '(' && wv[1] == '*');
                        }
                    }
                    let stop = advance(&chars, here, pos, end);
                    match match_tok(src, w, pos, end) {
                        Some(info) => {
                            let t = token(file, here, stop, info);
                            let ghost st = SpecTok { start: pos as int, end: end as int, kind: LexKind::Word };
                            proof {
                                assert(token_is(t, st, s, file));
                                let ghost old_done = done;
                                done = done.push(st);
                                match lex_from(s, end as int) {
                                    Ok(ts) => assert(old_done + (seq![st] + ts) =~= done + ts),
                                    Err(_) => {},
                                }
                            }
                            tokens.push(t);
                        },
                        None => {
                            assert(false);
                        },
                    }
                    here = stop;
                    pos = end;
                }
            }
        }
        let t = token(file, here, here, TokInfo::EOF);
        let ghost st = SpecTok { start: n as int, end: n as int, kind: LexKind::Eof };
        proof {
            assert(token_is(t, st, s, file));
            assert(lex_from(s, n as int) == Ok::<Seq<SpecTok>, Error>(seq![st]));
            assert(done + seq![st] =~= done.push(st));
            done = done.push(st);
        }
        tokens.push(t);
        assert(tokens_are(tokens@, done, s, file));
        Ok(tokens)
    }
}

/// The characters of the text, in order.
fn chars_of(src: &str) -> (r: Vec<char>)
    ensures
        r@ == src@,
{
    let n = src.unicode_len();
    let mut out: Vec<char> = Vec::new();
    let mut i: usize = 0;
    while i < n
        invariant
            n == src@.len(),
            i <= n,
            out@ == src@.take(i as int),
        decreases n - i,
    {
        out.push(src.get_char(i));
        i = i + 1;
        assert(out@ =~= src@.take(i as int));
    }
    assert(src@.take(n as int) =~= src@);
    out
}

proof fn lemma_longest_bounds(s: Seq<char>, p: int, e: int)
    requires
        p <= e,
    ensures
        p <= longest(s, p, e) <= e,
        longest(s, p, e) > p ==> accepts(s.subrange(p, longest(s, p, e))),
    decreases e - p,
{
    if e > p {
        lemma_longest_bounds(s, p, e - 1);
    }
}

proof fn lemma_chars_before_bound(t: Seq<char>, c: char)
    ensures
        chars_before(t, c) <= t.len(),
        chars_before(t, c) < t.len() ==> t[chars_before(t, c) as int] == c,
    decreases t.len(),
{
    if t.len() > 0 && t[0] != c {
        lemma_chars_before_bound(t.drop_first(), c);
    }
}

proof fn lemma_pair_bound(t: Seq<char>, a: char, b: char)
    ensures
        chars_before_pair(t, a, b) <= t.len(),
        chars_before_pair(t, a, b) < t.len() ==> chars_before_pair(t, a, b) + 2 <= t.len(),
    decreases t.len(),
{
    if t.len() >= 2 && !(t[0] == a && t[1] == b) {
        lemma_pair_bound(t.drop_first(), a, b);
    }
}

/// Whether the scanner stops on the word.
fn accepts_word(w: &[char]) -> (r: bool)
    ensures
        r == accepts(w@),
{
    let n = w.len();
    let opener = (n == 1 && w[0] == '"') || (n == 2 && ((w[0] == '-' && w[1] == '-') || (w[0]
        == '/' && w[1] == '*') || (w[0] == '(' && w[1] == '*')));
    proof {
        if n == 1 && w@[0] == '"' {
            assert(w@ =~= seq!['"']);
        }
        if n == 2 && w@[0] == '-' && w@[1] == '-' {
            assert(w@ =~= seq!['-', '-']);
        }
        if n == 2 && w@[0] == '/' && w@[1] == '*' {
            assert(w@ =~= seq!['/', '*']);
        }
        if n == 2 && w@[0] == '(' && w@[1] == '*' {
            assert(w@ =~= seq!['(', '*']);
        }
    }
    opener || recognizes(w)
}

/// A character that a word longer than any keyword can hold.
pub open spec fn word_char(c: char) -> bool {
    let v = c as u32;
    alphanumeric(c) || is_digit(c) || (97 <= v && v <= 122) || (65 <= v && v <= 90) || c == 'e'
        || c == 'E' || c == '+' || c == '-' || c == '.'
}

proof fn lemma_mantissa_stop(b: Seq<char>)
    ensures
        mantissa_len(b) <= b.len(),
        mantissa_len(b) < b.len() ==> b[mantissa_len(b) as int] == 'e' || b[mantissa_len(
            b,
        ) as int] == 'E',
    decreases b.len(),
{
    if b.len() > 0 && b[0] != 'e' && b[0] != 'E' {
        lemma_mantissa_stop(b.drop_first());
    }
}

proof fn lemma_spelled_letters(b: Seq<char>, lit: Seq<char>)
    requires
        spells(b, lit),
        forall|j: int| 0 <= j < lit.len() ==> 97 <= (#[trigger] lit[j]) as u32 && lit[j] as u32 <= 122,
    ensures
        forall|j: int| 0 <= j < b.len() ==> word_char(#[trigger] b[j]),
{
    assert forall|j: int| 0 <= j < b.len() implies word_char(#[trigger] b[j]) by {
        assert(same_letter(b[j], lit[j]));
        assert(97 <= lit[j] as u32 && lit[j] as u32 <= 122);
    }
}

/// The characters of a real literal are word characters.
proof fn lemma_real_chars(w: Seq<char>)
    requires
        is_real(w),
    ensures
        forall|i: int| 0 <= i < w.len() ==> word_char(#[trigger] w[i]),
{
    let signed = w.len() > 0 && is_sign(w[0]);
    let b = if signed { w.drop_first() } else { w };
    let k = mantissa_len(b) as int;
    lemma_mantissa_stop(b);
    let inf = seq!['i', 'n', 'f'];
    let infinity = seq!['i', 'n', 'f', 'i', 'n', 'i', 't', 'y'];
    let nan = seq!['n', 'a', 'n'];
    assert(forall|j: int| 0 <= j < 3 ==> 97 <= (#[trigger] inf[j]) as u32 && inf[j] as u32 <= 122);
    assert(forall|j: int|
        0 <= j < 8 ==> 97 <= (#[trigger] infinity[j]) as u32 && infinity[j] as u32 <= 122);
    assert(forall|j: int| 0 <= j < 3 ==> 97 <= (#[trigger] nan[j]) as u32 && nan[j] as u32 <= 122);
    if spells(b, inf) {
        lemma_spelled_letters(b, inf);
    } else if spells(b, infinity) {
        lemma_spelled_letters(b, infinity);
    } else if spells(b, nan) {
        lemma_spelled_letters(b, nan);
    }
    assert forall|j: int| 0 <= j < b.len() implies word_char(#[trigger] b[j]) by {
        if !spells(b, inf) && !spells(b, infinity) && !spells(b, nan) {
            if j < k {
                assert(b.take(k)[j] == b[j]);
            } else {
                let x = b.skip(k);
                assert(x[j - k] == b[j]);
                if j - k >= 1 {
                    if is_sign(x[1]) {
                        if j - k >= 2 {
                            assert(x.skip(2)[j - k - 2] == x[j - k]);
                        }
                    } else {
                        assert(x.skip(1)[j - k - 1] == x[j - k]);
                    }
                }
            }
        }
    }
    assert forall|i: int| 0 <= i < w.len() implies word_char(#[trigger] w[i]) by {
        if signed {
            if i > 0 {
                assert(b[i - 1] == w[i]);
            }
        } else {
            assert(b[i] == w[i]);
        }
    }
}

/// Every character of a word longer than any keyword that the scanner stops
/// on is a word character.
proof fn lemma_long_words(w: Seq<char>)
    requires
        accepts(w),
        w.len() > 8,
    ensures
        forall|i: int| 0 <= i < w.len() ==> word_char(#[trigger] w[i]),
{
    reveal(recognized);
    assert(keyword_kind::<'static>(w).is_none()) by {
        reveal(keyword_kind);
    }
    if is_ident(w) {
    } else if int_value(w).is_some() {
        assert forall|i: int| 0 <= i < w.len() implies word_char(#[trigger] w[i]) by {
            if is_sign(w[0]) && is_digits(w.drop_first()) {
                if i > 0 {
                    assert(w.drop_first()[i - 1] == w[i]);
                }
            }
        }
    } else {
        lemma_real_chars(w);
    }
}

proof fn lemma_longest_skip(s: Seq<char>, p: int, lo: int, hi: int)
    requires
        p <= lo <= hi,
        forall|e: int| lo < e <= hi ==> !accepts(#[trigger] s.subrange(p, e)),
    ensures
        longest(s, p, hi) == longest(s, p, lo),
    decreases hi - lo,
{
    if hi > lo {
        lemma_longest_skip(s, p, lo, hi - 1);
    }
}

/// Whether the character is a word character.
fn is_word_char(c: char) -> (r: bool)
    ensures
        r == word_char(c),
{
    let v = c as u32;
    is_alphanumeric(c) || ('0' <= c && c <= '9') || (97 <= v && v <= 122) || (65 <= v && v <= 90)
        || c == 'e' || c == 'E' || c == '+' || c == '-' || c == '.'
}

/// The end of the longest word from `p` that the scanner stops on; `p` if none.
fn longest_end(chars: &Vec<char>, p: usize) -> (r: usize)
    requires
        p <= chars@.len(),
    ensures
        r == longest(chars@, p as int, chars@.len() as int),
{
    let n = chars.len();
    let ghost s = chars@;
    // no word longer than a keyword reaches past the first other character
    let mut run = p;
    while run < n && is_word_char(chars[run])
        invariant
            p <= run <= n,
            n == s.len(),
            s == chars@,
            forall|j: int| p <= j < run ==> word_char(#[trigger] s[j]),
        decreases n - run,
    {
        run = run + 1;
    }
    let mut e = if run - p > 8 {
        run
    } else if n - p > 8 {
        p + 8
    } else {
        n
    };
    proof {
        assert forall|f: int| e < f <= n implies !accepts(#[trigger] s.subrange(p as int, f)) by {
            let w = s.subrange(p as int, f);
            assert(run < n);
            assert(w[run - p] == s[run as int]);
            if accepts(w) {
                lemma_long_words(w);
            }
        }
        lemma_longest_skip(s, p as int, e as int, n as int);
    }
    while e > p && !accepts_word(&chars.as_slice()[p..e])
        invariant
            p <= e <= n,
            n == chars@.len(),
            longest(chars@, p as int, n as int) == longest(chars@, p as int, e as int),
        decreases e,
    {
        e = e - 1;
    }
    e
}

/// The index of the first `c` from `from` on; the length where there is none.
fn find_char(chars: &Vec<char>, from: usize, c: char) -> (r: usize)
    requires
        from <= chars@.len(),
    ensures
        r == from + chars_before(chars@.skip(from as int), c),
{
    let n = chars.len();
    let mut i = from;
    while i < n && chars[i] != c
        invariant
            from <= i <= n,
            n == chars@.len(),
            from + chars_before(chars@.skip(from as int), c) == i + chars_before(
                chars@.skip(i as int),
                c,
            ),
        decreases n - i,
    {
        assert(chars@.skip(i as int).drop_first() =~= chars@.skip(i + 1));
        i = i + 1;
    }
    i
}

/// The index of the first `a` directly followed by `b`, from `from` on; the
/// length where there is none.
fn find_pair(chars: &Vec<char>, from: usize, a: char, b: char) -> (r: usize)
    requires
        from <= chars@.len(),
    ensures
        r == from + chars_before_pair(chars@.skip(from as int), a, b),
{
    let n = chars.len();
    let mut i = from;
    while i < n && i + 1 < n && !(chars[i] == a && chars[i + 1] == b)
        invariant
            from <= i <= n,
            n == chars@.len(),
            from + chars_before_pair(chars@.skip(from as int), a, b) == i + chars_before_pair(
                chars@.skip(i as int),
                a,
                b,
            ),
        decreases n - i,
    {
        assert(chars@.skip(i as int).drop_first() =~= chars@.skip(i + 1));
        i = i + 1;
    }
    if i >= n || i + 1 >= n {
        i = n;
    }
    i
}

/// The number of bytes that UTF-8 takes for the character.
fn char_width(c: char) -> (r: u64)
    ensures
        r == utf8_width(c),
{
    let v = c as u32;
    if v < 0x80 {
        1
    } else if v < 0x800 {
        2
    } else if v < 0x10000 {
        3
    } else {
        4
    }
}

/// The location of character `to`, from that of character `from`.
fn advance(chars: &Vec<char>, at: Location, from: usize, to: usize) -> (r: Location)
    requires
        from <= to <= chars@.len(),
        at == location_at(chars@, from as int),
        4 * chars@.len() + 4 <= u64::MAX,
    ensures
        r == location_at(chars@, to as int),
{
    let mut loc = at;
    let mut i = from;
    while i < to
        invariant
            from <= i <= to <= chars@.len(),
            loc == location_at(chars@, i as int),
            4 * chars@.len() + 4 <= u64::MAX,
        decreases to - i,
    {
        proof {
            lemma_location_bounds(chars@, i as int);
            lemma_location_bounds(chars@, i + 1);
        }
        let c = chars[i];
        if c == '\n' {
            loc = Location { line: loc.line + 1, col: 0, pos: loc.pos + char_width(c) };
        } else {
            loc = Location { line: loc.line, col: loc.col + 1, pos: loc.pos + char_width(c) };
        }
        i = i + 1;
    }
    loc
}

fn token<'a, 'f>(file: &'f str, start: Location, end: Location, info: TokInfo<'a>) -> (r: Tok<
    'a,
    'f,
>)
    ensures
        r.span.file == file,
        r.span.start == start,
        r.span.end == end,
        r.item == info,
{
    Spanned { span: Span { file, start, end }, item: info }
}

} // verus!
