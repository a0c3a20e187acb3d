//! Syntax errors collected while parsing.

use vstd::prelude::*;
use vstd::string::StringExecFns;

verus! {

/// The decimal digit for `d`, below ten.
pub open spec fn digit_char(d: int) -> char {
    seq!['0', '1', '2', '3', '4', '5', '6', '7', '8', '9'][d]
}

/// The decimal digits of `n`, most significant first, without leading zeros.
pub open spec fn decimal(n: nat) -> Seq<char>
    decreases n,
{
    if n < 10 {
        seq![digit_char(n as int)]
    } else {
        decimal(n / 10) + seq![digit_char((n % 10) as int)]
    }
}

/// Text of the message that reports an unexpected token.
pub open spec fn mismatch_text(expected: u16, found: u16) -> Seq<char> {
    "expected "@ + decimal(expected as nat) + ", found "@ + decimal(found as nat)
}

fn digit_str(d: u16) -> (r: &'static str)
    requires
        d < 10,
    ensures
        r@ == seq![digit_char(d as int)],
{
    proof {
        reveal_strlit("0");
        reveal_strlit("1");
        reveal_strlit("2");
        reveal_strlit("3");
        reveal_strlit("4");
        reveal_strlit("5");
        reveal_strlit("6");
        reveal_strlit("7");
        reveal_strlit("8");
        reveal_strlit("9");
    }
    let r = if d == 0 {
        "0"
    } else if d == 1 {
        "1"
    } else if d == 2 {
        "2"
    } else if d == 3 {
        "3"
    } else if d == 4 {
        "4"
    } else if d == 5 {
        "5"
    } else if d == 6 {
        "6"
    } else if d == 7 {
        "7"
    } else if d == 8 {
        "8"
    } else {
        "9"
    };
    assert(r@ =~= seq![digit_char(d as int)]);
    r
}

/// Appends the decimal digits of `n`.
fn append_decimal(s: &mut String, n: u16)
    ensures
        final(s)@ == old(s)@ + decimal(n as nat),
    decreases n,
{
    if n >= 10 {
        append_decimal(s, n / 10);
    }
    s.append(digit_str(n % 10));
    assert(final(s)@ =~= old(s)@ + decimal(n as nat));
}

/// The message that reports a token of kind `found` where `expected` was needed.
fn mismatch_message(expected: u16, found: u16) -> (r: String)
    ensures
        r@ == mismatch_text(expected, found),
{
    let mut r = String::from_str("expected ");
    append_decimal(&mut r, expected);
    r.append(", found ");
    append_decimal(&mut r, found);
    assert(r@ =~= mismatch_text(expected, found));
    r
}

/// A syntax error: a byte range of the source, a message, and the error it
/// gives context to, if any.
pub struct Error {
    pub start: usize,
    pub end: usize,
    pub msg: String,
    pub cause: Option<Box<Error>>,
}

/// What an error says: its span, its message and the error it wraps.
pub ghost struct ErrorView {
    pub start: int,
    pub end: int,
    pub msg: Seq<char>,
    pub cause: Option<Box<ErrorView>>,
}

/// The end of input, met at `pos`.
pub open spec fn eof_error(pos: int) -> ErrorView {
    ErrorView { start: pos, end: pos, msg: "unexpected eof"@, cause: None }
}

/// A token of kind `found` over `start..end` where `expected` was needed.
pub open spec fn token_error(start: int, end: int, expected: u16, found: u16) -> ErrorView {
    ErrorView { start, end, msg: mismatch_text(expected, found), cause: None }
}

/// `e` wrapped in the context message `ctx`, over the same span.
pub open spec fn context_error(e: ErrorView, ctx: Seq<char>) -> ErrorView {
    ErrorView { start: e.start, end: e.end, msg: ctx, cause: Some(Box::new(e)) }
}

/// Errors that an engine can build from a bare message.
pub trait RowanNomError: Sized {
    fn from_message(message: &str) -> Self;
}

impl RowanNomError for Error {
    fn from_message(message: &str) -> (r: Error) {
        Error::message(message)
    }
}

impl Error {
    pub open spec fn view(&self) -> ErrorView
        decreases self,
    {
        ErrorView {
            start: self.start as int,
            end: self.end as int,
            msg: self.msg@,
            cause: match self.cause {
                Some(c) => Some(Box::new((*c).view())),
                None => None,
            },
        }
    }

    /// An error with a message and an empty span at the start of the source.
    pub fn message(message: &str) -> (r: Error)
        ensures
            r.start == 0,
            r.end == 0,
            r.msg@ == message@,
            r.cause.is_none(),
    {
        Error { start: 0, end: 0, msg: String::from_str(message), cause: None }
    }

    /// The input ended where a token was expected.
    pub fn from_unexpected_eof(position: usize) -> (r: Error)
        ensures
            r.view() == eof_error(position as int),
    {
        Error { start: position, end: position, msg: String::from_str("unexpected eof"), cause: None }
    }

    /// A token of kind `found` stood where one of kind `expected` was needed.
    pub fn from_unexpected_token(start: usize, end: usize, expected: u16, found: u16) -> (r: Error)
        ensures
            r.view() == token_error(start as int, end as int, expected, found),
    {
        Error { start, end, msg: mismatch_message(expected, found), cause: None }
    }

    /// Wraps the error in a new one that has the same span and the context
    /// as its message.
    pub fn with_context(self, ctx: &str) -> (r: Error)
        ensures
            r.view() == context_error(self.view(), ctx@),
            r.cause == Some(Box::new(self)),
    {
        let start = self.start;
        let end = self.end;
        Error { start, end, msg: String::from_str(ctx), cause: Some(Box::new(self)) }
    }
}

} // verus!
