use vstd::prelude::*;

use crate::Annot;
use crate::Loc;

verus! {

/// The two lexical failure kinds: an unrecognized byte, or input that
/// ended where a specific byte was expected.
#[derive(Debug, Clone, PartialEq, Eq, Structural, Hash)]
pub enum LexKind {
    InvalidChar(char),
    Eof,
}

/// A lexical error: a failure kind located at a span of the input.
pub type LexError = Annot<LexKind>;

impl LexError {
    pub fn invalid_char(c: char, loc: Loc) -> (r: Self)
        ensures
            r == (Annot { value: LexKind::InvalidChar(c), loc }),
    {
        LexError::new(LexKind::InvalidChar(c), loc)
    }

    pub fn eof(loc: Loc) -> (r: Self)
        ensures
            r == (Annot { value: LexKind::Eof, loc }),
    {
        LexError::new(LexKind::Eof, loc)
    }
}

/// Relies on std's `String::push`: it appends the given character to the
/// end of the string.
pub assume_specification[ String::push ](s: &mut String, c: char)
    ensures
        final(s)@ == old(s)@ + seq![c],
;

/// The character of a single decimal digit.
pub open spec fn dec_digit(d: nat) -> char {
    ((48 + d) as u8) as char
}

/// The decimal rendering of a number, most significant digit first and
/// without leading zeros.
pub open spec fn dec_rep(n: nat) -> Seq<char>
    decreases n,
{
    if n < 10 {
        seq![dec_digit(n)]
    } else {
        dec_rep(n / 10) + seq![dec_digit(n % 10)]
    }
}

/// Append the decimal rendering of `n`.
fn push_dec(s: &mut String, n: usize)
    ensures
        final(s)@ == old(s)@ + dec_rep(n as nat),
    decreases n,
{
    if n >= 10 {
        push_dec(s, n / 10);
    }
    let d: u8 = 48 + (n % 10) as u8;
    s.push(d as char);
    proof {
        if n >= 10 {
            assert(s@ =~= old(s)@ + (dec_rep(n as nat / 10) + seq![dec_digit(n as nat % 10)]));
        }
    }
}

/// The display form of a span: `start-end`.
pub open spec fn loc_text(l: Loc) -> Seq<char> {
    dec_rep(l.0 as nat) + seq!['-'] + dec_rep(l.1 as nat)
}

impl Loc {
    /// Render the span as `start-end`.
    pub fn display_text(&self) -> (r: String)
        ensures
            r@ == loc_text(*self),
    {
        let mut r = String::new();
        push_dec(&mut r, self.0);
        r.push('-');
        push_dec(&mut r, self.1);
        r
    }
}

/// The one-line human-readable message of a lexical error.
pub open spec fn lex_error_text(e: LexError) -> Seq<char> {
    match e.value {
        LexKind::InvalidChar(c) => loc_text(e.loc) + ": invalid char: "@ + seq![c],
        LexKind::Eof => "End of file"@,
    }
}

impl LexError {
    /// Render the one-line message of this error.
    pub fn message(&self) -> (r: String)
        ensures
            r@ == lex_error_text(*self),
    {
        match &self.value {
            LexKind::InvalidChar(c) => {
                let mut r = self.loc.display_text();
                r.append(": invalid char: ");
                r.push(*c);
                r
            },
            LexKind::Eof => "End of file".to_owned(),
        }
    }
}

/// The top-level error: today only a lexical error, kept as a wrapper so
/// later stages can share the diagnostic path.
#[derive(Debug, Clone, PartialEq, Eq, Structural, Hash)]
pub enum Error {
    Lexer(LexError),
}

impl From<LexError> for Error {
    fn from(e: LexError) -> (r: Self)
        ensures
            r == Error::Lexer(e),
    {
        Error::Lexer(e)
    }
}

impl vstd::std_specs::convert::FromSpecImpl<LexError> for Error {
    open spec fn obeys_from_spec() -> bool {
        true
    }

    open spec fn from_spec(e: LexError) -> Self {
        Error::Lexer(e)
    }
}

/// The caret line of a diagnostic: `start` spaces, then one caret for
/// each byte of the span.
pub open spec fn marker_text(l: Loc) -> Seq<char> {
    Seq::new(l.0 as nat, |i: int| ' ') + Seq::new((l.1 - l.0) as nat, |i: int| '^')
}

/// Build the caret line that underlines `loc`.
pub fn error_marker(loc: Loc) -> (r: String)
    requires
        loc.wf(),
    ensures
        r@ == marker_text(loc),
{
    let mut r = String::new();
    let mut i: usize = 0;
    while i < loc.0
        invariant
            i <= loc.0,
            r@ =~= Seq::new(i as nat, |j: int| ' '),
        decreases loc.0 - i,
    {
        r.push(' ');
        i = i + 1;
        proof {
            assert(r@ =~= Seq::new(i as nat, |j: int| ' '));
        }
    }
    let mut k: usize = 0;
    while k < loc.1 - loc.0
        invariant
            loc.wf(),
            k <= loc.1 - loc.0,
            r@ =~= Seq::new(loc.0 as nat, |j: int| ' ') + Seq::new(k as nat, |j: int| '^'),
        decreases loc.1 - loc.0 - k,
    {
        r.push('^');
        k = k + 1;
        proof {
            assert(r@ =~= Seq::new(loc.0 as nat, |j: int| ' ') + Seq::new(k as nat, |j: int| '^'));
        }
    }
    r
}

impl Error {
    /// The span of the underlying cause.
    pub open spec fn spec_loc(&self) -> Loc {
        match self {
            Error::Lexer(e) => e.loc,
        }
    }

    /// The underlying lexical error this wrapper reports as its cause.
    pub fn source(&self) -> (r: &LexError)
        ensures
            *self == Error::Lexer(*r),
    {
        match self {
            Error::Lexer(e) => e,
        }
    }

    /// Render the one-line top-level message.
    pub fn message(&self) -> (r: String)
        ensures
            r@ == "parse error"@,
    {
        "parse error".to_owned()
    }

    /// The two diagnostic lines for this error: the original input
    /// verbatim, and a caret line underlining the offending span.
    pub fn diagnostic_lines(&self, input: &str) -> (r: (String, String))
        requires
            self.spec_loc().wf(),
        ensures
            r.0@ == input@,
            r.1@ == marker_text(self.spec_loc()),
    {
        let loc = match self {
            Error::Lexer(e) => e.loc,
        };
        (input.to_owned(), error_marker(loc))
    }
}

} // verus!
