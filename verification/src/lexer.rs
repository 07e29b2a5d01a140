use vstd::prelude::*;
use vstd::string::StringSliceAdditionalSpecFns;

use crate::Annot;
use crate::Loc;
use crate::error::LexError;
use crate::error::LexKind;

verus! {

/// An ASCII decimal digit.
pub open spec fn is_digit(b: u8) -> bool {
    48 <= b && b <= 57
}

/// A whitespace byte the scanner absorbs: space, newline or tab.
pub open spec fn is_space(b: u8) -> bool {
    b == 32 || b == 10 || b == 9
}

/// Length of the maximal run of digits starting at `pos`.
pub open spec fn digit_run_len(s: Seq<u8>, pos: int) -> nat
    decreases s.len() - pos,
{
    if 0 <= pos < s.len() && is_digit(s[pos]) {
        digit_run_len(s, pos + 1) + 1
    } else {
        0
    }
}

/// Length of the maximal run of whitespace starting at `pos`.
pub open spec fn space_run_len(s: Seq<u8>, pos: int) -> nat
    decreases s.len() - pos,
{
    if 0 <= pos < s.len() && is_space(s[pos]) {
        space_run_len(s, pos + 1) + 1
    } else {
        0
    }
}

/// The numeric value of a digit string read in base 10.
pub open spec fn digits_val(s: Seq<u8>) -> int
    decreases s.len(),
{
    if s.len() == 0 {
        0
    } else {
        digits_val(s.drop_last()) * 10 + s.last() - 48
    }
}

/// The value a `Number` token carries for a given digit run: the numeric
/// value reduced to the unsigned 64-bit range. Runs whose value fits are
/// unchanged; longer runs wrap around.
pub open spec fn number_value(digits: Seq<u8>) -> u64 {
    (digits_val(digits) % 0x1_0000_0000_0000_0000) as u64
}

pub proof fn lemma_digit_run_len_le(s: Seq<u8>, pos: int)
    requires
        0 <= pos <= s.len(),
    ensures
        pos + digit_run_len(s, pos) <= s.len(),
    decreases s.len() - pos,
{
    if pos < s.len() && is_digit(s[pos]) {
        lemma_digit_run_len_le(s, pos + 1);
    }
}

pub proof fn lemma_space_run_len_le(s: Seq<u8>, pos: int)
    requires
        0 <= pos <= s.len(),
    ensures
        pos + space_run_len(s, pos) <= s.len(),
    decreases s.len() - pos,
{
    if pos < s.len() && is_space(s[pos]) {
        lemma_space_run_len_le(s, pos + 1);
    }
}

/// A maximal digit run is exactly the interval whose members are all
/// digits and whose right neighbour, if any, is not.
pub proof fn lemma_digit_run_len_is(s: Seq<u8>, pos: int, end: int)
    requires
        0 <= pos <= end <= s.len(),
        forall|i: int| pos <= i < end ==> is_digit(s[i]),
        end == s.len() || !is_digit(s[end]),
    ensures
        digit_run_len(s, pos) == end - pos,
    decreases end - pos,
{
    if pos < end {
        lemma_digit_run_len_is(s, pos + 1, end);
    }
}

/// The whitespace analogue of `lemma_digit_run_len_is`.
pub proof fn lemma_space_run_len_is(s: Seq<u8>, pos: int, end: int)
    requires
        0 <= pos <= end <= s.len(),
        forall|i: int| pos <= i < end ==> is_space(s[i]),
        end == s.len() || !is_space(s[end]),
    ensures
        space_run_len(s, pos) == end - pos,
    decreases end - pos,
{
    if pos < end {
        lemma_space_run_len_is(s, pos + 1, end);
    }
}

/// What scanning yields from `pos` to the end of the input: the token
/// sequence of the rest of the input, or the first lexical error.
pub open spec fn lex_from(s: Seq<u8>, pos: int) -> Result<Seq<Token>, LexError>
    decreases s.len() - pos,
        via lex_from_decreases
{
    if pos < 0 || s.len() <= pos {
        Ok(Seq::empty())
    } else if is_digit(s[pos]) {
        let end = pos + digit_run_len(s, pos);
        let tok = Annot {
            value: TokenKind::Number(number_value(s.subrange(pos, end))),
            loc: Loc(pos as usize, end as usize),
        };
        match lex_from(s, end) {
            Ok(rest) => Ok(seq![tok] + rest),
            Err(e) => Err(e),
        }
    } else if s[pos] == 43 {
        let tok = Annot { value: TokenKind::Plus, loc: Loc(pos as usize, (pos + 1) as usize) };
        match lex_from(s, pos + 1) {
            Ok(rest) => Ok(seq![tok] + rest),
            Err(e) => Err(e),
        }
    } else if s[pos] == 45 {
        let tok = Annot { value: TokenKind::Minus, loc: Loc(pos as usize, (pos + 1) as usize) };
        match lex_from(s, pos + 1) {
            Ok(rest) => Ok(seq![tok] + rest),
            Err(e) => Err(e),
        }
    } else if is_space(s[pos]) {
        lex_from(s, pos + space_run_len(s, pos))
    } else {
        Err(Annot {
            value: LexKind::InvalidChar(s[pos] as char),
            loc: Loc(pos as usize, (pos + 1) as usize),
        })
    }
}

#[via_fn]
proof fn lex_from_decreases(s: Seq<u8>, pos: int) {
    if 0 <= pos < s.len() {
        if is_digit(s[pos]) {
            lemma_digit_run_len_le(s, pos);
        } else if !(s[pos] == 43) && !(s[pos] == 45) && is_space(s[pos]) {
            lemma_space_run_len_le(s, pos);
        }
    }
}

/// The three lexical categories of the expression language.
#[derive(Debug, Clone, Copy, PartialEq, Eq, Structural, Hash)]
pub enum TokenKind {
    Plus,
    Minus,
    Number(u64),
}

/// A token: a lexical category located at the span of its lexeme.
pub type Token = Annot<TokenKind>;

impl Token {
    pub fn number(n: u64, loc: Loc) -> (r: Self)
        ensures
            r == (Annot { value: TokenKind::Number(n), loc }),
    {
        Self::new(TokenKind::Number(n), loc)
    }

    pub fn plus(loc: Loc) -> (r: Self)
        ensures
            r == (Annot { value: TokenKind::Plus, loc }),
    {
        Self::new(TokenKind::Plus, loc)
    }

    pub fn minus(loc: Loc) -> (r: Self)
        ensures
            r == (Annot { value: TokenKind::Minus, loc }),
    {
        Self::new(TokenKind::Minus, loc)
    }
}

/// Consume the maximal run of bytes satisfying `f`, starting at `pos`;
/// returns the offset just past the run.
fn recognize_many<F: Fn(u8) -> bool>(input: &[u8], pos: usize, f: F) -> (end: usize)
    requires
        pos <= input@.len(),
        forall|b: u8| #[trigger] f.requires((b,)),
    ensures
        pos <= end <= input@.len(),
        forall|i: int| pos <= i < end ==> call_ensures(f, (input@[i],), true),
        end < input@.len() ==> call_ensures(f, (input@[end as int],), false),
{
    let mut end = pos;
    loop
        invariant_except_break
            pos <= end <= input@.len(),
            forall|b: u8| #[trigger] f.requires((b,)),
            forall|i: int| pos <= i < end ==> call_ensures(f, (input@[i],), true),
        ensures
            pos <= end <= input@.len(),
            forall|i: int| pos <= i < end ==> call_ensures(f, (input@[i],), true),
            end < input@.len() ==> call_ensures(f, (input@[end as int],), false),
        decreases input@.len() - end,
    {
        if end >= input.len() {
            break;
        }
        let keep = f(input[end]);
        if !keep {
            break;
        }
        end = end + 1;
    }
    end
}

/// Require the byte `b` at `pos`: `Eof` past the end of the input,
/// `InvalidChar` on any other byte.
pub fn consume_byte(input: &[u8], pos: usize, b: u8) -> (r: Result<(u8, usize), LexError>)
    requires
        pos <= input@.len(),
        pos < usize::MAX,
    ensures
        pos == input@.len() ==> r == Err::<(u8, usize), LexError>(
            Annot { value: LexKind::Eof, loc: Loc(pos, (pos + 1) as usize) },
        ),
        pos < input@.len() && input@[pos as int] != b ==> r == Err::<(u8, usize), LexError>(
            Annot { value: LexKind::InvalidChar(b as char), loc: Loc(pos, (pos + 1) as usize) },
        ),
        pos < input@.len() && input@[pos as int] == b ==> r == Ok::<(u8, usize), LexError>(
            (b, (pos + 1) as usize),
        ),
{
    if input.len() <= pos {
        return Err(LexError::eof(Loc(pos, pos + 1)));
    }
    if input[pos] != b {
        return Err(LexError::invalid_char(b as char, Loc(pos, pos + 1)));
    }
    Ok((b, pos + 1))
}

/// One step of the base-10 accumulation: extending the digit string by
/// one digit maps the wrapped value through wrapping multiply-and-add.
proof fn lemma_number_value_step(s: Seq<u8>, start: int, i: int, n: u64)
    requires
        0 <= start <= i < s.len(),
        is_digit(s[i]),
        n == number_value(s.subrange(start, i)),
    ensures
        number_value(s.subrange(start, i + 1)) == vstd::wrapping::u64_specs::wrapping_add(
            vstd::wrapping::u64_specs::wrapping_mul(n, 10),
            (s[i] - 48) as u64,
        ),
{
    let m = 0x1_0000_0000_0000_0000 as int;
    let prefix = s.subrange(start, i);
    let extended = s.subrange(start, i + 1);
    assert(extended.drop_last() =~= prefix);
    let dv = digits_val(prefix);
    let d = s[i] - 48;
    assert(digits_val(extended) == dv * 10 + d);
    let x = (dv % m) * 10;
    vstd::arithmetic::div_mod::lemma_mul_mod_noop_left(dv, 10, m);
    vstd::arithmetic::div_mod::lemma_add_mod_noop(x, d as int, m);
    vstd::arithmetic::div_mod::lemma_add_mod_noop(dv * 10, d as int, m);
    let w = vstd::wrapping::u64_specs::wrapping_mul(n, 10);
    assert(n == dv % m);
    assert(w == x % m) by {
        assert(n as nat * 10 == x);
    }
    let sum = w + d;
    assert(vstd::wrapping::u64_specs::wrapping_add(w, (d as u64)) == sum % m) by {
        if sum > u64::MAX {
            vstd::arithmetic::div_mod::lemma_mod_multiples_vanish(1, sum - m, m);
            assert((sum - m) % m == sum - m) by {
                vstd::arithmetic::div_mod::lemma_small_mod((sum - m) as nat, m as nat);
            }
        } else {
            vstd::arithmetic::div_mod::lemma_small_mod(sum as nat, m as nat);
        }
    }
    assert(sum % m == (x % m + d) % m) by {
        assert(d % m == d) by {
            vstd::arithmetic::div_mod::lemma_small_mod(d as nat, m as nat);
        }
    }
}

/// Scan the maximal digit run starting at `pos` into a `Number` token;
/// never fails.
pub fn lex_number(input: &[u8], pos: usize) -> (r: Result<(Token, usize), LexError>)
    requires
        pos < input@.len(),
        is_digit(input@[pos as int]),
    ensures
        ({
            let end = pos + digit_run_len(input@, pos as int);
            r == Ok::<(Token, usize), LexError>(
                (
                    Annot {
                        value: TokenKind::Number(number_value(input@.subrange(pos as int, end as int))),
                        loc: Loc(pos, end as usize),
                    },
                    end as usize,
                ),
            )
        }),
{
    let start = pos;
    let end = recognize_many(
        input,
        pos,
        (|b: u8| -> (r: bool)
            ensures
                r == is_digit(b),
            { 48 <= b && b <= 57 }),
    );
    proof {
        lemma_digit_run_len_is(input@, pos as int, end as int);
    }
    let mut n: u64 = 0;
    let mut i = start;
    while i < end
        invariant
            start <= i <= end <= input@.len(),
            forall|j: int| start <= j < end ==> is_digit(input@[j]),
            n == number_value(input@.subrange(start as int, i as int)),
        decreases end - i,
    {
        proof {
            lemma_number_value_step(input@, start as int, i as int, n);
        }
        let d = input[i] - 48;
        n = n.wrapping_mul(10).wrapping_add(d as u64);
        i = i + 1;
    }
    Ok((Token::number(n, Loc(start, end)), end))
}

/// Scan a single `+` at `start`.
pub fn lex_plus(input: &[u8], start: usize) -> (r: Result<(Token, usize), LexError>)
    requires
        start < input@.len(),
        start < usize::MAX,
        input@[start as int] == 43,
    ensures
        r == Ok::<(Token, usize), LexError>(
            (Annot { value: TokenKind::Plus, loc: Loc(start, (start + 1) as usize) }, (start + 1) as usize),
        ),
{
    match consume_byte(input, start, 43) {
        Ok((_, end)) => Ok((Token::plus(Loc(start, end)), end)),
        Err(e) => Err(e),
    }
}

/// Scan a single `-` at `start`.
pub fn lex_minus(input: &[u8], start: usize) -> (r: Result<(Token, usize), LexError>)
    requires
        start < input@.len(),
        start < usize::MAX,
        input@[start as int] == 45,
    ensures
        r == Ok::<(Token, usize), LexError>(
            (Annot { value: TokenKind::Minus, loc: Loc(start, (start + 1) as usize) }, (start + 1) as usize),
        ),
{
    match consume_byte(input, start, 45) {
        Ok((_, end)) => Ok((Token::minus(Loc(start, end)), end)),
        Err(e) => Err(e),
    }
}

/// Skip the maximal whitespace run starting at `pos`; never fails.
pub fn skip_space(input: &[u8], pos: usize) -> (r: Result<((), usize), LexError>)
    requires
        pos <= input@.len(),
    ensures
        r == Ok::<((), usize), LexError>(((), (pos + space_run_len(input@, pos as int)) as usize)),
{
    let end = recognize_many(
        input,
        pos,
        (|b: u8| -> (r: bool)
            ensures
                r == is_space(b),
            { b == 32 || b == 10 || b == 9 }),
    );
    proof {
        lemma_space_run_len_is(input@, pos as int, end as int);
    }
    Ok(((), end))
}

/// The scan result with `ts` already emitted in front of it.
pub open spec fn prepend_tokens(ts: Seq<Token>, r: Result<Seq<Token>, LexError>) -> Result<
    Seq<Token>,
    LexError,
> {
    match r {
        Ok(rest) => Ok(ts + rest),
        Err(e) => Err(e),
    }
}

/// The mathematical value of an executable scan result.
pub open spec fn lex_result_view(r: Result<Vec<Token>, LexError>) -> Result<Seq<Token>, LexError> {
    match r {
        Ok(v) => Ok(v@),
        Err(e) => Err(e),
    }
}

/// Prepending nothing changes nothing.
proof fn lemma_prepend_nil(r: Result<Seq<Token>, LexError>)
    ensures
        prepend_tokens(Seq::empty(), r) == r,
{
    match r {
        Ok(ts) => {
            assert(Seq::<Token>::empty() + ts =~= ts);
        },
        Err(_) => {},
    }
}

/// Emitting one more token keeps the prefix/suffix decomposition of the
/// whole scan.
proof fn lemma_lex_step(s: Seq<u8>, ts: Seq<Token>, tok: Token, pos: int, end: int)
    requires
        lex_from(s, 0) == prepend_tokens(ts, lex_from(s, pos)),
        lex_from(s, pos) == prepend_tokens(seq![tok], lex_from(s, end)),
    ensures
        lex_from(s, 0) == prepend_tokens(ts.push(tok), lex_from(s, end)),
{
    match lex_from(s, end) {
        Ok(rest) => {
            assert(ts + (seq![tok] + rest) =~= ts.push(tok) + rest);
        },
        Err(_) => {},
    }
}

/// Partition the input into located tokens, left to right: digit runs
/// become `Number` tokens, `+` and `-` become operator tokens, whitespace
/// is absorbed, and the first byte outside those classes stops the scan
/// with `InvalidChar`. The result is exactly what the reference scan
/// `lex_from` yields from the start of the input.
pub fn lex(input: &str) -> (r: Result<Vec<Token>, LexError>)
    ensures
        lex_result_view(r) == lex_from(input.spec_bytes(), 0),
{
    let mut tokens: Vec<Token> = Vec::new();
    let bytes = input.as_bytes();
    let mut pos: usize = 0;
    proof {
        lemma_prepend_nil(lex_from(bytes@, 0));
    }
    while pos < bytes.len()
        invariant
            pos <= bytes@.len(),
            bytes@ == input.spec_bytes(),
            lex_from(bytes@, 0) == prepend_tokens(tokens@, lex_from(bytes@, pos as int)),
        decreases bytes@.len() - pos,
    {
        let ghost prev = tokens@;
        let b = bytes[pos];
        if 48 <= b && b <= 57 {
            match lex_number(bytes, pos) {
                Ok((tok, p)) => {
                    proof {
                        lemma_digit_run_len_le(bytes@, pos as int);
                        assert(lex_from(bytes@, pos as int) == prepend_tokens(
                            seq![tok],
                            lex_from(bytes@, p as int),
                        )) by {
                            match lex_from(bytes@, p as int) {
                                Ok(_) => {},
                                Err(_) => {},
                            }
                        }
                        lemma_lex_step(bytes@, prev, tok, pos as int, p as int);
                    }
                    tokens.push(tok);
                    pos = p;
                },
                Err(e) => {
                    return Err(e);
                },
            }
        } else if b == 43 {
            match lex_plus(bytes, pos) {
                Ok((tok, p)) => {
                    proof {
                        assert(lex_from(bytes@, pos as int) == prepend_tokens(
                            seq![tok],
                            lex_from(bytes@, p as int),
                        )) by {
                            match lex_from(bytes@, p as int) {
                                Ok(_) => {},
                                Err(_) => {},
                            }
                        }
                        lemma_lex_step(bytes@, prev, tok, pos as int, p as int);
                    }
                    tokens.push(tok);
                    pos = p;
                },
                Err(e) => {
                    return Err(e);
                },
            }
        } else if b == 45 {
            match lex_minus(bytes, pos) {
                Ok((tok, p)) => {
                    proof {
                        assert(lex_from(bytes@, pos as int) == prepend_tokens(
                            seq![tok],
                            lex_from(bytes@, p as int),
                        )) by {
                            match lex_from(bytes@, p as int) {
                                Ok(_) => {},
                                Err(_) => {},
                            }
                        }
                        lemma_lex_step(bytes@, prev, tok, pos as int, p as int);
                    }
                    tokens.push(tok);
                    pos = p;
                },
                Err(e) => {
                    return Err(e);
                },
            }
        } else if b == 32 || b == 10 || b == 9 {
            match skip_space(bytes, pos) {
                Ok((_, p)) => {
                    proof {
                        lemma_space_run_len_le(bytes@, pos as int);
                    }
                    pos = p;
                },
                Err(e) => {
                    return Err(e);
                },
            }
        } else {
            return Err(LexError::invalid_char(b as char, Loc(pos, pos + 1)));
        }
    }
    proof {
        assert(tokens@ + Seq::<Token>::empty() =~= tokens@);
    }
    Ok(tokens)
}

/// The numeric payload of a token that must be a `Number`; an operator
/// token is reported as an invalid character at its own span.
pub fn expect_number(token: &Token) -> (r: Result<u64, LexError>)
    ensures
        match token.value {
            TokenKind::Number(n) => r == Ok::<u64, LexError>(n),
            TokenKind::Plus => r == Err::<u64, LexError>(
                Annot { value: LexKind::InvalidChar('+'), loc: token.loc },
            ),
            TokenKind::Minus => r == Err::<u64, LexError>(
                Annot { value: LexKind::InvalidChar('-'), loc: token.loc },
            ),
        },
{
    match token.value {
        TokenKind::Number(n) => Ok(n),
        TokenKind::Plus => Err(LexError::new(LexKind::InvalidChar('+'), token.loc)),
        TokenKind::Minus => Err(LexError::new(LexKind::InvalidChar('-'), token.loc)),
    }
}

/// Whether the token is of the given kind.
pub fn consume(kind: TokenKind, token: &Token) -> (r: bool)
    ensures
        r == (kind == token.value),
{
    kind == token.value
}

/// Every byte inside a digit run is a digit.
proof fn lemma_digit_run_chars(s: Seq<u8>, pos: int)
    requires
        0 <= pos <= s.len(),
    ensures
        forall|i: int| pos <= i < pos + digit_run_len(s, pos) ==> is_digit(s[i]),
    decreases s.len() - pos,
{
    if pos < s.len() && is_digit(s[pos]) {
        lemma_digit_run_chars(s, pos + 1);
    }
}

/// Every byte inside a whitespace run is whitespace.
proof fn lemma_space_run_chars(s: Seq<u8>, pos: int)
    requires
        0 <= pos <= s.len(),
    ensures
        forall|i: int| pos <= i < pos + space_run_len(s, pos) ==> is_space(s[i]),
    decreases s.len() - pos,
{
    if pos < s.len() && is_space(s[pos]) {
        lemma_space_run_chars(s, pos + 1);
    }
}

/// A digit run cannot reach past a non-digit byte.
proof fn lemma_digit_run_stops(s: Seq<u8>, pos: int, k: int)
    requires
        0 <= pos <= k < s.len(),
        !is_digit(s[k]),
    ensures
        pos + digit_run_len(s, pos) <= k,
    decreases k - pos,
{
    if pos < k && is_digit(s[pos]) {
        lemma_digit_run_stops(s, pos + 1, k);
    }
}

/// A whitespace run cannot reach past a non-whitespace byte.
proof fn lemma_space_run_stops(s: Seq<u8>, pos: int, k: int)
    requires
        0 <= pos <= k < s.len(),
        !is_space(s[k]),
    ensures
        pos + space_run_len(s, pos) <= k,
    decreases k - pos,
{
    if pos < k && is_space(s[pos]) {
        lemma_space_run_stops(s, pos + 1, k);
    }
}

/// The value of a digit string is never negative.
proof fn lemma_digits_val_nonneg(s: Seq<u8>)
    requires
        forall|i: int| 0 <= i < s.len() ==> is_digit(s[i]),
    ensures
        digits_val(s) >= 0,
    decreases s.len(),
{
    if s.len() > 0 {
        lemma_digits_val_nonneg(s.drop_last());
    }
}

/// An input consisting solely of digits scans to one `Number` token that
/// spans the whole input and carries the numeric value of the digit
/// string. Digit strings whose value does not fit an unsigned 64-bit
/// integer are outside this statement: their token's value wraps.
pub proof fn lemma_all_digits_single_number(s: Seq<u8>)
    requires
        0 < s.len() <= usize::MAX,
        forall|i: int| 0 <= i < s.len() ==> is_digit(s[i]),
        digits_val(s) < 0x1_0000_0000_0000_0000,
    ensures
        lex_from(s, 0) == Ok::<Seq<Token>, LexError>(
            seq![
                Annot {
                    value: TokenKind::Number(digits_val(s) as u64),
                    loc: Loc(0, s.len() as usize),
                },
            ],
        ),
{
    let len = s.len() as int;
    lemma_digit_run_len_is(s, 0, len);
    assert(s.subrange(0, len) =~= s);
    lemma_digits_val_nonneg(s);
    vstd::arithmetic::div_mod::lemma_small_mod(
        digits_val(s) as nat,
        0x1_0000_0000_0000_0000 as nat,
    );
    let tok = Annot {
        value: TokenKind::Number(digits_val(s) as u64),
        loc: Loc(0, s.len() as usize),
    };
    assert(lex_from(s, len) == Ok::<Seq<Token>, LexError>(Seq::empty()));
    assert(seq![tok] + Seq::<Token>::empty() =~= seq![tok]);
}

/// Whitespace-only input, the empty input included, scans to the empty
/// token sequence and is no error.
pub proof fn lemma_whitespace_yields_nothing(s: Seq<u8>)
    requires
        forall|i: int| 0 <= i < s.len() ==> is_space(s[i]),
    ensures
        lex_from(s, 0) == Ok::<Seq<Token>, LexError>(Seq::empty()),
{
    let len = s.len() as int;
    if s.len() > 0 {
        lemma_space_run_len_is(s, 0, len);
        assert(lex_from(s, len) == Ok::<Seq<Token>, LexError>(Seq::empty()));
    }
}

/// A byte the scanner accepts: a digit, an operator, or whitespace.
pub open spec fn is_accepted(b: u8) -> bool {
    is_digit(b) || b == 43 || b == 45 || is_space(b)
}

proof fn lemma_lex_first_invalid_from(s: Seq<u8>, pos: int, j: int)
    requires
        0 <= pos <= j < s.len() <= usize::MAX,
        !is_accepted(s[j]),
        forall|i: int| pos <= i < j ==> is_accepted(s[i]),
    ensures
        lex_from(s, pos) == Err::<Seq<Token>, LexError>(
            Annot {
                value: LexKind::InvalidChar(s[j] as char),
                loc: Loc(j as usize, (j + 1) as usize),
            },
        ),
    decreases j - pos,
{
    if pos < j {
        if is_digit(s[pos]) {
            lemma_digit_run_stops(s, pos, j);
            lemma_lex_first_invalid_from(s, pos + digit_run_len(s, pos), j);
        } else if s[pos] == 43 || s[pos] == 45 {
            lemma_lex_first_invalid_from(s, pos + 1, j);
        } else {
            lemma_space_run_stops(s, pos, j);
            lemma_lex_first_invalid_from(s, pos + space_run_len(s, pos), j);
        }
    }
}

/// An input whose byte at `j` is the first one outside the accepted
/// classes scans to `InvalidChar` at the single-byte span of that byte,
/// and to no tokens at all.
pub proof fn lemma_first_invalid_byte(s: Seq<u8>, j: int)
    requires
        0 <= j < s.len() <= usize::MAX,
        !is_accepted(s[j]),
        forall|i: int| 0 <= i < j ==> is_accepted(s[i]),
    ensures
        lex_from(s, 0) == Err::<Seq<Token>, LexError>(
            Annot {
                value: LexKind::InvalidChar(s[j] as char),
                loc: Loc(j as usize, (j + 1) as usize),
            },
        ),
{
    lemma_lex_first_invalid_from(s, 0, j);
}

/// The token reproduces a valid lexeme of its kind at its span: a
/// nonempty digit run carrying its wrapped value for `Number`, the
/// literal single byte for `Plus` and `Minus`.
pub open spec fn is_lexeme(s: Seq<u8>, t: Token) -> bool {
    &&& t.loc.0 < t.loc.1 <= s.len()
    &&& match t.value {
        TokenKind::Number(n) => {
            &&& forall|i: int| t.loc.0 <= i < t.loc.1 ==> is_digit(s[i])
            &&& n == number_value(s.subrange(t.loc.0 as int, t.loc.1 as int))
        },
        TokenKind::Plus => s[t.loc.0 as int] == 43 && t.loc.1 == t.loc.0 + 1,
        TokenKind::Minus => s[t.loc.0 as int] == 45 && t.loc.1 == t.loc.0 + 1,
    }
}

/// Whether offset `i` lies inside the span of some token of `ts`.
pub open spec fn covered(ts: Seq<Token>, i: int) -> bool {
    exists|k: int| 0 <= k < ts.len() && (#[trigger] ts[k].loc).0 <= i < ts[k].loc.1
}

proof fn lemma_covered_cons(tok: Token, rest: Seq<Token>, i: int)
    ensures
        covered(seq![tok] + rest, i) <==> (tok.loc.0 <= i < tok.loc.1 || covered(rest, i)),
{
    let ts = seq![tok] + rest;
    if covered(ts, i) {
        let k = choose|k: int| 0 <= k < ts.len() && (#[trigger] ts[k].loc).0 <= i < ts[k].loc.1;
        if k > 0 {
            assert(rest[k - 1] == ts[k]);
            assert(covered(rest, i));
        }
    }
    if tok.loc.0 <= i < tok.loc.1 {
        assert(ts[0] == tok);
        assert(covered(ts, i));
    }
    if covered(rest, i) {
        let k = choose|k: int| 0 <= k < rest.len() && (#[trigger] rest[k].loc).0 <= i < rest[k].loc.1;
        assert(ts[k + 1] == rest[k]);
        assert(covered(ts, i));
    }
}

/// The ordering, lexeme and coverage facts of a scan suffix: every
/// token is a lexeme at or past `pos`, tokens come left to right, and
/// from `pos` on, an offset is covered exactly when its byte is not
/// whitespace.
pub open spec fn sound_tokens(s: Seq<u8>, pos: int, ts: Seq<Token>) -> bool {
    &&& forall|k: int| 0 <= k < ts.len() ==> #[trigger] is_lexeme(s, ts[k]) && pos <= ts[k].loc.0
    &&& forall|k: int| 0 <= k < ts.len() - 1 ==> #[trigger] ts[k].loc.1 <= ts[k + 1].loc.0
    &&& forall|i: int| pos <= i < s.len() ==> (is_space(s[i]) <==> !covered(ts, i))
}

proof fn lemma_sound_cons(s: Seq<u8>, pos: int, end: int, tok: Token, rest: Seq<Token>)
    requires
        0 <= pos < end <= s.len(),
        is_lexeme(s, tok),
        tok.loc.0 == pos,
        tok.loc.1 == end,
        forall|i: int| pos <= i < end ==> !is_space(s[i]),
        sound_tokens(s, end, rest),
    ensures
        sound_tokens(s, pos, seq![tok] + rest),
{
    let ts = seq![tok] + rest;
    assert forall|k: int| 0 <= k < ts.len() implies #[trigger] is_lexeme(s, ts[k]) && pos
        <= ts[k].loc.0 by {
        if k == 0 {
            assert(ts[0] == tok);
        } else {
            let j = k - 1;
            assert(ts[k] == rest[j]);
            assert(0 <= j < rest.len());
            assert(is_lexeme(s, rest[j]));
            assert(end <= rest[j].loc.0);
        }
    }
    assert forall|k: int| 0 <= k < ts.len() - 1 implies #[trigger] ts[k].loc.1 <= ts[k
        + 1].loc.0 by {
        if k == 0 {
            assert(ts[1] == rest[0]);
            assert(is_lexeme(s, rest[0]) && end <= rest[0].loc.0);
        } else {
            assert(ts[k] == rest[k - 1] && ts[k + 1] == rest[k]);
        }
    }
    assert forall|i: int| pos <= i < s.len() implies (is_space(s[i]) <==> !covered(ts, i)) by {
        lemma_covered_cons(tok, rest, i);
        if end <= i {
            assert(is_space(s[i]) <==> !covered(rest, i));
        }
    }
}

proof fn lemma_sound_skip(s: Seq<u8>, pos: int, end: int, ts: Seq<Token>)
    requires
        0 <= pos <= end <= s.len(),
        forall|i: int| pos <= i < end ==> is_space(s[i]),
        sound_tokens(s, end, ts),
    ensures
        sound_tokens(s, pos, ts),
{
    assert forall|i: int| pos <= i < end implies !covered(ts, i) by {
        if covered(ts, i) {
            let k = choose|k: int|
                0 <= k < ts.len() && (#[trigger] ts[k].loc).0 <= i < ts[k].loc.1;
            assert(is_lexeme(s, ts[k]) && end <= ts[k].loc.0);
        }
    }
}

proof fn lemma_lex_tokens_sound_from(s: Seq<u8>, pos: int)
    requires
        0 <= pos <= s.len() <= usize::MAX,
        lex_from(s, pos) is Ok,
    ensures
        sound_tokens(s, pos, lex_from(s, pos)->Ok_0),
    decreases s.len() - pos,
{
    let ts = lex_from(s, pos)->Ok_0;
    if pos == s.len() {
        assert(ts =~= Seq::<Token>::empty());
    } else if is_digit(s[pos]) {
        let run = digit_run_len(s, pos) as int;
        let end = pos + run;
        lemma_digit_run_len_le(s, pos);
        lemma_digit_run_chars(s, pos);
        lemma_lex_tokens_sound_from(s, end);
        let rest = lex_from(s, end)->Ok_0;
        let tok = Annot {
            value: TokenKind::Number(number_value(s.subrange(pos, end))),
            loc: Loc(pos as usize, end as usize),
        };
        assert(ts == seq![tok] + rest);
        assert(is_lexeme(s, tok));
        lemma_sound_cons(s, pos, end, tok, rest);
    } else if s[pos] == 43 || s[pos] == 45 {
        let end = pos + 1;
        lemma_lex_tokens_sound_from(s, end);
        let rest = lex_from(s, end)->Ok_0;
        let tok = if s[pos] == 43 {
            Annot { value: TokenKind::Plus, loc: Loc(pos as usize, end as usize) }
        } else {
            Annot { value: TokenKind::Minus, loc: Loc(pos as usize, end as usize) }
        };
        assert(ts == seq![tok] + rest);
        assert(is_lexeme(s, tok));
        lemma_sound_cons(s, pos, end, tok, rest);
    } else {
        let run = space_run_len(s, pos) as int;
        let end = pos + run;
        lemma_space_run_len_le(s, pos);
        lemma_space_run_chars(s, pos);
        lemma_lex_tokens_sound_from(s, end);
        assert(ts == lex_from(s, end)->Ok_0);
        lemma_sound_skip(s, pos, end, ts);
    }
}


/// On a successful scan the tokens tile the non-whitespace portion of
/// the input, in order: every token's span reproduces a valid lexeme of
/// its kind, consecutive spans do not overlap and come left to right,
/// and an offset lies inside some token's span exactly when its byte is
/// not whitespace.
pub proof fn lemma_tokens_tile_input(s: Seq<u8>, ts: Seq<Token>)
    requires
        s.len() <= usize::MAX,
        lex_from(s, 0) == Ok::<Seq<Token>, LexError>(ts),
    ensures
        forall|k: int| 0 <= k < ts.len() ==> #[trigger] is_lexeme(s, ts[k]),
        forall|k: int| 0 <= k < ts.len() - 1 ==> #[trigger] ts[k].loc.1 <= ts[k + 1].loc.0,
        forall|i: int| 0 <= i < s.len() ==> (is_space(s[i]) <==> !covered(ts, i)),
{
    lemma_lex_tokens_sound_from(s, 0);
}

/// The expression shape: digit runs separated by single `+`/`-` bytes,
/// with arbitrary whitespace around them. `expect_num` says whether the
/// next token must be a digit run (at the start and after an operator)
/// or an operator (after a digit run); input may only end after a run.
pub open spec fn shaped_from(s: Seq<u8>, pos: int, expect_num: bool) -> bool
    decreases s.len() - pos,
        via shaped_from_decreases
{
    if pos < 0 {
        false
    } else if s.len() <= pos {
        !expect_num
    } else if is_space(s[pos]) {
        shaped_from(s, pos + space_run_len(s, pos), expect_num)
    } else if is_digit(s[pos]) {
        expect_num && shaped_from(s, pos + digit_run_len(s, pos), false)
    } else if s[pos] == 43 || s[pos] == 45 {
        !expect_num && shaped_from(s, pos + 1, true)
    } else {
        false
    }
}

#[via_fn]
proof fn shaped_from_decreases(s: Seq<u8>, pos: int, expect_num: bool) {
    if 0 <= pos < s.len() {
        if is_space(s[pos]) {
            lemma_space_run_len_le(s, pos);
        } else if is_digit(s[pos]) {
            lemma_digit_run_len_le(s, pos);
        }
    }
}

/// `Number` tokens stand exactly at the positions of one parity.
pub open spec fn alternating(ts: Seq<Token>, first_num: bool) -> bool {
    forall|k: int|
        0 <= k < ts.len() ==> ((#[trigger] ts[k].value) is Number <==> ((k % 2 == 0) == first_num))
}

proof fn lemma_shaped_lex_from(s: Seq<u8>, pos: int, expect_num: bool)
    requires
        0 <= pos <= s.len() <= usize::MAX,
        shaped_from(s, pos, expect_num),
    ensures
        lex_from(s, pos) is Ok,
        alternating(lex_from(s, pos)->Ok_0, expect_num),
        (lex_from(s, pos)->Ok_0).len() % 2 == (if expect_num { 1int } else { 0int }),
    decreases s.len() - pos,
{
    let ts = lex_from(s, pos)->Ok_0;
    if pos == s.len() {
        assert(ts =~= Seq::<Token>::empty());
    } else if is_space(s[pos]) {
        let end = pos + space_run_len(s, pos);
        lemma_space_run_len_le(s, pos);
        lemma_shaped_lex_from(s, end, expect_num);
        assert(ts == lex_from(s, end)->Ok_0);
    } else if is_digit(s[pos]) {
        let end = pos + digit_run_len(s, pos);
        lemma_digit_run_len_le(s, pos);
        lemma_shaped_lex_from(s, end, false);
        let rest = lex_from(s, end)->Ok_0;
        let tok = Annot {
            value: TokenKind::Number(number_value(s.subrange(pos, end))),
            loc: Loc(pos as usize, end as usize),
        };
        assert(ts == seq![tok] + rest);
        assert forall|k: int| 0 <= k < ts.len() implies ((#[trigger] ts[k].value) is Number <==> ((
        k % 2 == 0) == expect_num)) by {
            if k > 0 {
                assert(ts[k] == rest[k - 1]);
                assert((rest[k - 1].value) is Number <==> ((k - 1) % 2 == 0) == false);
            }
        }
    } else {
        let end = pos + 1;
        lemma_shaped_lex_from(s, end, true);
        let rest = lex_from(s, end)->Ok_0;
        let tok = if s[pos] == 43 {
            Annot { value: TokenKind::Plus, loc: Loc(pos as usize, end as usize) }
        } else {
            Annot { value: TokenKind::Minus, loc: Loc(pos as usize, end as usize) }
        };
        assert(ts == seq![tok] + rest);
        assert forall|k: int| 0 <= k < ts.len() implies ((#[trigger] ts[k].value) is Number <==> ((
        k % 2 == 0) == expect_num)) by {
            if k > 0 {
                assert(ts[k] == rest[k - 1]);
                assert((rest[k - 1].value) is Number <==> ((k - 1) % 2 == 0) == true);
            }
        }
    }
}

/// An input in the expression shape scans successfully to a strict
/// alternation: `Number` tokens at the even positions, operator tokens
/// at the odd ones, beginning and ending with a `Number`. Together with
/// `lemma_tokens_tile_input`, the spans of these tokens cover exactly
/// the non-whitespace bytes of the input.
pub proof fn lemma_shaped_input_alternates(s: Seq<u8>)
    requires
        s.len() <= usize::MAX,
        shaped_from(s, 0, true),
    ensures
        lex_from(s, 0) is Ok,
        alternating(lex_from(s, 0)->Ok_0, true),
        (lex_from(s, 0)->Ok_0).len() % 2 == 1,
{
    lemma_shaped_lex_from(s, 0, true);
}

} // verus!
