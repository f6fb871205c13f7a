//! [TokenReader] reads [Token]s from a byte string.

use vstd::prelude::*;
use vstd::string::StringSliceAdditionalSpecFns;

verus! {

/// Token.
#[derive(Debug, PartialEq, Eq, Structural)]
pub enum Token {
    /// Integer, e.g. 1945
    Int(i64),
    /// Start and length of the text between the quotes.
    String(usize, usize),
    /// Start and length of the identifier.
    Ident(usize, usize),
    Dot,
    LBra,
    RBra,
    Comma,
    Eof,
}

/// Byte values: space 32, newline 10, digits 48..=57, letters 65..=90 and
/// 97..=122, quote 39, dot 46, brackets 40 and 41, comma 44.
/// Error with message.
#[derive(Debug)]
pub struct E {
    pub _message: String,
}

impl E {
    /// Error with message `s`.
    pub fn new(s: &str) -> (r: Self)
        ensures
            r._message@ == s@,
    {
        Self { _message: s.to_owned() }
    }
}

/// The byte at `pos`, 0 past the end.
pub open spec fn cc_at(input: Seq<u8>, pos: int) -> u8 {
    if 0 <= pos < input.len() {
        input[pos]
    } else {
        0
    }
}

/// Is `c` a decimal digit?
pub open spec fn is_digit(c: u8) -> bool {
    48 <= c <= 57
}

/// Is `c` an ASCII letter?
pub open spec fn is_alpha(c: u8) -> bool {
    (65 <= c <= 90) || (97 <= c <= 122)
}

/// First position from `pos` that is not a space or newline.
pub open spec fn skip_ws(input: Seq<u8>, pos: int) -> int
    decreases input.len() - pos,
{
    if pos < input.len() && (input[pos] == 32 || input[pos] == 10) {
        skip_ws(input, pos + 1)
    } else {
        pos
    }
}

/// First position from `pos` that does not hold a digit.
pub open spec fn digits_end(input: Seq<u8>, pos: int) -> int
    decreases input.len() - pos,
{
    if pos < input.len() && is_digit(input[pos]) {
        digits_end(input, pos + 1)
    } else {
        pos
    }
}

/// First position from `pos` that does not hold a letter or digit.
pub open spec fn ident_end(input: Seq<u8>, pos: int) -> int
    decreases input.len() - pos,
{
    if pos < input.len() && (is_digit(input[pos]) || is_alpha(input[pos])) {
        ident_end(input, pos + 1)
    } else {
        pos
    }
}

/// First position from `pos` that holds a quote or a 0 byte, or the end.
pub open spec fn quote_end(input: Seq<u8>, pos: int) -> int
    decreases input.len() - pos,
{
    if pos < input.len() && input[pos] != 39 && input[pos] != 0 {
        quote_end(input, pos + 1)
    } else {
        pos
    }
}

/// Decimal value of the digits `input[start..end]`.
pub open spec fn digits_value(input: Seq<u8>, start: int, end: int) -> int
    decreases end - start,
{
    if end <= start {
        0
    } else {
        digits_value(input, start, end - 1) * 10 + (input[end - 1] - 48)
    }
}

/// Is `c` an ASCII letter or digit?
pub open spec fn is_alnum(c: u8) -> bool {
    is_alpha(c) || is_digit(c)
}

/// `input[s..s+n]` is a word: it starts with a letter, holds only letters
/// and digits, and is not followed by a letter or digit.
pub open spec fn is_word(input: Seq<u8>, s: int, n: int) -> bool {
    &&& 0 <= s < s + n <= input.len()
    &&& is_alpha(input[s])
    &&& forall|i: int| s <= i < s + n ==> #[trigger] is_alnum(input[i])
    &&& s + n < input.len() ==> !is_alnum(input[s + n])
}

/// The run of letters and digits from `pos` ends at the first byte that is
/// neither, or at the end of the input.
proof fn lemma_ident_end(input: Seq<u8>, pos: int)
    requires
        0 <= pos <= input.len(),
    ensures
        pos <= ident_end(input, pos) <= input.len(),
        forall|i: int| pos <= i < ident_end(input, pos) ==> #[trigger] is_alnum(input[i]),
        ident_end(input, pos) < input.len() ==> !is_alnum(input[ident_end(input, pos)]),
    decreases input.len() - pos,
{
    if pos < input.len() && is_alnum(input[pos]) {
        lemma_ident_end(input, pos + 1);
    }
}

/// Spaces and newlines are skipped within the input.
proof fn lemma_skip_ws(input: Seq<u8>, pos: int)
    requires
        0 <= pos <= input.len(),
    ensures
        pos <= skip_ws(input, pos) <= input.len(),
    decreases input.len() - pos,
{
    if pos < input.len() && (input[pos] == 32 || input[pos] == 10) {
        lemma_skip_ws(input, pos + 1);
    }
}

/// Spaces and newlines are what is skipped: every byte before the token is
/// a space or newline, and the token starts at one that is neither.
pub proof fn lemma_skip_ws_skips_blanks(input: Seq<u8>, pos: int)
    requires
        0 <= pos <= input.len(),
    ensures
        forall|i: int| pos <= i < skip_ws(input, pos) ==> #[trigger] input[i] == 32 || input[i] == 10,
        skip_ws(input, pos) < input.len() ==> input[skip_ws(input, pos)] != 32 && input[skip_ws(
            input,
            pos,
        )] != 10,
    decreases input.len() - pos,
{
    if pos < input.len() && (input[pos] == 32 || input[pos] == 10) {
        lemma_skip_ws_skips_blanks(input, pos + 1);
    }
}

/// Each one-byte token is read from its byte, and the reader moves past
/// it: `.` gives Dot, `(` LBra, `)` RBra, `,` Comma; the end of the input
/// (or a 0 byte) gives Eof and the reader stays.
pub proof fn lemma_one_byte_tokens(input: Seq<u8>, pos: int)
    requires
        0 <= pos <= input.len(),
    ensures
        ({
            let p = skip_ws(input, pos);
            let (t, q) = token_at(input, pos);
            &&& t == Some(Token::Dot) ==> cc_at(input, p) == 46 && q == p + 1
            &&& t == Some(Token::LBra) ==> cc_at(input, p) == 40 && q == p + 1
            &&& t == Some(Token::RBra) ==> cc_at(input, p) == 41 && q == p + 1
            &&& t == Some(Token::Comma) ==> cc_at(input, p) == 44 && q == p + 1
            &&& t == Some(Token::Eof) ==> cc_at(input, p) == 0 && q == p
            &&& cc_at(input, p) == 46 ==> t == Some(Token::Dot)
            &&& cc_at(input, p) == 40 ==> t == Some(Token::LBra)
            &&& cc_at(input, p) == 41 ==> t == Some(Token::RBra)
            &&& cc_at(input, p) == 44 ==> t == Some(Token::Comma)
            &&& cc_at(input, p) == 0 ==> t == Some(Token::Eof)
        }),
{
}

/// An identifier token covers a whole word: the run of letters and digits
/// that starts with a letter (see [is_word]).
pub proof fn lemma_ident_token_is_word(input: Seq<u8>, pos: int)
    requires
        0 <= pos <= input.len(),
        input.len() <= usize::MAX,
    ensures
        token_at(input, pos).0 matches Some(Token::Ident(s, n)) ==> is_word(input, s as int, n as int),
{
    lemma_skip_ws(input, pos);
    let p = skip_ws(input, pos);
    if p < input.len() && is_alpha(input[p]) && !is_digit(input[p]) {
        lemma_ident_end(input, p);
        assert(ident_end(input, p) > p);
    }
}

/// A quoted string runs up to the first quote or 0 byte, or the end.
proof fn lemma_quote_end(input: Seq<u8>, pos: int)
    requires
        0 <= pos <= input.len(),
    ensures
        pos <= quote_end(input, pos) <= input.len(),
        forall|i: int| pos <= i < quote_end(input, pos) ==> #[trigger] input[i] != 39 && input[i] != 0,
    decreases input.len() - pos,
{
    if pos < input.len() && input[pos] != 39 && input[pos] != 0 {
        lemma_quote_end(input, pos + 1);
    }
}

/// Integer and string tokens cover what they should: an integer token is
/// read from a whole run of digits (after spaces and newlines), ending where
/// the next token starts, and holds its decimal value; a string token
/// `String(s, n)` is the text between two quotes, with no quote or 0 byte
/// in it.
pub proof fn lemma_number_and_string_tokens(input: Seq<u8>, pos: int)
    requires
        0 <= pos <= input.len(),
        input.len() <= usize::MAX,
    ensures
        ({
            let p = skip_ws(input, pos);
            let (t, q) = token_at(input, pos);
            t matches Some(Token::Int(v)) ==> {
                &&& p < q <= input.len()
                &&& forall|i: int| p <= i < q ==> #[trigger] is_digit(input[i])
                &&& q < input.len() ==> !is_digit(input[q])
                &&& v == digits_value(input, p, q) as i64
            }
        }),
        token_at(input, pos).0 matches Some(Token::String(s, n)) ==> {
            &&& 1 <= s && s + n < input.len()
            &&& input[s - 1] == 39 && input[s + n] == 39
            &&& forall|i: int| s <= i < s + n ==> #[trigger] input[i] != 39 && input[i] != 0
            &&& token_at(input, pos).1 == s + n + 1
        },
{
    lemma_skip_ws(input, pos);
    let p = skip_ws(input, pos);
    if p < input.len() {
        lemma_digits_end(input, p);
        if p + 1 <= input.len() {
            lemma_quote_end(input, p + 1);
        }
    }
}

/// The token at `pos` (after spaces and newlines) and the position after it;
/// `None` for an unterminated string or an unexpected character.
pub open spec fn token_at(input: Seq<u8>, pos: int) -> (Option<Token>, int) {
    let p = skip_ws(input, pos);
    let c = cc_at(input, p);
    if is_digit(c) {
        let e = digits_end(input, p);
        (Some(Token::Int(digits_value(input, p, e) as i64)), e)
    } else if is_alpha(c) {
        let e = ident_end(input, p);
        (Some(Token::Ident(p as usize, (e - p) as usize)), e)
    } else if c == 39 {
        let e = quote_end(input, p + 1);
        if cc_at(input, e) == 39 {
            (Some(Token::String((p + 1) as usize, (e - (p + 1)) as usize)), e + 1)
        } else {
            (None, e)
        }
    } else if c == 46 {
        (Some(Token::Dot), p + 1)
    } else if c == 40 {
        (Some(Token::LBra), p + 1)
    } else if c == 41 {
        (Some(Token::RBra), p + 1)
    } else if c == 44 {
        (Some(Token::Comma), p + 1)
    } else if c == 0 {
        (Some(Token::Eof), p)
    } else {
        (None, p + 1)
    }
}

/// An integer literal at `pos` (after spaces) fits in `i64`.
pub open spec fn number_fits(input: Seq<u8>, pos: int) -> bool {
    let p = skip_ws(input, pos);
    is_digit(cc_at(input, p)) ==> digits_value(input, p, digits_end(input, p)) <= i64::MAX
}

/// Reads tokens from byte string.
pub struct TokenReader<'a> {
    pub input: &'a [u8],
    pub pos: usize,
}

impl<'a> TokenReader<'a> {
    /// Reader at the start of `input`.
    pub fn new(input: &'a [u8]) -> (r: Self)
        ensures
            r.input@ == input@,
            r.pos == 0,
    {
        Self { input, pos: 0 }
    }

    /// Reads the next token. Integer literals must fit in `i64`.
    pub fn next_token(&mut self) -> (r: Result<Token, E>)
        requires
            old(self).pos <= old(self).input@.len(),
            number_fits(old(self).input@, old(self).pos as int),
        ensures
            final(self).input@ == old(self).input@,
            ({
                let (t, p) = token_at(old(self).input@, old(self).pos as int);
                &&& final(self).pos == p
                &&& match t {
                    Some(t) => r == Ok::<Token, E>(t),
                    None => r is Err,
                }
            }),
            r matches Ok(Token::Ident(s, n)) ==> is_word(old(self).input@, s as int, n as int),
    {
        let len = self.input.len();
        proof {
            assert(self.input@.len() == len);
            lemma_ident_token_is_word(self.input@, self.pos as int);
        }
        let ghost input = self.input@;
        let mut c = self.cc();
        while c == 32u8 || c == 10u8
            invariant
                self.input@ == input,
                self.pos <= input.len(),
                c == cc_at(input, self.pos as int),
                skip_ws(input, self.pos as int) == skip_ws(input, old(self).pos as int),
            decreases input.len() - self.pos,
        {
            c = self.getc();
        }
        match c {
            48u8..=57u8 => {
                proof {
                    assert(c == self.input@[self.pos as int]);
                    lemma_digits_end(input, self.pos as int);
                }
                let r = self.num();
                proof {
                    assert(self.pos <= input.len());
                }
                r
            },
            97u8..=122u8 | 65u8..=90u8 => self.ident(),
            39u8 => self.string(),
            46u8 => {
                self.getc();
                Ok(Token::Dot)
            },
            40u8 => {
                self.getc();
                Ok(Token::LBra)
            },
            41u8 => {
                self.getc();
                Ok(Token::RBra)
            },
            44u8 => {
                self.getc();
                Ok(Token::Comma)
            },
            0 => Ok(Token::Eof),
            _ => {
                self.getc();
                self.err("Unexpected char in input")
            },
        }
    }

    /// Current byte (0 at the end).
    fn cc(&self) -> (r: u8)
        ensures
            r == cc_at(self.input@, self.pos as int),
    {
        if self.pos >= self.input.len() {
            0
        } else {
            self.input[self.pos]
        }
    }

    /// Advance and return the new current byte.
    fn getc(&mut self) -> (r: u8)
        requires
            old(self).pos < old(self).input@.len(),
        ensures
            final(self).input == old(self).input,
            final(self).pos == old(self).pos + 1,
            r == cc_at(final(self).input@, final(self).pos as int),
    {
        let _len = self.input.len();
        self.pos += 1;
        if self.pos >= self.input.len() {
            return 0;
        }
        self.input[self.pos]
    }

    fn num(&mut self) -> (r: Result<Token, E>)
        requires
            old(self).pos < old(self).input@.len(),
            is_digit(old(self).input@[old(self).pos as int]),
            digits_value(
                old(self).input@,
                old(self).pos as int,
                digits_end(old(self).input@, old(self).pos as int),
            ) <= i64::MAX,
        ensures
            final(self).input == old(self).input,
            final(self).pos == digits_end(old(self).input@, old(self).pos as int),
            final(self).pos <= old(self).input@.len(),
            r == Ok::<Token, E>(
                Token::Int(
                    digits_value(
                        old(self).input@,
                        old(self).pos as int,
                        final(self).pos as int,
                    ) as i64,
                ),
            ),
    {
        let ghost input = self.input@;
        let ghost start = self.pos as int;
        let ghost end = digits_end(input, start);
        proof {
            lemma_digits_end(input, start);
            lemma_digits_end(input, start + 1);
            assert(digits_end(input, start) == digits_end(input, start + 1));
            reveal_with_fuel(digits_value, 2);
            assert(digits_value(input, start, start + 1) == input[start] - 48);
            lemma_digits_value_mono(input, start, start + 1, end);
        }
        let mut result = (self.cc() - 48u8) as i64;
        let mut c = self.getc();
        while 48u8 <= c && c <= 57u8
            invariant
                self.input@ == input,
                start < self.pos <= end <= input.len(),
                forall|i: int| start <= i < end ==> is_digit(#[trigger] input[i]),
                c == cc_at(input, self.pos as int),
                digits_end(input, self.pos as int) == end,
                result == digits_value(input, start, self.pos as int),
                digits_value(input, start, end) <= i64::MAX,
            decreases input.len() - self.pos,
        {
            proof {
                assert(digits_end(input, self.pos as int) == digits_end(input, self.pos + 1));
                lemma_digits_end(input, self.pos + 1);
                lemma_digits_value_mono(input, start, self.pos + 1, end);
            }
            result = result * 10 + (c - 48u8) as i64;
            c = self.getc();
        }
        Ok(Token::Int(result))
    }

    fn ident(&mut self) -> (r: Result<Token, E>)
        requires
            old(self).pos <= old(self).input@.len(),
        ensures
            final(self).input == old(self).input,
            final(self).pos == ident_end(old(self).input@, old(self).pos as int),
            r == Ok::<Token, E>(Token::Ident(old(self).pos, (final(self).pos - old(self).pos) as usize)),
    {
        let ghost input = self.input@;
        let start = self.pos;
        loop
            invariant_except_break
                self.input@ == input,
                start <= self.pos <= input.len(),
                ident_end(input, self.pos as int) == ident_end(input, start as int),
            ensures
                self.input@ == input,
                self.pos == ident_end(input, start as int),
                start <= self.pos,
            decreases input.len() - self.pos,
        {
            let c = self.cc();
            match c {
                97u8..=122u8 | 65u8..=90u8 | 48u8..=57u8 => {},
                _ => break,
            }
            self.getc();
        }
        Ok(Token::Ident(start, self.pos - start))
    }

    fn string(&mut self) -> (r: Result<Token, E>)
        requires
            old(self).pos < old(self).input@.len(),
        ensures
            final(self).input == old(self).input,
            ({
                let e = quote_end(old(self).input@, old(self).pos + 1);
                if cc_at(old(self).input@, e) == 39 {
                    &&& final(self).pos == e + 1
                    &&& r == Ok::<Token, E>(Token::String((old(self).pos + 1) as usize, (e - (old(self).pos + 1)) as usize))
                } else {
                    &&& final(self).pos == e
                    &&& r is Err
                }
            }),
    {
        let ghost input = self.input@;
        let mut c = self.getc();
        let start = self.pos;
        loop
            invariant_except_break
                self.input@ == input,
                start <= self.pos <= input.len(),
                c == cc_at(input, self.pos as int),
                quote_end(input, self.pos as int) == quote_end(input, start as int),
            ensures
                self.input@ == input,
                self.pos == quote_end(input, start as int),
                start <= self.pos,
                c == cc_at(input, self.pos as int),
                c == 39u8 || c == 0,
            decreases input.len() - self.pos,
        {
            match c {
                39u8 => break,
                0 => break,
                _ => c = self.getc(),
            }
        }
        if c == 0 {
            return self.err("EOF reached in string");
        }
        self.getc();
        Ok(Token::String(start, self.pos - 1 - start))
    }

    fn err(&mut self, message: &str) -> (r: Result<Token, E>)
        ensures
            r matches Err(e) && e._message@ == message@,
            *final(self) == *old(self),
    {
        Err(E::new(message))
    }
}

/// The digits run stops within the input, at the first byte that is not a
/// digit.
pub proof fn lemma_digits_end(input: Seq<u8>, pos: int)
    requires
        0 <= pos <= input.len(),
    ensures
        pos <= digits_end(input, pos) <= input.len(),
        forall|i: int| pos <= i < digits_end(input, pos) ==> is_digit(#[trigger] input[i]),
        digits_end(input, pos) < input.len() ==> !is_digit(input[digits_end(input, pos)]),
    decreases input.len() - pos,
{
    if pos < input.len() && is_digit(input[pos]) {
        lemma_digits_end(input, pos + 1);
    }
}

/// Values of prefixes of a digit run are within the value of the run.
pub proof fn lemma_digits_value_mono(input: Seq<u8>, start: int, mid: int, end: int)
    requires
        start <= mid <= end,
        end <= input.len(),
        forall|i: int| start <= i < end ==> is_digit(#[trigger] input[i]),
    ensures
        0 <= digits_value(input, start, mid) <= digits_value(input, start, end),
    decreases end - start,
{
    if mid < end {
        lemma_digits_value_mono(input, start, mid, end - 1);
    } else if mid > start {
        lemma_digits_value_mono(input, start, mid - 1, mid - 1);
    }
}

/// The characters that the bytes `b` encode in UTF-8, or `None` when they
/// are not UTF-8.
pub uninterp spec fn utf8_text(b: Seq<u8>) -> Option<Seq<char>>;

/// Calls `std::str::from_utf8`: the text of `b` when it is UTF-8 (as its
/// documentation says, an error exactly when it is not), a string slice of
/// exactly the bytes `b`. Nothing more is claimed of the decoding than that
/// it is a function of the bytes.
#[verifier::external_body]
fn str_from_utf8(b: &[u8]) -> (r: Option<&str>)
    ensures
        match r {
            Some(t) => utf8_text(b@) == Some(t@) && t.spec_bytes() == b@,
            None => utf8_text(b@) is None,
        },
{
    std::str::from_utf8(b).ok()
}

/// Convert `&[u8]` to `&str` (the bytes must be UTF-8).
pub fn tos(s: &[u8]) -> (r: &str)
    requires
        utf8_text(s@) is Some,
    ensures
        r@ == utf8_text(s@).unwrap(),
        r.spec_bytes() == s@,
{
    match str_from_utf8(s) {
        Some(t) => t,
        None => vstd::pervasive::unreached(),
    }
}

/// Convert `&[u8]` to `&str`, `None` when the bytes are not UTF-8.
pub fn try_tos(s: &[u8]) -> (r: Option<&str>)
    ensures
        match r {
            Some(t) => utf8_text(s@) == Some(t@) && t.spec_bytes() == s@,
            None => utf8_text(s@) is None,
        },
{
    match str_from_utf8(s) {
        Some(_) => Some(tos(s)),
        None => None,
    }
}

} // verus!
