//! Turning a line of text into tokens.

use vstd::prelude::*;
use vstd::string::StringSliceAdditionalSpecFns;

verus! {

/// One lexical token of an arithmetic expression.
#[derive(Debug, Clone, Copy, PartialEq, Eq, Structural)]
pub enum TokenKind {
    /// A run of decimal digits, by its value.
    Number(u8),
    /// `+`
    Plus,
    /// `-`
    Minus,
    /// `*`
    Asterisk,
    /// `/`
    Slash,
}

/// Why a line could not be turned into tokens.
#[derive(Debug, Clone, Copy, PartialEq, Eq, Structural)]
pub enum TokenizeError {
    /// A byte that is neither a digit, an operator nor a space.
    UnexpectedCharacter,
    /// A run of digits whose value is above 255.
    NumberTooLarge,
    /// The line holds no token at all.
    EmptyInput,
}

/// The ASCII space, the only byte that the tokenizer skips.
pub const SPACE: u8 = 0x20;

/// The ASCII digit `0`; the other digits follow it up to `9`.
pub const DIGIT_0: u8 = 0x30;

/// The ASCII digit `9`.
pub const DIGIT_9: u8 = 0x39;

/// The ASCII character `+`.
pub const PLUS: u8 = 0x2b;

/// The ASCII character `-`.
pub const MINUS: u8 = 0x2d;

/// The ASCII character `*`.
pub const ASTERISK: u8 = 0x2a;

/// The ASCII character `/`.
pub const SLASH: u8 = 0x2f;

/// Whether `b` is one of the ASCII digits `0` to `9`.
pub open spec fn is_digit(b: u8) -> bool {
    DIGIT_0 <= b <= DIGIT_9
}

/// The token that the single byte `b` stands for, if it is an operator.
pub open spec fn operator_token(b: u8) -> Option<TokenKind> {
    if b == PLUS {
        Some(TokenKind::Plus)
    } else if b == MINUS {
        Some(TokenKind::Minus)
    } else if b == ASTERISK {
        Some(TokenKind::Asterisk)
    } else if b == SLASH {
        Some(TokenKind::Slash)
    } else {
        None
    }
}

/// The first position at or after `i` that holds no digit.
pub open spec fn digits_end(s: Seq<u8>, i: int) -> int
    decreases s.len() - i,
{
    if 0 <= i < s.len() && is_digit(s[i]) {
        digits_end(s, i + 1)
    } else {
        i
    }
}

/// The number that a string of digits writes in base ten.
pub open spec fn digits_value(s: Seq<u8>) -> nat
    decreases s.len(),
{
    if s.len() == 0 {
        0
    } else {
        digits_value(s.drop_last()) * 10 + (s.last() - DIGIT_0) as nat
    }
}

/// `t` in front of the tokens of `rest`; an error in `rest` stays as it is.
pub open spec fn prepend(t: TokenKind, rest: Result<Seq<TokenKind>, TokenizeError>) -> Result<
    Seq<TokenKind>,
    TokenizeError,
> {
    match rest {
        Ok(ts) => Ok(seq![t] + ts),
        Err(e) => Err(e),
    }
}

/// The tokens of `s` from position `i` on, or the first error met from there.
///
/// A digit begins a number that takes in every digit that follows it; at most
/// 255, it is one token. A space is passed over, an operator is one token,
/// and any other byte is an error.
pub open spec fn lex_from(s: Seq<u8>, i: int) -> Result<Seq<TokenKind>, TokenizeError>
    decreases s.len() - i,
{
    if i < 0 || i >= s.len() {
        Ok(Seq::empty())
    } else if is_digit(s[i]) {
        let end = digits_end(s, i);
        let value = digits_value(s.subrange(i, end));
        if value > u8::MAX {
            Err(TokenizeError::NumberTooLarge)
        } else {
            proof {
                lemma_digits_end_bounds(s, i + 1);
            }
            prepend(TokenKind::Number(value as u8), lex_from(s, end))
        }
    } else if s[i] == SPACE {
        lex_from(s, i + 1)
    } else {
        match operator_token(s[i]) {
            Some(t) => prepend(t, lex_from(s, i + 1)),
            None => Err(TokenizeError::UnexpectedCharacter),
        }
    }
}

/// What tokenizing the whole of `s` gives: its tokens, of which there is at
/// least one, or the first error in it, or `EmptyInput`.
pub open spec fn spec_tokenize(s: Seq<u8>) -> Result<Seq<TokenKind>, TokenizeError> {
    match lex_from(s, 0) {
        Ok(ts) => if ts.len() == 0 {
            Err(TokenizeError::EmptyInput)
        } else {
            Ok(ts)
        },
        Err(e) => Err(e),
    }
}

/// The result of [`tokenize`] with the tokens as a sequence.
pub open spec fn tokens_view(r: Result<Vec<TokenKind>, TokenizeError>) -> Result<
    Seq<TokenKind>,
    TokenizeError,
> {
    match r {
        Ok(tokens) => Ok(tokens@),
        Err(e) => Err(e),
    }
}

/// A run of digits ends at or after the place where it is looked for, and
/// within the text if the search starts there.
pub proof fn lemma_digits_end_bounds(s: Seq<u8>, i: int)
    ensures
        i <= digits_end(s, i),
        0 <= i <= s.len() ==> digits_end(s, i) <= s.len(),
    decreases s.len() - i,
{
    if 0 <= i < s.len() && is_digit(s[i]) {
        lemma_digits_end_bounds(s, i + 1);
    }
}

/// `prefix` in front of the tokens of `rest`; an error in `rest` stays as it is.
spec fn extend(prefix: Seq<TokenKind>, rest: Result<Seq<TokenKind>, TokenizeError>) -> Result<
    Seq<TokenKind>,
    TokenizeError,
> {
    match rest {
        Ok(ts) => Ok(prefix + ts),
        Err(e) => Err(e),
    }
}

/// A token can be moved from the front of what follows to the end of what
/// came before.
proof fn lemma_extend_prepend(
    prefix: Seq<TokenKind>,
    t: TokenKind,
    rest: Result<Seq<TokenKind>, TokenizeError>,
)
    ensures
        extend(prefix, prepend(t, rest)) == extend(prefix.push(t), rest),
{
    if let Ok(ts) = rest {
        assert(prefix + (seq![t] + ts) =~= prefix.push(t) + ts);
    }
}

/// Reads the run of digits that starts at `start`: where it ends, and its
/// value unless that is above 255.
fn read_number(bytes: &[u8], start: usize) -> (r: (usize, Option<u8>))
    requires
        start < bytes@.len(),
        is_digit(bytes@[start as int]),
    ensures
        r.0 == digits_end(bytes@, start as int),
        start < r.0 <= bytes@.len(),
        match r.1 {
            Some(v) => v == digits_value(bytes@.subrange(start as int, r.0 as int)),
            None => digits_value(bytes@.subrange(start as int, r.0 as int)) > u8::MAX,
        },
{
    let ghost s = bytes@;
    let mut end: usize = start;
    // The value read so far, held at 256 once it has left the range of a byte.
    let mut value: u16 = 0;
    proof {
        assert(s.subrange(start as int, start as int) =~= Seq::<u8>::empty());
    }
    while end < bytes.len() && bytes[end] >= DIGIT_0 && bytes[end] <= DIGIT_9
        invariant
            s == bytes@,
            start <= end <= s.len(),
            is_digit(s[start as int]),
            digits_end(s, start as int) == digits_end(s, end as int),
            value <= 256,
            value <= u8::MAX ==> value == digits_value(s.subrange(start as int, end as int)),
            value > u8::MAX ==> digits_value(s.subrange(start as int, end as int)) > u8::MAX,
        decreases s.len() - end,
    {
        let digit: u16 = (bytes[end] - DIGIT_0) as u16;
        proof {
            let run = s.subrange(start as int, end + 1);
            assert(run.drop_last() =~= s.subrange(start as int, end as int));
            assert(run.last() == s[end as int]);
        }
        value = value * 10 + digit;
        if value > 256 {
            value = 256;
        }
        end = end + 1;
    }
    if value > 255 {
        (end, None)
    } else {
        (end, Some(value as u8))
    }
}

/// Splits a line into tokens.
///
/// The line is read byte by byte. A run of digits is one `Number`, each of
/// `+ - * /` is one operator, and spaces separate tokens without being one.
/// The first byte that is none of these gives `UnexpectedCharacter`, the first
/// number above 255 gives `NumberTooLarge`, whichever comes first in the line;
/// a line without any token gives `EmptyInput`.
pub fn tokenize(line: &str) -> (result: Result<Vec<TokenKind>, TokenizeError>)
    ensures
        tokens_view(result) == spec_tokenize(line.spec_bytes()),
{
    let bytes = line.as_bytes();
    let ghost s = bytes@;
    let mut tokens: Vec<TokenKind> = Vec::new();
    let mut i: usize = 0;
    while i < bytes.len()
        invariant
            s == bytes@,
            s == line.spec_bytes(),
            i <= s.len(),
            lex_from(s, 0) == extend(tokens@, lex_from(s, i as int)),
        decreases s.len() - i,
    {
        let b = bytes[i];
        if b >= DIGIT_0 && b <= DIGIT_9 {
            let (end, value) = read_number(bytes, i);
            match value {
                Some(v) => {
                    proof {
                        lemma_extend_prepend(tokens@, TokenKind::Number(v), lex_from(s, end as int));
                    }
                    tokens.push(TokenKind::Number(v));
                    i = end;
                },
                None => {
                    return Err(TokenizeError::NumberTooLarge);
                },
            }
        } else if b == SPACE {
            i = i + 1;
        } else {
            let token = if b == PLUS {
                TokenKind::Plus
            } else if b == MINUS {
                TokenKind::Minus
            } else if b == ASTERISK {
                TokenKind::Asterisk
            } else if b == SLASH {
                TokenKind::Slash
            } else {
                return Err(TokenizeError::UnexpectedCharacter);
            };
            proof {
                lemma_extend_prepend(tokens@, token, lex_from(s, i + 1));
            }
            tokens.push(token);
            i = i + 1;
        }
    }
    proof {
        assert(tokens@ + Seq::<TokenKind>::empty() =~= tokens@);
    }
    if tokens.len() == 0 {
        Err(TokenizeError::EmptyInput)
    } else {
        Ok(tokens)
    }
}

/// Whether every byte of `s` is a space.
pub open spec fn is_blank(s: Seq<u8>) -> bool {
    forall|k: int| 0 <= k < s.len() ==> s[k] == SPACE
}

/// Whether a space can go in front of position `i` without parting a number:
/// not both neighbours are digits.
pub open spec fn between_tokens(s: Seq<u8>, i: int) -> bool {
    &&& 0 <= i <= s.len()
    &&& !(0 < i < s.len() && is_digit(s[i - 1]) && is_digit(s[i]))
}

/// The digits that write `n` in base ten, without a leading zero.
pub open spec fn decimal(n: nat) -> Seq<u8>
    decreases n,
{
    if n < 10 {
        seq![(DIGIT_0 + n) as u8]
    } else {
        decimal(n / 10).push((DIGIT_0 + n % 10) as u8)
    }
}

/// Where a run of digits ends depends only on the bytes from its start on.
proof fn lemma_digits_end_shift(s1: Seq<u8>, i1: int, s2: Seq<u8>, i2: int)
    requires
        0 <= i1 <= s1.len(),
        0 <= i2 <= s2.len(),
        s1.skip(i1) == s2.skip(i2),
    ensures
        digits_end(s1, i1) - i1 == digits_end(s2, i2) - i2,
    decreases s1.len() - i1,
{
    assert(s1.len() - i1 == s2.len() - i2) by {
        assert(s1.skip(i1).len() == s1.len() - i1);
        assert(s2.skip(i2).len() == s2.len() - i2);
    }
    if i1 < s1.len() {
        assert(s1[i1] == s1.skip(i1)[0]);
        assert(s2[i2] == s2.skip(i2)[0]);
        if is_digit(s1[i1]) {
            assert(s1.skip(i1 + 1) =~= s1.skip(i1).skip(1));
            assert(s2.skip(i2 + 1) =~= s2.skip(i2).skip(1));
            lemma_digits_end_shift(s1, i1 + 1, s2, i2 + 1);
        }
    }
}

/// The tokens from a position on depend only on the bytes from there on.
pub proof fn lemma_lex_shift(s1: Seq<u8>, i1: int, s2: Seq<u8>, i2: int)
    requires
        0 <= i1 <= s1.len(),
        0 <= i2 <= s2.len(),
        s1.skip(i1) == s2.skip(i2),
    ensures
        lex_from(s1, i1) == lex_from(s2, i2),
    decreases s1.len() - i1,
{
    assert(s1.len() - i1 == s2.len() - i2) by {
        assert(s1.skip(i1).len() == s1.len() - i1);
        assert(s2.skip(i2).len() == s2.len() - i2);
    }
    if i1 < s1.len() {
        assert(s1[i1] == s1.skip(i1)[0]);
        assert(s2[i2] == s2.skip(i2)[0]);
        assert(s1.skip(i1 + 1) =~= s1.skip(i1).skip(1));
        assert(s2.skip(i2 + 1) =~= s2.skip(i2).skip(1));
        if is_digit(s1[i1]) {
            let end1 = digits_end(s1, i1);
            let end2 = digits_end(s2, i2);
            lemma_digits_end_shift(s1, i1, s2, i2);
            lemma_digits_end_bounds(s1, i1 + 1);
            lemma_digits_end_bounds(s2, i2 + 1);
            assert(s1.subrange(i1, end1) =~= s1.skip(i1).take(end1 - i1));
            assert(s2.subrange(i2, end2) =~= s2.skip(i2).take(end2 - i2));
            assert(s1.skip(end1) =~= s1.skip(i1).skip(end1 - i1));
            assert(s2.skip(end2) =~= s2.skip(i2).skip(end2 - i2));
            lemma_lex_shift(s1, end1, s2, end2);
        } else {
            lemma_lex_shift(s1, i1 + 1, s2, i2 + 1);
        }
    }
}

/// A run of digits that has begun before a place between tokens ends at or
/// before that place, with or without a space there.
proof fn lemma_digits_end_insert_space(s: Seq<u8>, i: int, k: int)
    requires
        between_tokens(s, i),
        0 < k <= i,
        is_digit(s[k - 1]),
    ensures
        digits_end(s.insert(i, SPACE), k) == digits_end(s, k),
        digits_end(s, k) <= i,
    decreases i - k,
{
    let t = s.insert(i, SPACE);
    if k < i {
        assert(t[k] == s[k]);
        if is_digit(s[k]) {
            lemma_digits_end_insert_space(s, i, k + 1);
        }
    } else {
        assert(t[i] == SPACE);
    }
}

/// A space at a place between tokens changes nothing in the tokens from any
/// earlier position on.
proof fn lemma_lex_insert_space(s: Seq<u8>, i: int, j: int)
    requires
        between_tokens(s, i),
        0 <= j <= i,
    ensures
        lex_from(s.insert(i, SPACE), j) == lex_from(s, j),
    decreases i - j,
{
    let t = s.insert(i, SPACE);
    if j == i {
        assert(t[i] == SPACE);
        assert(t.skip(i + 1) =~= s.skip(i));
        lemma_lex_shift(t, i + 1, s, i);
    } else {
        assert(t[j] == s[j]);
        if is_digit(s[j]) {
            let end = digits_end(s, j);
            lemma_digits_end_insert_space(s, i, j + 1);
            lemma_digits_end_bounds(s, j + 1);
            assert(t.subrange(j, end) =~= s.subrange(j, end));
            lemma_lex_insert_space(s, i, end);
        } else {
            lemma_lex_insert_space(s, i, j + 1);
        }
    }
}

/// Spaces between tokens do not matter: a space put anywhere but between two
/// digits changes neither the tokens nor the error.
pub proof fn lemma_space_between_tokens(s: Seq<u8>, i: int)
    requires
        between_tokens(s, i),
    ensures
        spec_tokenize(s.insert(i, SPACE)) == spec_tokenize(s),
{
    lemma_lex_insert_space(s, i, 0);
}

/// From a position on there is no token exactly if there are only spaces.
proof fn lemma_lex_blank(s: Seq<u8>, i: int)
    requires
        0 <= i <= s.len(),
    ensures
        (forall|k: int| i <= k < s.len() ==> s[k] == SPACE) <==> lex_from(s, i) == Ok::<
            Seq<TokenKind>,
            TokenizeError,
        >(Seq::empty()),
    decreases s.len() - i,
{
    if i < s.len() {
        if is_digit(s[i]) {
            lemma_digits_end_bounds(s, i + 1);
            let rest = lex_from(s, digits_end(s, i));
            if let Ok(ts) = rest {
                assert((seq![TokenKind::Number(0)] + ts).len() > 0);
            }
        } else if s[i] == SPACE {
            lemma_lex_blank(s, i + 1);
        } else if let Some(t) = operator_token(s[i]) {
            if let Ok(ts) = lex_from(s, i + 1) {
                assert((seq![t] + ts).len() > 0);
            }
        }
    }
}

/// `EmptyInput` is said of a whole line only, never part of the way.
proof fn lemma_lex_errors(s: Seq<u8>, i: int)
    ensures
        lex_from(s, i) matches Err(e) ==> e != TokenizeError::EmptyInput,
    decreases s.len() - i,
{
    if 0 <= i < s.len() {
        if is_digit(s[i]) {
            lemma_digits_end_bounds(s, i + 1);
            lemma_lex_errors(s, digits_end(s, i));
        } else {
            lemma_lex_errors(s, i + 1);
        }
    }
}

/// The lines without a token are the blank ones, the empty line among them:
/// they alone give `EmptyInput`, and they give nothing else.
pub proof fn lemma_empty_input_iff_blank(s: Seq<u8>)
    ensures
        is_blank(s) <==> spec_tokenize(s) == Err::<Seq<TokenKind>, TokenizeError>(
            TokenizeError::EmptyInput,
        ),
{
    lemma_lex_blank(s, 0);
    let nothing = Ok::<Seq<TokenKind>, TokenizeError>(Seq::empty());
    if is_blank(s) {
        assert(lex_from(s, 0) == nothing);
    }
    if spec_tokenize(s) == Err::<Seq<TokenKind>, TokenizeError>(TokenizeError::EmptyInput) {
        lemma_lex_errors(s, 0);
        let ts = lex_from(s, 0)->Ok_0;
        assert(ts =~= Seq::empty());
        assert(lex_from(s, 0) == nothing);
        assert(is_blank(s));
    }
}

/// The decimal digits of a number are digits, and their value is the number.
pub proof fn lemma_decimal_value(n: nat)
    ensures
        decimal(n).len() > 0,
        forall|k: int| 0 <= k < decimal(n).len() ==> is_digit(#[trigger] decimal(n)[k]),
        digits_value(decimal(n)) == n,
    decreases n,
{
    if n < 10 {
        assert(decimal(n).drop_last() =~= Seq::<u8>::empty());
        assert(digits_value(decimal(n).drop_last()) == 0);
    } else {
        lemma_decimal_value(n / 10);
        assert(decimal(n).drop_last() =~= decimal(n / 10));
    }
}

/// A run of digits that nothing else follows ends where the text ends.
proof fn lemma_digits_end_of_digits(s: Seq<u8>, i: int)
    requires
        0 <= i <= s.len(),
        forall|k: int| i <= k < s.len() ==> is_digit(#[trigger] s[k]),
    ensures
        digits_end(s, i) == s.len(),
    decreases s.len() - i,
{
    if i < s.len() {
        lemma_digits_end_of_digits(s, i + 1);
    }
}

/// A byte written in decimal digits is one token, the number itself.
pub proof fn lemma_tokenize_decimal(n: u8)
    ensures
        spec_tokenize(decimal(n as nat)) == Ok::<Seq<TokenKind>, TokenizeError>(
            seq![TokenKind::Number(n)],
        ),
{
    let s = decimal(n as nat);
    lemma_decimal_value(n as nat);
    lemma_digits_end_of_digits(s, 0);
    assert(is_digit(s[0]));
    assert(s.subrange(0, s.len() as int) =~= s);
    assert(lex_from(s, s.len() as int) == Ok::<Seq<TokenKind>, TokenizeError>(Seq::empty()));
    assert(seq![TokenKind::Number(n)] + Seq::<TokenKind>::empty() =~= seq![TokenKind::Number(n)]);
}

} // verus!
