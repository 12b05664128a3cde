//! The tokenizer: turns source bytes into symbols, numbers, operators and
//! string literals, skipping whitespace and `#` comments.
use vstd::prelude::*;

use crate::ast::{Number, NumberType};
use crate::text::push_char;

verus! {

/// Why an integer literal was refused, as `str::parse` reports it.
#[derive(Debug)]
pub enum IntErrorKind {
    Empty,
    InvalidDigit,
    PosOverflow,
    NegOverflow,
}

#[derive(Debug)]
pub enum Error {
    MalformedToken,
    ParseInt(IntErrorKind),
    ParseFloat,
    /// A string literal has no closing quote.
    UnterminatedString,
}

#[derive(Debug)]
pub enum Token {
    Symbol(String),
    Operand(char),
    /// A two-character operator such as `<=` or `&&`.
    Operand2(char, char),
    Number(Number),
    /// A string literal, without its quotes and with escapes resolved.
    String(String),
}

/// Reads float literals into their bit patterns and writes them back as
/// text. Floating point stays outside the verified code: nothing is assumed
/// of what these return.
pub trait FloatBits {
    /// The bits of the `f32` the text denotes, if it denotes one.
    fn single_bits(&self, text: &str) -> Option<u32>;

    /// The bits of the `f64` the text denotes, if it denotes one.
    fn double_bits(&self, text: &str) -> Option<u64>;

    /// The text of the `f32` with these bits.
    fn single_text(&self, bits: u32) -> String;

    /// The text of the `f64` with these bits.
    fn double_text(&self, bits: u64) -> String;
}

pub open spec fn is_digit_byte(b: u8) -> bool {
    48 <= b && b <= 57
}

pub open spec fn is_alpha_byte(b: u8) -> bool {
    (65 <= b && b <= 90) || (97 <= b && b <= 122)
}

pub open spec fn is_alnum_byte(b: u8) -> bool {
    is_digit_byte(b) || is_alpha_byte(b)
}

/// ASCII whitespace, as `u8::is_ascii_whitespace` has it.
pub open spec fn is_space_byte(b: u8) -> bool {
    b == 32 || b == 9 || b == 10 || b == 12 || b == 13
}

/// A digit or `-` starts a number.
pub open spec fn begins_number(b: u8) -> bool {
    is_digit_byte(b) || b == 45
}

/// Numbers hold letters, digits, `.` and `-`.
pub open spec fn number_byte(b: u8) -> bool {
    is_alnum_byte(b) || b == 46 || b == 45
}

/// Symbols hold letters, digits and `_`.
pub open spec fn symbol_byte(b: u8) -> bool {
    is_alnum_byte(b) || b == 95
}

/// The bytes as characters, one for one.
pub open spec fn bytes_chars(s: Seq<u8>) -> Seq<char> {
    s.map_values(|b: u8| b as char)
}

/// The byte at `p`, if any.
pub open spec fn byte_at(input: Seq<u8>, p: int) -> Option<u8> {
    if 0 <= p < input.len() {
        Some(input[p])
    } else {
        None
    }
}

/// The first position from `p` on that holds no whitespace.
pub open spec fn skip_spaces(input: Seq<u8>, p: int) -> int
    decreases input.len() - p,
{
    if 0 <= p < input.len() && is_space_byte(input[p]) {
        skip_spaces(input, p + 1)
    } else {
        p
    }
}

/// The first position from `p` on that holds `end`, or the end of input.
pub open spec fn find_byte(input: Seq<u8>, p: int, end: u8) -> int
    decreases input.len() - p,
{
    if 0 <= p < input.len() && input[p] != end {
        find_byte(input, p + 1, end)
    } else {
        p
    }
}

/// The position after the comment that starts at `p`: past its newline.
pub open spec fn after_comment(input: Seq<u8>, p: int) -> int {
    let q = find_byte(input, p, 10);
    if q < input.len() {
        q + 1
    } else {
        q
    }
}

/// The end of the run of number bytes from `p`.
pub open spec fn number_run_end(input: Seq<u8>, p: int) -> int
    decreases input.len() - p,
{
    if 0 <= p < input.len() && number_byte(input[p]) {
        number_run_end(input, p + 1)
    } else {
        p
    }
}

/// The end of the run of symbol bytes from `p`.
pub open spec fn symbol_run_end(input: Seq<u8>, p: int) -> int
    decreases input.len() - p,
{
    if 0 <= p < input.len() && symbol_byte(input[p]) {
        symbol_run_end(input, p + 1)
    } else {
        p
    }
}

pub proof fn lemma_find_byte(input: Seq<u8>, p: int, end: u8)
    requires
        0 <= p <= input.len(),
    ensures
        p <= find_byte(input, p, end) <= input.len(),
    decreases input.len() - p,
{
    if p < input.len() && input[p] != end {
        lemma_find_byte(input, p + 1, end);
    }
}

pub proof fn lemma_skip_spaces(input: Seq<u8>, p: int)
    requires
        0 <= p <= input.len(),
    ensures
        p <= skip_spaces(input, p) <= input.len(),
    decreases input.len() - p,
{
    if p < input.len() && is_space_byte(input[p]) {
        lemma_skip_spaces(input, p + 1);
    }
}

/// Where the next token starts: after whitespace and comments.
pub open spec fn token_start(input: Seq<u8>, p: int) -> int
    decreases input.len() - p,
{
    if 0 <= p <= input.len() {
        let q = skip_spaces(input, p);
        if 0 <= q < input.len() && input[q] == 35 {
            proof {
                lemma_skip_spaces(input, p);
                lemma_find_byte(input, q, 10);
            }
            token_start(input, after_comment(input, q))
        } else {
            q
        }
    } else {
        p
    }
}

pub proof fn lemma_token_start(input: Seq<u8>, p: int)
    requires
        0 <= p <= input.len(),
    ensures
        p <= token_start(input, p) <= input.len(),
    decreases input.len() - p,
{
    lemma_skip_spaces(input, p);
    let q = skip_spaces(input, p);
    if 0 <= q < input.len() && input[q] == 35 {
        lemma_find_byte(input, q, 10);
        lemma_token_start(input, after_comment(input, q));
    }
}

/// The character a backslash escape stands for: `\n`, `\t` and `\r` are
/// control characters, any other byte stands for itself.
pub open spec fn escaped(b: u8) -> char {
    if b == 110 {
        '\n'
    } else if b == 116 {
        '\t'
    } else if b == 114 {
        '\r'
    } else {
        b as char
    }
}

/// The body of a string literal from `p` (after the opening quote): its
/// characters, with backslash escapes resolved, and the position after the
/// closing quote; `None` when the quote never closes.
pub open spec fn string_lit(input: Seq<u8>, p: int) -> Option<(Seq<char>, int)>
    decreases input.len() - p,
{
    if p < 0 || p >= input.len() {
        None
    } else if input[p] == 34 {
        Some((Seq::empty(), p + 1))
    } else if input[p] == 92 {
        if p + 1 < input.len() {
            match string_lit(input, p + 2) {
                Some((c, e)) => Some((seq![escaped(input[p + 1])] + c, e)),
                None => None,
            }
        } else {
            None
        }
    } else {
        match string_lit(input, p + 1) {
            Some((c, e)) => Some((seq![input[p] as char] + c, e)),
            None => None,
        }
    }
}

/// The two-character operators.
pub open spec fn is_pair(a: u8, b: u8) -> bool {
    (a == 60 && b == 60) || (a == 62 && b == 62) || (a == 38 && b == 38) || (a == 124 && b == 124) || (a == 62
        && b == 61) || (a == 60 && b == 61) || (a == 61 && b == 61) || (a == 33 && b == 61)
}

/// The length of the run of digits at the start of `d`.
pub open spec fn digit_run(d: Seq<u8>) -> nat
    decreases d.len(),
{
    if d.len() > 0 && is_digit_byte(d[0]) {
        1 + digit_run(d.drop_first())
    } else {
        0
    }
}

/// The value of a string of decimal digits.
pub open spec fn digits_value(d: Seq<u8>) -> int
    decreases d.len(),
{
    if d.len() == 0 {
        0
    } else {
        digits_value(d.drop_last()) * 10 + (d.last() - 48)
    }
}

/// What `str::parse` gives for an integer type with range `min..=max`: an
/// optional `+` (or `-` for signed types) and decimal digits. Digits are
/// read left to right, so a value that leaves the range before the first
/// non-digit is an overflow, not an invalid digit.
pub open spec fn int_literal(s: Seq<u8>, signed: bool, min: int, max: int) -> Result<int, IntErrorKind> {
    if s.len() == 0 {
        Err(IntErrorKind::Empty)
    } else {
        let neg = signed && s[0] == 45;
        let d = if s[0] == 43 || neg {
            s.drop_first()
        } else {
            s
        };
        if d.len() == 0 {
            Err(IntErrorKind::InvalidDigit)
        } else {
            let k = digit_run(d);
            let v = digits_value(d.take(k as int));
            let val = if neg {
                -v
            } else {
                v
            };
            if val > max {
                Err(IntErrorKind::PosOverflow)
            } else if val < min {
                Err(IntErrorKind::NegOverflow)
            } else if k < d.len() {
                Err(IntErrorKind::InvalidDigit)
            } else {
                Ok(val)
            }
        }
    }
}

proof fn lemma_byte_digit(b: u8, d: nat)
    requires
        d < 10,
        b as char == crate::text::digit_char(d),
    ensures
        b == 48 + d,
        is_digit_byte(b),
{
    assert((b as char) as int == b as int);
    assert((crate::text::digit_char(d)) as int == 48 + d);
}

/// The bytes of a decimal rendering are digits with that value.
proof fn lemma_digits_of_dec(s: Seq<u8>, n: nat)
    requires
        bytes_chars(s) == crate::text::dec(n),
    ensures
        digits_value(s) == n,
        forall|i: int| 0 <= i < s.len() ==> is_digit_byte(#[trigger] s[i]),
        s.len() >= 1,
    decreases n,
{
    crate::text::lemma_dec_len(n);
    assert(s.len() == bytes_chars(s).len());
    if n < 10 {
        assert(crate::text::dec(n) =~= seq![crate::text::digit_char(n)]);
        assert(s.len() == 1);
        assert(bytes_chars(s)[0] == s[0] as char);
        lemma_byte_digit(s[0], n);
        assert(s.drop_last().len() == 0);
        assert(digits_value(s.drop_last()) == 0);
    } else {
        let t = s.drop_last();
        assert(crate::text::dec(n) =~= crate::text::dec(n / 10).push(crate::text::digit_char(n % 10)));
        assert(bytes_chars(t) =~= bytes_chars(s).drop_last());
        assert(bytes_chars(t) =~= crate::text::dec(n / 10));
        lemma_digits_of_dec(t, n / 10);
        assert(bytes_chars(s)[s.len() - 1] == s.last() as char);
        lemma_byte_digit(s.last(), n % 10);
        assert forall|i: int| 0 <= i < s.len() implies is_digit_byte(#[trigger] s[i]) by {
            if i < s.len() - 1 {
                assert(s[i] == t[i]);
            }
        }
    }
}

/// Numbers read back as written: the decimal digits the code generator
/// writes for `n` parse to `n` for every integer type whose range holds it.
pub proof fn law_decimal_reads_back(s: Seq<u8>, n: nat, signed: bool, min: int, max: int)
    requires
        bytes_chars(s) == crate::text::dec(n),
        min <= n <= max,
    ensures
        int_literal(s, signed, min, max) == Ok::<int, IntErrorKind>(n as int),
{
    lemma_digits_of_dec(s, n);
    lemma_digit_run(s, s.len() as int);
    assert(s.take(s.len() as int) =~= s);
    assert(is_digit_byte(s[0]));
}

pub open spec fn is_signed_type(t: NumberType) -> bool {
    t == NumberType::I8 || t == NumberType::I16 || t == NumberType::I32 || t == NumberType::I64
}

pub open spec fn type_min(t: NumberType) -> int {
    match t {
        NumberType::I8 => i8::MIN as int,
        NumberType::I16 => i16::MIN as int,
        NumberType::I32 => i32::MIN as int,
        NumberType::I64 => i64::MIN as int,
        _ => 0,
    }
}

pub open spec fn type_max(t: NumberType) -> int {
    match t {
        NumberType::I8 => i8::MAX as int,
        NumberType::I16 => i16::MAX as int,
        NumberType::I32 => i32::MAX as int,
        NumberType::I64 => i64::MAX as int,
        NumberType::U8 => u8::MAX as int,
        NumberType::U16 => u16::MAX as int,
        NumberType::U32 => u32::MAX as int,
        _ => u64::MAX as int,
    }
}

/// The integer literal of type `t` with value `v` (in range).
pub open spec fn int_number(t: NumberType, v: int) -> Number {
    match t {
        NumberType::I8 => Number::I8(v as i8),
        NumberType::I16 => Number::I16(v as i16),
        NumberType::I32 => Number::I32(v as i32),
        NumberType::I64 => Number::I64(v as i64),
        NumberType::U8 => Number::U8(v as u8),
        NumberType::U16 => Number::U16(v as u16),
        NumberType::U32 => Number::U32(v as u32),
        _ => Number::U64(v as u64),
    }
}

/// How a number's text reads: an integer of some type and its digits, or a
/// float of some type and its text.
pub enum NumText {
    Int(NumberType, Seq<u8>),
    Float(NumberType, Seq<u8>),
}

pub open spec fn has_dot(t: Seq<u8>) -> bool {
    exists|i: int| 0 <= i < t.len() && t[i] == 46
}

/// The text ends with the three bytes `a b c`.
pub open spec fn ends3(t: Seq<u8>, a: u8, b: u8, c: u8) -> bool {
    t.len() >= 3 && t[t.len() - 3] == a && t[t.len() - 2] == b && t[t.len() - 1] == c
}

/// The text ends with the two bytes `a b`.
pub open spec fn ends2(t: Seq<u8>, a: u8, b: u8) -> bool {
    t.len() >= 2 && t[t.len() - 2] == a && t[t.len() - 1] == b
}

/// The reading of a number's text: a type suffix (`i8` to `u64`, `f32`,
/// `f64`) names the type of the text before it; without one, text with a
/// `.` is an `f64` and other text an `i32`.
pub open spec fn num_text(t: Seq<u8>) -> NumText {
    let n = t.len() as int;
    if n < 3 {
        if has_dot(t) {
            NumText::Float(NumberType::F64, t)
        } else {
            NumText::Int(NumberType::I32, t)
        }
    } else if ends3(t, 105, 49, 54) {
        NumText::Int(NumberType::I16, t.take(n - 3))
    } else if ends3(t, 105, 51, 50) {
        NumText::Int(NumberType::I32, t.take(n - 3))
    } else if ends3(t, 105, 54, 52) {
        NumText::Int(NumberType::I64, t.take(n - 3))
    } else if ends3(t, 117, 49, 54) {
        NumText::Int(NumberType::U16, t.take(n - 3))
    } else if ends3(t, 117, 51, 50) {
        NumText::Int(NumberType::U32, t.take(n - 3))
    } else if ends3(t, 117, 54, 52) {
        NumText::Int(NumberType::U64, t.take(n - 3))
    } else if ends3(t, 102, 51, 50) {
        NumText::Float(NumberType::F32, t.take(n - 3))
    } else if ends3(t, 102, 54, 52) {
        NumText::Float(NumberType::F64, t.take(n - 3))
    } else if has_dot(t) {
        NumText::Float(NumberType::F64, t)
    } else if ends2(t, 105, 56) {
        NumText::Int(NumberType::I8, t.take(n - 2))
    } else if ends2(t, 117, 56) {
        NumText::Int(NumberType::U8, t.take(n - 2))
    } else {
        NumText::Int(NumberType::I32, t)
    }
}

/// The outcome of reading a number's text: exact for integers; for floats,
/// a number of the float type or `ParseFloat`.
pub open spec fn number_outcome(t: Seq<u8>, r: Result<Number, Error>) -> bool {
    match num_text(t) {
        NumText::Int(ty, d) => match int_literal(d, is_signed_type(ty), type_min(ty), type_max(ty)) {
            Ok(v) => r == Ok::<Number, Error>(int_number(ty, v)),
            Err(k) => r == Err::<Number, Error>(Error::ParseInt(k)),
        },
        NumText::Float(ty, _) => (r matches Ok(n) && n.spec_numtype() == ty) || r == Err::<Number, Error>(
            Error::ParseFloat,
        ),
    }
}

/// The token that starts at `s` (a position holding a byte) and the
/// position after it.
pub open spec fn token_outcome(input: Seq<u8>, s: int, r: Result<Option<Token>, Error>, end: int) -> bool {
    let b = input[s];
    if begins_number(b) {
        let e = number_run_end(input, s);
        end == e && match r {
            Ok(Some(Token::Number(n))) => number_outcome(input.subrange(s, e), Ok(n)),
            Err(err) => number_outcome(input.subrange(s, e), Err(err)),
            _ => false,
        }
    } else if symbol_byte(b) {
        let e = symbol_run_end(input, s);
        end == e && (r matches Ok(Some(Token::Symbol(x))) && x@ == bytes_chars(input.subrange(s, e)))
    } else if b == 34 {
        match string_lit(input, s + 1) {
            Some((c, e)) => end == e && (r matches Ok(Some(Token::String(x))) && x@ == c),
            None => r == Err::<Option<Token>, Error>(Error::UnterminatedString),
        }
    } else if s + 1 < input.len() && is_pair(b, input[s + 1]) {
        end == s + 2 && (r matches Ok(Some(Token::Operand2(x, y))) && x == b as char && y == input[s + 1] as char)
    } else {
        end == s + 1 && (r matches Ok(Some(Token::Operand(x))) && x == b as char)
    }
}

/// The position after the token that starts at `s` (a position holding a
/// byte), when it reads without error.
pub open spec fn token_end(input: Seq<u8>, s: int) -> int {
    let b = input[s];
    if begins_number(b) {
        number_run_end(input, s)
    } else if symbol_byte(b) {
        symbol_run_end(input, s)
    } else if b == 34 {
        match string_lit(input, s + 1) {
            Some((_, e)) => e,
            None => s + 1,
        }
    } else if s + 1 < input.len() && is_pair(b, input[s + 1]) {
        s + 2
    } else {
        s + 1
    }
}

/// Reading from `p` gives the tokens `toks`, one after another, and stops at
/// `q`: right after the last of them, or at the end of input when nothing but
/// whitespace and comments follows.
#[verifier::opaque]
pub open spec fn lexes(input: Seq<u8>, p: int, toks: Seq<Token>, q: int) -> bool
    decreases toks.len(),
{
    if toks.len() == 0 {
        q == p || (q == input.len() && token_start(input, p) >= input.len())
    } else {
        let s = token_start(input, p);
        &&& 0 <= s < input.len()
        &&& token_outcome(input, s, Ok(Some(toks[0])), token_end(input, s))
        &&& lexes(input, token_end(input, s), toks.drop_first(), q)
    }
}

/// A token read without error ends where `token_end` says.
pub proof fn lemma_token_end(input: Seq<u8>, s: int, t: Token, e: int)
    requires
        token_outcome(input, s, Ok(Some(t)), e),
    ensures
        e == token_end(input, s),
{
}

/// Reading nothing stops where it started.
pub proof fn lemma_lexes_empty(input: Seq<u8>, p: int)
    ensures
        lexes(input, p, Seq::empty(), p),
{
    reveal(lexes);
}

/// One more token read from where the reading stopped extends it.
pub proof fn lemma_lexes_push(input: Seq<u8>, p: int, toks: Seq<Token>, q: int, t: Token, e: int)
    requires
        lexes(input, p, toks, q),
        0 <= q,
        token_start(input, q) < input.len(),
        token_outcome(input, token_start(input, q), Ok(Some(t)), e),
    ensures
        lexes(input, p, toks.push(t), e),
    decreases toks.len(),
{
    reveal(lexes);
    let s = token_start(input, q);
    if q > input.len() {
        assert(token_start(input, q) == q);
    }
    lemma_token_start(input, q);
    lemma_token_end(input, s, t, e);
    if toks.len() == 0 {
        assert(q == p);
        assert(toks.push(t).drop_first() =~= Seq::<Token>::empty());
        lemma_lexes_empty(input, e);
        assert(toks.push(t)[0] == t);
    } else {
        let s0 = token_start(input, p);
        lemma_lexes_push(input, token_end(input, s0), toks.drop_first(), q, t, e);
        assert(toks.push(t).drop_first() =~= toks.drop_first().push(t));
        assert(toks.push(t)[0] == toks[0]);
    }
}

/// When nothing but whitespace and comments is left where the reading
/// stopped, it may as well stop at the end of input.
pub proof fn lemma_lexes_finish(input: Seq<u8>, p: int, toks: Seq<Token>, q: int)
    requires
        lexes(input, p, toks, q),
        token_start(input, q) >= input.len(),
    ensures
        lexes(input, p, toks, input.len() as int),
    decreases toks.len(),
{
    reveal(lexes);
    if toks.len() > 0 {
        let s0 = token_start(input, p);
        lemma_lexes_finish(input, token_end(input, s0), toks.drop_first(), q);
    }
}

fn is_begin_number(ch: u8) -> (r: bool)
    ensures
        r == begins_number(ch),
{
    (ch >= 48 && ch <= 57) || ch == 45
}

fn is_valid_number(ch: u8) -> (r: bool)
    ensures
        r == number_byte(ch),
{
    (ch >= 48 && ch <= 57) || (ch >= 65 && ch <= 90) || (ch >= 97 && ch <= 122) || ch == 46 || ch == 45
}

fn is_begin_comment(ch: u8) -> (r: bool)
    ensures
        r == (ch == 35),
{
    ch == 35
}

fn is_valid_symbol(ch: u8) -> (r: bool)
    ensures
        r == symbol_byte(ch),
{
    (ch >= 48 && ch <= 57) || (ch >= 65 && ch <= 90) || (ch >= 97 && ch <= 122) || ch == 95
}

fn is_space(ch: u8) -> (r: bool)
    ensures
        r == is_space_byte(ch),
{
    ch == 32 || ch == 9 || ch == 10 || ch == 12 || ch == 13
}

/// One more digit: ten times the value, plus the digit.
proof fn lemma_digits_step(d: Seq<u8>, j: int)
    requires
        0 <= j < d.len(),
    ensures
        digits_value(d.take(j + 1)) == digits_value(d.take(j)) * 10 + (d[j] - 48),
{
    assert(d.take(j + 1).drop_last() =~= d.take(j));
}

proof fn lemma_digits_mono(d: Seq<u8>, a: int, b: int)
    requires
        0 <= a <= b <= d.len(),
        forall|k: int| 0 <= k < b ==> is_digit_byte(#[trigger] d[k]),
    ensures
        0 <= digits_value(d.take(a)) <= digits_value(d.take(b)),
    decreases b - a,
{
    if a < b {
        lemma_digits_mono(d, a, b - 1);
        lemma_digits_step(d, b - 1);
    } else {
        lemma_digits_nonneg(d, b);
    }
}

proof fn lemma_digits_nonneg(d: Seq<u8>, b: int)
    requires
        0 <= b <= d.len(),
        forall|k: int| 0 <= k < b ==> is_digit_byte(#[trigger] d[k]),
    ensures
        0 <= digits_value(d.take(b)),
    decreases b,
{
    if b > 0 {
        lemma_digits_nonneg(d, b - 1);
        lemma_digits_step(d, b - 1);
    } else {
        assert(d.take(0).len() == 0);
    }
}

proof fn lemma_digit_run(d: Seq<u8>, j: int)
    requires
        0 <= j <= d.len(),
        forall|k: int| 0 <= k < j ==> is_digit_byte(#[trigger] d[k]),
    ensures
        digit_run(d) >= j,
        j == d.len() || !is_digit_byte(d[j]) ==> digit_run(d) == j,
    decreases j,
{
    if j > 0 {
        let t = d.drop_first();
        assert forall|k: int| 0 <= k < j - 1 implies is_digit_byte(#[trigger] t[k]) by {
            assert(t[k] == d[k + 1]);
        }
        lemma_digit_run(t, j - 1);
        if j < d.len() {
            assert(t[j - 1] == d[j]);
        }
    }
}

proof fn lemma_digit_run_digits(d: Seq<u8>)
    ensures
        digit_run(d) <= d.len(),
        forall|m: int| 0 <= m < digit_run(d) ==> is_digit_byte(#[trigger] d[m]),
    decreases d.len(),
{
    if d.len() > 0 && is_digit_byte(d[0]) {
        let t = d.drop_first();
        lemma_digit_run_digits(t);
        assert forall|m: int| 0 <= m < digit_run(d) implies is_digit_byte(#[trigger] d[m]) by {
            if m > 0 {
                assert(d[m] == t[m - 1]);
            }
        }
    }
}

/// Reads the integer `input[start..end]` as `str::parse` would for a type
/// with range `min..=max`.
fn parse_int(input: &Vec<u8>, start: usize, end: usize, signed: bool, min: i128, max: i128) -> (r: Result<
    i128,
    IntErrorKind,
>)
    requires
        start <= end <= input.len(),
        -0x8000_0000_0000_0000 <= min <= 0 <= max <= 0xffff_ffff_ffff_ffff,
    ensures
        match int_literal(input@.subrange(start as int, end as int), signed, min as int, max as int) {
            Ok(v) => r == Ok::<i128, IntErrorKind>(v as i128),
            Err(k) => r == Err::<i128, IntErrorKind>(k),
        },
{
    let ghost s = input@.subrange(start as int, end as int);
    if start == end {
        return Err(IntErrorKind::Empty);
    }
    let neg = signed && input[start] == 45;
    let d0: usize = if input[start] == 43 || neg {
        start + 1
    } else {
        start
    };
    let ghost d = input@.subrange(d0 as int, end as int);
    proof {
        if input[start as int] == 43 || neg {
            assert(d =~= s.drop_first());
        } else {
            assert(d =~= s);
        }
    }
    if d0 == end {
        return Err(IntErrorKind::InvalidDigit);
    }
    let limit: i128 = if neg {
        0 - min
    } else {
        max
    };
    let mut acc: i128 = 0;
    let mut i: usize = d0;
    proof {
        assert(d.take(0) =~= Seq::<u8>::empty());
    }
    while i < end && input[i] >= 48 && input[i] <= 57
        invariant
            d0 <= i <= end,
            end <= input.len(),
            d == input@.subrange(d0 as int, end as int),
            acc == digits_value(d.take(i - d0)),
            0 <= acc <= limit,
            limit <= 0xffff_ffff_ffff_ffff,
            forall|k: int| 0 <= k < i - d0 ==> is_digit_byte(#[trigger] d[k]),
            s == input@.subrange(start as int, end as int),
            s.len() > 0,
            neg == (signed && s[0] == 45),
            d == if s[0] == 43 || neg { s.drop_first() } else { s },
            d.len() > 0,
            limit == if neg { -min } else { max as int },
            -0x8000_0000_0000_0000 <= min <= 0 <= max <= 0xffff_ffff_ffff_ffff,
        decreases end - i,
    {
        proof {
            lemma_digits_step(d, i - d0);
            assert(d[i - d0] == input[i as int]);
        }
        acc = acc * 10 + (input[i] - 48) as i128;
        i = i + 1;
        if acc > limit {
            proof {
                assert forall|k: int| 0 <= k < i - d0 implies is_digit_byte(#[trigger] d[k]) by {
                    if k == i - 1 - d0 {
                        assert(d[k] == input[i - 1]);
                    }
                }
                lemma_digit_run(d, i - d0);
                lemma_digit_run_digits(d);
                lemma_digits_mono(d, i - d0, digit_run(d) as int);
            }
            if neg {
                return Err(IntErrorKind::NegOverflow);
            } else {
                return Err(IntErrorKind::PosOverflow);
            }
        }
    }
    proof {
        lemma_digit_run(d, i - d0);
        if i < end {
            assert(d[i - d0] == input[i as int]);
        }
    }
    if i < end {
        return Err(IntErrorKind::InvalidDigit);
    }
    proof {
        assert(d.take(i - d0) =~= d);
    }
    if neg {
        Ok(0 - acc)
    } else {
        Ok(acc)
    }
}

/// A string with more characters in front, where there is one.
pub open spec fn prefixed(acc: Seq<char>, o: Option<(Seq<char>, int)>) -> Option<(Seq<char>, int)> {
    match o {
        Some((c, e)) => Some((acc + c, e)),
        None => None,
    }
}

proof fn lemma_prefixed(acc: Seq<char>, c: char, o: Option<(Seq<char>, int)>)
    ensures
        prefixed(acc, prefixed(seq![c], o)) == prefixed(acc.push(c), o),
{
    if let Some((x, e)) = o {
        assert(acc + (seq![c] + x) =~= acc.push(c) + x);
    }
}

proof fn lemma_symbol_run(input: Seq<u8>, p: int, q: int)
    requires
        0 <= p <= q <= input.len(),
        forall|k: int| p <= k < q ==> symbol_byte(#[trigger] input[k]),
        q == input.len() || !symbol_byte(input[q]),
    ensures
        symbol_run_end(input, p) == q,
    decreases q - p,
{
    if p < q {
        lemma_symbol_run(input, p + 1, q);
    }
}

proof fn lemma_number_run(input: Seq<u8>, p: int, q: int)
    requires
        0 <= p <= q <= input.len(),
        forall|k: int| p <= k < q ==> number_byte(#[trigger] input[k]),
        q == input.len() || !number_byte(input[q]),
    ensures
        number_run_end(input, p) == q,
    decreases q - p,
{
    if p < q {
        lemma_number_run(input, p + 1, q);
    }
}

proof fn lemma_number_run_bounds(input: Seq<u8>, p: int)
    requires
        0 <= p <= input.len(),
    ensures
        p <= number_run_end(input, p) <= input.len(),
    decreases input.len() - p,
{
    if p < input.len() && number_byte(input[p]) {
        lemma_number_run_bounds(input, p + 1);
    }
}

proof fn lemma_symbol_run_bounds(input: Seq<u8>, p: int)
    requires
        0 <= p <= input.len(),
    ensures
        p <= symbol_run_end(input, p) <= input.len(),
    decreases input.len() - p,
{
    if p < input.len() && symbol_byte(input[p]) {
        lemma_symbol_run_bounds(input, p + 1);
    }
}

fn escape_char(b: u8) -> (r: char)
    ensures
        r == escaped(b),
{
    if b == 110 {
        '\n'
    } else if b == 116 {
        '\t'
    } else if b == 114 {
        '\r'
    } else {
        b as char
    }
}

fn is_pair_bytes(a: u8, b: u8) -> (r: bool)
    ensures
        r == is_pair(a, b),
{
    (a == 60 && b == 60) || (a == 62 && b == 62) || (a == 38 && b == 38) || (a == 124 && b == 124) || (a == 62
        && b == 61) || (a == 60 && b == 61) || (a == 61 && b == 61) || (a == 33 && b == 61)
}

/// The text of a symbol: letters, digits and `_`, at least one.
pub open spec fn is_symbol_text(x: Seq<char>) -> bool {
    x.len() > 0 && forall|i: int|
        0 <= i < x.len() ==> {
            let c = #[trigger] x[i];
            ('a' <= c && c <= 'z') || ('A' <= c && c <= 'Z') || ('0' <= c && c <= '9') || c == '_'
        }
}

proof fn lemma_symbol_text(input: Seq<u8>, p: int)
    requires
        0 <= p < input.len(),
        symbol_byte(input[p]),
    ensures
        is_symbol_text(bytes_chars(input.subrange(p, symbol_run_end(input, p)))),
    decreases input.len() - p,
{
    lemma_symbol_run_bounds(input, p);
    lemma_symbol_run_bounds(input, p + 1);
    let e = symbol_run_end(input, p);
    let x = bytes_chars(input.subrange(p, e));
    assert forall|i: int| 0 <= i < x.len() implies {
        let c = #[trigger] x[i];
        ('a' <= c && c <= 'z') || ('A' <= c && c <= 'Z') || ('0' <= c && c <= '9') || c == '_'
    } by {
        lemma_symbol_run_all(input, p, p + i);
        let b = input[p + i];
        assert(x[i] == b as char);
        assert(symbol_byte(b));
    }
}

/// Every byte of a symbol run is a symbol byte.
proof fn lemma_symbol_run_all(input: Seq<u8>, p: int, k: int)
    requires
        0 <= p <= k < symbol_run_end(input, p),
    ensures
        symbol_byte(input[k]),
        k < input.len(),
    decreases k - p,
{
    if p < k {
        lemma_symbol_run_all(input, p + 1, k);
    }
}

/// A tokenizer over the bytes of a source file.
pub struct Tokenizer<F> {
    pub input: Vec<u8>,
    /// The position of the next byte to read.
    pub pos: usize,
    pub floats: F,
}

impl<F: FloatBits> Tokenizer<F> {
    /// The position lies within the input (or at its end).
    pub open spec fn wf(&self) -> bool {
        self.pos <= self.input.len()
    }

    /// The input and the float reader are as in `other`.
    pub open spec fn same_source(&self, other: &Self) -> bool {
        self.input@ == other.input@ && self.floats == other.floats
    }

    /// A tokenizer at the start of `input`.
    pub fn new(input: Vec<u8>, floats: F) -> (r: Self)
        ensures
            r.input@ == input@,
            r.pos == 0,
            r.floats == floats,
            r.wf(),
    {
        Tokenizer { input, pos: 0, floats }
    }

    /// The next byte, if any.
    pub fn peek(&self) -> (r: Option<u8>)
        ensures
            r == byte_at(self.input@, self.pos as int),
    {
        if self.pos < self.input.len() {
            Some(self.input[self.pos])
        } else {
            None
        }
    }

    /// Takes the next byte, if any.
    pub fn pop(&mut self) -> (r: Result<Option<u8>, Error>)
        requires
            old(self).wf(),
        ensures
            r == Ok::<Option<u8>, Error>(byte_at(old(self).input@, old(self).pos as int)),
            final(self).same_source(old(self)),
            final(self).input == old(self).input,
            final(self).pos == if old(self).pos < old(self).input.len() { old(self).pos + 1 } else { old(self).pos as int },
            final(self).wf(),
    {
        let old = self.peek();
        if self.pos < self.input.len() {
            self.pos = self.pos + 1;
        }
        Ok(old)
    }

    /// Skips ASCII whitespace.
    pub fn skip_whitespace(&mut self) -> (r: Result<(), Error>)
        requires
            old(self).wf(),
        ensures
            r is Ok,
            final(self).same_source(old(self)),
            final(self).input == old(self).input,
            final(self).pos == skip_spaces(old(self).input@, old(self).pos as int),
            final(self).wf(),
    {
        while self.pos < self.input.len() && is_space(self.input[self.pos])
            invariant
                self.wf(),
                self.same_source(old(self)),
                self.input == old(self).input,
                skip_spaces(self.input@, self.pos as int) == skip_spaces(old(self).input@, old(self).pos as int),
            decreases self.input.len() - self.pos,
        {
            self.pos = self.pos + 1;
        }
        Ok(())
    }

    /// Skips to the next `end` byte (or the end of input).
    pub fn skip_until(&mut self, end: u8) -> (r: Result<(), Error>)
        requires
            old(self).wf(),
        ensures
            r is Ok,
            final(self).same_source(old(self)),
            final(self).input == old(self).input,
            final(self).pos == find_byte(old(self).input@, old(self).pos as int, end),
            final(self).wf(),
    {
        while self.pos < self.input.len() && self.input[self.pos] != end
            invariant
                self.wf(),
                self.same_source(old(self)),
                self.input == old(self).input,
                find_byte(self.input@, self.pos as int, end) == find_byte(old(self).input@, old(self).pos as int, end),
            decreases self.input.len() - self.pos,
        {
            self.pos = self.pos + 1;
        }
        Ok(())
    }

    /// Skips a comment, up to and including its newline.
    pub fn parse_comment(&mut self) -> (r: Result<(), Error>)
        requires
            old(self).wf(),
        ensures
            r is Ok,
            final(self).same_source(old(self)),
            final(self).input == old(self).input,
            final(self).pos == after_comment(old(self).input@, old(self).pos as int),
            final(self).wf(),
    {
        self.skip_until(10)?;
        let _ = self.pop()?;
        Ok(())
    }

    /// Takes bytes while `f` accepts them; `None` when it accepts none.
    pub fn take_while<P: Fn(u8) -> bool>(&mut self, f: P) -> (r: Result<Option<String>, Error>)
        requires
            old(self).wf(),
            forall|c: u8| f.requires((c,)),
        ensures
            final(self).same_source(old(self)),
            final(self).input == old(self).input,
            final(self).wf(),
            old(self).pos <= final(self).pos,
            forall|k: int| old(self).pos <= k < final(self).pos ==> f.ensures((#[trigger] old(self).input@[k],), true),
            final(self).pos < old(self).input.len() ==> f.ensures((old(self).input@[final(self).pos as int],), false),
            r matches Ok(o) && (o is None <==> final(self).pos == old(self).pos) && (o matches Some(x) ==> x@
                == bytes_chars(old(self).input@.subrange(old(self).pos as int, final(self).pos as int))),
    {
        let start = self.pos;
        let mut string = String::new();
        loop
            invariant
                self.wf(),
                self.same_source(old(self)),
                self.input == old(self).input,
                start == old(self).pos,
                start <= self.pos,
                forall|c: u8| f.requires((c,)),
                forall|k: int| start <= k < self.pos ==> f.ensures((#[trigger] self.input@[k],), true),
                string@ == bytes_chars(self.input@.subrange(start as int, self.pos as int)),
            ensures
                self.pos < self.input.len() ==> f.ensures((self.input@[self.pos as int],), false),
            decreases self.input.len() - self.pos,
        {
            if self.pos >= self.input.len() {
                break;
            }
            let ch = self.input[self.pos];
            if !f(ch) {
                break;
            }
            push_char(&mut string, ch as char);
            self.pos = self.pos + 1;
            proof {
                assert(bytes_chars(self.input@.subrange(start as int, self.pos as int)) =~= bytes_chars(
                    self.input@.subrange(start as int, self.pos - 1),
                ).push(ch as char));
            }
        }
        if self.pos == start {
            Ok(None)
        } else {
            Ok(Some(string))
        }
    }

    /// Reads a symbol: a run of letters, digits and `_`.
    pub fn parse_symbol(&mut self) -> (r: Result<Token, Error>)
        requires
            old(self).wf(),
        ensures
            final(self).same_source(old(self)),
            final(self).input == old(self).input,
            final(self).wf(),
            final(self).pos == symbol_run_end(old(self).input@, old(self).pos as int),
            final(self).pos == old(self).pos ==> r matches Err(Error::MalformedToken),
            final(self).pos > old(self).pos ==> (r matches Ok(Token::Symbol(x)) && x@ == bytes_chars(
                old(self).input@.subrange(old(self).pos as int, final(self).pos as int),
            )),
    {
        let ghost p0 = self.pos as int;
        let r = self.take_while(is_valid_symbol);
        proof {
            lemma_symbol_run(self.input@, p0, self.pos as int);
        }
        match r {
            Ok(Some(string)) => Ok(Token::Symbol(string)),
            Ok(None) => Err(Error::MalformedToken),
            Err(e) => Err(e),
        }
    }
    /// Reads a number: a run of letters, digits, `.` and `-`, read as
    /// `num_text` describes.
    pub fn parse_number(&mut self) -> (r: Result<Number, Error>)
        requires
            old(self).wf(),
        ensures
            final(self).same_source(old(self)),
            final(self).input == old(self).input,
            final(self).wf(),
            final(self).pos == number_run_end(old(self).input@, old(self).pos as int),
            final(self).pos == old(self).pos ==> r matches Err(Error::MalformedToken),
            final(self).pos > old(self).pos ==> number_outcome(
                old(self).input@.subrange(old(self).pos as int, final(self).pos as int),
                r,
            ),
    {
        let start = self.pos;
        let r = self.take_while(is_valid_number);
        proof {
            lemma_number_run(self.input@, start as int, self.pos as int);
        }
        match r {
            Ok(Some(_)) => {},
            Ok(None) => return Err(Error::MalformedToken),
            Err(e) => return Err(e),
        }
        let end = self.pos;
        self.read_number(start, end)
    }

    /// Whether `input[start..end]` holds a `.`.
    fn has_dot(&self, start: usize, end: usize) -> (r: bool)
        requires
            start <= end <= self.input.len(),
        ensures
            r == has_dot(self.input@.subrange(start as int, end as int)),
    {
        let ghost t = self.input@.subrange(start as int, end as int);
        let mut i = start;
        while i < end
            invariant
                start <= i <= end,
                end <= self.input.len(),
                t == self.input@.subrange(start as int, end as int),
                forall|k: int| 0 <= k < i - start ==> t[k] != 46,
            decreases end - i,
        {
            if self.input[i] == 46 {
                proof {
                    assert(t[i - start] == 46);
                }
                return true;
            }
            i = i + 1;
        }
        false
    }

    /// Reads `input[start..end]` as an integer of type `t`.
    fn int_number(&self, t: NumberType, start: usize, end: usize) -> (r: Result<Number, Error>)
        requires
            start <= end <= self.input.len(),
            !t.is_float(),
        ensures
            match int_literal(self.input@.subrange(start as int, end as int), is_signed_type(t), type_min(t), type_max(t)) {
                Ok(v) => r == Ok::<Number, Error>(int_number(t, v)),
                Err(k) => r == Err::<Number, Error>(Error::ParseInt(k)),
            },
    {
        let (signed, min, max): (bool, i128, i128) = match t {
            NumberType::I8 => (true, -128, 127),
            NumberType::I16 => (true, -32768, 32767),
            NumberType::I32 => (true, -2147483648, 2147483647),
            NumberType::I64 => (true, -9223372036854775808, 9223372036854775807),
            NumberType::U8 => (false, 0, 255),
            NumberType::U16 => (false, 0, 65535),
            NumberType::U32 => (false, 0, 4294967295),
            _ => (false, 0, 18446744073709551615),
        };
        match parse_int(&self.input, start, end, signed, min, max) {
            Ok(v) => Ok(
                match t {
                    NumberType::I8 => Number::I8(v as i8),
                    NumberType::I16 => Number::I16(v as i16),
                    NumberType::I32 => Number::I32(v as i32),
                    NumberType::I64 => Number::I64(v as i64),
                    NumberType::U8 => Number::U8(v as u8),
                    NumberType::U16 => Number::U16(v as u16),
                    NumberType::U32 => Number::U32(v as u32),
                    _ => Number::U64(v as u64),
                },
            ),
            Err(k) => Err(Error::ParseInt(k)),
        }
    }

    /// Reads `input[start..end]` as a float of type `t`, through the float
    /// reader.
    fn float_number(&self, t: NumberType, start: usize, end: usize) -> (r: Result<Number, Error>)
        requires
            start <= end <= self.input.len(),
            t == NumberType::F32 || t == NumberType::F64,
        ensures
            (r matches Ok(n) && n.spec_numtype() == t) || r == Err::<Number, Error>(Error::ParseFloat),
    {
        let mut text = String::new();
        let mut i = start;
        while i < end
            invariant
                start <= i <= end,
                end <= self.input.len(),
            decreases end - i,
        {
            push_char(&mut text, self.input[i] as char);
            i = i + 1;
        }
        if t == NumberType::F32 {
            match self.floats.single_bits(text.as_str()) {
                Some(bits) => Ok(Number::F32(bits)),
                None => Err(Error::ParseFloat),
            }
        } else {
            match self.floats.double_bits(text.as_str()) {
                Some(bits) => Ok(Number::F64(bits)),
                None => Err(Error::ParseFloat),
            }
        }
    }

    /// Reads the number `input[start..end]` by its suffix.
    fn read_number(&self, start: usize, end: usize) -> (r: Result<Number, Error>)
        requires
            start < end <= self.input.len(),
        ensures
            number_outcome(self.input@.subrange(start as int, end as int), r),
    {
        let ghost t = self.input@.subrange(start as int, end as int);
        let n = end - start;
        if n < 3 {
            if self.has_dot(start, end) {
                return self.float_number(NumberType::F64, start, end);
            }
            return self.int_number(NumberType::I32, start, end);
        }
        let a = self.input[end - 3];
        let b = self.input[end - 2];
        let c = self.input[end - 1];
        proof {
            assert(t[t.len() - 3] == a && t[t.len() - 2] == b && t[t.len() - 1] == c);
            assert(t.take(n - 3) =~= self.input@.subrange(start as int, end - 3));
            assert(t.take(n - 2) =~= self.input@.subrange(start as int, end - 2));
        }
        if a == 105 && b == 49 && c == 54 {
            self.int_number(NumberType::I16, start, end - 3)
        } else if a == 105 && b == 51 && c == 50 {
            self.int_number(NumberType::I32, start, end - 3)
        } else if a == 105 && b == 54 && c == 52 {
            self.int_number(NumberType::I64, start, end - 3)
        } else if a == 117 && b == 49 && c == 54 {
            self.int_number(NumberType::U16, start, end - 3)
        } else if a == 117 && b == 51 && c == 50 {
            self.int_number(NumberType::U32, start, end - 3)
        } else if a == 117 && b == 54 && c == 52 {
            self.int_number(NumberType::U64, start, end - 3)
        } else if a == 102 && b == 51 && c == 50 {
            self.float_number(NumberType::F32, start, end - 3)
        } else if a == 102 && b == 54 && c == 52 {
            self.float_number(NumberType::F64, start, end - 3)
        } else if self.has_dot(start, end) {
            self.float_number(NumberType::F64, start, end)
        } else if b == 105 && c == 56 {
            self.int_number(NumberType::I8, start, end - 2)
        } else if b == 117 && c == 56 {
            self.int_number(NumberType::U8, start, end - 2)
        } else {
            self.int_number(NumberType::I32, start, end)
        }
    }

    /// Reads a string literal; the tokenizer stands on its opening quote.
    fn parse_string(&mut self) -> (r: Result<Option<Token>, Error>)
        requires
            old(self).wf(),
            old(self).pos < old(self).input.len(),
            old(self).input@[old(self).pos as int] == 34,
        ensures
            final(self).same_source(old(self)),
            final(self).input == old(self).input,
            final(self).wf(),
            match string_lit(old(self).input@, old(self).pos + 1) {
                Some((c, e)) => (r matches Ok(Some(Token::String(x))) && x@ == c) && final(self).pos == e,
                None => r == Err::<Option<Token>, Error>(Error::UnterminatedString),
            },
            r is Ok ==> final(self).pos > old(self).pos,
            final(self).pos >= old(self).pos,
    {
        let ghost s0 = old(self).pos + 1;
        self.pos = self.pos + 1;
        let mut string = String::new();
        proof {
            assert(prefixed(Seq::<char>::empty(), string_lit(self.input@, s0)) == string_lit(self.input@, s0)) by {
                if let Some((c, e)) = string_lit(self.input@, s0) {
                    assert(Seq::<char>::empty() + c =~= c);
                }
            }
        }
        loop
            invariant
                self.wf(),
                self.same_source(old(self)),
                self.input == old(self).input,
                s0 <= self.pos,
                s0 == old(self).pos + 1,
                string_lit(self.input@, s0) == prefixed(string@, string_lit(self.input@, self.pos as int)),
            decreases self.input.len() - self.pos,
        {
            if self.pos >= self.input.len() {
                return Err(Error::UnterminatedString);
            }
            let ch = self.input[self.pos];
            if ch == 34 {
                self.pos = self.pos + 1;
                proof {
                    assert(string@ + Seq::<char>::empty() =~= string@);
                }
                return Ok(Some(Token::String(string)));
            }
            if ch == 92 {
                if self.pos + 1 >= self.input.len() {
                    return Err(Error::UnterminatedString);
                }
                let d = self.input[self.pos + 1];
                let e = escape_char(d);
                proof {
                    lemma_prefixed(string@, e, string_lit(self.input@, self.pos + 2));
                }
                push_char(&mut string, e);
                self.pos = self.pos + 2;
            } else {
                proof {
                    lemma_prefixed(string@, ch as char, string_lit(self.input@, self.pos + 1));
                }
                push_char(&mut string, ch as char);
                self.pos = self.pos + 1;
            }
        }
    }

    /// Reads the next token, skipping whitespace and comments; `None` at the
    /// end of input.
    pub fn next_token(&mut self) -> (r: Result<Option<Token>, Error>)
        requires
            old(self).wf(),
        ensures
            final(self).same_source(old(self)),
            final(self).input == old(self).input,
            final(self).wf(),
            token_start(old(self).input@, old(self).pos as int) >= old(self).input.len() ==> (r matches Ok(None)
                && final(self).pos == old(self).input.len()),
            token_start(old(self).input@, old(self).pos as int) < old(self).input.len() ==> token_outcome(
                old(self).input@,
                token_start(old(self).input@, old(self).pos as int),
                r,
                final(self).pos as int,
            ),
            r matches Ok(Some(_)) ==> final(self).pos > old(self).pos,
            final(self).pos >= old(self).pos,
            r matches Ok(Some(Token::Symbol(x))) ==> is_symbol_text(x@),
        decreases old(self).input.len() - old(self).pos,
    {
        self.skip_whitespace()?;
        let ghost q = self.pos as int;
        proof {
            lemma_skip_spaces(self.input@, old(self).pos as int);
        }
        let peeked = self.peek();
        match peeked {
            None => Ok(None),
            Some(ch) => {
                if is_begin_number(ch) {
                    proof {
                        lemma_number_run_bounds(self.input@, q + 1);
                    }
                    match self.parse_number() {
                        Ok(n) => Ok(Some(Token::Number(n))),
                        Err(e) => Err(e),
                    }
                } else if is_valid_symbol(ch) {
                    proof {
                        lemma_symbol_run_bounds(self.input@, q + 1);
                        lemma_symbol_text(self.input@, q);
                    }
                    match self.parse_symbol() {
                        Ok(t) => Ok(Some(t)),
                        Err(e) => Err(e),
                    }
                } else if is_begin_comment(ch) {
                    self.parse_comment()?;
                    proof {
                        lemma_find_byte(self.input@, q + 1, 10);
                    }
                    let ghost mid = *self;
                    let r = self.next_token();
                    proof {
                        assert(self.input == mid.input);
                        assert(mid.input == old(self).input);
                    }
                    r
                } else if ch == 34 {
                    self.parse_string()
                } else {
                    self.pos = self.pos + 1;
                    let next = self.peek();
                    match next {
                        Some(d) => {
                            if is_pair_bytes(ch, d) {
                                self.pos = self.pos + 1;
                                Ok(Some(Token::Operand2(ch as char, d as char)))
                            } else {
                                Ok(Some(Token::Operand(ch as char)))
                            }
                        },
                        None => Ok(Some(Token::Operand(ch as char))),
                    }
                }
            },
        }
    }
}

} // verus!
