//! Text: rendering of numbers, comparison and abbreviation.

use vstd::prelude::*;

verus! {

broadcast use vstd::string::group_string_axioms;

/// Appends one character. Specifies `String::push` of the standard library:
/// the character is placed behind what the string already holds.
pub assume_specification[ String::push ](s: &mut String, ch: char)
    ensures
        final(s)@ == old(s)@.push(ch),
;

/// Whether a character is white space: whether it has the property White_Space of
/// the Unicode Character Database.
pub open spec fn white_space(c: char) -> bool {
    let n = c as int;
    ||| 0x9 <= n <= 0xd
    ||| n == 0x20
    ||| n == 0x85
    ||| n == 0xa0
    ||| n == 0x1680
    ||| 0x2000 <= n <= 0x200a
    ||| n == 0x2028
    ||| n == 0x2029
    ||| n == 0x202f
    ||| n == 0x205f
    ||| n == 0x3000
}

/// Whether a character is white space.
pub fn is_white_space(c: char) -> (r: bool)
    ensures
        r == white_space(c),
{
    let n: u32 = c as u32;
    (0x9 <= n && n <= 0xd) || n == 0x20 || n == 0x85 || n == 0xa0 || n == 0x1680 || (0x2000 <= n && n
        <= 0x200a) || n == 0x2028 || n == 0x2029 || n == 0x202f || n == 0x205f || n == 0x3000
}

/// A text from its first character on that is not white space.
pub open spec fn without_leading_space(text: Seq<char>) -> Seq<char>
    decreases text.len(),
{
    if text.len() > 0 && white_space(text[0]) {
        without_leading_space(text.drop_first())
    } else {
        text
    }
}

/// A text up to its last character that is not white space.
pub open spec fn without_trailing_space(text: Seq<char>) -> Seq<char>
    decreases text.len(),
{
    if text.len() > 0 && white_space(text.last()) {
        without_trailing_space(text.drop_last())
    } else {
        text
    }
}

/// A text without the white space at its two ends.
pub open spec fn trimmed_text(text: Seq<char>) -> Seq<char> {
    without_trailing_space(without_leading_space(text))
}

/// A text without the white space at its two ends.
pub fn trimmed(text: &str) -> (r: String)
    ensures
        r@ == trimmed_text(text@),
{
    let chars = characters(text);
    let mut from: usize = 0;
    proof {
        assert(chars@.skip(0) =~= text@);
    }
    while from < chars.len() && is_white_space(chars[from])
        invariant
            from <= chars.len(),
            without_leading_space(text@) == without_leading_space(chars@.skip(from as int)),
        decreases chars.len() - from,
    {
        proof {
            assert(chars@.skip(from as int).drop_first() =~= chars@.skip(from + 1));
        }
        from = from + 1;
    }
    let mut to: usize = chars.len();
    let ghost rest = chars@.skip(from as int);
    proof {
        assert(without_leading_space(text@) == rest);
        assert(chars@.subrange(from as int, to as int) =~= rest);
    }
    while from < to && is_white_space(chars[to - 1])
        invariant
            from <= to <= chars.len(),
            without_trailing_space(rest) == without_trailing_space(
                chars@.subrange(from as int, to as int),
            ),
        decreases to,
    {
        proof {
            assert(chars@.subrange(from as int, to as int).drop_last() =~= chars@.subrange(
                from as int,
                to - 1,
            ));
        }
        to = to - 1;
    }
    slice(&chars, from, to)
}

/// The characters of `text`.
pub(crate) fn characters(text: &str) -> (r: Vec<char>)
    ensures
        r@ == text@,
{
    let mut out: Vec<char> = Vec::new();
    for c in it: text.chars()
        invariant
            it.seq() == text@,
            out@ == text@.take(it.index() as int),
    {
        proof {
            assert(text@.take(it.index() + 1) =~= text@.take(it.index() as int).push(c));
        }
        out.push(c);
    }
    proof {
        assert(text@.take(text@.len() as int) =~= text@);
    }
    out
}

/// The text of an optional string.
pub open spec fn optional_text(s: Option<String>) -> Option<Seq<char>> {
    match s {
        Some(t) => Some(t@),
        None => None,
    }
}

/// Whether two texts are the same.
pub fn same(a: &str, b: &str) -> (r: bool)
    ensures
        r == (a@ == b@),
{
    a.to_owned() == b.to_owned()
}

/// Whether `a` comes before `b` in the order of a dictionary, character by
/// character.
pub open spec fn precedes(a: Seq<char>, b: Seq<char>) -> bool
    decreases a.len(),
{
    if b.len() == 0 {
        false
    } else if a.len() == 0 {
        true
    } else if a[0] != b[0] {
        (a[0] as int) < (b[0] as int)
    } else {
        precedes(a.drop_first(), b.drop_first())
    }
}

/// No text comes before itself.
pub proof fn precedes_is_irreflexive(a: Seq<char>)
    ensures
        !precedes(a, a),
    decreases a.len(),
{
    if a.len() > 0 {
        precedes_is_irreflexive(a.drop_first());
    }
}

/// A text that comes before one that comes before a third comes before that.
pub proof fn precedes_is_transitive(a: Seq<char>, b: Seq<char>, c: Seq<char>)
    requires
        precedes(a, b),
        precedes(b, c),
    ensures
        precedes(a, c),
    decreases a.len(),
{
    if a.len() > 0 && a[0] == b[0] && b[0] == c[0] {
        precedes_is_transitive(a.drop_first(), b.drop_first(), c.drop_first());
    }
}

/// Of two texts that differ, one comes before the other.
pub proof fn precedes_is_total(a: Seq<char>, b: Seq<char>)
    requires
        a != b,
    ensures
        precedes(a, b) || precedes(b, a),
    decreases a.len(),
{
    if a.len() > 0 && b.len() > 0 && a[0] == b[0] {
        if a.drop_first() == b.drop_first() {
            assert(a =~= seq![a[0]] + a.drop_first());
            assert(b =~= seq![b[0]] + b.drop_first());
        }
        precedes_is_total(a.drop_first(), b.drop_first());
    } else if a.len() == 0 && b.len() == 0 {
        assert(a =~= b);
    }
}

/// Whether `a` comes before `b` in the order of a dictionary.
pub fn before(a: &str, b: &str) -> (r: bool)
    ensures
        r == precedes(a@, b@),
{
    let x = characters(a);
    let y = characters(b);
    let mut i: usize = 0;
    proof {
        assert(x@.skip(0) =~= x@ && y@.skip(0) =~= y@);
    }
    while i < x.len() && i < y.len() && x[i] == y[i]
        invariant
            i <= x.len(),
            i <= y.len(),
            precedes(x@, y@) == precedes(x@.skip(i as int), y@.skip(i as int)),
        decreases x.len() - i,
    {
        proof {
            assert(x@.skip(i as int).drop_first() =~= x@.skip(i + 1));
            assert(y@.skip(i as int).drop_first() =~= y@.skip(i + 1));
        }
        i = i + 1;
    }
    if i >= y.len() {
        false
    } else if i >= x.len() {
        true
    } else {
        x[i] < y[i]
    }
}

/// The characters from `from` up to `to`.
pub(crate) fn slice(chars: &Vec<char>, from: usize, to: usize) -> (r: String)
    requires
        from <= to <= chars.len(),
    ensures
        r@ == chars@.subrange(from as int, to as int),
{
    let mut out = String::new();
    let mut i: usize = from;
    while i < to
        invariant
            from <= i <= to <= chars.len(),
            out@ == chars@.subrange(from as int, i as int),
        decreases to - i,
    {
        proof {
            assert(chars@.subrange(from as int, i + 1) =~= chars@.subrange(
                from as int,
                i as int,
            ).push(chars@[i as int]));
        }
        out.push(chars[i]);
        i = i + 1;
    }
    out
}

/// A letter of the ASCII alphabet in lower case; any other character as it is.
pub open spec fn lower(c: char) -> char {
    if 'A' <= c <= 'Z' {
        (c as int + 32) as char
    } else {
        c
    }
}

/// Whether two texts differ in nothing but the case of ASCII letters.
pub open spec fn alike(a: Seq<char>, b: Seq<char>) -> bool {
    a.len() == b.len() && forall|i: int| 0 <= i < a.len() ==> lower(a[i]) == lower(b[i])
}

fn lowered(c: char) -> (r: u32)
    ensures
        r == lower(c) as u32,
{
    if 'A' <= c && c <= 'Z' {
        c as u32 + 32
    } else {
        c as u32
    }
}

/// Whether two texts differ in nothing but the case of ASCII letters.
pub fn same_ignoring_case(a: &str, b: &str) -> (r: bool)
    ensures
        r == alike(a@, b@),
{
    let x = characters(a);
    let y = characters(b);
    if x.len() != y.len() {
        return false;
    }
    let mut i: usize = 0;
    while i < x.len()
        invariant
            i <= x.len() == y.len(),
            x@ == a@,
            y@ == b@,
            forall|j: int| 0 <= j < i ==> lower(x@[j]) == lower(y@[j]),
        decreases x.len() - i,
    {
        if lowered(x[i]) != lowered(y[i]) {
            proof {
                assert(lower(a@[i as int]) != lower(b@[i as int]));
            }
            return false;
        }
        i = i + 1;
    }
    true
}

/// The character of a decimal digit.
pub open spec fn digit(d: nat) -> char {
    ('0' as int + d) as char
}

/// A natural number in decimal notation.
pub open spec fn decimal(n: nat) -> Seq<char>
    decreases n,
{
    if n < 10 {
        seq![digit(n)]
    } else {
        decimal(n / 10).push(digit(n % 10))
    }
}

/// A whole number in decimal notation.
pub open spec fn signed_decimal(n: int) -> Seq<char> {
    if n < 0 {
        seq!['-'] + decimal((-n) as nat)
    } else {
        decimal(n as nat)
    }
}

/// Digits are told apart.
proof fn lemma_digits_differ(a: nat, b: nat)
    requires
        a < 10,
        b < 10,
        digit(a) == digit(b),
    ensures
        a == b,
        digit(a) != '-',
{
}

/// Natural numbers have their own digits.
proof fn lemma_decimals_differ(a: nat, b: nat)
    requires
        decimal(a) == decimal(b),
    ensures
        a == b,
        decimal(a).len() > 0,
        decimal(a)[0] != '-',
    decreases a + b,
{
    if a < 10 && b < 10 {
        assert(decimal(a)[0] == digit(a) && decimal(b)[0] == digit(b));
        lemma_digits_differ(a, b);
    } else if a >= 10 && b >= 10 {
        let (x, y) = (decimal(a / 10), decimal(b / 10));
        assert(decimal(a).drop_last() =~= x && decimal(b).drop_last() =~= y);
        assert(decimal(a).last() == digit(a % 10) && decimal(b).last() == digit(b % 10));
        lemma_decimals_differ(a / 10, b / 10);
        lemma_digits_differ(a % 10, b % 10);
        assert(decimal(a)[0] == x[0]);
    } else {
        let m: nat = if a >= 10 {
            a
        } else {
            b
        };
        lemma_decimals_differ(m / 10, m / 10);
        assert(decimal(m).len() >= 2);
        assert(false);
    }
}

/// Different whole numbers have different decimal notations.
pub proof fn decimals_differ(a: int, b: int)
    requires
        signed_decimal(a) == signed_decimal(b),
    ensures
        a == b,
{
    let (x, y): (nat, nat) = (
        if a < 0 {
            (-a) as nat
        } else {
            a as nat
        },
        if b < 0 {
            (-b) as nat
        } else {
            b as nat
        },
    );
    lemma_decimals_differ(x, x);
    lemma_decimals_differ(y, y);
    assert(signed_decimal(a)[0] == signed_decimal(b)[0]);
    if a < 0 && b < 0 {
        assert(signed_decimal(a).skip(1) =~= decimal(x));
        assert(signed_decimal(b).skip(1) =~= decimal(y));
    }
    if (a < 0) == (b < 0) {
        lemma_decimals_differ(x, y);
    }
}

fn digit_char(d: u64) -> (c: char)
    requires
        d < 10,
    ensures
        c == digit(d as nat),
{
    if d == 0 {
        '0'
    } else if d == 1 {
        '1'
    } else if d == 2 {
        '2'
    } else if d == 3 {
        '3'
    } else if d == 4 {
        '4'
    } else if d == 5 {
        '5'
    } else if d == 6 {
        '6'
    } else if d == 7 {
        '7'
    } else if d == 8 {
        '8'
    } else {
        '9'
    }
}

/// Appends a number in decimal notation.
pub(crate) fn push_number(out: &mut String, n: u64)
    ensures
        final(out)@ == old(out)@ + decimal(n as nat),
    decreases n,
{
    if n >= 10 {
        push_number(out, n / 10);
    }
    out.push(digit_char(n % 10));
    proof {
        if n >= 10 {
            assert(old(out)@ + decimal(n as nat) =~= (old(out)@ + decimal((n / 10) as nat)).push(
                digit((n % 10) as nat),
            ));
        } else {
            assert(old(out)@ + decimal(n as nat) =~= old(out)@.push(digit(n as nat)));
        }
    }
}

/// Appends a whole number in decimal notation.
pub(crate) fn push_signed(out: &mut String, n: i64)
    ensures
        final(out)@ == old(out)@ + signed_decimal(n as int),
{
    if n < 0 {
        out.push('-');
        let m: u64 = (-(n as i128)) as u64;
        push_number(out, m);
        proof {
            assert(old(out)@ + signed_decimal(n as int) =~= old(out)@.push('-') + decimal(m as nat));
        }
    } else {
        push_number(out, n as u64);
    }
}

/// Why a text is no whole number.
#[derive(Clone, Copy, Debug, PartialEq, Eq, Structural)]
pub enum NumberError {
    /// It is empty.
    Empty,
    /// It holds something else than digits behind an optional sign.
    InvalidDigit,
    /// The number is too large.
    TooLarge,
    /// The number is too small.
    TooSmall,
}

/// The text of an error.
pub open spec fn number_error_text(error: NumberError) -> Seq<char> {
    match error {
        NumberError::Empty => "cannot parse integer from empty string"@,
        NumberError::InvalidDigit => "invalid digit found in string"@,
        NumberError::TooLarge => "number too large to fit in target type"@,
        NumberError::TooSmall => "number too small to fit in target type"@,
    }
}

impl NumberError {
    /// The text of the error.
    pub fn text(&self) -> (r: &'static str)
        ensures
            r@ == number_error_text(*self),
    {
        match self {
            NumberError::Empty => "cannot parse integer from empty string",
            NumberError::InvalidDigit => "invalid digit found in string",
            NumberError::TooLarge => "number too large to fit in target type",
            NumberError::TooSmall => "number too small to fit in target type",
        }
    }
}

/// Whether a character is a decimal digit.
pub open spec fn is_digit(c: char) -> bool {
    '0' <= c <= '9'
}

/// The number that decimal digits stand for.
pub open spec fn number_of(digits: Seq<char>) -> nat
    decreases digits.len(),
{
    if digits.len() == 0 {
        0
    } else {
        number_of(digits.drop_last()) * 10 + (digits.last() as nat - '0' as nat) as nat
    }
}

/// How many digits a text begins with.
pub open spec fn leading_digits(text: Seq<char>) -> nat
    decreases text.len(),
{
    if text.len() > 0 && is_digit(text[0]) {
        1 + leading_digits(text.drop_first())
    } else {
        0
    }
}

/// The number that a text of digits stands for, up to a greatest one. A text
/// that begins with too large a number is too large, whatever follows.
pub open spec fn magnitude(text: Seq<char>, greatest: nat, beyond: NumberError) -> Result<nat, NumberError> {
    let n = leading_digits(text) as int;
    if number_of(text.take(n)) > greatest {
        Err(beyond)
    } else if n < text.len() {
        Err(NumberError::InvalidDigit)
    } else {
        Ok(number_of(text))
    }
}

/// Whether a text is a sign and nothing else.
pub open spec fn lone_sign(text: Seq<char>) -> bool {
    text.len() == 1 && (text[0] == '+' || text[0] == '-')
}

/// The natural number that a text stands for: digits behind an optional plus
/// sign.
pub open spec fn natural(text: Seq<char>, greatest: nat) -> Result<nat, NumberError> {
    if text.len() == 0 {
        Err(NumberError::Empty)
    } else if lone_sign(text) {
        Err(NumberError::InvalidDigit)
    } else if text[0] == '+' {
        magnitude(text.drop_first(), greatest, NumberError::TooLarge)
    } else {
        magnitude(text, greatest, NumberError::TooLarge)
    }
}

/// The whole number that a text stands for: digits behind an optional sign.
/// Downwards the numbers reach one further than upwards.
pub open spec fn integer(text: Seq<char>, greatest: nat) -> Result<int, NumberError> {
    if text.len() > 1 && text[0] == '-' {
        match magnitude(text.drop_first(), greatest + 1, NumberError::TooSmall) {
            Ok(n) => Ok(-(n as int)),
            Err(e) => Err(e),
        }
    } else {
        match natural(text, greatest) {
            Ok(n) => Ok(n as int),
            Err(e) => Err(e),
        }
    }
}

/// What digits at the front of a text stand for grows with their count, and all
/// of them count as leading.
proof fn lemma_front_digits(text: Seq<char>, few: int, many: int)
    requires
        0 <= few <= many <= text.len(),
    ensures
        (forall|i: int| 0 <= i < many ==> is_digit(#[trigger] text[i])) ==> leading_digits(text)
            >= many && number_of(text.take(few)) <= number_of(text.take(many)),
    decreases text.len() + many - few,
{
    if forall|i: int| 0 <= i < many ==> is_digit(#[trigger] text[i]) {
        if few < many {
            lemma_front_digits(text, few, many - 1);
            assert(text.take(many).drop_last() =~= text.take(many - 1));
        }
        if many > 0 && text.len() > 0 {
            let rest = text.drop_first();
            assert(forall|i: int| 0 <= i < many - 1 ==> rest[i] == text[i + 1]);
            lemma_front_digits(rest, many - 1, many - 1);
        }
    }
}

/// The leading characters that are counted are digits, and the next is none.
proof fn lemma_leading_digits(text: Seq<char>)
    ensures
        leading_digits(text) <= text.len(),
        forall|i: int| 0 <= i < leading_digits(text) ==> is_digit(#[trigger] text[i]),
        leading_digits(text) < text.len() ==> !is_digit(text[leading_digits(text) as int]),
    decreases text.len(),
{
    if text.len() > 0 && is_digit(text[0]) {
        let rest = text.drop_first();
        lemma_leading_digits(rest);
        assert forall|i: int| 0 <= i < leading_digits(text) implies is_digit(#[trigger] text[i]) by {
            if i > 0 {
                assert(text[i] == rest[i - 1]);
            }
        }
    }
}

/// The number that the characters from `from` on stand for.
fn parse_magnitude(chars: &Vec<char>, from: usize, greatest: u64, beyond: NumberError) -> (r: Result<
    u64,
    NumberError,
>)
    requires
        from <= chars.len(),
    ensures
        match magnitude(chars@.skip(from as int), greatest as nat, beyond) {
            Ok(n) => r == Ok::<u64, NumberError>(n as u64) && n <= greatest,
            Err(e) => r == Err::<u64, NumberError>(e),
        },
{
    let ghost text = chars@.skip(from as int);
    let mut sum: u64 = 0;
    let mut i: usize = from;
    proof {
        lemma_leading_digits(text);
        assert(text.take(0) =~= Seq::empty());
    }
    while i < chars.len()
        invariant
            from <= i <= chars.len(),
            text == chars@.skip(from as int),
            forall|k: int| 0 <= k < i - from ==> is_digit(#[trigger] text[k]),
            sum == number_of(text.take(i - from)),
            sum <= greatest,
            leading_digits(text) <= text.len(),
            forall|k: int| 0 <= k < leading_digits(text) ==> is_digit(#[trigger] text[k]),
            leading_digits(text) < text.len() ==> !is_digit(text[leading_digits(text) as int]),
        decreases chars.len() - i,
    {
        let c = chars[i];
        let ghost k = i - from;
        assert(c == text[k]);
        if !('0' <= c && c <= '9') {
            proof {
                lemma_front_digits(text, k, k);
                assert(leading_digits(text) == k);
            }
            return Err(NumberError::InvalidDigit);
        }
        let next: u128 = sum as u128 * 10 + (c as u32 - '0' as u32) as u128;
        proof {
            assert(text.take(k + 1).drop_last() =~= text.take(k));
            assert(next == number_of(text.take(k + 1)));
        }
        if next > greatest as u128 {
            proof {
                lemma_front_digits(text, k + 1, k + 1);
                lemma_front_digits(text, k + 1, leading_digits(text) as int);
            }
            return Err(beyond);
        }
        sum = next as u64;
        i = i + 1;
    }
    proof {
        lemma_front_digits(text, text.len() as int, text.len() as int);
        assert(text.take(text.len() as int) =~= text);
    }
    Ok(sum)
}

/// The natural number that a text stands for, up to a greatest one.
pub fn parse_natural(text: &str, greatest: u64) -> (r: Result<u64, NumberError>)
    ensures
        match natural(text@, greatest as nat) {
            Ok(n) => r == Ok::<u64, NumberError>(n as u64) && n <= greatest,
            Err(e) => r == Err::<u64, NumberError>(e),
        },
{
    let chars = characters(text);
    if chars.len() == 0 {
        return Err(NumberError::Empty);
    }
    if chars.len() == 1 && (chars[0] == '+' || chars[0] == '-') {
        return Err(NumberError::InvalidDigit);
    }
    let from: usize = if chars[0] == '+' {
        1
    } else {
        0
    };
    proof {
        assert(chars@.skip(0) =~= text@);
        assert(chars@.skip(1) =~= text@.drop_first());
    }
    parse_magnitude(&chars, from, greatest, NumberError::TooLarge)
}

/// The whole number that a text stands for, if it fits into 32 bits.
pub fn parse_integer(text: &str) -> (r: Result<i32, NumberError>)
    ensures
        match integer(text@, i32::MAX as nat) {
            Ok(n) => r == Ok::<i32, NumberError>(n as i32) && i32::MIN <= n <= i32::MAX,
            Err(e) => r == Err::<i32, NumberError>(e),
        },
{
    let chars = characters(text);
    if chars.len() > 1 && chars[0] == '-' {
        proof {
            assert(chars@.skip(1) =~= text@.drop_first());
        }
        match parse_magnitude(&chars, 1, 0x8000_0000, NumberError::TooSmall) {
            Ok(n) => Ok((0 - n as i64) as i32),
            Err(e) => Err(e),
        }
    } else {
        match parse_natural(text, 0x7fff_ffff) {
            Ok(n) => Ok(n as i32),
            Err(e) => Err(e),
        }
    }
}

} // verus!
