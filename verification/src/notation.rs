//! How texts and numbers are read.

use crate::text::{
    alike, decimal, digit, integer, is_digit, leading_digits, lower, magnitude, natural, number_of,
    precedes, signed_decimal, trimmed_text, white_space, without_leading_space,
    without_trailing_space, NumberError,
};
use vstd::prelude::*;

verus! {

/// The digits of a number are digits, and stand for it.
proof fn lemma_digits(n: nat)
    ensures
        decimal(n).len() > 0,
        forall|i: int| 0 <= i < decimal(n).len() ==> is_digit(#[trigger] decimal(n)[i]),
        number_of(decimal(n)) == n,
    decreases n,
{
    if n < 10 {
        let s = decimal(n);
        assert(s.drop_last() =~= Seq::empty());
        assert(s.last() == digit(n));
        assert(number_of(s.drop_last()) == 0);
    } else {
        let front = decimal(n / 10);
        lemma_digits(n / 10);
        let s = decimal(n);
        assert(s.drop_last() =~= front);
        assert(s.last() == digit(n % 10));
        assert forall|i: int| 0 <= i < s.len() implies is_digit(#[trigger] s[i]) by {
            if i < front.len() {
                assert(s[i] == front[i]);
            }
        }
    }
}

/// A text of digits alone leads with all of them.
proof fn lemma_all_digits(text: Seq<char>)
    requires
        forall|i: int| 0 <= i < text.len() ==> is_digit(#[trigger] text[i]),
    ensures
        leading_digits(text) == text.len(),
    decreases text.len(),
{
    if text.len() > 0 {
        let rest = text.drop_first();
        assert forall|i: int| 0 <= i < rest.len() implies is_digit(#[trigger] rest[i]) by {
            assert(rest[i] == text[i + 1]);
        }
        lemma_all_digits(rest);
    }
}

/// The digits of a number stand for it, up to the greatest one.
proof fn lemma_magnitude(n: nat, greatest: nat, beyond: NumberError)
    ensures
        magnitude(decimal(n), greatest, beyond) == if n <= greatest {
            Ok::<nat, NumberError>(n)
        } else {
            Err::<nat, NumberError>(beyond)
        },
{
    lemma_digits(n);
    lemma_all_digits(decimal(n));
    assert(decimal(n).take(decimal(n).len() as int) =~= decimal(n));
}

/// A natural number in decimal notation, with or without a plus sign in front, is read
/// as that number, or found too large.
pub proof fn natural_number_is_read(n: nat, greatest: nat)
    ensures
        n <= greatest ==> natural(decimal(n), greatest) == Ok::<nat, NumberError>(n),
        n <= greatest ==> natural(seq!['+'] + decimal(n), greatest) == Ok::<nat, NumberError>(n),
        n > greatest ==> natural(decimal(n), greatest) == Err::<nat, NumberError>(NumberError::TooLarge),
{
    lemma_digits(n);
    lemma_magnitude(n, greatest, NumberError::TooLarge);
    let plain = decimal(n);
    let signed = seq!['+'] + plain;
    assert(is_digit(plain[0]));
    assert(signed[0] == '+');
    assert(signed.drop_first() =~= plain);
}

/// A whole number in decimal notation is read as that number, or found too large or
/// too small. Downwards the numbers reach one further than upwards.
pub proof fn whole_number_is_read(n: int, greatest: nat)
    ensures
        -greatest - 1 <= n <= greatest ==> integer(signed_decimal(n), greatest) == Ok::<int, NumberError>(n),
        n > greatest ==> integer(signed_decimal(n), greatest) == Err::<int, NumberError>(NumberError::TooLarge),
        n < -greatest - 1 ==> integer(signed_decimal(n), greatest) == Err::<int, NumberError>(
            NumberError::TooSmall,
        ),
{
    if n < 0 {
        let m = (-n) as nat;
        lemma_digits(m);
        lemma_magnitude(m, greatest + 1, NumberError::TooSmall);
        let text = signed_decimal(n);
        assert(text[0] == '-');
        assert(text.drop_first() =~= decimal(m));
    } else {
        lemma_digits(n as nat);
        natural_number_is_read(n as nat, greatest);
        assert(is_digit(decimal(n as nat)[0]));
    }
}

/// A text in which anything but a digit stands behind the first character is no number.
pub proof fn stray_character_is_refused(text: Seq<char>, greatest: nat, i: int)
    requires
        0 < i < text.len(),
        !is_digit(text[i]),
    ensures
        natural(text, greatest) is Err,
        integer(text, greatest) is Err,
{
    let rest = text.drop_first();
    assert(rest[i - 1] == text[i]);
    lemma_leading(text, i);
    lemma_leading(rest, i - 1);
}

/// Leading digits end before anything else.
proof fn lemma_leading(text: Seq<char>, i: int)
    requires
        0 <= i < text.len(),
        !is_digit(text[i]),
    ensures
        leading_digits(text) <= i,
    decreases text.len(),
{
    if is_digit(text[0]) {
        assert(text.drop_first()[i - 1] == text[i]);
        lemma_leading(text.drop_first(), i - 1);
    }
}

/// A text that is empty is no number.
pub proof fn empty_text_is_refused(greatest: nat)
    ensures
        natural(Seq::empty(), greatest) == Err::<nat, NumberError>(NumberError::Empty),
        integer(Seq::empty(), greatest) == Err::<int, NumberError>(NumberError::Empty),
{
}

/// White space in front of a text is left out.
proof fn lemma_front_space(space: Seq<char>, text: Seq<char>)
    requires
        forall|i: int| 0 <= i < space.len() ==> white_space(#[trigger] space[i]),
        text.len() > 0 ==> !white_space(text[0]),
    ensures
        without_leading_space(space + text) == text,
    decreases space.len(),
{
    if space.len() > 0 {
        assert((space + text).drop_first() =~= space.drop_first() + text);
        assert((space + text)[0] == space[0]);
        lemma_front_space(space.drop_first(), text);
    } else {
        assert(space + text =~= text);
    }
}

/// White space behind a text is left out.
proof fn lemma_back_space(text: Seq<char>, space: Seq<char>)
    requires
        forall|i: int| 0 <= i < space.len() ==> white_space(#[trigger] space[i]),
        text.len() > 0 ==> !white_space(text.last()),
    ensures
        without_trailing_space(text + space) == text,
    decreases space.len(),
{
    if space.len() > 0 {
        assert((text + space).drop_last() =~= text + space.drop_last());
        assert((text + space).last() == space.last());
        assert(white_space(space[space.len() - 1]));
        lemma_back_space(text, space.drop_last());
    } else {
        assert(text + space =~= text);
    }
}

/// White space around a text is left out, and nothing else; of white space alone
/// nothing is left.
pub proof fn space_around_is_left_out(front: Seq<char>, text: Seq<char>, back: Seq<char>)
    requires
        forall|i: int| 0 <= i < front.len() ==> white_space(#[trigger] front[i]),
        forall|i: int| 0 <= i < back.len() ==> white_space(#[trigger] back[i]),
        text.len() > 0 ==> !white_space(text[0]) && !white_space(text[text.len() - 1]),
    ensures
        trimmed_text(front + text + back) == text,
{
    if text.len() > 0 {
        assert(front + text + back =~= front + (text + back));
        assert((text + back)[0] == text[0]);
        lemma_front_space(front, text + back);
        lemma_back_space(text, back);
    } else {
        let all = front + back;
        assert(front + text + back =~= all + Seq::<char>::empty());
        assert forall|i: int| 0 <= i < all.len() implies white_space(#[trigger] all[i]) by {
            if i < front.len() {
                assert(all[i] == front[i]);
            } else {
                assert(all[i] == back[i - front.len()]);
            }
        }
        lemma_front_space(all, Seq::empty());
        assert(text =~= Seq::empty());
    }
}

/// The word yes is recognised in small and in capital letters, also mixed, and nothing
/// else is taken for it.
pub proof fn yes_is_read_in_any_case(text: Seq<char>)
    ensures
        alike(text, "yes"@) <==> text.len() == 3 && (text[0] == 'y' || text[0] == 'Y') && (text[1] == 'e'
            || text[1] == 'E') && (text[2] == 's' || text[2] == 'S'),
{
    reveal_strlit("yes");
    let yes = "yes"@;
    assert(yes[0] == 'y' && yes[1] == 'e' && yes[2] == 's' && yes.len() == 3);
    if alike(text, yes) {
        lemma_letter(text[0], 'y', 'Y');
        lemma_letter(text[1], 'e', 'E');
        lemma_letter(text[2], 's', 'S');
        assert(lower(text[0]) == lower(yes[0]));
        assert(lower(text[1]) == lower(yes[1]));
        assert(lower(text[2]) == lower(yes[2]));
    }
    if text.len() == 3 {
        lemma_letter(text[0], 'y', 'Y');
        lemma_letter(text[1], 'e', 'E');
        lemma_letter(text[2], 's', 'S');
    }
}

/// A letter in lower case comes from itself and from its capital.
proof fn lemma_letter(c: char, small: char, capital: char)
    requires
        'a' <= small <= 'z',
        'A' <= capital <= 'Z',
        small as int == capital as int + 32,
    ensures
        lower(small) == small,
        lower(c) == small <==> c == small || c == capital,
{
    if 'A' <= c <= 'Z' {
        assert((c as int + 32) as char as int == c as int + 32);
    }
}

/// Texts stand in the order of their first different characters, and a text stands
/// before what it begins.
pub proof fn texts_are_in_alphabetical_order(front: Seq<char>, x: char, a: Seq<char>, y: char, b: Seq<char>)
    requires
        (x as int) < (y as int),
    ensures
        precedes(front.push(x) + a, front.push(y) + b),
        !precedes(front.push(y) + b, front.push(x) + a),
        precedes(front, front.push(x) + a),
        !precedes(front.push(x) + a, front),
    decreases front.len(),
{
    let (p, q) = (front.push(x) + a, front.push(y) + b);
    if front.len() > 0 {
        let rest = front.drop_first();
        assert(p.drop_first() =~= rest.push(x) + a);
        assert(q.drop_first() =~= rest.push(y) + b);
        assert(p[0] == front[0] && q[0] == front[0]);
        texts_are_in_alphabetical_order(rest, x, a, y, b);
    } else {
        assert(p[0] == x && q[0] == y);
    }
}

/// Of the ASCII characters the space and those from tabulator to carriage return are
/// white space, and no others.
pub proof fn space_and_line_breaks_are_white(c: char)
    requires
        (c as int) < 128,
    ensures
        white_space(c) <==> c == ' ' || 9 <= c as int <= 13,
{
}

} // verus!
