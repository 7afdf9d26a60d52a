//! What texts that were put together say.

use vstd::prelude::*;

use crate::text::{
    begins_with, digit_char, digits, optional_digits, padded_left, padded_right, repeated,
    replaced,
};

verus! {

/// What a digit is worth; letters follow the ten numerals.
pub open spec fn worth(c: char) -> int {
    if '0' <= c && c <= '9' {
        c as int - '0' as int
    } else if 'a' <= c && c <= 'f' {
        c as int - 'a' as int + 10
    } else {
        -1
    }
}

/// The number that digits stand for in a base, the most significant first.
pub open spec fn number(text: Seq<char>, base: nat) -> int
    decreases text.len(),
{
    if text.len() == 0 {
        0
    } else {
        number(text.drop_last(), base) * base + worth(text.last())
    }
}

/// The digits of a number stand for it. Each is a digit of the base, there is at
/// least one, and the first of several is not 0.
pub proof fn law_digits_read_back(n: nat, base: nat, k: int)
    requires
        2 <= base <= 16,
    ensures
        number(digits(n, base), base) == n,
        digits(n, base).len() > 0,
        digits(n, base).len() > 1 ==> digits(n, base)[0] != '0',
        n == 0 ==> digits(n, base) == seq!['0'],
        0 <= k < digits(n, base).len() ==> 0 <= worth(digits(n, base)[k]) < base,
    decreases n,
{
    let text = digits(n, base);
    if n < base {
        assert(text.drop_last() =~= Seq::<char>::empty());
        assert(text.last() == digit_char(n as int));
        assert(number(text.drop_last(), base) == 0);
        assert(0 * base == 0) by (nonlinear_arith);
        assert(text =~= seq![digit_char(n as int)]);
    } else {
        let q = n / base;
        assert(n == q * base + n % base && n % base < base) by (nonlinear_arith)
            requires
                q == n / base,
                base >= 2,
        ;
        if q == 0 {
            assert(0 * base == 0) by (nonlinear_arith);
        }
        assert(q < n) by (nonlinear_arith)
            requires
                n == q * base + n % base,
                base >= 2,
                q > 0,
        ;
        law_digits_read_back(n / base, base, k);
        law_digits_read_back(n / base, base, 0);
        let head = digits(n / base, base);
        assert(text.drop_last() =~= head);
        assert(text.last() == digit_char((n % base) as int));
        assert(text[0] == head[0]);
        if head.len() == 1 {
            assert(head.drop_last() =~= Seq::<char>::empty());
            assert(number(head.drop_last(), base) == 0);
            assert(0 * base == 0) by (nonlinear_arith);
            assert(worth(head[0]) == n / base);
        }
    }
}

/// Different numbers have different digits, and a missing number has none.
pub proof fn law_optional_digits_differ(a: Option<u64>, b: Option<u64>)
    ensures
        optional_digits(a) == optional_digits(b) <==> a == b,
        optional_digits(a).len() == 0 <==> a is None,
        a matches Some(n) ==> number(optional_digits(a), 10) == n,
{
    if let Some(n) = a {
        law_digits_read_back(n as nat, 10, 0);
    }
    if let Some(n) = b {
        law_digits_read_back(n as nat, 10, 0);
    }
}

/// A text padded to a width is as long as the width, or unchanged if it is
/// longer. Padded on the right it begins with the text, padded on the left it
/// ends with it, and the rest is blanks.
pub proof fn law_padding_keeps_text(text: Seq<char>, width: nat, k: int)
    ensures
        text.len() <= width ==> padded_right(text, width).len() == width && padded_left(
            text,
            width,
        ).len() == width,
        text.len() >= width ==> padded_right(text, width) == text && padded_left(text, width)
            == text,
        0 <= k < text.len() ==> padded_right(text, width)[k] == text[k],
        text.len() <= k < width ==> padded_right(text, width)[k] == ' ',
        0 <= k < width - text.len() ==> padded_left(text, width)[k] == ' ',
        text.len() <= width && 0 <= k < text.len() ==> padded_left(text, width)[width - text.len()
            + k] == text[k],
{
    assert(repeated(' ', 0) =~= Seq::<char>::empty());
    assert(text + Seq::<char>::empty() =~= text);
    assert(Seq::<char>::empty() + text =~= text);
}

/// Whether a text holds another at the given place.
pub open spec fn stands(text: Seq<char>, other: Seq<char>, at: int) -> bool {
    0 <= at && at + other.len() <= text.len() && forall|j: int|
        0 <= j < other.len() ==> #[trigger] text[at + j] == other[j]
}

/// Where a text does not hold `from`, replacing changes nothing. Otherwise what
/// comes before the first occurrence stays, the occurrence becomes `to`, and the
/// rest is replaced in the same way.
pub proof fn law_replacing_goes_by_occurrences(
    text: Seq<char>,
    from: Seq<char>,
    to: Seq<char>,
    at: int,
)
    requires
        from.len() > 0,
        0 <= at <= text.len(),
        forall|i: int| 0 <= i < at ==> !#[trigger] stands(text, from, i),
    ensures
        at == text.len() ==> replaced(text, from, to) == text,
        stands(text, from, at) ==> replaced(text, from, to) == text.take(at) + to + replaced(
            text.skip(at + from.len()),
            from,
            to,
        ),
    decreases text.len(),
{
    if text.len() >= from.len() && text.len() > 0 {
        assert(begins_with(text, from) <==> stands(text, from, 0)) by {
            if begins_with(text, from) {
                assert forall|j: int| 0 <= j < from.len() implies #[trigger] text[0 + j]
                    == from[j] by {
                    assert(text.subrange(0, from.len() as int)[j] == from[j]);
                }
            }
            if stands(text, from, 0) {
                assert forall|j: int| 0 <= j < from.len() implies text.subrange(
                    0,
                    from.len() as int,
                )[j] == from[j] by {
                    assert(text[0 + j] == from[j]);
                }
                assert(text.subrange(0, from.len() as int) =~= from);
            }
        }
        if at == 0 {
            if stands(text, from, 0) {
                assert(text.take(0) + to =~= to);
            }
        } else {
            assert(!stands(text, from, 0));
            let rest = text.skip(1);
            assert forall|i: int| 0 <= i < at - 1 implies !#[trigger] stands(rest, from, i) by {
                if stands(rest, from, i) {
                    assert forall|j: int| 0 <= j < from.len() implies #[trigger] text[i + 1 + j]
                        == from[j] by {
                        assert(rest[i + j] == from[j]);
                    }
                    assert(stands(text, from, i + 1));
                }
            }
            law_replacing_goes_by_occurrences(rest, from, to, at - 1);
            assert(seq![text[0]] + rest =~= text);
            if stands(text, from, at) {
                assert(stands(rest, from, at - 1)) by {
                    assert forall|j: int| 0 <= j < from.len() implies #[trigger] rest[at - 1 + j]
                        == from[j] by {
                        assert(text[at + j] == from[j]);
                    }
                }
                assert(rest.skip(at - 1 + from.len()) =~= text.skip(at + from.len()));
                let tail = replaced(text.skip(at + from.len()), from, to);
                assert(seq![text[0]] + (rest.take(at - 1) + to + tail) =~= text.take(at) + to
                    + tail);
            }
        }
    }
}

} // verus!
