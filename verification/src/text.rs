//! Texts and numbers as text.

use vstd::prelude::*;
use vstd::string::{StrSliceExecFns, StringExecFns};
use vstd::utf8::{encode_utf8, encode_utf8_decode_utf8};

verus! {

/// Digit of a value below 16.
pub open spec fn digit_char(d: int) -> char {
    if d < 10 {
        ('0' as int + d) as char
    } else {
        ('a' as int + d - 10) as char
    }
}

/// Digits of a number in the given base, the most significant first.
pub open spec fn digits(n: nat, base: nat) -> Seq<char>
    decreases n,
{
    if n < base || base < 2 {
        seq![digit_char(n as int)]
    } else {
        proof {
            assert(n / base < n) by (nonlinear_arith)
                requires
                    n >= base,
                    base >= 2,
            ;
        }
        digits(n / base, base).push(digit_char((n % base) as int))
    }
}

/// Digit of a value below 16.
fn digit(d: u64) -> (r: &'static str)
    requires
        d < 16,
    ensures
        r@ == seq![digit_char(d as int)],
{
    proof {
        reveal_strlit("0");
        reveal_strlit("1");
        reveal_strlit("2");
        reveal_strlit("3");
        reveal_strlit("4");
        reveal_strlit("5");
        reveal_strlit("6");
        reveal_strlit("7");
        reveal_strlit("8");
        reveal_strlit("9");
        reveal_strlit("a");
        reveal_strlit("b");
        reveal_strlit("c");
        reveal_strlit("d");
        reveal_strlit("e");
        reveal_strlit("f");
    }
    let r: &'static str = match d {
        0 => "0",
        1 => "1",
        2 => "2",
        3 => "3",
        4 => "4",
        5 => "5",
        6 => "6",
        7 => "7",
        8 => "8",
        9 => "9",
        10 => "a",
        11 => "b",
        12 => "c",
        13 => "d",
        14 => "e",
        _ => "f",
    };
    assert(r@ =~= seq![digit_char(d as int)]);
    r
}

/// A number in the given base.
fn in_base(n: u64, base: u64) -> (r: String)
    requires
        2 <= base <= 16,
    ensures
        r@ == digits(n as nat, base as nat),
    decreases n,
{
    let mut text: String = if n < base {
        String::new()
    } else {
        proof {
            assert(n / base < n) by (nonlinear_arith)
                requires
                    n >= base,
                    base >= 2,
            ;
        }
        in_base(n / base, base)
    };
    proof {
        if n < base {
            vstd::arithmetic::div_mod::lemma_small_mod(n as nat, base as nat);
        }
        assert(n % base < base) by (nonlinear_arith)
            requires
                base >= 2,
        ;
    }
    text.append(digit(n % base));
    assert(text@ =~= digits(n as nat, base as nat));
    text
}

/// A number in decimal digits.
pub fn decimal(n: u64) -> (r: String)
    ensures
        r@ == digits(n as nat, 10),
{
    in_base(n, 10)
}

/// A number in lower-case hexadecimal digits.
pub fn hexadecimal(n: u64) -> (r: String)
    ensures
        r@ == digits(n as nat, 16),
{
    in_base(n, 16)
}

/// Two texts, one after the other.
pub fn joined(a: &str, b: &str) -> (r: String)
    ensures
        r@ == a@ + b@,
{
    let mut text: String = String::new();
    text.append(a);
    text.append(b);
    assert(text@ =~= a@ + b@);
    text
}

/// `n` times the same character.
pub open spec fn repeated(c: char, n: nat) -> Seq<char> {
    Seq::new(n, |i: int| c)
}

/// Number of characters that a text lacks to a width.
pub open spec fn lacking(text: Seq<char>, width: nat) -> nat {
    if text.len() < width {
        (width - text.len()) as nat
    } else {
        0
    }
}

/// A text, followed by blanks up to a width.
pub open spec fn padded_right(text: Seq<char>, width: nat) -> Seq<char> {
    text + repeated(' ', lacking(text, width))
}

/// A text, preceded by blanks up to a width.
pub open spec fn padded_left(text: Seq<char>, width: nat) -> Seq<char> {
    repeated(' ', lacking(text, width)) + text
}

/// `n` blanks.
fn blanks(n: usize) -> (r: String)
    ensures
        r@ == repeated(' ', n as nat),
{
    let mut text: String = String::new();
    let mut i: usize = 0;
    while i < n
        invariant
            i <= n,
            text@ == repeated(' ', i as nat),
        decreases n - i,
    {
        proof {
            reveal_strlit(" ");
        }
        text.append(" ");
        i = i + 1;
        assert(text@ =~= repeated(' ', i as nat));
    }
    text
}

/// Puts blanks behind a text, up to a width.
pub fn pad_right(text: &str, width: usize) -> (r: String)
    ensures
        r@ == padded_right(text@, width as nat),
{
    let len: usize = text.unicode_len();
    let pad: String = blanks(width.saturating_sub(len));
    joined(text, pad.as_str())
}

/// Puts blanks before a text, up to a width.
pub fn pad_left(text: &str, width: usize) -> (r: String)
    ensures
        r@ == padded_left(text@, width as nat),
{
    let len: usize = text.unicode_len();
    let pad: String = blanks(width.saturating_sub(len));
    joined(pad.as_str(), text)
}

/// Tests whether two texts are equal.
pub fn same_text(a: &str, b: &str) -> (r: bool)
    ensures
        r == (a@ == b@),
{
    let x: &[u8] = a.as_bytes();
    let y: &[u8] = b.as_bytes();
    proof {
        encode_utf8_decode_utf8(a@);
        encode_utf8_decode_utf8(b@);
    }
    if x.len() != y.len() {
        return false;
    }
    let mut i: usize = 0;
    while i < x.len()
        invariant
            i <= x@.len() == y@.len(),
            forall|j: int| 0 <= j < i ==> x@[j] == y@[j],
            x@ == encode_utf8(a@),
            y@ == encode_utf8(b@),
        decreases x@.len() - i,
    {
        if x[i] != y[i] {
            return false;
        }
        i = i + 1;
    }
    assert(x@ =~= y@);
    true
}

/// Whether a text begins with another.
pub open spec fn begins_with(text: Seq<char>, start: Seq<char>) -> bool {
    text.len() >= start.len() && text.subrange(0, start.len() as int) == start
}

/// Tests whether a text begins with another.
pub fn has_start(text: &str, start: &str) -> (r: bool)
    ensures
        r == begins_with(text@, start@),
{
    let len: usize = start.unicode_len();
    if text.unicode_len() < len {
        return false;
    }
    same_text(text.substring_char(0, len), start)
}

/// A text in which each occurrence of `from`, taken from the left and without
/// overlap, is replaced by `to`.
pub open spec fn replaced(text: Seq<char>, from: Seq<char>, to: Seq<char>) -> Seq<char>
    decreases text.len(),
{
    if from.len() == 0 || text.len() < from.len() {
        text
    } else if begins_with(text, from) {
        to + replaced(text.skip(from.len() as int), from, to)
    } else {
        seq![text[0]] + replaced(text.skip(1), from, to)
    }
}

/// Replaces each occurrence of `from` by `to`.
pub fn replace_all(text: &str, from: &str, to: &str) -> (r: String)
    requires
        from@.len() > 0,
    ensures
        r@ == replaced(text@, from@, to@),
{
    let total: usize = text.unicode_len();
    let len: usize = from.unicode_len();
    let mut done: String = String::new();
    let mut i: usize = 0;
    assert(text@.skip(0) =~= text@);
    assert(Seq::<char>::empty() + replaced(text@, from@, to@) =~= replaced(text@, from@, to@));
    while total - i >= len
        invariant
            i <= total,
            total == text@.len(),
            len == from@.len(),
            len > 0,
            done@ + replaced(text@.skip(i as int), from@, to@) == replaced(text@, from@, to@),
        decreases total - i,
    {
        let ghost rest = text@.skip(i as int);
        let ghost before = done@;
        assert(rest.subrange(0, len as int) =~= text@.subrange(i as int, i + len));
        if same_text(text.substring_char(i, i + len), from) {
            done.append(to);
            i = i + len;
            proof {
                assert(rest.skip(len as int) =~= text@.skip(i as int));
                assert(before + (to@ + replaced(text@.skip(i as int), from@, to@)) =~= (before
                    + to@) + replaced(text@.skip(i as int), from@, to@));
            }
        } else {
            let c: &str = text.substring_char(i, i + 1);
            done.append(c);
            i = i + 1;
            proof {
                assert(c@ =~= seq![rest[0]]);
                assert(rest.skip(1) =~= text@.skip(i as int));
                assert(before + (c@ + replaced(text@.skip(i as int), from@, to@)) =~= (before + c@)
                    + replaced(text@.skip(i as int), from@, to@));
            }
        }
    }
    done.append(text.substring_char(i, total));
    assert(text@.subrange(i as int, total as int) =~= text@.skip(i as int));
    done
}

/// The decimal digits of a number, or nothing.
pub open spec fn optional_digits(n: Option<u64>) -> Seq<char> {
    match n {
        Some(v) => digits(v as nat, 10),
        None => Seq::empty(),
    }
}

/// A number in decimal digits, or nothing.
pub fn optional_decimal(n: Option<u64>) -> (r: String)
    ensures
        r@ == optional_digits(n),
{
    match n {
        Some(v) => decimal(v),
        None => {
            let empty: String = String::new();
            assert(empty@ =~= Seq::<char>::empty());
            empty
        },
    }
}

} // verus!
