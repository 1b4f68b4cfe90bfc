//! Small operations on texts: comparison, prefixes, line numbers and decimal
//! numerals.
use crate::order::{standing, Standing};
use vstd::prelude::*;
use vstd::string::*;

verus! {

/// Whether two texts are the same.
pub fn same_text(a: &str, b: &str) -> (r: bool)
    ensures
        r == (a@ == b@),
{
    match standing(a, b) {
        Standing::Same => true,
        _ => false,
    }
}

/// Whether an optional text is there and is the same as `b`.
pub fn is_text(a: &Option<String>, b: &str) -> (r: bool)
    ensures
        r == (a.deep_view() == Some(b@)),
{
    match a {
        Some(a) => same_text(a.as_str(), b),
        None => false,
    }
}

/// Whether a text begins with `prefix`.
pub fn begins_with(text: &str, prefix: &str) -> (r: bool)
    ensures
        r == prefix@.is_prefix_of(text@),
{
    let mut xs = text.chars();
    let mut ys = prefix.chars();
    let ghost mut i: int = 0;
    proof {
        assert(text@.skip(0) =~= text@);
        assert(prefix@.skip(0) =~= prefix@);
    }
    #[verifier::loop_isolation(false)]
    loop
        invariant
            0 <= i <= text@.len(),
            i <= prefix@.len(),
            text@.take(i) == prefix@.take(i),
            vstd::std_specs::iter::IteratorSpec::remaining(&xs) == text@.skip(i),
            vstd::std_specs::iter::IteratorSpec::remaining(&ys) == prefix@.skip(i),
        decreases prefix@.len() - i,
    {
        match ys.next() {
            None => {
                assert(prefix@.take(i) =~= prefix@);
                assert(text@.subrange(0, i) =~= text@.take(i));
                return true;
            },
            Some(y) => {
                assert(prefix@.skip(i)[0] == prefix@[i]);
                match xs.next() {
                    None => {
                        return false;
                    },
                    Some(x) => {
                        assert(text@.skip(i)[0] == text@[i]);
                        if x != y {
                            assert(text@.subrange(0, prefix@.len() as int)[i] != prefix@[i] || text@.len()
                                < prefix@.len());
                            return false;
                        }
                        proof {
                            assert(text@.take(i + 1) =~= text@.take(i).push(text@[i]));
                            assert(prefix@.take(i + 1) =~= prefix@.take(i).push(prefix@[i]));
                            assert(text@.skip(i).drop_first() =~= text@.skip(i + 1));
                            assert(prefix@.skip(i).drop_first() =~= prefix@.skip(i + 1));
                            i = i + 1;
                        }
                    },
                }
            },
        }
    }
}

/// The number of newline bytes.
pub open spec fn newlines(bytes: Seq<u8>) -> nat {
    bytes.filter(|b: u8| b == 10u8).len()
}

/// The line, counted from one, on which the byte at `offset` of a text stands.
/// Line numbers are held in 32 bits and wrap around.
pub open spec fn line_number_at(text: Seq<char>, offset: int) -> u32 {
    ((newlines(vstd::utf8::encode_utf8(text).take(offset)) + 1) % 0x1_0000_0000) as u32
}

/// The line on which the byte at `offset` stands.
pub fn line_number(text: &str, offset: usize) -> (r: u32)
    requires
        offset <= vstd::utf8::encode_utf8(text@).len(),
    ensures
        r == line_number_at(text@, offset as int),
        r == (vstd::utf8::encode_utf8(text@).take(offset as int).filter(|b: u8| b == 10u8).len() + 1)
            % 0x1_0000_0000,
{
    let bytes = text.as_bytes();
    let mut line: u32 = 1;
    let mut i: usize = 0;
    assert(bytes@.take(0).filter(|b: u8| b == 10u8).len() == 0);
    while i < offset
        invariant
            i <= offset <= bytes@.len(),
            line == ((newlines(bytes@.take(i as int)) + 1) % 0x1_0000_0000),
        decreases offset - i,
    {
        proof {
            let p = |b: u8| b == 10u8;
            assert(bytes@.take(i + 1) =~= bytes@.take(i as int).push(bytes@[i as int]));
            bytes@.take(i as int).lemma_filter_push(bytes@[i as int], p);
        }
        if bytes[i] == 10u8 {
            line = line.wrapping_add(1);
        }
        i += 1;
    }
    line
}

/// Below the 32-bit limit, line numbers are one more than the newlines before
/// the place, so they begin at one.
pub proof fn line_numbers_count_from_one(text: Seq<char>, offset: int)
    requires
        0 <= offset <= vstd::utf8::encode_utf8(text).len(),
        newlines(vstd::utf8::encode_utf8(text)) < u32::MAX,
    ensures
        line_number_at(text, offset) == newlines(vstd::utf8::encode_utf8(text).take(offset)) + 1,
        line_number_at(text, offset) >= 1,
{
    let bytes = vstd::utf8::encode_utf8(text);
    lemma_newlines_grow(bytes, offset, bytes.len() as int);
    assert(bytes.take(bytes.len() as int) =~= bytes);
}

/// A longer stretch from the start has at least as many newlines.
pub proof fn lemma_newlines_grow(bytes: Seq<u8>, a: int, b: int)
    requires
        0 <= a <= b <= bytes.len(),
    ensures
        newlines(bytes.take(a)) <= newlines(bytes.take(b)),
    decreases b - a,
{
    if a < b {
        lemma_newlines_grow(bytes, a, b - 1);
        assert(bytes.take(b) =~= bytes.take(b - 1).push(bytes[b - 1]));
        bytes.take(b - 1).lemma_filter_push(bytes[b - 1], |x: u8| x == 10u8);
    }
}

/// A line that begins behind a place has a higher number than the place.
pub proof fn lemma_later_line(bytes: Seq<u8>, a: int, b: int)
    requires
        0 <= a < b <= bytes.len(),
        bytes[b - 1] == 10u8,
    ensures
        newlines(bytes.take(a)) < newlines(bytes.take(b)),
{
    lemma_newlines_grow(bytes, a, b - 1);
    assert(bytes.take(b) =~= bytes.take(b - 1).push(bytes[b - 1]));
    bytes.take(b - 1).lemma_filter_push(bytes[b - 1], |x: u8| x == 10u8);
}

/// The text with a blank line before it.
pub open spec fn after_blank_line(text: Seq<char>) -> Seq<char> {
    seq!['\n'] + text
}

/// A blank line before a text is one newline byte, and moves each place of the
/// text one line down.
pub proof fn blank_lines_move_lines_down(text: Seq<char>, offset: int)
    requires
        0 <= offset <= vstd::utf8::encode_utf8(text).len(),
    ensures
        vstd::utf8::encode_utf8(after_blank_line(text)) == seq![10u8] + vstd::utf8::encode_utf8(text),
        newlines(vstd::utf8::encode_utf8(after_blank_line(text)).take(offset + 1)) == newlines(
            vstd::utf8::encode_utf8(text).take(offset),
        ) + 1,
{
    let more = after_blank_line(text);
    let bytes = vstd::utf8::encode_utf8(text);
    let newline = '\n' as u32;
    assert(more[0] == '\n');
    assert(more.drop_first() =~= text);
    assert(vstd::utf8::leading_byte_width_1(10u32) == 10u8) by (bit_vector);
    assert(vstd::utf8::encode_scalar(newline) =~= seq![10u8]);
    assert(vstd::utf8::encode_utf8(more) == seq![10u8] + bytes);
    let is_newline = |b: u8| b == 10u8;
    let first = seq![10u8];
    assert((first + bytes).take(offset + 1) =~= first + bytes.take(offset));
    Seq::filter_distributes_over_add(first, bytes.take(offset), is_newline);
    assert(first =~= Seq::<u8>::empty().push(10u8));
    Seq::<u8>::empty().lemma_filter_push(10u8, is_newline);
    assert(Seq::<u8>::empty().filter(is_newline).len() == 0) by {
        Seq::<u8>::empty().lemma_filter_len(is_newline);
    }
}

/// The character of a decimal digit.
pub open spec fn digit(d: nat) -> char {
    (48 + d) as char
}

/// The decimal numeral of a number, without leading zeros.
pub open spec fn decimal(n: nat) -> Seq<char>
    decreases n,
{
    if n < 10 {
        seq![digit(n)]
    } else {
        decimal(n / 10).push(digit(n % 10))
    }
}

fn digit_text(d: u128) -> (r: &'static str)
    requires
        d < 10,
    ensures
        r@ == seq![digit(d as nat)],
{
    proof {
        reveal_strlit("0");
        reveal_strlit("1");
        reveal_strlit("2");
        reveal_strlit("3");
        reveal_strlit("4");
        reveal_strlit("5");
        reveal_strlit("6");
        reveal_strlit("7");
        reveal_strlit("8");
        reveal_strlit("9");
    }
    if d == 0 {
        "0"
    } else if d == 1 {
        "1"
    } else if d == 2 {
        "2"
    } else if d == 3 {
        "3"
    } else if d == 4 {
        "4"
    } else if d == 5 {
        "5"
    } else if d == 6 {
        "6"
    } else if d == 7 {
        "7"
    } else if d == 8 {
        "8"
    } else {
        "9"
    }
}

/// Writes a number in decimal.
pub fn decimal_text(n: u128) -> (r: String)
    ensures
        r@ == decimal(n as nat),
    decreases n,
{
    if n < 10 {
        digit_text(n).to_string()
    } else {
        let mut text = decimal_text(n / 10);
        text.append(digit_text(n % 10));
        proof {
            assert(text@ =~= decimal((n / 10) as nat).push(digit((n % 10) as nat)));
        }
        text
    }
}

/// Numerals are made of digits alone.
pub proof fn numerals_hold_digits(n: nat)
    ensures
        decimal(n).len() > 0,
        forall|i: int| 0 <= i < decimal(n).len() ==> '0' <= #[trigger] decimal(n)[i] <= '9',
    decreases n,
{
    if n >= 10 {
        numerals_hold_digits(n / 10);
    }
}

/// A numeral, read digit by digit, gives its number, and does not begin with a
/// zero unless it is one.
pub proof fn numerals_give_their_numbers(n: nat)
    ensures
        decimal(n).fold_left(0int, |v: int, c: char| 10 * v + (c as int - '0' as int)) == n,
        decimal(n).len() > 1 ==> decimal(n)[0] != '0',
    decreases n,
{
    let read = |v: int, c: char| 10 * v + (c as int - '0' as int);
    if n < 10 {
        assert(decimal(n).drop_last() =~= Seq::empty());
        assert(decimal(n).drop_last().fold_left(0int, read) == 0);
        assert(decimal(n).last() == digit(n));
    } else {
        numerals_give_their_numbers(n / 10);
        numerals_hold_digits(n / 10);
        assert(decimal(n).drop_last() =~= decimal(n / 10));
        assert(decimal(n).last() == digit(n % 10));
        if decimal(n / 10).len() == 1 {
            assert(n / 10 < 10) by {
                if n / 10 >= 10 {
                    numerals_hold_digits(n / 10 / 10);
                }
            }
            assert(decimal(n)[0] == digit(n / 10));
        } else {
            assert(decimal(n)[0] == decimal(n / 10)[0]);
        }
    }
}

/// Different numbers have different numerals.
pub proof fn numerals_are_distinct(a: nat, b: nat)
    requires
        decimal(a) == decimal(b),
    ensures
        a == b,
    decreases a,
{
    numerals_hold_digits(a / 10);
    numerals_hold_digits(b / 10);
    assert(decimal(a).last() == digit(a % 10));
    assert(decimal(b).last() == digit(b % 10));
    if a >= 10 && b >= 10 {
        assert(decimal(a).drop_last() =~= decimal(a / 10));
        assert(decimal(b).drop_last() =~= decimal(b / 10));
        numerals_are_distinct(a / 10, b / 10);
    }
}

} // verus!
