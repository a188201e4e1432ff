//! Text that holds one decimal number per line.
//!
//! Lines end with a line feed; the last line may go without one. A carriage return
//! right before the line feed and a plus sign before the digits are passed over. A
//! line holds at least one digit, nothing but digits, and a number that fits in `u64`.

use vstd::prelude::*;

verus! {

/// The byte that ends a line.
pub const LINE_FEED: u8 = 10;

/// The byte that may stand before the line feed.
pub const CARRIAGE_RETURN: u8 = 13;

/// The byte that may stand before the digits.
pub const PLUS: u8 = 43;

/// The byte of the digit zero.
pub const ZERO: u8 = 48;

/// `b` is a decimal digit.
pub open spec fn is_digit(b: u8) -> bool {
    ZERO <= b <= ZERO + 9
}

/// Every byte of `s` is a decimal digit.
pub open spec fn all_digits(s: Seq<u8>) -> bool {
    forall|i: int| 0 <= i < s.len() ==> is_digit(#[trigger] s[i])
}

/// The number that the decimal digits `s` denote.
pub open spec fn digits_value(s: Seq<u8>) -> nat
    decreases s.len(),
{
    if s.len() == 0 {
        0
    } else {
        (10 * digits_value(s.drop_last()) + (s.last() - ZERO)) as nat
    }
}

/// The digits of a line: the line without a plus sign at its start and, if a line
/// feed ends it, without a carriage return at its end.
pub open spec fn line_digits(line: Seq<u8>, ended: bool) -> Seq<u8> {
    let cut = if ended && line.len() > 0 && line.last() == CARRIAGE_RETURN {
        line.drop_last()
    } else {
        line
    };
    if cut.len() > 0 && cut[0] == PLUS {
        cut.drop_first()
    } else {
        cut
    }
}

/// The number that a line holds, if it holds one; `ended` says whether a line feed
/// ends the line.
pub open spec fn line_number(line: Seq<u8>, ended: bool) -> Option<u64> {
    let digits = line_digits(line, ended);
    if digits.len() > 0 && all_digits(digits) && digits_value(digits) <= u64::MAX {
        Some(digits_value(digits) as u64)
    } else {
        None
    }
}

/// The end of the line that starts at `pos`: the position of the next line feed, or
/// the end of the text.
pub open spec fn line_end(text: Seq<u8>, pos: nat) -> nat
    decreases text.len() - pos,
{
    if pos >= text.len() || text[pos as int] == LINE_FEED {
        pos
    } else {
        line_end(text, pos + 1)
    }
}

/// The numbers of the lines of `text` from `pos` on, if every line holds a number.
pub open spec fn lines_numbers(text: Seq<u8>, pos: nat) -> Option<Seq<u64>>
    decreases text.len() - pos,
{
    if pos >= text.len() {
        Some(Seq::empty())
    } else {
        let end = line_end(text, pos);
        if pos <= end < text.len() {
            match line_number(text.subrange(pos as int, end as int), true) {
                Some(number) => match lines_numbers(text, end + 1) {
                    Some(rest) => Some(seq![number] + rest),
                    None => None,
                },
                None => None,
            }
        } else {
            // The last line, which no line feed ends.
            match line_number(text.subrange(pos as int, text.len() as int), false) {
                Some(number) => Some(seq![number]),
                None => None,
            }
        }
    }
}

proof fn lemma_line_end(text: Seq<u8>, pos: nat)
    requires
        pos <= text.len(),
    ensures
        pos <= line_end(text, pos) <= text.len(),
        line_end(text, pos) < text.len() ==> text[line_end(text, pos) as int] == LINE_FEED,
        forall|i: int| pos <= i < line_end(text, pos) ==> text[i] != LINE_FEED,
    decreases text.len() - pos,
{
    if !(pos >= text.len() || text[pos as int] == LINE_FEED) {
        lemma_line_end(text, pos + 1);
    }
}

/// More digits do not denote less.
proof fn lemma_digits_grow(s: Seq<u8>, k: nat)
    requires
        k <= s.len(),
        all_digits(s),
    ensures
        digits_value(s.subrange(0, k as int)) <= digits_value(s),
    decreases s.len() - k,
{
    if k < s.len() {
        let longer = s.subrange(0, k as int + 1);
        assert(longer.drop_last() =~= s.subrange(0, k as int));
        assert(is_digit(longer.last()));
        lemma_digits_grow(s, k + 1);
    } else {
        assert(s.subrange(0, k as int) =~= s);
    }
}

/// Reads the number that the bytes of `text` from `from` up to `to` hold as a line;
/// `ended` says whether a line feed ends the line.
fn parse_line(text: &Vec<u8>, from: usize, to: usize, ended: bool) -> (number: Option<u64>)
    requires
        from <= to <= text@.len(),
    ensures
        number == line_number(text@.subrange(from as int, to as int), ended),
{
    let ghost line = text@.subrange(from as int, to as int);
    let mut last: usize = to;
    if ended && last > from && text[last - 1] == CARRIAGE_RETURN {
        last -= 1;
    }
    let mut first: usize = from;
    if last > first && text[first] == PLUS {
        first += 1;
    }
    let ghost digits = text@.subrange(first as int, last as int);
    assert(digits =~= line_digits(line, ended));
    if first == last {
        return None;
    }
    let mut value: u64 = 0;
    let mut i: usize = first;
    assert(digits.subrange(0, 0) =~= Seq::<u8>::empty());
    while i < last
        invariant
            first <= i <= last <= text@.len(),
            line == text@.subrange(from as int, to as int),
            digits == text@.subrange(first as int, last as int),
            digits == line_digits(line, ended),
            digits.len() > 0,
            all_digits(digits.subrange(0, i - first)),
            value == digits_value(digits.subrange(0, i - first)),
        decreases last - i,
    {
        let b: u8 = text[i];
        let ghost shorter = digits.subrange(0, i - first);
        let ghost longer = digits.subrange(0, i + 1 - first);
        proof {
            assert(longer.drop_last() =~= shorter);
            assert(longer.last() == b && digits[i - first] == b);
        }
        if b < ZERO || b > ZERO + 9 {
            assert(!is_digit(digits[i - first]));
            return None;
        }
        let digit: u64 = (b - ZERO) as u64;
        if value > (u64::MAX - digit) / 10 {
            proof {
                if all_digits(digits) {
                    lemma_digits_grow(digits, (i + 1 - first) as nat);
                }
            }
            return None;
        }
        value = value * 10 + digit;
        i += 1;
        proof {
            assert forall|k: int| 0 <= k < longer.len() implies is_digit(#[trigger] longer[k]) by {
                if k < shorter.len() {
                    assert(shorter[k] == longer[k]);
                }
            }
        }
    }
    assert(digits.subrange(0, last - first) =~= digits);
    Some(value)
}

/// Reads the numbers that `text` holds, one to a line. Returns `None` if a line does
/// not hold a number.
pub fn parse_numbers(text: &Vec<u8>) -> (numbers: Option<Vec<u64>>)
    ensures
        match numbers {
            Some(numbers) => lines_numbers(text@, 0) == Some(numbers@),
            None => lines_numbers(text@, 0).is_none(),
        },
{
    let mut numbers: Vec<u64> = Vec::new();
    let mut pos: usize = 0;
    while pos < text.len()
        invariant
            pos <= text.len(),
            lines_numbers(text@, 0) == match lines_numbers(text@, pos as nat) {
                Some(rest) => Some(numbers@ + rest),
                None => None,
            },
        decreases text.len() - pos,
    {
        let mut end: usize = pos;
        while end < text.len() && text[end] != LINE_FEED
            invariant
                pos <= end <= text.len(),
                line_end(text@, pos as nat) == line_end(text@, end as nat),
            decreases text.len() - end,
        {
            end += 1;
        }
        proof {
            lemma_line_end(text@, pos as nat);
        }
        let ghost before = numbers@;
        match parse_line(text, pos, end, end < text.len()) {
            None => {
                return None;
            },
            Some(number) => {
                numbers.push(number);
            },
        }
        if end == text.len() {
            assert(numbers@ + Seq::<u64>::empty() =~= before + seq![numbers@.last()]);
            pos = end;
        } else {
            proof {
                match lines_numbers(text@, (end + 1) as nat) {
                    Some(rest) => {
                        assert(numbers@ + rest =~= before + (seq![numbers@.last()] + rest));
                    },
                    None => {},
                }
            }
            pos = end + 1;
        }
    }
    assert(numbers@ + Seq::<u64>::empty() =~= numbers@);
    Some(numbers)
}

} // verus!
