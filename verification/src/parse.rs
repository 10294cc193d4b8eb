//! Decimals as they are written: digits, with at most one point among
//! them.

use crate::amount::Decimal;
use vstd::prelude::*;

verus! {

/// The byte of the decimal point.
pub const POINT: u8 = 46;

/// The byte of the digit zero; the other digits follow it.
pub const ZERO: u8 = 48;

/// Whether a byte is a decimal digit.
pub open spec fn is_digit(b: u8) -> bool {
    ZERO <= b <= ZERO + 9
}

/// Whether every byte is a decimal digit.
pub open spec fn all_digits(s: Seq<u8>) -> bool {
    forall|i: int| 0 <= i < s.len() ==> is_digit(#[trigger] s[i])
}

/// The number that a digit stands for.
pub open spec fn digit_value(b: u8) -> nat {
    if b >= ZERO {
        (b - ZERO) as nat
    } else {
        0
    }
}

/// The number that a run of digits stands for, the first digit counting
/// most.
pub open spec fn digits_value(s: Seq<u8>) -> nat
    decreases s.len(),
{
    if s.len() == 0 {
        0
    } else {
        digits_value(s.drop_last()) * 10 + digit_value(s.last())
    }
}

/// The text without the byte at `point`; all of it if `point` is its end.
pub open spec fn digits_around(text: Seq<u8>, point: int) -> Seq<u8> {
    if 0 <= point < text.len() {
        text.take(point) + text.skip(point + 1)
    } else {
        text
    }
}

impl Decimal {
    /// Whether `text` writes this decimal with its point at `point`, or
    /// without a point if `point` is the end of the text: every other byte
    /// is a digit, there is at least one, together they spell the
    /// mantissa, and the scale counts those behind the point.
    pub open spec fn reads_at(self, text: Seq<u8>, point: int) -> bool {
        &&& 0 <= point <= text.len()
        &&& point < text.len() ==> text[point] == POINT
        &&& all_digits(digits_around(text, point))
        &&& digits_around(text, point).len() > 0
        &&& self.mantissa == digits_value(digits_around(text, point))
        &&& self.scale == if point < text.len() {
            text.len() - point - 1
        } else {
            0
        }
    }

    /// Whether `text` writes this decimal.
    pub open spec fn written_as(self, text: Seq<u8>) -> bool {
        exists|point: int| self.reads_at(text, point)
    }

    /// Reads a decimal: digits, with at most one point before, among or
    /// behind them. There is none to read where another byte occurs, where
    /// no digit does, where the digits spell a number that the mantissa
    /// cannot hold, or where more digits follow the point than the scale
    /// can count.
    pub fn parse(text: &[u8]) -> (r: Option<Decimal>)
        ensures
            match r {
                Some(d) => d.written_as(text@),
                None => forall|d: Decimal| !d.written_as(text@),
            },
    {
        let mut mantissa: u32 = 0;
        let mut i: usize = 0;
        while i < text.len() && text[i] != POINT
            invariant
                i <= text@.len(),
                all_digits(text@.take(i as int)),
                mantissa == digits_value(text@.take(i as int)),
            decreases text@.len() - i,
        {
            proof {
                assert(text@.take(i + 1).drop_last() =~= text@.take(i as int));
            }
            match push_digit(mantissa, text[i]) {
                Some(next) => {
                    mantissa = next;
                },
                None => {
                    proof {
                        lemma_no_reading_whole(text@, i as int);
                    }
                    return None;
                },
            }
            i = i + 1;
        }
        if i == text.len() {
            proof {
                assert(text@.take(i as int) =~= text@);
                lemma_no_point(text@);
            }
            if i == 0 {
                return None;
            }
            let d = Decimal { mantissa, scale: 0 };
            proof {
                assert(d.reads_at(text@, i as int));
            }
            return Some(d);
        }
        let point: usize = i;
        let mut scale: u8 = 0;
        i = i + 1;
        proof {
            assert(text@.take(point as int) + text@.subrange(point + 1, i as int) =~= text@.take(
                point as int,
            ));
        }
        while i < text.len()
            invariant
                point < i <= text@.len(),
                text@[point as int] == POINT,
                all_digits(text@.take(point as int) + text@.subrange(point + 1, i as int)),
                mantissa == digits_value(
                    text@.take(point as int) + text@.subrange(point + 1, i as int),
                ),
                scale == i - point - 1,
            decreases text@.len() - i,
        {
            proof {
                assert((text@.take(point as int) + text@.subrange(
                    point + 1,
                    i + 1,
                )).drop_last() =~= text@.take(point as int) + text@.subrange(
                    point + 1,
                    i as int,
                ));
                assert((text@.take(point as int) + text@.subrange(point + 1, i + 1)).last()
                    == text@[i as int]);
            }
            match push_digit(mantissa, text[i]) {
                Some(next) => {
                    mantissa = next;
                    proof {
                        let before = text@.take(point as int) + text@.subrange(
                            point + 1,
                            i as int,
                        );
                        let after = text@.take(point as int) + text@.subrange(point + 1, i + 1);
                        assert(after =~= before.push(text@[i as int]));
                        assert forall|k: int| 0 <= k < after.len() implies is_digit(
                            #[trigger] after[k],
                        ) by {
                            if k < before.len() {
                                assert(after[k] == before[k]);
                            }
                        }
                    }
                },
                None => {
                    proof {
                        lemma_no_reading_fraction(text@, point as int, i as int);
                    }
                    return None;
                },
            }
            if scale == u8::MAX {
                proof {
                    lemma_point_is_known(text@, point as int);
                }
                return None;
            }
            scale = scale + 1;
            i = i + 1;
        }
        proof {
            assert(text@.subrange(point + 1, i as int) =~= text@.skip(point + 1));
            lemma_point_is_known(text@, point as int);
        }
        if text.len() == 1 {
            return None;
        }
        let d = Decimal { mantissa, scale };
        proof {
            assert(d.reads_at(text@, point as int));
        }
        Some(d)
    }
}

/// Appends one digit to a number, if the byte is a digit and the number
/// still fits.
fn push_digit(number: u32, b: u8) -> (r: Option<u32>)
    ensures
        r matches Some(next) ==> is_digit(b) && next == number * 10 + digit_value(b),
        r is None ==> !is_digit(b) || number * 10 + digit_value(b) > u32::MAX,
{
    if b < ZERO || b > ZERO + 9 {
        return None;
    }
    let next: u64 = number as u64 * 10 + (b - ZERO) as u64;
    if next > u32::MAX as u64 {
        return None;
    }
    Some(next as u32)
}

/// A longer run of digits does not spell a smaller number than its start.
pub proof fn lemma_value_grows(s: Seq<u8>, n: int)
    requires
        0 <= n <= s.len(),
    ensures
        digits_value(s.take(n)) <= digits_value(s),
    decreases s.len() - n,
{
    if n < s.len() {
        assert(s.take(n + 1).drop_last() =~= s.take(n));
        lemma_value_grows(s, n + 1);
    } else {
        assert(s.take(n) =~= s);
    }
}

/// Where a text reads as a decimal, every byte but the point is a digit.
pub proof fn lemma_reading_has_digits(text: Seq<u8>, d: Decimal, point: int, k: int)
    requires
        d.reads_at(text, point),
        0 <= k < text.len(),
        k != point,
    ensures
        is_digit(text[k]),
{
    let digits = digits_around(text, point);
    if point < text.len() {
        if k < point {
            assert(digits[k] == text[k]);
        } else {
            assert(digits[k - 1] == text[k]);
        }
    }
}

/// A text without a point reads only as a whole number.
proof fn lemma_no_point(text: Seq<u8>)
    requires
        all_digits(text),
    ensures
        forall|d: Decimal, point: int| #[trigger] d.reads_at(text, point) ==> point == text.len(),
{
    assert forall|d: Decimal, point: int| #[trigger] d.reads_at(text, point) implies point
        == text.len() by {
        if point < text.len() {
            assert(is_digit(text[point]));
        }
    }
}

/// A text with a point at `point` reads only with that point.
proof fn lemma_point_is_known(text: Seq<u8>, point: int)
    requires
        0 <= point < text.len(),
        text[point] == POINT,
    ensures
        forall|d: Decimal, other: int| #[trigger] d.reads_at(text, other) ==> other == point,
{
    assert forall|d: Decimal, other: int| #[trigger] d.reads_at(text, other) implies other
        == point by {
        if other != point {
            lemma_reading_has_digits(text, d, other, point);
        }
    }
}

/// Before any point: where the byte at `i` is no digit, or the digits up
/// to it spell too large a number, the text reads as no decimal.
proof fn lemma_no_reading_whole(text: Seq<u8>, i: int)
    requires
        0 <= i < text.len(),
        text[i] != POINT,
        all_digits(text.take(i)),
        !is_digit(text[i]) || digits_value(text.take(i + 1)) > u32::MAX,
    ensures
        forall|d: Decimal| !d.written_as(text),
{
    assert forall|d: Decimal, point: int| !#[trigger] d.reads_at(text, point) by {
        if d.reads_at(text, point) {
            if point != i {
                lemma_reading_has_digits(text, d, point, i);
            }
            if point <= i {
                assert(is_digit(text.take(i)[point]));
            }
            let digits = digits_around(text, point);
            assert(digits.take(i + 1) =~= text.take(i + 1));
            lemma_value_grows(digits, i + 1);
        }
    }
}

/// Behind the point: where the byte at `i` is no digit, or the digits up
/// to it spell too large a number, the text reads as no decimal.
proof fn lemma_no_reading_fraction(text: Seq<u8>, point: int, i: int)
    requires
        0 <= point < i < text.len(),
        text[point] == POINT,
        !is_digit(text[i]) || digits_value(text.take(point) + text.subrange(point + 1, i + 1))
            > u32::MAX,
    ensures
        forall|d: Decimal| !d.written_as(text),
{
    lemma_point_is_known(text, point);
    assert forall|d: Decimal, other: int| !#[trigger] d.reads_at(text, other) by {
        if d.reads_at(text, other) {
            lemma_reading_has_digits(text, d, other, i);
            let digits = digits_around(text, point);
            assert(digits.take(i) =~= text.take(point) + text.subrange(point + 1, i + 1));
            lemma_value_grows(digits, i);
        }
    }
}

/// A text reads as at most one decimal.
pub proof fn lemma_one_reading(text: Seq<u8>, a: Decimal, b: Decimal)
    requires
        a.written_as(text),
        b.written_as(text),
    ensures
        a == b,
{
    let p = choose|point: int| a.reads_at(text, point);
    let q = choose|point: int| b.reads_at(text, point);
    if p != q {
        if p < text.len() {
            lemma_reading_has_digits(text, b, q, p);
        } else {
            lemma_reading_has_digits(text, a, p, q);
        }
    }
}

} // verus!
