//! Amounts of money: the decimals that records carry and the fixed-point
//! balances that accounts hold.

use vstd::arithmetic::div_mod::{lemma_div_denominator, lemma_div_multiples_vanish_fancy};
use vstd::prelude::*;

verus! {

/// The largest number of ten-thousandths that one record can move: the
/// largest mantissa at scale zero.
pub const MAX_AMOUNT: i128 = 42_949_672_950_000;

/// Ten to the power `n`.
pub open spec fn pow10(n: nat) -> nat
    decreases n,
{
    if n == 0 {
        1
    } else {
        10 * pow10((n - 1) as nat)
    }
}

/// A non-negative decimal number as a record carries it:
/// `mantissa / 10^scale`, with as many fractional digits as `scale` says.
#[derive(Clone, Copy, Debug, PartialEq, Eq, Structural)]
pub struct Decimal {
    pub mantissa: u32,
    pub scale: u8,
}

/// An amount of money in ten-thousandths of a unit, the precision at which
/// every balance is kept.
#[derive(Clone, Copy, Debug, PartialEq, Eq, Structural)]
pub struct Funds(pub i128);

impl View for Funds {
    type V = int;

    open spec fn view(&self) -> int {
        self.0 as int
    }
}

/// `numer / denom` rounded to the nearest whole number, a tie going away
/// from zero.
pub open spec fn round_away(numer: int, denom: int) -> int {
    if numer >= 0 {
        (2 * numer + denom) / (2 * denom)
    } else {
        -((denom - 2 * numer) / (2 * denom))
    }
}

impl Decimal {
    /// The decimal in ten-thousandths is `parts() / unit()`.
    pub open spec fn parts(self) -> int {
        self.mantissa * pow10(4)
    }

    /// The decimal in ten-thousandths is `parts() / unit()`.
    pub open spec fn unit(self) -> int {
        pow10(self.scale as nat) as int
    }

    /// This decimal in ten-thousandths, rounded to the nearest whole number
    /// of them, a tie going up: `floor(mantissa * 10^4 / 10^scale + 1/2)`.
    pub open spec fn rounded(self) -> int {
        (2 * self.mantissa * pow10(4) + pow10(self.scale as nat)) / (2 * pow10(
            self.scale as nat,
        ) as int)
    }

    /// This decimal in ten-thousandths, rounded to the nearest whole number
    /// of them, a tie going down.
    pub open spec fn rounded_down(self) -> int {
        (2 * self.parts() + self.unit() - 1) / (2 * self.unit())
    }

    /// The whole ten-thousandths in this decimal.
    pub open spec fn floor(self) -> int {
        self.parts() / self.unit()
    }

    /// The fewest whole ten-thousandths that hold this decimal.
    pub open spec fn ceiling(self) -> int {
        (self.parts() + self.unit() - 1) / self.unit()
    }

    /// Whether this decimal lies exactly halfway between two neighbouring
    /// ten-thousandths.
    pub open spec fn halfway(self) -> bool {
        (2 * self.parts()) % (2 * self.unit()) == self.unit()
    }
}

impl Funds {
    /// The sum of two amounts.
    pub open spec fn plus(self, other: Funds) -> Funds {
        Funds((self.0 + other.0) as i128)
    }

    /// The difference of two amounts.
    pub open spec fn minus(self, other: Funds) -> Funds {
        Funds((self.0 - other.0) as i128)
    }

    /// The amount that a record's decimal stands for once it is brought to
    /// four fractional digits.
    pub open spec fn of(amount: Decimal) -> Funds {
        Funds(amount.rounded() as i128)
    }

    /// This balance with a logged decimal added as it was logged, the sum
    /// then brought to four fractional digits, a tie going away from zero.
    pub open spec fn plus_rounded(self, amount: Decimal) -> Funds {
        Funds(round_away(self.0 * amount.unit() + amount.parts(), amount.unit()) as i128)
    }

    /// This balance with a logged decimal taken off as it was logged, the
    /// difference then brought to four fractional digits, a tie going away
    /// from zero.
    pub open spec fn minus_rounded(self, amount: Decimal) -> Funds {
        Funds(round_away(self.0 * amount.unit() - amount.parts(), amount.unit()) as i128)
    }

    /// Whether the balance can take one more movement of any amount
    /// without leaving the range of its machine integer.
    pub open spec fn has_room(self) -> bool {
        -(i128::MAX - MAX_AMOUNT) <= self.0 <= i128::MAX - MAX_AMOUNT
    }

    /// Adds a logged decimal to a balance and rounds the sum.
    pub fn more(self, amount: Decimal) -> (sum: Funds)
        requires
            self.has_room(),
        ensures
            sum == self.plus_rounded(amount),
    {
        let near = nearby(amount);
        proof {
            lemma_plus_rounded(self.0 as int, amount);
            lemma_neighbours(amount);
        }
        if self.0 >= -(near.floor as i128) {
            Funds(self.0 + near.up as i128)
        } else {
            Funds(self.0 + near.down as i128)
        }
    }

    /// Takes a logged decimal off a balance and rounds the difference.
    pub fn less(self, amount: Decimal) -> (difference: Funds)
        requires
            self.has_room(),
        ensures
            difference == self.minus_rounded(amount),
    {
        let near = nearby(amount);
        proof {
            lemma_minus_rounded(self.0 as int, amount);
            lemma_neighbours(amount);
        }
        if self.0 >= near.ceiling as i128 {
            Funds(self.0 - near.down as i128)
        } else {
            Funds(self.0 - near.up as i128)
        }
    }

    /// Brings a record's decimal to four fractional digits, rounding half up.
    pub fn get_amount(amount: Decimal) -> (units: Funds)
        ensures
            units == Funds::of(amount),
            units@ == amount.rounded(),
            0 <= units@ <= MAX_AMOUNT,
    {
        let near = nearby(amount);
        proof {
            lemma_rounded_in_range(amount);
        }
        Funds(near.up as i128)
    }
}

/// The whole numbers of ten-thousandths next to a decimal.
struct Nearby {
    floor: u64,
    ceiling: u64,
    down: u64,
    up: u64,
}

/// Finds the whole numbers of ten-thousandths next to a decimal: those
/// just below and above it, and the nearest, with a tie going either way.
fn nearby(amount: Decimal) -> (near: Nearby)
    ensures
        near.floor == amount.floor(),
        near.ceiling == amount.ceiling(),
        near.down == amount.rounded_down(),
        near.up == amount.rounded(),
{
    let mantissa: u64 = amount.mantissa as u64;
    proof {
        lemma_neighbours_reduced(amount);
        lemma_pow10_values();
    }
    if amount.scale <= 4 {
        let factor: u64 = ten_to(4 - amount.scale);
        proof {
            lemma_pow10_increases((4 - amount.scale) as nat, 4);
            assert(mantissa * factor <= 0xffff_ffff * 10000) by (nonlinear_arith)
                requires
                    mantissa <= 0xffff_ffff,
                    factor <= 10000,
            ;
        }
        let whole: u64 = mantissa * factor;
        Nearby { floor: whole, ceiling: whole, down: whole, up: whole }
    } else if amount.scale - 4 >= 10 {
        proof {
            lemma_pow10_increases(10, (amount.scale - 4) as nat);
            let p = pow10((amount.scale - 4) as nat) as int;
            vstd::arithmetic::div_mod::lemma_basic_div(mantissa as int, p);
            vstd::arithmetic::div_mod::lemma_basic_div(2 * mantissa + p, 2 * p);
            vstd::arithmetic::div_mod::lemma_basic_div(2 * mantissa + p - 1, 2 * p);
            if mantissa == 0 {
                vstd::arithmetic::div_mod::lemma_basic_div(p - 1, p);
            } else {
                lemma_div_multiples_vanish_fancy(1, mantissa - 1, p);
            }
        }
        Nearby { floor: 0, ceiling: if mantissa == 0 { 0 } else { 1 }, down: 0, up: 0 }
    } else {
        let unit: u64 = ten_to(amount.scale - 4);
        proof {
            lemma_pow10_increases((amount.scale - 4) as nat, 9);
        }
        Nearby {
            floor: mantissa / unit,
            ceiling: (mantissa + unit - 1) / unit,
            down: (2 * mantissa + unit - 1) / (2 * unit),
            up: (2 * mantissa + unit) / (2 * unit),
        }
    }
}

/// Ten to the power `n` as a machine integer.
fn ten_to(n: u8) -> (p: u64)
    requires
        n <= 9,
    ensures
        p == pow10(n as nat),
        1 <= p <= 1_000_000_000,
{
    let mut p: u64 = 1;
    let mut i: u8 = 0;
    proof {
        lemma_pow10_values();
    }
    while i < n
        invariant
            i <= n <= 9,
            p == pow10(i as nat),
            1 <= p,
            p <= pow10(9),
        decreases n - i,
    {
        proof {
            lemma_pow10_increases((i + 1) as nat, 9);
            lemma_pow10_values();
        }
        p = p * 10;
        i = i + 1;
    }
    proof {
        lemma_pow10_values();
    }
    p
}

/// Whatever decimal a record carries, its amount is not negative and not
/// above the largest amount.
pub proof fn lemma_amount_in_range()
    ensures
        forall|amount: Decimal| 0 <= (#[trigger] Funds::of(amount))@ <= MAX_AMOUNT,
{
    assert forall|amount: Decimal| 0 <= (#[trigger] Funds::of(amount))@ <= MAX_AMOUNT by {
        lemma_rounded_in_range(amount);
    }
}

/// A decimal rounds to at least zero and at most the largest amount.
pub proof fn lemma_rounded_in_range(d: Decimal)
    ensures
        0 <= d.rounded() <= MAX_AMOUNT,
{
    lemma_pow10_values();
    let m = d.mantissa as int;
    if d.scale <= 4 {
        lemma_rounded_coarse(d);
        lemma_pow10_increases((4 - d.scale) as nat, 4);
        let f = pow10((4 - d.scale) as nat) as int;
        assert(0 <= m * f <= 0xffff_ffff * 10000) by (nonlinear_arith)
            requires
                0 <= m <= 0xffff_ffff,
                1 <= f <= 10000,
        ;
    } else {
        lemma_rounded_fine(d);
        lemma_pow10_increases(1, (d.scale - 4) as nat);
        assert(pow10(1) == 10 * pow10(0));
        let p = pow10((d.scale - 4) as nat) as int;
        let sum = m + p / 2;
        assert(0 <= sum / p <= m + 1) by (nonlinear_arith)
            requires
                0 <= m,
                p >= 10,
                sum == m + p / 2,
        ;
    }
}

/// The powers of ten that the rounding rule meets.
pub proof fn lemma_pow10_values()
    ensures
        pow10(0) == 1,
        pow10(4) == 10_000,
        pow10(9) == 1_000_000_000,
        pow10(10) == 10_000_000_000,
{
    assert(pow10(1) == 10 * pow10(0));
    assert(pow10(2) == 10 * pow10(1));
    assert(pow10(3) == 10 * pow10(2));
    assert(pow10(4) == 10 * pow10(3));
    assert(pow10(5) == 10 * pow10(4));
    assert(pow10(6) == 10 * pow10(5));
    assert(pow10(7) == 10 * pow10(6));
    assert(pow10(8) == 10 * pow10(7));
    assert(pow10(9) == 10 * pow10(8));
    assert(pow10(10) == 10 * pow10(9));
}

/// A larger exponent gives a larger power of ten.
pub proof fn lemma_pow10_increases(a: nat, b: nat)
    requires
        a <= b,
    ensures
        1 <= pow10(a) <= pow10(b),
    decreases b,
{
    if a < b {
        lemma_pow10_increases(a, (b - 1) as nat);
    } else if a > 0 {
        lemma_pow10_increases((a - 1) as nat, (b - 1) as nat);
    }
}

/// Every power of ten above the zeroth is even.
pub proof fn lemma_pow10_even(n: nat)
    requires
        n >= 1,
    ensures
        pow10(n) % 2 == 0,
        pow10(n) == 2 * (pow10(n) / 2),
{
    assert(pow10(n) == 10 * pow10((n - 1) as nat));
}

/// Powers of ten multiply by adding exponents.
pub proof fn lemma_pow10_adds(a: nat, b: nat)
    ensures
        pow10(a + b) == pow10(a) * pow10(b),
    decreases a,
{
    if a == 0 {
        assert(pow10(a + b) == 1 * pow10(b));
    } else {
        lemma_pow10_adds((a - 1) as nat, b);
        assert(pow10(a + b) == 10 * pow10((a - 1 + b) as nat));
        assert(10 * (pow10((a - 1) as nat) * pow10(b)) == (10 * pow10((a - 1) as nat)) * pow10(b))
            by (nonlinear_arith);
    }
}

/// With at most four fractional digits nothing is lost: the decimal is
/// padded with zeros.
pub proof fn lemma_rounded_coarse(d: Decimal)
    requires
        d.scale <= 4,
    ensures
        d.rounded() == d.mantissa * pow10((4 - d.scale) as nat),
{
    let s = pow10(d.scale as nat) as int;
    let f = pow10((4 - d.scale) as nat) as int;
    let m = d.mantissa as int;
    lemma_pow10_adds(d.scale as nat, (4 - d.scale) as nat);
    lemma_pow10_increases(0, d.scale as nat);
    assert(pow10(4) == s * f);
    assert(2 * m * (s * f) + s == (2 * s) * (m * f) + s) by (nonlinear_arith);
    lemma_div_multiples_vanish_fancy(m * f, s, 2 * s);
}

/// With more than four fractional digits the digits beyond the fourth are
/// cut off after half of their unit was added.
pub proof fn lemma_rounded_fine(d: Decimal)
    requires
        d.scale > 4,
    ensures
        d.rounded() == (d.mantissa + pow10((d.scale - 4) as nat) / 2) / (pow10(
            (d.scale - 4) as nat,
        ) as int),
{
    let k = (d.scale - 4) as nat;
    let p = pow10(k) as int;
    let t = pow10(4) as int;
    let m = d.mantissa as int;
    lemma_pow10_adds(4, k);
    lemma_pow10_increases(0, k);
    lemma_pow10_increases(0, 4);
    lemma_pow10_even(k);
    assert(pow10(d.scale as nat) == t * p);
    let h = p / 2;
    assert(2 * m * t + t * p == (2 * t) * (m + h)) by (nonlinear_arith)
        requires
            p == 2 * h,
    ;
    assert(2 * (t * p) == (2 * t) * p) by (nonlinear_arith);
    lemma_div_denominator((2 * t) * (m + h), 2 * t, p);
    lemma_div_multiples_vanish_fancy(m + h, 0, 2 * t);
}

/// The rounded amount is the nearest number of ten-thousandths: it is off
/// the decimal by at most half of one, and by exactly half only upward.
pub proof fn lemma_rounded_is_nearest(d: Decimal)
    ensures
        -pow10(d.scale as nat) <= 2 * (d.mantissa * pow10(4) - d.rounded() * pow10(
            d.scale as nat,
        )) < pow10(d.scale as nat),
{
    let s = pow10(d.scale as nat) as int;
    let x = 2 * d.mantissa * pow10(4) + s;
    lemma_pow10_increases(0, d.scale as nat);
    let q = x / (2 * s);
    assert(x == (2 * s) * q + x % (2 * s) && 0 <= x % (2 * s) < 2 * s) by {
        vstd::arithmetic::div_mod::lemma_fundamental_div_mod(x, 2 * s);
        vstd::arithmetic::div_mod::lemma_mod_pos_bound(x, 2 * s);
    }
    let v = d.mantissa * pow10(4);
    assert(x == 2 * v + s) by (nonlinear_arith)
        requires
            x == 2 * d.mantissa * pow10(4) + s,
            v == d.mantissa * pow10(4),
    ;
    assert(2 * (v - q * s) == x - s - (2 * s) * q) by (nonlinear_arith)
        requires
            x == 2 * v + s,
    ;
    assert(q == d.rounded());
}

/// A common factor of both sides of a division cancels, also where one
/// less than a multiple is divided.
proof fn lemma_cancel(a: int, b: int, t: int)
    requires
        a >= 1,
        b >= 1,
        t >= 1,
    ensures
        (t * a) / (t * b) == a / b,
        (t * a - 1) / (t * b) == (a - 1) / b,
{
    assert(0 <= t * a - 1 && 0 <= t * a) by (nonlinear_arith)
        requires
            a >= 1,
            t >= 1,
    ;
    lemma_div_denominator(t * a, t, b);
    lemma_div_multiples_vanish_fancy(a, 0, t);
    lemma_div_denominator(t * a - 1, t, b);
    assert(t * a - 1 == t * (a - 1) + (t - 1)) by (nonlinear_arith);
    lemma_div_multiples_vanish_fancy(a - 1, t - 1, t);
}

/// The neighbours of a decimal in lowest terms: with at most four
/// fractional digits all four are the decimal itself, with more they are
/// those of the mantissa over the power of ten of the digits beyond the
/// fourth.
pub proof fn lemma_neighbours_reduced(d: Decimal)
    ensures
        d.scale <= 4 ==> {
            let whole = d.mantissa * pow10((4 - d.scale) as nat);
            &&& d.floor() == whole
            &&& d.ceiling() == whole
            &&& d.rounded_down() == whole
            &&& d.rounded() == whole
        },
        d.scale > 4 ==> {
            let m = d.mantissa as int;
            let p = pow10((d.scale - 4) as nat) as int;
            &&& d.floor() == m / p
            &&& d.ceiling() == (m + p - 1) / p
            &&& d.rounded_down() == (2 * m + p - 1) / (2 * p)
            &&& d.rounded() == (2 * m + p) / (2 * p)
        },
{
    let m = d.mantissa as int;
    let n = d.parts();
    let u = d.unit();
    lemma_pow10_increases(0, d.scale as nat);
    lemma_rounded_parts(d);
    if d.scale <= 4 {
        let f = pow10((4 - d.scale) as nat) as int;
        let whole = m * f;
        lemma_pow10_adds(d.scale as nat, (4 - d.scale) as nat);
        assert(n == u * whole) by (nonlinear_arith)
            requires
                n == m * (u * f),
                whole == m * f,
        ;
        lemma_div_multiples_vanish_fancy(whole, 0, u);
        lemma_div_multiples_vanish_fancy(whole, u - 1, u);
        assert(2 * n + u - 1 == (2 * u) * whole + (u - 1) && 2 * n + u == (2 * u) * whole + u)
            by (nonlinear_arith)
            requires
                n == u * whole,
        ;
        lemma_div_multiples_vanish_fancy(whole, u - 1, 2 * u);
        lemma_div_multiples_vanish_fancy(whole, u, 2 * u);
    } else {
        let k = (d.scale - 4) as nat;
        let p = pow10(k) as int;
        let t = pow10(4) as int;
        lemma_pow10_adds(4, k);
        lemma_pow10_increases(0, k);
        lemma_pow10_increases(0, 4);
        assert(u == t * p);
        assert(n == t * m) by (nonlinear_arith)
            requires
                n == m * t,
        ;
        if m == 0 {
            assert(n == 0) by (nonlinear_arith)
                requires
                    n == t * m,
                    m == 0,
            ;
            vstd::arithmetic::div_mod::lemma_basic_div(0, u);
            vstd::arithmetic::div_mod::lemma_basic_div(0, p);
        } else {
            lemma_cancel(m, p, t);
        }
        assert(n + u - 1 == t * (m + p) - 1) by (nonlinear_arith)
            requires
                n == t * m,
                u == t * p,
        ;
        lemma_cancel(m + p, p, t);
        assert(2 * n + u == t * (2 * m + p) && 2 * u == t * (2 * p)) by (nonlinear_arith)
            requires
                n == t * m,
                u == t * p,
        ;
        lemma_cancel(2 * m + p, 2 * p, t);
    }
}

/// The rounded decimal in terms of its parts and its unit.
pub proof fn lemma_rounded_parts(d: Decimal)
    ensures
        d.rounded() == (2 * d.parts() + d.unit()) / (2 * d.unit()),
        d.parts() >= 0,
        d.unit() >= 1,
{
    lemma_pow10_increases(0, d.scale as nat);
    let m = d.mantissa as int;
    let t = pow10(4) as int;
    assert(2 * m * t == 2 * (m * t)) by (nonlinear_arith);
    assert(m * t >= 0) by (nonlinear_arith)
        requires
            m >= 0,
            t >= 0,
    ;
}

/// How the neighbours of a decimal lie: none is negative, rounding down
/// never gives more than rounding up and at most one less, and gives less
/// exactly where the decimal lies halfway.
pub proof fn lemma_neighbours(d: Decimal)
    ensures
        0 <= d.floor() <= d.rounded_down() <= d.rounded() <= d.ceiling(),
        d.rounded() <= MAX_AMOUNT,
        d.rounded() - d.rounded_down() == if d.halfway() {
            1int
        } else {
            0int
        },
{
    lemma_rounded_parts(d);
    lemma_rounded_in_range(d);
    let n = d.parts();
    let u = d.unit();
    let fl = n / u;
    let r = n % u;
    vstd::arithmetic::div_mod::lemma_fundamental_div_mod(n, u);
    vstd::arithmetic::div_mod::lemma_mod_pos_bound(n, u);
    assert(n == u * fl + r);
    assert(fl >= 0) by (nonlinear_arith)
        requires
            n == u * fl + r,
            n >= 0,
            0 <= r < u,
    ;
    // the ceiling
    if r == 0 {
        lemma_div_multiples_vanish_fancy(fl, u - 1, u);
    } else {
        assert(n + u - 1 == u * (fl + 1) + (r - 1)) by (nonlinear_arith)
            requires
                n == u * fl + r,
        ;
        lemma_div_multiples_vanish_fancy(fl + 1, r - 1, u);
    }
    // rounding up and down
    if 2 * r < u {
        assert(2 * n + u == (2 * u) * fl + (2 * r + u) && 2 * n + u - 1 == (2 * u) * fl + (2 * r
            + u - 1) && 2 * n == (2 * u) * fl + 2 * r) by (nonlinear_arith)
            requires
                n == u * fl + r,
        ;
        lemma_div_multiples_vanish_fancy(fl, 2 * r + u, 2 * u);
        lemma_div_multiples_vanish_fancy(fl, 2 * r + u - 1, 2 * u);
        assert(2 * n == fl * (2 * u) + 2 * r) by (nonlinear_arith)
            requires
                n == u * fl + r,
        ;
        vstd::arithmetic::div_mod::lemma_fundamental_div_mod_converse(2 * n, 2 * u, fl, 2 * r);
    } else if 2 * r == u {
        assert(2 * n + u == (2 * u) * (fl + 1) + 0 && 2 * n + u - 1 == (2 * u) * fl + (2 * u - 1)
            && 2 * n == (2 * u) * fl + u) by (nonlinear_arith)
            requires
                n == u * fl + r,
                2 * r == u,
        ;
        lemma_div_multiples_vanish_fancy(fl + 1, 0, 2 * u);
        lemma_div_multiples_vanish_fancy(fl, 2 * u - 1, 2 * u);
        assert(2 * n == fl * (2 * u) + u) by (nonlinear_arith)
            requires
                n == u * fl + r,
                2 * r == u,
        ;
        vstd::arithmetic::div_mod::lemma_fundamental_div_mod_converse(2 * n, 2 * u, fl, u);
    } else {
        assert(2 * n + u == (2 * u) * (fl + 1) + (2 * r - u) && 2 * n + u - 1 == (2 * u) * (fl
            + 1) + (2 * r - u - 1) && 2 * n == (2 * u) * fl + 2 * r) by (nonlinear_arith)
            requires
                n == u * fl + r,
        ;
        lemma_div_multiples_vanish_fancy(fl + 1, 2 * r - u, 2 * u);
        lemma_div_multiples_vanish_fancy(fl + 1, 2 * r - u - 1, 2 * u);
        assert(2 * n == fl * (2 * u) + 2 * r) by (nonlinear_arith)
            requires
                n == u * fl + r,
        ;
        vstd::arithmetic::div_mod::lemma_fundamental_div_mod_converse(2 * n, 2 * u, fl, 2 * r);
    }
}

/// A balance plus a logged decimal, rounded: the balance plus the
/// decimal rounded up where the sum is not negative, rounded down where
/// it is.
pub proof fn lemma_plus_rounded(balance: int, d: Decimal)
    ensures
        round_away(balance * d.unit() + d.parts(), d.unit()) == if balance >= -d.floor() {
            balance + d.rounded()
        } else {
            balance + d.rounded_down()
        },
{
    lemma_rounded_parts(d);
    let n = d.parts();
    let u = d.unit();
    let fl = n / u;
    let r = n % u;
    vstd::arithmetic::div_mod::lemma_fundamental_div_mod(n, u);
    vstd::arithmetic::div_mod::lemma_mod_pos_bound(n, u);
    let sum = balance * u + n;
    assert((sum >= 0) == (balance + fl >= 0)) by (nonlinear_arith)
        requires
            sum == balance * u + n,
            n == u * fl + r,
            0 <= r < u,
    ;
    if sum >= 0 {
        assert(2 * sum + u == (2 * n + u) + balance * (2 * u)) by (nonlinear_arith)
            requires
                sum == balance * u + n,
        ;
        vstd::arithmetic::div_mod::lemma_hoist_over_denominator(2 * n + u, balance, (2 * u) as nat);
    } else {
        assert(u - 2 * sum == (u - 2 * n) + (-balance) * (2 * u)) by (nonlinear_arith)
            requires
                sum == balance * u + n,
        ;
        vstd::arithmetic::div_mod::lemma_hoist_over_denominator(
            u - 2 * n,
            -balance,
            (2 * u) as nat,
        );
        lemma_down_mirrored(d);
    }
}

/// A balance less a logged decimal, rounded: the balance less the decimal
/// rounded down where the difference is not negative, rounded up where it
/// is.
pub proof fn lemma_minus_rounded(balance: int, d: Decimal)
    ensures
        round_away(balance * d.unit() - d.parts(), d.unit()) == if balance >= d.ceiling() {
            balance - d.rounded_down()
        } else {
            balance - d.rounded()
        },
{
    lemma_rounded_parts(d);
    let n = d.parts();
    let u = d.unit();
    let ce = (n + u - 1) / u;
    let r = (n + u - 1) % u;
    vstd::arithmetic::div_mod::lemma_fundamental_div_mod(n + u - 1, u);
    vstd::arithmetic::div_mod::lemma_mod_pos_bound(n + u - 1, u);
    let rest = balance * u - n;
    assert((rest >= 0) == (balance >= ce)) by (nonlinear_arith)
        requires
            rest == balance * u - n,
            n + u - 1 == u * ce + r,
            0 <= r < u,
    ;
    if rest >= 0 {
        assert(2 * rest + u == (u - 2 * n) + balance * (2 * u)) by (nonlinear_arith)
            requires
                rest == balance * u - n,
        ;
        vstd::arithmetic::div_mod::lemma_hoist_over_denominator(
            u - 2 * n,
            balance,
            (2 * u) as nat,
        );
        lemma_down_mirrored(d);
    } else {
        assert(u - 2 * rest == (2 * n + u) + (-balance) * (2 * u)) by (nonlinear_arith)
            requires
                rest == balance * u - n,
        ;
        vstd::arithmetic::div_mod::lemma_hoist_over_denominator(
            2 * n + u,
            -balance,
            (2 * u) as nat,
        );
    }
}

/// Rounding down is rounding up seen from the other side of zero.
proof fn lemma_down_mirrored(d: Decimal)
    ensures
        (d.unit() - 2 * d.parts()) / (2 * d.unit()) == -d.rounded_down(),
{
    lemma_rounded_parts(d);
    let n = d.parts();
    let u = d.unit();
    let y = 2 * n + u - 1;
    let down = y / (2 * u);
    let r = y % (2 * u);
    vstd::arithmetic::div_mod::lemma_fundamental_div_mod(y, 2 * u);
    vstd::arithmetic::div_mod::lemma_mod_pos_bound(y, 2 * u);
    assert(u - 2 * n == (-down) * (2 * u) + (2 * u - 1 - r)) by (nonlinear_arith)
        requires
            2 * n + u - 1 == (2 * u) * down + r,
    ;
    vstd::arithmetic::div_mod::lemma_fundamental_div_mod_converse(
        u - 2 * n,
        2 * u,
        -down,
        2 * u - 1 - r,
    );
}

/// Where a balance ends up when a logged decimal is added to it or taken
/// off it: at the balance moved by the decimal rounded one way or the
/// other. A balance that is not negative grows by the decimal rounded up.
pub proof fn lemma_moved(balance: Funds, d: Decimal)
    requires
        balance.has_room(),
    ensures
        balance.plus_rounded(d)@ == balance@ + d.rounded() || balance.plus_rounded(d)@ == balance@
            + d.rounded_down(),
        balance.minus_rounded(d)@ == balance@ - d.rounded() || balance.minus_rounded(d)@
            == balance@ - d.rounded_down(),
        balance@ >= 0 ==> balance.plus_rounded(d)@ == balance@ + d.rounded(),
        0 <= d.rounded_down() <= d.rounded() <= MAX_AMOUNT,
        d.rounded() - d.rounded_down() <= 1,
        !d.halfway() ==> d.rounded_down() == d.rounded(),
{
    lemma_neighbours(d);
    lemma_plus_rounded(balance.0 as int, d);
    lemma_minus_rounded(balance.0 as int, d);
}

} // verus!
