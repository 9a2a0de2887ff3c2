//! Integer plan lengths measured in sixteenths of an inch ("ticks"), and plan points.

use vstd::prelude::*;

use crate::import::push_char;
use crate::joins::{decimal, push_decimal};

verus! {

/// Ticks per inch: every length is stored as an exact count of 1/16".
pub const TICKS_PER_INCH: i64 = 16;

/// Smallest tick count whose negation still fits in an `i64`.
pub open spec fn negatable(t: int) -> bool {
    i64::MIN < t <= i64::MAX
}

/// A signed length stored as an exact number of ticks (1/16 inch).
#[derive(Debug, Clone, Copy, PartialEq, Eq, PartialOrd, Ord, Hash, Default, Structural)]
pub struct Length {
    pub ticks: i64,
}

/// A point in the plan, in ticks on both axes.
#[derive(Debug, Clone, Copy, PartialEq, Eq, Hash, Default, Structural)]
pub struct Point2 {
    pub x: Length,
    pub y: Length,
}

impl Length {
    /// The zero length.
    pub fn zero() -> (r: Length)
        ensures
            r.ticks == 0,
    {
        Length { ticks: 0 }
    }

    pub fn from_ticks(ticks: i64) -> (r: Length)
        ensures
            r.ticks == ticks,
    {
        Length { ticks }
    }

    pub fn from_whole_inches(inches: i64) -> (r: Length)
        requires
            i64::MIN <= inches * 16 <= i64::MAX,
        ensures
            r.ticks == inches * 16,
    {
        Length { ticks: inches * TICKS_PER_INCH }
    }

    pub fn ticks(self) -> (r: i64)
        ensures
            r == self.ticks,
    {
        self.ticks
    }

    pub fn max(self, other: Length) -> (r: Length)
        ensures
            r.ticks == if self.ticks >= other.ticks { self.ticks } else { other.ticks },
    {
        if self.ticks >= other.ticks {
            self
        } else {
            other
        }
    }

    pub fn min(self, other: Length) -> (r: Length)
        ensures
            r.ticks == if self.ticks <= other.ticks { self.ticks } else { other.ticks },
    {
        if self.ticks <= other.ticks {
            self
        } else {
            other
        }
    }

    pub fn abs(self) -> (r: Length)
        requires
            negatable(self.ticks as int),
        ensures
            r.ticks == if self.ticks < 0 { -self.ticks } else { self.ticks as int },
    {
        if self.ticks < 0 {
            Length { ticks: -self.ticks }
        } else {
            self
        }
    }

    /// `self + other`.
    pub fn plus(self, other: Length) -> (r: Length)
        requires
            i64::MIN <= self.ticks + other.ticks <= i64::MAX,
        ensures
            r.ticks == self.ticks + other.ticks,
    {
        Length { ticks: self.ticks + other.ticks }
    }

    /// `self - other`.
    pub fn minus(self, other: Length) -> (r: Length)
        requires
            i64::MIN <= self.ticks - other.ticks <= i64::MAX,
        ensures
            r.ticks == self.ticks - other.ticks,
    {
        Length { ticks: self.ticks - other.ticks }
    }

    /// `self * factor`.
    pub fn times(self, factor: i64) -> (r: Length)
        requires
            i64::MIN <= self.ticks * factor <= i64::MAX,
        ensures
            r.ticks == self.ticks * factor,
    {
        Length { ticks: self.ticks * factor }
    }

    /// `self / divisor`, truncating toward zero like Rust integer division.
    pub fn divided_by(self, divisor: i64) -> (r: Length)
        requires
            divisor > 0,
        ensures
            r.ticks == truncating_div(self.ticks as int, divisor as int),
    {
        let t = self.ticks as i128;
        let d = divisor as i128;
        if t >= 0 {
            Length { ticks: self.ticks / divisor }
        } else {
            let q = (-t) / d;
            assert(q <= -t) by (nonlinear_arith)
                requires
                    q == (-t) / (d as int),
                    d >= 1,
                    -t >= 0,
            ;
            Length { ticks: (-q) as i64 }
        }
    }
}

/// Integer division rounding toward zero (Rust's `/` on signed integers).
pub open spec fn truncating_div(a: int, b: int) -> int
    recommends
        b != 0,
{
    if a >= 0 && b > 0 {
        a / b
    } else if a < 0 && b > 0 {
        -((-a) / b)
    } else if a >= 0 && b < 0 {
        -(a / (-b))
    } else {
        (-a) / (-b)
    }
}

impl Length {
    /// The length as feet and inches, the way a plan labels it.
    pub fn to_display_string(&self) -> (r: String)
        requires
            negatable(self.ticks as int),
        ensures
            r@ == length_text(self.ticks as int),
    {
        let mut text = String::new();
        let a: u64 = if self.ticks < 0 {
            push_char(&mut text, '-');
            (-self.ticks) as u64
        } else {
            self.ticks as u64
        };
        let total_inches = a / 16;
        let frac = a % 16;
        push_decimal(&mut text, total_inches / 12);
        push_char(&mut text, '\'');
        push_char(&mut text, ' ');
        push_decimal(&mut text, total_inches % 12);
        if frac != 0 {
            let g = greatest_common_divisor(frac, 16);
            proof {
                lemma_gcd_positive(frac as nat, 16);
            }
            push_char(&mut text, ' ');
            push_decimal(&mut text, frac / g);
            push_char(&mut text, '/');
            push_decimal(&mut text, 16 / g);
        }
        push_char(&mut text, '"');
        proof {
            let t = self.ticks as int;
            assert(a as int == if t < 0 { -t } else { t });
            assert(text@ =~= length_text(t));
        }
        text
    }
}

/// The greatest common divisor, by Euclid's algorithm.
pub open spec fn gcd(a: nat, b: nat) -> nat
    decreases b,
{
    if b == 0 {
        a
    } else {
        gcd(b, a % b)
    }
}

/// Feet and inches with a reduced fraction of an inch: `8' 1 1/2"`, and a
/// leading `-` for a negative length.
pub open spec fn length_text(t: int) -> Seq<char> {
    let a = if t < 0 {
        -t
    } else {
        t
    };
    let total_inches = a / 16;
    let frac = a % 16;
    let g = gcd(frac as nat, 16);
    let sign = if t < 0 {
        seq!['-']
    } else {
        Seq::empty()
    };
    let whole = sign + decimal((total_inches / 12) as nat) + seq!['\'', ' '] + decimal((total_inches % 12) as nat);
    if frac == 0 {
        whole + seq!['"']
    } else {
        whole + seq![' '] + decimal((frac / g as int) as nat) + seq!['/'] + decimal((16int / g as int) as nat) + seq!['"']
    }
}

proof fn lemma_gcd_positive(a: nat, b: nat)
    requires
        a > 0 || b > 0,
    ensures
        gcd(a, b) > 0,
    decreases b,
{
    if b > 0 {
        lemma_gcd_positive(b, a % b);
    }
}

fn greatest_common_divisor(a: u64, b: u64) -> (r: u64)
    ensures
        r == gcd(a as nat, b as nat),
{
    let ghost want = gcd(a as nat, b as nat);
    let mut a = a;
    let mut b = b;
    while b != 0
        invariant
            gcd(a as nat, b as nat) == want,
        decreases b,
    {
        let next = a % b;
        a = b;
        b = next;
    }
    a
}

impl Point2 {
    pub fn new(x: Length, y: Length) -> (r: Point2)
        ensures
            r.x == x,
            r.y == y,
    {
        Point2 { x, y }
    }
}

} // verus!
