use vstd::prelude::*;
use core::cmp::Ordering;
use vstd::std_specs::cmp::PartialOrdSpecImpl;
use vstd::std_specs::ops::AddSpecImpl;
use vstd::std_specs::ops::SubSpecImpl;
use vstd::string::StringExecFns;

verus! {

/// An amount of money in United States dollars, held as a whole number of pennies.
#[derive(Clone, Copy, Debug, PartialEq, Eq, Ord, Structural)]
pub struct USD {
    pub pennies: i64,
}

/// True when `v` can be held in an `i64`.
pub open spec fn fits_i64(v: int) -> bool {
    i64::MIN <= v <= i64::MAX
}

/// The digit character of `d` (0 to 9).
pub open spec fn digit_char(d: int) -> char {
    (d + 48) as char
}

/// The decimal digits of `n`, without leading zeros ("0" for zero).
pub open spec fn decimal(n: nat) -> Seq<char>
    decreases n,
{
    if n < 10 {
        seq![digit_char(n as int)]
    } else {
        decimal(n / 10).push(digit_char((n % 10) as int))
    }
}

/// The decimal text of `v`, with a leading '-' when negative.
pub open spec fn signed_decimal(v: int) -> Seq<char> {
    if v < 0 {
        seq!['-'] + decimal((-v) as nat)
    } else {
        decimal(v as nat)
    }
}

/// How an amount is shown: "$" for a positive amount and "-$" otherwise, the whole dollars
/// without sign, a '.', then the remaining cents with the amount's sign and no padding
/// (so 150 pennies show as "$1.50", 105 as "$1.5", -150 as "-$1.-50" and 0 as "-$0.0").
pub open spec fn usd_text(pennies: int) -> Seq<char> {
    let dollars = if pennies >= 0 { pennies / 100 } else { -((-pennies) / 100) };
    let cents = if pennies >= 0 { pennies % 100 } else { -((-pennies) % 100) };
    (if pennies > 0 { "$"@ } else { "-$"@ }) + decimal(
        (if dollars >= 0 { dollars } else { -dollars }) as nat,
    ) + "."@ + signed_decimal(cents)
}

fn digit_text(d: u64) -> (r: &'static str)
    requires
        d < 10,
    ensures
        r@ == seq![digit_char(d as int)],
{
    proof {
        reveal_strlit("0");
        reveal_strlit("1");
        reveal_strlit("2");
        reveal_strlit("3");
        reveal_strlit("4");
        reveal_strlit("5");
        reveal_strlit("6");
        reveal_strlit("7");
        reveal_strlit("8");
        reveal_strlit("9");
    }
    match d {
        0 => "0",
        1 => "1",
        2 => "2",
        3 => "3",
        4 => "4",
        5 => "5",
        6 => "6",
        7 => "7",
        8 => "8",
        _ => "9",
    }
}

/// Appends the decimal digits of `n` to `out`.
fn push_decimal(out: &mut String, n: u64)
    ensures
        final(out)@ == old(out)@ + decimal(n as nat),
    decreases n,
{
    if n < 10 {
        out.append(digit_text(n));
    } else {
        push_decimal(out, n / 10);
        out.append(digit_text(n % 10));
        proof {
            assert(decimal(n as nat) == decimal((n / 10) as nat).push(digit_char((n % 10) as int)));
        }
    }
}

impl USD {
    /// Zero dollars.
    pub fn zero() -> (r: USD)
        ensures
            r.pennies == 0,
    {
        USD { pennies: 0 }
    }

    /// The amount of `pennies` pennies.
    pub fn from_pennies(pennies: i64) -> (r: USD)
        ensures
            r.pennies == pennies,
    {
        USD { pennies: pennies }
    }

    /// The number of pennies in this amount.
    pub fn to_pennies(&self) -> (r: i64)
        ensures
            r == self.pennies,
    {
        self.pennies
    }

    /// The negated amount; the negation of the smallest `i64` overflows, so it is excluded.
    pub fn inverse(&self) -> (r: USD)
        requires
            self.pennies != i64::MIN,
        ensures
            r.pennies == -self.pennies,
    {
        USD { pennies: -self.pennies }
    }

    /// The amount as text, in the form `usd_text` describes.
    pub fn to_debug_string(&self) -> (r: String)
        ensures
            r@ == usd_text(self.pennies as int),
    {
        let dollars = self.pennies / 100;
        let cents = self.pennies % 100;
        let mut out = if self.pennies > 0 {
            String::from_str("$")
        } else {
            String::from_str("-$")
        };
        let magnitude: u64 = if dollars >= 0 {
            dollars as u64
        } else {
            (-dollars) as u64
        };
        push_decimal(&mut out, magnitude);
        out.append(".");
        if cents < 0 {
            out.append("-");
            push_decimal(&mut out, (-cents) as u64);
        } else {
            push_decimal(&mut out, cents as u64);
        }
        proof {
            reveal_strlit("-");
            assert(out@ =~= usd_text(self.pennies as int));
        }
        out
    }

    /// Adds `rhs` to this amount in place.
    pub fn add_assign(&mut self, rhs: USD)
        requires
            fits_i64(old(self).pennies + rhs.pennies),
        ensures
            final(self).pennies == old(self).pennies + rhs.pennies,
    {
        self.pennies = self.pennies + rhs.pennies;
    }

    /// Subtracts `rhs` from this amount in place.
    pub fn sub_assign(&mut self, rhs: USD)
        requires
            fits_i64(old(self).pennies - rhs.pennies),
        ensures
            final(self).pennies == old(self).pennies - rhs.pennies,
    {
        self.pennies = self.pennies - rhs.pennies;
    }
}

impl core::ops::Add for USD {
    type Output = USD;

    fn add(self, rhs: USD) -> (r: USD) {
        USD { pennies: self.pennies + rhs.pennies }
    }
}

impl AddSpecImpl for USD {
    open spec fn obeys_add_spec() -> bool {
        true
    }

    open spec fn add_req(self, rhs: USD) -> bool {
        fits_i64(self.pennies + rhs.pennies)
    }

    open spec fn add_spec(self, rhs: USD) -> USD {
        USD { pennies: (self.pennies + rhs.pennies) as i64 }
    }
}

impl core::ops::Sub for USD {
    type Output = USD;

    fn sub(self, rhs: USD) -> (r: USD) {
        USD { pennies: self.pennies - rhs.pennies }
    }
}

impl SubSpecImpl for USD {
    open spec fn obeys_sub_spec() -> bool {
        true
    }

    open spec fn sub_req(self, rhs: USD) -> bool {
        fits_i64(self.pennies - rhs.pennies)
    }

    open spec fn sub_spec(self, rhs: USD) -> USD {
        USD { pennies: (self.pennies - rhs.pennies) as i64 }
    }
}

/// The order of two amounts: the order of their numbers of pennies.
pub open spec fn usd_order(a: USD, b: USD) -> Ordering {
    if a.pennies < b.pennies {
        Ordering::Less
    } else if a.pennies == b.pennies {
        Ordering::Equal
    } else {
        Ordering::Greater
    }
}

impl PartialOrd for USD {
    fn partial_cmp(&self, other: &USD) -> (r: Option<Ordering>) {
        if self.pennies < other.pennies {
            Some(Ordering::Less)
        } else if self.pennies == other.pennies {
            Some(Ordering::Equal)
        } else {
            Some(Ordering::Greater)
        }
    }
}

impl PartialOrdSpecImpl for USD {
    open spec fn obeys_partial_cmp_spec() -> bool {
        true
    }

    open spec fn partial_cmp_spec(&self, other: &USD) -> Option<Ordering> {
        Some(usd_order(*self, *other))
    }
}

} // verus!
