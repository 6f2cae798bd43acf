use vstd::prelude::*;

verus! {

/// An instant in UTC, as nanoseconds since 1970-01-01T00:00:00Z.
pub type Timestamp = i128;

/// A UTC calendar day, as the number of days since 1970-01-01.
pub type Day = i128;

/// The number of nanoseconds in a second.
pub const NANOS_PER_SECOND: i128 = 1_000_000_000;

/// The number of nanoseconds in a day.
pub const NANOS_PER_DAY: i128 = 86_400_000_000_000;

/// The length of a day in nanoseconds.
pub open spec fn day_length() -> int {
    86_400_000_000_000
}

/// An instant that a UTC date-time can hold: its whole seconds fit in an `i64`.
pub open spec fn instant_ok(t: int) -> bool {
    i64::MIN * 1_000_000_000 <= t < (i64::MAX + 1) * 1_000_000_000
}

/// The calendar day on which instant `t` falls (division rounding down).
pub open spec fn spec_day_of(t: int) -> int {
    t / day_length()
}

/// The number of whole days from `from` to `to`, for `from <= to`.
pub open spec fn spec_whole_days(from: int, to: int) -> int {
    (to - from) / day_length()
}

/// Whether a UTC date-time can hold instant `t`.
pub fn instant_in_range(t: Timestamp) -> (b: bool)
    ensures
        b == instant_ok(t as int),
{
    i64::MIN as i128 * NANOS_PER_SECOND <= t && t < (i64::MAX as i128 + 1) * NANOS_PER_SECOND
}

/// The calendar day on which instant `t` falls.
pub fn day_of(t: Timestamp) -> (d: Day)
    ensures
        d == spec_day_of(t as int),
{
    if t >= 0 {
        t / NANOS_PER_DAY
    } else {
        let shifted: i128 = -(t + 1);
        let q: i128 = shifted / NANOS_PER_DAY;
        proof {
            let tt = t as int;
            let s = shifted as int;
            assert(s == -tt - 1);
            assert(tt / 86_400_000_000_000 == -(s / 86_400_000_000_000) - 1) by (nonlinear_arith)
                requires
                    s == -tt - 1,
                    tt < 0,
            {
                let qs = s / 86_400_000_000_000;
                let rs = s % 86_400_000_000_000;
                assert(s == 86_400_000_000_000 * qs + rs);
                assert(0 <= rs < 86_400_000_000_000);
                assert(tt == 86_400_000_000_000 * (-qs - 1) + (86_399_999_999_999 - rs));
            }
        }
        -q - 1
    }
}

/// The number of whole days elapsed from `from` to `to`, between instants that a UTC
/// date-time can hold; a span that runs backwards has no such number, so `from <= to` is
/// required.
pub fn whole_days_between(from: Timestamp, to: Timestamp) -> (n: i64)
    requires
        from <= to,
        instant_ok(from as int),
        instant_ok(to as int),
    ensures
        n == spec_whole_days(from as int, to as int),
        0 <= n < 0x1_0000_0000_0000,
{
    let span: i128 = to - from;
    let q: i128 = span / NANOS_PER_DAY;
    proof {
        assert(span <= 0x1_0000_0000_0000_0000 * 1_000_000_000);
        assert(q * 86_400_000_000_000 <= span) by (nonlinear_arith)
            requires
                q == span / 86_400_000_000_000,
                span >= 0,
        ;
        assert(q >= 0) by (nonlinear_arith)
            requires
                q == span / 86_400_000_000_000,
                span >= 0,
        ;
        assert(q < 0x1_0000_0000_0000) by (nonlinear_arith)
            requires
                q * 86_400_000_000_000 <= span,
                span <= 0x1_0000_0000_0000_0000 * 1_000_000_000,
        ;
    }
    q as i64
}

/// The instant `n` whole days after `t`.
pub fn add_days(t: Timestamp, n: i64) -> (r: Timestamp)
    requires
        0 <= n,
        t + n * day_length() <= i128::MAX,
    ensures
        r == t + n * day_length(),
{
    proof {
        assert(0 <= n * 86_400_000_000_000 <= 0x7fff_ffff_ffff_ffff * 86_400_000_000_000)
            by (nonlinear_arith)
            requires
                0 <= n <= 0x7fff_ffff_ffff_ffff,
        ;
    }
    t + (n as i128) * NANOS_PER_DAY
}

} // verus!
