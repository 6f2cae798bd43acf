use vstd::prelude::*;
use crate::ledger::general_ledger::{
    GeneralLedger, Posting, DoubleEntry, balances, trial_balance, apply_postings, postings_fit,
    entries_postings, EntryKey, total_where, postings_effect,
};
use crate::time::{
    Timestamp, add_days, spec_whole_days, whole_days_between, instant_ok, instant_in_range,
    day_length,
};
use crate::usd::{USD, fits_i64};

pub mod assessment;
pub mod payment;
pub mod void_assessment;

verus! {

/// The quotient of `a` by `n > 0`, rounded toward zero (as Rust's `/` does).
pub open spec fn trunc_div(a: int, n: int) -> int {
    if a >= 0 {
        a / n
    } else {
        -((-a) / n)
    }
}

/// The remainder of `a` by `n > 0`, with the sign of `a` (as Rust's `%` does).
pub open spec fn trunc_rem(a: int, n: int) -> int {
    if a >= 0 {
        a % n
    } else {
        -((-a) % n)
    }
}

/// The number of days of a service period from `start` to `end`, both days counted.
pub open spec fn service_days(start: int, end: int) -> int {
    spec_whole_days(start, end) + 1
}

/// Day `i`'s share of `amount` spread over `n` days: the quotient, plus one penny on
/// each of the first `remainder` days (none when the remainder is not positive).
pub open spec fn base_share(amount: int, n: int, i: int) -> int {
    trunc_div(amount, n) + if i < trunc_rem(amount, n) {
        1int
    } else {
        0int
    }
}

/// The credit left of an earlier payment `paid` before day `i`. While positive, it is
/// spent on each day in turn: a day it covers leaves its share less; a day it does not
/// cover uses it up.
pub open spec fn credit_before(amount: int, n: int, paid: int, i: int) -> int
    decreases i,
{
    if i <= 0 {
        paid
    } else {
        let c = credit_before(amount, n, paid, i - 1);
        let b = base_share(amount, n, i - 1);
        if c > 0 {
            if b <= c {
                c - b
            } else {
                0
            }
        } else {
            c
        }
    }
}

/// What is payable on day `i`: nothing on a day the credit covers; on the day the
/// credit runs out, the remaining credit; afterwards (or with no credit), the day's share.
pub open spec fn day_share(amount: int, n: int, paid: int, i: int) -> int {
    let c = credit_before(amount, n, paid, i);
    let b = base_share(amount, n, i);
    if c > 0 {
        if b <= c {
            0
        } else {
            c
        }
    } else {
        b
    }
}

/// The remaining credit stays within `i64` over all `n` days.
pub open spec fn schedule_fits(amount: int, n: int, paid: int) -> bool {
    forall|i: int| 0 <= i <= n ==> #[trigger] credit_before(amount, n, paid, i) <= i64::MAX
}

/// The daily schedule as (instant, pennies) pairs.
pub open spec fn schedule_view(s: Seq<(Timestamp, USD)>) -> Seq<(int, int)> {
    s.map_values(|e: (Timestamp, USD)| (e.0 as int, e.1.pennies as int))
}

/// The sum of the amounts of a schedule.
pub open spec fn amount_sum(s: Seq<(int, int)>) -> int
    decreases s.len(),
{
    if s.len() == 0 {
        0
    } else {
        amount_sum(s.drop_last()) + s.last().1
    }
}

/// Every running sum of the amounts of `s` stays within `i64`.
pub open spec fn running_sums_fit(s: Seq<(int, int)>) -> bool {
    forall|j: int| 0 <= j <= s.len() ==> fits_i64(#[trigger] amount_sum(s.take(j)))
}

/// The amount payable on each day of the service period from `start` to `end` for a
/// charge of `amount` against which `paid` was paid before: day `i` falls `i` whole days
/// after `start`, and its amount is `day_share`.
pub open spec fn payable_schedule(start: int, end: int, amount: int, paid: int) -> Seq<(int, int)> {
    Seq::new(
        service_days(start, end) as nat,
        |i: int| (start + i * day_length(), day_share(amount, service_days(start, end), paid, i)),
    )
}

/// The service period is there, between instants that a UTC date-time can hold, and does
/// not end before it starts.
pub open spec fn period_ok(start: Option<Timestamp>, end: Option<Timestamp>) -> bool {
    &&& start is Some
    &&& end is Some
    &&& start.unwrap() <= end.unwrap()
    &&& instant_ok(start.unwrap() as int)
    &&& instant_ok(end.unwrap() as int)
}

/// The schedule of a charge can be computed: its period is there and the credit fits.
pub open spec fn schedule_ready(
    start: Option<Timestamp>,
    end: Option<Timestamp>,
    amount: int,
    paid: int,
) -> bool {
    &&& period_ok(start, end)
    &&& schedule_fits(amount, service_days(start.unwrap() as int, end.unwrap() as int), paid)
}

/// A transaction against a charge (the payee): an assessment of the charge, its void,
/// or a payment of it. What it records depends on how the charge's account is booked.
pub trait Transaction: Sized {
    /// The amount of the charge.
    spec fn spec_payee_amount(&self) -> i64;

    /// What was paid against the charge before.
    spec fn spec_previously_paid_amount(&self) -> i64;

    /// The first day of the charge's service period.
    spec fn spec_payee_service_start_date(&self) -> Option<Timestamp>;

    /// The last day of the charge's service period.
    spec fn spec_payee_service_end_date(&self) -> Option<Timestamp>;

    /// The double entries that processing the transaction records, in order.
    spec fn spec_postings(&self) -> Seq<Posting>;

    /// Processing the transaction does not fail.
    spec fn spec_ready(&self) -> bool;

    fn payee_service_start_date(&self) -> (r: Option<Timestamp>)
        ensures
            r == self.spec_payee_service_start_date(),
    ;

    fn payee_service_end_date(&self) -> (r: Option<Timestamp>)
        ensures
            r == self.spec_payee_service_end_date(),
    ;

    fn payee_amount(&self) -> (r: USD)
        ensures
            r.pennies == self.spec_payee_amount(),
    ;

    fn previously_paid_amount(&self) -> (r: USD)
        ensures
            r.pennies == self.spec_previously_paid_amount(),
    ;

    /// The number of days of the service period, both ends counted.
    fn days_in_payee_service_period(&self) -> (r: i64)
        requires
            period_ok(self.spec_payee_service_start_date(), self.spec_payee_service_end_date()),
        ensures
            r == service_days(
                self.spec_payee_service_start_date().unwrap() as int,
                self.spec_payee_service_end_date().unwrap() as int,
            ),
            1 <= r <= 0x1_0000_0000_0000,
    {
        let start = self.payee_service_start_date().unwrap();
        let end = self.payee_service_end_date().unwrap();
        whole_days_between(start, end) + 1
    }

    /// The amount payable on each day of the service period, with its instant.
    fn payable_amounts_per_day(&self) -> (r: Vec<(Timestamp, USD)>)
        requires
            schedule_ready(
                self.spec_payee_service_start_date(),
                self.spec_payee_service_end_date(),
                self.spec_payee_amount() as int,
                self.spec_previously_paid_amount() as int,
            ),
        ensures
            schedule_view(r@) == payable_schedule(
                self.spec_payee_service_start_date().unwrap() as int,
                self.spec_payee_service_end_date().unwrap() as int,
                self.spec_payee_amount() as int,
                self.spec_previously_paid_amount() as int,
            ),
    {
        let n = self.days_in_payee_service_period();
        let amount = self.payee_amount().pennies;
        let spd = amount / n;
        let mut leftover = amount % n;
        let mut already_paid_amount = self.previously_paid_amount().to_pennies();
        let start = self.payee_service_start_date().unwrap();
        let ghost end = self.spec_payee_service_end_date().unwrap() as int;
        let ghost paid = self.spec_previously_paid_amount() as int;
        let ghost rem = trunc_rem(amount as int, n as int);
        let ghost sched = payable_schedule(start as int, end, amount as int, paid);
        proof {
            lemma_share_bounds(amount as int, n as int);
        }
        let mut amounts: Vec<(Timestamp, USD)> = Vec::new();
        let mut day: i64 = 0;
        while day < n
            invariant
                schedule_fits(amount as int, n as int, paid),
                n == service_days(start as int, end),
                start <= end,
                end <= i128::MAX,
                1 <= n <= 0x1_0000_0000_0000,
                sched == payable_schedule(start as int, end, amount as int, paid),
                spd == trunc_div(amount as int, n as int),
                rem == trunc_rem(amount as int, n as int),
                rem > 0 ==> spd < i64::MAX,
                0 <= day <= n,
                day < rem ==> leftover == rem - day,
                day >= rem ==> leftover <= 0,
                already_paid_amount == credit_before(amount as int, n as int, paid, day as int),
                schedule_view(amounts@) == sched.take(day as int),
            decreases n - day,
        {
            let ghost credit = already_paid_amount as int;
            let mut day_amount = spd;
            if leftover > 0 {
                day_amount = day_amount + 1;
                leftover = leftover - 1;
            }
            proof {
                assert(credit_before(amount as int, n as int, paid, day + 1) <= i64::MAX);
            }
            if already_paid_amount > 0 {
                if day_amount <= already_paid_amount {
                    already_paid_amount = already_paid_amount - day_amount;
                    day_amount = 0;
                } else {
                    day_amount = already_paid_amount;
                    already_paid_amount = 0;
                }
            }
            proof {
                lemma_day_within_period(start as int, end, day as int);
            }
            let date = add_days(start, day);
            proof {
                assert(day_amount == day_share(amount as int, n as int, paid, day as int));
                assert(sched[day as int] == (date as int, day_amount as int));
            }
            let ghost before = amounts@;
            let entry = (date, USD::from_pennies(day_amount));
            amounts.push(entry);
            proof {
                assert(amounts@ == before.push(entry));
                assert(schedule_view(amounts@) =~= schedule_view(before).push(
                    (date as int, day_amount as int),
                ));
                assert(sched.take(day + 1) =~= sched.take(day as int).push(sched[day as int]));
                assert(schedule_view(amounts@) =~= sched.take(day + 1));
            }
            day = day + 1;
        }
        proof {
            assert(sched.take(n as int) =~= sched);
        }
        amounts
    }

    /// Whether processing the transaction can proceed.
    fn is_ready(&self) -> (r: bool)
        ensures
            r == self.spec_ready(),
    ;

    /// The double entries that processing the transaction records, in order.
    fn entries(&self) -> (r: Vec<DoubleEntry>)
        requires
            self.spec_ready(),
        ensures
            entries_postings(r@) == self.spec_postings(),
    ;

    /// Records this transaction in the general ledger, as its account's booking says.
    fn process(&self, gl: &mut GeneralLedger)
        requires
            self.spec_ready(),
            postings_fit(balances(old(gl)@), self.spec_postings()),
        ensures
            balances(final(gl)@) == apply_postings(balances(old(gl)@), self.spec_postings()),
            trial_balance(final(gl)@) == trial_balance(old(gl)@),
            forall|f: spec_fn(EntryKey) -> bool|
                #[trigger] total_where(final(gl)@, f) == total_where(old(gl)@, f)
                    + postings_effect(self.spec_postings(), f),
    ;
}

/// Whether the schedule of a charge can be computed: the period is there, does not end
/// before it starts, and the remaining credit stays within `i64` on every day.
pub fn schedule_ready_check(
    start: Option<Timestamp>,
    end: Option<Timestamp>,
    amount: i64,
    paid: i64,
) -> (r: bool)
    ensures
        r == schedule_ready(start, end, amount as int, paid as int),
{
    if start.is_none() || end.is_none() {
        return false;
    }
    let s = start.unwrap();
    let e = end.unwrap();
    if s > e || !instant_in_range(s) || !instant_in_range(e) {
        return false;
    }
    let n: i64 = whole_days_between(s, e) + 1;
    let spd: i64 = amount / n;
    let rem: i64 = amount % n;
    let ghost q = trunc_div(amount as int, n as int);
    let ghost r = trunc_rem(amount as int, n as int);
    proof {
        lemma_div_facts(amount as int, n as int);
    }
    let mut credit: i128 = paid as i128;
    let mut i: i64 = 0;
    while i < n
        invariant
            start == Some(s),
            end == Some(e),
            s <= e,
            n == service_days(s as int, e as int),
            1 <= n <= 0x1_0000_0000_0000,
            spd == q,
            rem == r,
            q == trunc_div(amount as int, n as int),
            r == trunc_rem(amount as int, n as int),
            i64::MIN <= q <= i64::MAX,
            0 <= i <= n,
            credit == credit_before(amount as int, n as int, paid as int, i as int),
            forall|j: int|
                0 <= j <= i ==> #[trigger] credit_before(amount as int, n as int, paid as int, j)
                    <= i64::MAX,
        decreases n - i,
    {
        let b: i128 = if i < rem {
            spd as i128 + 1
        } else {
            spd as i128
        };
        if credit > 0 {
            if b <= credit {
                credit = credit - b;
            } else {
                credit = 0;
            }
        }
        if credit > i64::MAX as i128 {
            proof {
                assert(credit_before(amount as int, n as int, paid as int, i + 1) > i64::MAX);
                assert(start == Some(s) && end == Some(e));
                assert(!schedule_fits(amount as int, n as int, paid as int));
            }
            return false;
        }
        i = i + 1;
    }
    true
}

/// Bounds on the quotient and remainder of spreading `a` over `n` days.
pub proof fn lemma_share_bounds(a: int, n: int)
    requires
        1 <= n,
        fits_i64(a),
    ensures
        fits_i64(trunc_div(a, n)),
        trunc_rem(a, n) > 0 ==> trunc_div(a, n) < i64::MAX,
        -n < trunc_rem(a, n) < n,
        a >= 0 ==> 0 <= trunc_rem(a, n),
        a < 0 ==> trunc_rem(a, n) <= 0,
        a == n * trunc_div(a, n) + trunc_rem(a, n),
{
    lemma_div_facts(a, n);
}

/// The quotient and remainder of `a` by `n`: `a == n * q + r`, with `r` of the sign of `a`
/// and smaller than `n` in size; `q` is between zero and `a`, on the side of `a`, and at most
/// half of `a` when a positive remainder is left.
pub proof fn lemma_div_facts(a: int, n: int)
    requires
        1 <= n,
    ensures
        -n < trunc_rem(a, n) < n,
        a >= 0 ==> 0 <= trunc_rem(a, n) && 0 <= trunc_div(a, n) <= a,
        a < 0 ==> trunc_rem(a, n) <= 0 && a <= trunc_div(a, n) <= 0,
        trunc_rem(a, n) > 0 ==> 2 * trunc_div(a, n) <= a,
        a == n * trunc_div(a, n) + trunc_rem(a, n),
{
    if a >= 0 {
        let q = a / n;
        let r = a % n;
        assert(a == n * q + r && 0 <= r < n) by (nonlinear_arith)
            requires
                q == a / n,
                r == a % n,
                n >= 1,
        ;
        assert(0 <= q <= a) by (nonlinear_arith)
            requires
                a == n * q + r,
                0 <= r < n,
                n >= 1,
                a >= 0,
        ;
        if r > 0 {
            assert(2 * q <= a) by (nonlinear_arith)
                requires
                    a == n * q + r,
                    0 < r < n,
                    q >= 0,
            ;
        }
    } else {
        let b = -a;
        let q = b / n;
        let r = b % n;
        assert(b == n * q + r && 0 <= r < n) by (nonlinear_arith)
            requires
                q == b / n,
                r == b % n,
                n >= 1,
        ;
        assert(0 <= q <= b) by (nonlinear_arith)
            requires
                b == n * q + r,
                0 <= r < n,
                n >= 1,
                b >= 0,
        ;
        assert(a == n * (-q) + (-r)) by (nonlinear_arith)
            requires
                b == n * q + r,
                a == -b,
        ;
    }
}

/// Day `d` of a period of `(end - start) / day_length() + 1` days falls no later than `end`.
pub proof fn lemma_day_within_period(start: int, end: int, d: int)
    requires
        start <= end,
        0 <= d < service_days(start, end),
    ensures
        start + d * day_length() <= end,
        0 <= d * day_length(),
{
    let x = end - start;
    assert(d * 86_400_000_000_000 <= x && 0 <= d * 86_400_000_000_000) by (nonlinear_arith)
        requires
            0 <= d <= x / 86_400_000_000_000,
            x >= 0,
    ;
}


/// The sum of the first `j` base shares.
pub open spec fn base_sum(amount: int, n: int, j: int) -> int
    decreases j,
{
    if j <= 0 {
        0
    } else {
        base_sum(amount, n, j - 1) + base_share(amount, n, j - 1)
    }
}

/// For a non-negative amount, the first `j` base shares add up to `j` quotients plus one
/// penny for each of them that falls within the remainder.
pub proof fn lemma_base_sum(amount: int, n: int, j: int)
    requires
        amount >= 0,
        n >= 1,
        0 <= j,
    ensures
        base_sum(amount, n, j) == j * trunc_div(amount, n) + if j < trunc_rem(amount, n) {
            j
        } else {
            trunc_rem(amount, n)
        },
    decreases j,
{
    lemma_div_facts(amount, n);
    assert(0 * trunc_div(amount, n) == 0);
    if j > 0 {
        lemma_base_sum(amount, n, j - 1);
        let q = trunc_div(amount, n);
        let r = trunc_rem(amount, n);
        assert((j - 1) * q + q == j * q) by (nonlinear_arith);
        assert(base_sum(amount, n, j) == base_sum(amount, n, j - 1) + base_share(amount, n, j - 1));
        if j < r {
            assert(base_share(amount, n, j - 1) == q + 1);
        } else if j - 1 < r {
            assert(base_share(amount, n, j - 1) == q + 1);
        } else {
            assert(base_share(amount, n, j - 1) == q);
        }
    }
}

/// Without credit, the remaining credit never changes.
proof fn lemma_no_credit(amount: int, n: int, paid: int, i: int)
    requires
        paid <= 0,
    ensures
        credit_before(amount, n, paid, i) == paid,
    decreases i,
{
    if i > 0 {
        lemma_no_credit(amount, n, paid, i - 1);
    }
}

/// The amounts of the first `j` days of a schedule add up as the day shares do.
pub proof fn lemma_schedule_prefix(start: int, end: int, amount: int, paid: int, j: int)
    requires
        start <= end,
        0 <= j <= service_days(start, end),
    ensures
        amount_sum(payable_schedule(start, end, amount, paid).take(j)) == share_sum(
            amount,
            service_days(start, end),
            paid,
            j,
        ),
    decreases j,
{
    let s = payable_schedule(start, end, amount, paid);
    if j > 0 {
        lemma_schedule_prefix(start, end, amount, paid, j - 1);
        assert(s.take(j).drop_last() =~= s.take(j - 1));
    } else {
        assert(s.take(0) =~= Seq::<(int, int)>::empty());
    }
}

/// The sum of the first `j` day shares.
pub open spec fn share_sum(amount: int, n: int, paid: int, j: int) -> int
    decreases j,
{
    if j <= 0 {
        0
    } else {
        share_sum(amount, n, paid, j - 1) + day_share(amount, n, paid, j - 1)
    }
}

/// Without earlier payments (`paid <= 0`), a non-negative charge is spread exactly over its
/// service period: day `i` gets the quotient `amount / n`, plus one penny on the first
/// `amount % n` days, and the days add up to the charge.
pub proof fn lemma_schedule_spreads_amount(start: int, end: int, amount: int, paid: int)
    requires
        start <= end,
        amount >= 0,
        paid <= 0,
    ensures
        amount_sum(payable_schedule(start, end, amount, paid)) == amount,
        forall|i: int|
            0 <= i < service_days(start, end) ==> #[trigger] payable_schedule(
                start,
                end,
                amount,
                paid,
            )[i].1 == amount / service_days(start, end) + if i < amount % service_days(
                start,
                end,
            ) {
                1int
            } else {
                0int
            },
{
    let n = service_days(start, end);
    let s = payable_schedule(start, end, amount, paid);
    assert forall|i: int| 0 <= i < n implies #[trigger] s[i].1 == amount / n + if i < amount
        % n {
        1int
    } else {
        0int
    } by {
        lemma_no_credit(amount, n, paid, i);
    }
    assert forall|j: int| 0 <= j <= n implies #[trigger] share_sum(amount, n, paid, j) == base_sum(
        amount,
        n,
        j,
    ) by {
        lemma_share_sum_no_credit(amount, n, paid, j);
    }
    lemma_schedule_prefix(start, end, amount, paid, n);
    assert(s.take(n) =~= s);
    lemma_base_sum(amount, n, n);
    lemma_div_facts(amount, n);
}

proof fn lemma_share_sum_no_credit(amount: int, n: int, paid: int, j: int)
    requires
        paid <= 0,
    ensures
        share_sum(amount, n, paid, j) == base_sum(amount, n, j),
    decreases j,
{
    if j > 0 {
        lemma_share_sum_no_credit(amount, n, paid, j - 1);
        lemma_no_credit(amount, n, paid, j - 1);
    }
}

/// While a non-negative charge is covered, the credit left before day `i` is what was
/// paid less the base shares of the earlier days.
proof fn lemma_covered_credit(amount: int, n: int, paid: int, i: int)
    requires
        amount >= 0,
        n >= 1,
        amount <= paid,
        0 <= i <= n,
    ensures
        credit_before(amount, n, paid, i) == paid - base_sum(amount, n, i),
    decreases i,
{
    if i > 0 {
        lemma_covered_credit(amount, n, paid, i - 1);
        lemma_base_sum(amount, n, i);
        lemma_base_sum(amount, n, n);
        lemma_div_facts(amount, n);
        let q = trunc_div(amount, n);
        let r = trunc_rem(amount, n);
        assert(amount == n * q + r);
        assert(q >= 0) by (nonlinear_arith)
            requires
                amount >= 0,
                n >= 1,
                amount == n * q + r,
                0 <= r < n,
        ;
        assert(base_sum(amount, n, i) <= base_sum(amount, n, n)) by {
            assert(i * q <= n * q) by (nonlinear_arith)
                requires
                    i <= n,
                    q >= 0,
            ;
        }
    }
}

/// A non-negative charge that earlier payments already cover in full leaves nothing
/// payable on any day.
pub proof fn lemma_schedule_fully_credited(start: int, end: int, amount: int, paid: int)
    requires
        start <= end,
        0 <= amount <= paid,
    ensures
        forall|i: int|
            0 <= i < service_days(start, end) ==> #[trigger] payable_schedule(
                start,
                end,
                amount,
                paid,
            )[i].1 == 0,
        amount_sum(payable_schedule(start, end, amount, paid)) == 0,
{
    let n = service_days(start, end);
    let s = payable_schedule(start, end, amount, paid);
    lemma_div_facts(amount, n);
    let q = trunc_div(amount, n);
    let r = trunc_rem(amount, n);
    assert(q >= 0) by (nonlinear_arith)
        requires
            amount >= 0,
            n >= 1,
            amount == n * q + r,
            0 <= r < n,
    ;
    assert forall|i: int| 0 <= i < n implies #[trigger] s[i].1 == 0 by {
        lemma_covered_credit(amount, n, paid, i);
        lemma_base_sum(amount, n, i + 1);
        lemma_base_sum(amount, n, n);
        assert((i + 1) * q <= n * q) by (nonlinear_arith)
            requires
                i + 1 <= n,
                q >= 0,
        ;
    }
    assert forall|j: int| 0 <= j <= n implies #[trigger] share_sum(amount, n, paid, j) == 0 by {
        lemma_share_sum_zero(start, end, amount, paid, j);
    }
    lemma_schedule_prefix(start, end, amount, paid, n);
    assert(s.take(n) =~= s);
}

proof fn lemma_share_sum_zero(start: int, end: int, amount: int, paid: int, j: int)
    requires
        start <= end,
        0 <= j <= service_days(start, end),
        forall|i: int|
            0 <= i < service_days(start, end) ==> #[trigger] payable_schedule(
                start,
                end,
                amount,
                paid,
            )[i].1 == 0,
    ensures
        share_sum(amount, service_days(start, end), paid, j) == 0,
    decreases j,
{
    if j > 0 {
        lemma_share_sum_zero(start, end, amount, paid, j - 1);
        assert(payable_schedule(start, end, amount, paid)[j - 1].1 == 0);
    }
}

/// For a non-negative charge, no day is payable below zero or above its base share,
/// whatever was paid before.
pub proof fn lemma_schedule_bounded(start: int, end: int, amount: int, paid: int)
    requires
        start <= end,
        amount >= 0,
    ensures
        forall|i: int|
            0 <= i < service_days(start, end) ==> 0 <= #[trigger] payable_schedule(
                start,
                end,
                amount,
                paid,
            )[i].1 <= base_share(amount, service_days(start, end), i),
{
    let n = service_days(start, end);
    let s = payable_schedule(start, end, amount, paid);
    lemma_div_facts(amount, n);
    let q = trunc_div(amount, n);
    let r = trunc_rem(amount, n);
    assert(q >= 0) by (nonlinear_arith)
        requires
            amount >= 0,
            n >= 1,
            amount == n * q + r,
            0 <= r < n,
    ;
    assert forall|i: int| 0 <= i < n implies 0 <= #[trigger] s[i].1 <= base_share(amount, n, i) by {
        lemma_credit_sign(amount, n, paid, i);
    }
}

/// For a non-negative charge, the credit is either what was paid (if not positive) or
/// never negative.
proof fn lemma_credit_sign(amount: int, n: int, paid: int, i: int)
    requires
        amount >= 0,
        n >= 1,
    ensures
        credit_before(amount, n, paid, i) == paid || credit_before(amount, n, paid, i) >= 0,
        paid <= 0 ==> credit_before(amount, n, paid, i) == paid,
    decreases i,
{
    if i > 0 {
        lemma_credit_sign(amount, n, paid, i - 1);
    }
}

} // verus!
