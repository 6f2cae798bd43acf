use vstd::prelude::*;
use crate::chart_of_accounts::{AccountCode, AccrualAccount, CashAccount};
use crate::ledger::general_ledger::{
    GeneralLedger, Posting, DoubleEntry, balances, trial_balance, apply_postings, postings_fit,
    entries_postings, push_double_entry, debited, credited, lemma_debited_concat,
    lemma_debited_one, postings_effect, of_account, lemma_postings_account_effect, EntryKey,
    at_key, touches, lemma_touches_index, lemma_postings_effect_concat,
};
use crate::ledger::transaction::{
    Transaction, schedule_view, payable_schedule, schedule_ready, schedule_ready_check,
    amount_sum, running_sums_fit, period_ok, lemma_schedule_bounded, service_days,
    credit_before, base_share, day_share, share_sum, base_sum, trunc_div, trunc_rem,
    lemma_div_facts, lemma_base_sum, lemma_schedule_prefix,
};
use crate::time::{
    Timestamp, day_of, spec_day_of, spec_whole_days, whole_days_between, instant_ok,
    instant_in_range, day_length,
};
use crate::usd::{USD, fits_i64};

verus! {

/// A payment of `amount` into `account_code` on `effective_on`, against a charge (the
/// payee) of `payee_amount` booked under `payee_account_code`, against which
/// `previously_paid_amount` was paid before.
#[derive(Debug)]
pub struct Payment<'a> {
    pub amount: USD,
    pub account_code: String,
    pub effective_on: Timestamp,
    pub payee_amount: USD,
    pub payee_account_code: &'a AccountCode,
    pub payee_service_start_date: Option<Timestamp>,
    pub payee_service_end_date: Option<Timestamp>,
    pub payee_effective_on: Timestamp,
    pub payee_resolved_on: Option<Timestamp>,
    pub previously_paid_amount: USD,
}

/// The double entries that move `deferred` out of deferred revenue `def` into
/// receivables `ar`, day by day over `days` (instant, amount): a day whose amount the
/// rest covers releases that amount; the first day it does not cover releases the rest;
/// nothing is released once the rest is zero.
pub open spec fn release_postings(
    days: Seq<(int, int)>,
    deferred: int,
    def: Seq<char>,
    ar: Seq<char>,
) -> Seq<Posting>
    decreases days.len(),
{
    if days.len() == 0 || deferred == 0 {
        Seq::empty()
    } else if days[0].1 <= deferred {
        seq![(spec_day_of(days[0].0), days[0].1, def, ar)] + release_postings(
            days.drop_first(),
            deferred - days[0].1,
            def,
            ar,
        )
    } else {
        seq![(spec_day_of(days[0].0), deferred, def, ar)] + release_postings(
            days.drop_first(),
            0,
            def,
            ar,
        )
    }
}

/// The rest left to release stays within `i64` while `deferred` is released over `days`.
pub open spec fn release_fits(days: Seq<(int, int)>, deferred: int) -> bool
    decreases days.len(),
{
    if days.len() == 0 || deferred == 0 {
        true
    } else if days[0].1 <= deferred {
        fits_i64(deferred - days[0].1) && release_fits(days.drop_first(), deferred - days[0].1)
    } else {
        true
    }
}

impl<'a> Payment<'a> {
    pub fn new(
        amount: USD,
        account_code: String,
        effective_on: Timestamp,
        payee_amount: USD,
        payee_account_code: &'a AccountCode,
        payee_service_start_date: Option<Timestamp>,
        payee_service_end_date: Option<Timestamp>,
        payee_effective_on: Timestamp,
        payee_resolved_on: Option<Timestamp>,
        previously_paid_amount: USD,
    ) -> (r: Payment<'a>)
        ensures
            r.amount == amount,
            r.account_code == account_code,
            r.effective_on == effective_on,
            r.payee_amount == payee_amount,
            *r.payee_account_code == *payee_account_code,
            r.payee_service_start_date == payee_service_start_date,
            r.payee_service_end_date == payee_service_end_date,
            r.payee_effective_on == payee_effective_on,
            r.payee_resolved_on == payee_resolved_on,
            r.previously_paid_amount == previously_paid_amount,
    {
        Payment {
            amount: amount,
            account_code: account_code,
            effective_on: effective_on,
            payee_amount: payee_amount,
            payee_account_code: payee_account_code,
            payee_service_start_date: payee_service_start_date,
            payee_service_end_date: payee_service_end_date,
            payee_effective_on: payee_effective_on,
            payee_resolved_on: payee_resolved_on,
            previously_paid_amount: previously_paid_amount,
        }
    }

    /// The payee's daily schedule, net of what was paid before.
    pub open spec fn schedule(&self) -> Seq<(int, int)> {
        payable_schedule(
            self.payee_service_start_date.unwrap() as int,
            self.payee_service_end_date.unwrap() as int,
            self.payee_amount.pennies as int,
            self.previously_paid_amount.pennies as int,
        )
    }

    /// The payee's daily schedule can be computed.
    pub open spec fn schedule_ok(&self) -> bool {
        schedule_ready(
            self.payee_service_start_date,
            self.payee_service_end_date,
            self.payee_amount.pennies as int,
            self.previously_paid_amount.pennies as int,
        )
    }

    /// The payment falls on or after the first day of service.
    pub open spec fn within_service(&self) -> bool {
        self.effective_on >= self.payee_service_start_date.unwrap()
    }

    /// The number of days of the schedule that have elapsed by the payment (at most all).
    pub open spec fn days_elapsed(&self) -> int {
        let w = spec_whole_days(
            self.payee_service_start_date.unwrap() as int,
            self.effective_on as int,
        );
        if w > self.schedule().len() {
            self.schedule().len() as int
        } else {
            w
        }
    }

    /// What the elapsed days of the schedule come to: the receivable the payment can settle.
    pub open spec fn creditable_ar(&self) -> int {
        amount_sum(self.schedule().take(self.days_elapsed()))
    }

    /// The part of the payment that settles receivables, and the part that is deferred.
    pub open spec fn ar_and_deferred(&self) -> (int, int) {
        if self.amount.pennies >= self.creditable_ar() {
            (self.creditable_ar(), self.amount.pennies - self.creditable_ar())
        } else {
            (self.amount.pennies as int, 0)
        }
    }

    /// What is deferred by the payment and later released day by day.
    pub open spec fn deferred_to_release(&self) -> int {
        if self.within_service() {
            self.ar_and_deferred().1
        } else {
            self.amount.pennies as int
        }
    }

    /// What a payment under a daily accrual account settles in all: the amount paid, up to
    /// what the payee's schedule comes to.
    pub open spec fn settled(&self) -> int {
        if self.amount.pennies <= amount_sum(self.schedule()) {
            self.amount.pennies as int
        } else {
            amount_sum(self.schedule())
        }
    }

    /// The days over which the deferred part is released: those not yet elapsed, or all
    /// of them for a payment made before the service starts.
    pub open spec fn release_days(&self) -> Seq<(int, int)> {
        if self.within_service() {
            self.schedule().skip(self.days_elapsed())
        } else {
            self.schedule()
        }
    }

    /// The entries of the payment's own day under a daily accrual account: within the
    /// service, the settled part from the payment account to receivables, and the deferred
    /// part (if positive) to deferred revenue; before it, the whole payment to deferred revenue.
    pub open spec fn payment_day_postings(&self, account: AccrualAccount) -> Seq<Posting> {
        let d = spec_day_of(self.effective_on as int);
        if self.within_service() {
            seq![
                (
                    d,
                    self.ar_and_deferred().0,
                    self.account_code@,
                    account.accounts_receivable_code@,
                ),
            ] + if self.ar_and_deferred().1 > 0 {
                seq![(d, self.ar_and_deferred().1, self.account_code@, account.deferred_code@)]
            } else {
                Seq::empty()
            }
        } else {
            seq![(d, self.amount.pennies as int, self.account_code@, account.deferred_code@)]
        }
    }

    /// Under a daily accrual account: the payment day's entries, then the release of the
    /// deferred part from deferred revenue to receivables over the remaining days.
    pub open spec fn daily_accrual_postings(&self, account: AccrualAccount) -> Seq<Posting> {
        self.payment_day_postings(account) + release_postings(
            self.release_days(),
            self.deferred_to_release(),
            account.deferred_code@,
            account.accounts_receivable_code@,
        )
    }

    /// Processing under a daily accrual account does not fail: the schedule can be
    /// computed, and the running sums, the deferred part and the rest to release fit.
    pub open spec fn daily_accrual_ok(&self) -> bool {
        &&& self.schedule_ok()
        &&& self.within_service() ==> instant_ok(self.effective_on as int)
        &&& self.within_service() ==> running_sums_fit(self.schedule().take(self.days_elapsed()))
        &&& self.within_service() && self.amount.pennies >= self.creditable_ar() ==> fits_i64(
            self.amount.pennies - self.creditable_ar(),
        )
        &&& release_fits(self.release_days(), self.deferred_to_release())
    }

    /// Under a periodic accrual account: a payment on or after the payee's effective day
    /// goes to receivables; an earlier one goes to deferred revenue, and moves from there to
    /// receivables on the payee's effective day.
    pub open spec fn accrual_postings(&self, account: AccrualAccount) -> Seq<Posting> {
        let d = spec_day_of(self.effective_on as int);
        let a = self.amount.pennies as int;
        if self.effective_on >= self.payee_effective_on {
            seq![(d, a, self.account_code@, account.accounts_receivable_code@)]
        } else {
            seq![
                (d, a, self.account_code@, account.deferred_code@),
                (
                    spec_day_of(self.payee_effective_on as int),
                    a,
                    account.deferred_code@,
                    account.accounts_receivable_code@,
                ),
            ]
        }
    }

    /// Under a cash account: the payment straight to revenue on its day.
    pub open spec fn cash_postings(&self, account: CashAccount) -> Seq<Posting> {
        seq![
            (
                spec_day_of(self.effective_on as int),
                self.amount.pennies as int,
                self.account_code@,
                account.revenue_code@,
            ),
        ]
    }

    /// The double entries of a cash payee account.
    fn cash_entries(&self, payee_account_code: &CashAccount) -> (r: Vec<DoubleEntry>)
        ensures
            entries_postings(r@) == self.cash_postings(*payee_account_code),
    {
        let mut journal: Vec<DoubleEntry> = Vec::new();
        push_double_entry(
            &mut journal,
            day_of(self.effective_on),
            self.amount,
            &self.account_code,
            &payee_account_code.revenue_code,
        );
        proof {
            assert(entries_postings(journal@) =~= self.cash_postings(*payee_account_code));
        }
        journal
    }

    /// The double entries of a periodic accrual payee account.
    fn accrual_entries(&self, payee_account_code: &AccrualAccount) -> (r: Vec<DoubleEntry>)
        ensures
            entries_postings(r@) == self.accrual_postings(*payee_account_code),
    {
        let mut journal: Vec<DoubleEntry> = Vec::new();
        if self.effective_on >= self.payee_effective_on {
            push_double_entry(
                &mut journal,
                day_of(self.effective_on),
                self.amount,
                &self.account_code,
                &payee_account_code.accounts_receivable_code,
            );
        } else {
            push_double_entry(
                &mut journal,
                day_of(self.effective_on),
                self.amount,
                &self.account_code,
                &payee_account_code.deferred_code,
            );
            push_double_entry(
                &mut journal,
                day_of(self.payee_effective_on),
                self.amount,
                &payee_account_code.deferred_code,
                &payee_account_code.accounts_receivable_code,
            );
        }
        proof {
            assert(entries_postings(journal@) =~= self.accrual_postings(*payee_account_code));
        }
        journal
    }

    /// Journals the entries of the payment's own day and returns what is deferred, with the
    /// days over which it is to be released.
    fn record_transaction_date_entries_and_return_deferred(
        &self,
        payee_account_code: &AccrualAccount,
        journal: &mut Vec<DoubleEntry>,
    ) -> (r: (USD, Vec<(Timestamp, USD)>))
        requires
            self.daily_accrual_ok(),
        ensures
            entries_postings(final(journal)@) == entries_postings(old(journal)@)
                + self.payment_day_postings(*payee_account_code),
            r.0.pennies == self.deferred_to_release(),
            schedule_view(r.1@) == self.release_days(),
    {
        let ghost ps = self.payment_day_postings(*payee_account_code);
        let ghost before = entries_postings(journal@);
        let start = self.payee_service_start_date.unwrap();
        if self.effective_on >= start {
            let days_exclusive = whole_days_between(start, self.effective_on);
            let mut amounts = self.payable_amounts_per_day();
            let n = amounts.len();
            let k: usize = if (days_exclusive as u64) > (n as u64) {
                n
            } else {
                days_exclusive as usize
            };
            let ghost sched = self.schedule();
            let mut creditable_ar = USD::zero();
            let mut j: usize = 0;
            while j < k
                invariant
                    schedule_view(amounts@) == sched,
                    sched == self.schedule(),
                    k == self.days_elapsed(),
                    k <= amounts@.len(),
                    running_sums_fit(sched.take(k as int)),
                    0 <= j <= k,
                    creditable_ar.pennies == amount_sum(sched.take(j as int)),
                decreases k - j,
            {
                proof {
                    assert(sched.take(k as int).take(j + 1) =~= sched.take(j + 1));
                    assert(fits_i64(amount_sum(sched.take(k as int).take(j + 1))));
                    assert(sched.take(j + 1).drop_last() =~= sched.take(j as int));
                    assert(schedule_view(amounts@)[j as int] == sched[j as int]);
                }
                creditable_ar = creditable_ar + amounts[j].1;
                j = j + 1;
            }
            let leftover_days = amounts.split_off(k);
            proof {
                assert(schedule_view(leftover_days@) =~= sched.skip(k as int));
            }
            let (ar_to_credit, deferred_amount) = if self.amount >= creditable_ar {
                (creditable_ar, self.amount - creditable_ar)
            } else {
                (self.amount, USD::zero())
            };
            push_double_entry(
                journal,
                day_of(self.effective_on),
                ar_to_credit,
                &self.account_code,
                &payee_account_code.accounts_receivable_code,
            );
            if deferred_amount > USD::zero() {
                push_double_entry(
                    journal,
                    day_of(self.effective_on),
                    deferred_amount,
                    &self.account_code,
                    &payee_account_code.deferred_code,
                );
            }
            proof {
                assert(entries_postings(journal@) =~= before + ps);
            }
            (deferred_amount, leftover_days)
        } else {
            push_double_entry(
                journal,
                day_of(self.effective_on),
                self.amount,
                &self.account_code,
                &payee_account_code.deferred_code,
            );
            proof {
                assert(entries_postings(journal@) =~= before + ps);
            }
            (self.amount, self.payable_amounts_per_day())
        }
    }

    /// The double entries of a daily accrual payee account.
    fn daily_accrual_entries(&self, payee_account_code: &AccrualAccount) -> (r: Vec<DoubleEntry>)
        requires
            self.daily_accrual_ok(),
        ensures
            entries_postings(r@) == self.daily_accrual_postings(*payee_account_code),
    {
        let ghost ps = self.daily_accrual_postings(*payee_account_code);
        let ghost days = self.release_days();
        let ghost def = payee_account_code.deferred_code@;
        let ghost ar = payee_account_code.accounts_receivable_code@;
        let mut journal: Vec<DoubleEntry> = Vec::new();
        let (deferred_amount, leftover_days) = self.record_transaction_date_entries_and_return_deferred(
            payee_account_code,
            &mut journal,
        );
        let mut deferred_amount_mut = deferred_amount;
        let mut i: usize = 0;
        proof {
            assert(days.skip(0) =~= days);
            assert(Seq::<Posting>::empty() + self.payment_day_postings(*payee_account_code)
                =~= self.payment_day_postings(*payee_account_code));
        }
        while i < leftover_days.len() && deferred_amount_mut.pennies != 0
            invariant
                schedule_view(leftover_days@) == days,
                0 <= i <= leftover_days@.len(),
                release_fits(days.skip(i as int), deferred_amount_mut.pennies as int),
                entries_postings(journal@) + release_postings(
                    days.skip(i as int),
                    deferred_amount_mut.pennies as int,
                    def,
                    ar,
                ) == ps,
                def == payee_account_code.deferred_code@,
                ar == payee_account_code.accounts_receivable_code@,
            decreases leftover_days@.len() - i,
        {
            let (date, amount) = leftover_days[i];
            let ghost d = deferred_amount_mut.pennies as int;
            let ghost rest = days.skip(i as int);
            let ghost before = entries_postings(journal@);
            proof {
                assert(rest[0] == (date as int, amount.pennies as int));
                assert(rest.drop_first() =~= days.skip(i + 1));
            }
            if amount <= deferred_amount_mut {
                push_double_entry(
                    &mut journal,
                    day_of(date),
                    amount,
                    &payee_account_code.deferred_code,
                    &payee_account_code.accounts_receivable_code,
                );
                deferred_amount_mut = deferred_amount_mut - amount;
            } else {
                push_double_entry(
                    &mut journal,
                    day_of(date),
                    deferred_amount_mut,
                    &payee_account_code.deferred_code,
                    &payee_account_code.accounts_receivable_code,
                );
                deferred_amount_mut = USD::zero();
            }
            proof {
                let p = entries_postings(journal@).last();
                assert(entries_postings(journal@) == before.push(p));
                assert(release_postings(rest, d, def, ar) == seq![p] + release_postings(
                    days.skip(i + 1),
                    deferred_amount_mut.pennies as int,
                    def,
                    ar,
                ));
                assert(entries_postings(journal@) + release_postings(
                    days.skip(i + 1),
                    deferred_amount_mut.pennies as int,
                    def,
                    ar,
                ) =~= before + release_postings(rest, d, def, ar));
            }
            i = i + 1;
        }
        proof {
            assert(release_postings(
                days.skip(i as int),
                deferred_amount_mut.pennies as int,
                def,
                ar,
            ) == Seq::<Posting>::empty());
            assert(entries_postings(journal@) + Seq::<Posting>::empty() =~= entries_postings(
                journal@,
            ));
        }
        journal
    }

    /// Whether processing under a daily accrual payee account can proceed.
    fn daily_accrual_ok_check(&self) -> (r: bool)
        ensures
            r == self.daily_accrual_ok(),
    {
        if !schedule_ready_check(
            self.payee_service_start_date,
            self.payee_service_end_date,
            self.payee_amount.pennies,
            self.previously_paid_amount.pennies,
        ) {
            return false;
        }
        let start = self.payee_service_start_date.unwrap();
        if self.effective_on >= start && !instant_in_range(self.effective_on) {
            return false;
        }
        let mut amounts = self.payable_amounts_per_day();
        let ghost sched = self.schedule();
        let deferred: i64;
        let days: Vec<(Timestamp, USD)>;
        if self.effective_on >= start {
            let days_exclusive = whole_days_between(start, self.effective_on);
            let n = amounts.len();
            let k: usize = if (days_exclusive as u64) > (n as u64) {
                n
            } else {
                days_exclusive as usize
            };
            let mut sum: i64 = 0;
            let mut j: usize = 0;
            proof {
                assert(sched.take(0) =~= Seq::<(int, int)>::empty());
            }
            while j < k
                invariant
                    schedule_view(amounts@) == sched,
                    sched == self.schedule(),
                    k == self.days_elapsed(),
                    k <= amounts@.len(),
                    0 <= j <= k,
                    sum == amount_sum(sched.take(j as int)),
                    forall|m: int|
                        0 <= m <= j ==> fits_i64(#[trigger] amount_sum(sched.take(k as int).take(m))),
                decreases k - j,
            {
                proof {
                    assert(sched.take(k as int).take(j + 1) =~= sched.take(j + 1));
                    assert(sched.take(j + 1).drop_last() =~= sched.take(j as int));
                    assert(schedule_view(amounts@)[j as int] == sched[j as int]);
                }
                let next: i128 = sum as i128 + amounts[j].1.pennies as i128;
                if next < i64::MIN as i128 || next > i64::MAX as i128 {
                    proof {
                        assert(!fits_i64(amount_sum(sched.take(k as int).take(j + 1))));
                    }
                    return false;
                }
                sum = next as i64;
                proof {
                    assert forall|m: int| 0 <= m <= j + 1 implies fits_i64(
                        #[trigger] amount_sum(sched.take(k as int).take(m)),
                    ) by {
                        if m == j + 1 {
                            assert(sched.take(k as int).take(m) =~= sched.take(j + 1));
                        }
                    }
                }
                j = j + 1;
            }
            proof {
                assert(sched.take(k as int).take(k as int) =~= sched.take(k as int));
                assert(running_sums_fit(sched.take(k as int)));
            }
            if self.amount.pennies >= sum {
                let diff: i128 = self.amount.pennies as i128 - sum as i128;
                if diff > i64::MAX as i128 {
                    return false;
                }
                deferred = diff as i64;
            } else {
                deferred = 0;
            }
            days = amounts.split_off(k);
            proof {
                assert(schedule_view(days@) =~= sched.skip(k as int));
            }
        } else {
            deferred = self.amount.pennies;
            days = amounts;
        }
        let ghost dview = schedule_view(days@);
        let mut d: i64 = deferred;
        let mut i: usize = 0;
        proof {
            assert(dview.skip(0) =~= dview);
        }
        while i < days.len() && d != 0
            invariant
                dview == schedule_view(days@),
                dview == self.release_days(),
                0 <= i <= days@.len(),
                release_fits(dview, self.deferred_to_release()) == release_fits(
                    dview.skip(i as int),
                    d as int,
                ),
            decreases days@.len() - i,
        {
            let a = days[i].1.pennies;
            proof {
                let rest = dview.skip(i as int);
                assert(rest[0].1 == a);
                assert(rest.drop_first() =~= dview.skip(i + 1));
            }
            if a <= d {
                let nd: i128 = d as i128 - a as i128;
                if nd < i64::MIN as i128 || nd > i64::MAX as i128 {
                    return false;
                }
                d = nd as i64;
            } else {
                d = 0;
            }
            i = i + 1;
        }
        true
    }

    fn process_cash(&self, payee_account_code: &CashAccount, gl: &mut GeneralLedger)
        requires
            postings_fit(balances(old(gl)@), self.cash_postings(*payee_account_code)),
        ensures
            balances(final(gl)@) == apply_postings(
                balances(old(gl)@),
                self.cash_postings(*payee_account_code),
            ),
            trial_balance(final(gl)@) == trial_balance(old(gl)@),
    {
        let entries = self.cash_entries(payee_account_code);
        gl.record_all(&entries);
    }

    fn process_accrual(&self, payee_account_code: &AccrualAccount, gl: &mut GeneralLedger)
        requires
            postings_fit(balances(old(gl)@), self.accrual_postings(*payee_account_code)),
        ensures
            balances(final(gl)@) == apply_postings(
                balances(old(gl)@),
                self.accrual_postings(*payee_account_code),
            ),
            trial_balance(final(gl)@) == trial_balance(old(gl)@),
    {
        let entries = self.accrual_entries(payee_account_code);
        gl.record_all(&entries);
    }

    fn process_daily_accrual(&self, payee_account_code: &AccrualAccount, gl: &mut GeneralLedger)
        requires
            self.daily_accrual_ok(),
            postings_fit(balances(old(gl)@), self.daily_accrual_postings(*payee_account_code)),
        ensures
            balances(final(gl)@) == apply_postings(
                balances(old(gl)@),
                self.daily_accrual_postings(*payee_account_code),
            ),
            trial_balance(final(gl)@) == trial_balance(old(gl)@),
    {
        let entries = self.daily_accrual_entries(payee_account_code);
        gl.record_all(&entries);
    }
}

/// Releasing deferred revenue only debits the deferred revenue account.
pub proof fn lemma_release_debits(
    days: Seq<(int, int)>,
    deferred: int,
    def: Seq<char>,
    ar: Seq<char>,
    code: Seq<char>,
)
    requires
        code != def,
    ensures
        debited(release_postings(days, deferred, def, ar), code) == 0,
    decreases days.len(),
{
    if days.len() == 0 || deferred == 0 {
        assert(debited(Seq::<Posting>::empty(), code) == 0);
    } else {
        let p = if days[0].1 <= deferred {
            (spec_day_of(days[0].0), days[0].1, def, ar)
        } else {
            (spec_day_of(days[0].0), deferred, def, ar)
        };
        let next = if days[0].1 <= deferred {
            deferred - days[0].1
        } else {
            0
        };
        lemma_release_debits(days.drop_first(), next, def, ar, code);
        lemma_debited_concat(seq![p], release_postings(days.drop_first(), next, def, ar), code);
        lemma_debited_one(p, code);
    }
}

/// A payment is booked in full to the account it was received into: its entries debit
/// that account by exactly the amount paid, whichever way the payee's account is booked
/// (a bare payee account books nothing), as long as that account is not also the payee's
/// deferred revenue account.
pub proof fn lemma_payment_debits_amount(p: Payment)
    requires
        !(p.payee_account_code matches AccountCode::Base(_)),
        p.payee_account_code matches AccountCode::Daily(ac) ==> p.account_code@ != ac.deferred_code@,
        p.payee_account_code matches AccountCode::Periodic(ac) ==> p.account_code@
            != ac.deferred_code@,
    ensures
        debited(p.spec_postings(), p.account_code@) == p.amount.pennies,
{
    let code = p.account_code@;
    match *p.payee_account_code {
        AccountCode::Daily(ac) => {
            let first = p.payment_day_postings(ac);
            let d = spec_day_of(p.effective_on as int);
            lemma_debited_concat(
                first,
                release_postings(
                    p.release_days(),
                    p.deferred_to_release(),
                    ac.deferred_code@,
                    ac.accounts_receivable_code@,
                ),
                code,
            );
            lemma_release_debits(
                p.release_days(),
                p.deferred_to_release(),
                ac.deferred_code@,
                ac.accounts_receivable_code@,
                code,
            );
            if p.within_service() {
                let (ar_part, def_part) = p.ar_and_deferred();
                let q0 = (d, ar_part, code, ac.accounts_receivable_code@);
                lemma_debited_one(q0, code);
                if def_part > 0 {
                    let q1 = (d, def_part, code, ac.deferred_code@);
                    lemma_debited_concat(seq![q0], seq![q1], code);
                    lemma_debited_one(q1, code);
                } else {
                    assert(seq![q0] + Seq::<Posting>::empty() =~= seq![q0]);
                }
            } else {
                lemma_debited_one((d, p.amount.pennies as int, code, ac.deferred_code@), code);
            }
        },
        AccountCode::Periodic(ac) => {
            let d = spec_day_of(p.effective_on as int);
            let a = p.amount.pennies as int;
            if p.effective_on >= p.payee_effective_on {
                lemma_debited_one((d, a, code, ac.accounts_receivable_code@), code);
            } else {
                let q0 = (d, a, code, ac.deferred_code@);
                let q1 = (
                    spec_day_of(p.payee_effective_on as int),
                    a,
                    ac.deferred_code@,
                    ac.accounts_receivable_code@,
                );
                assert(p.accrual_postings(ac) =~= seq![q0] + seq![q1]);
                lemma_debited_concat(seq![q0], seq![q1], code);
                lemma_debited_one(q0, code);
                lemma_debited_one(q1, code);
            }
        },
        AccountCode::Cash(ac) => {
            lemma_debited_one(
                (spec_day_of(p.effective_on as int), p.amount.pennies as int, code, ac.revenue_code@),
                code,
            );
        },
        AccountCode::Base(_) => {},
    }
}

/// Over days whose amounts are not negative, releasing a non-negative `deferred` takes out
/// of deferred revenue at most `deferred`, and puts nothing back into it.
pub proof fn lemma_release_at_most_deferred(
    days: Seq<(int, int)>,
    deferred: int,
    def: Seq<char>,
    ar: Seq<char>,
)
    requires
        def != ar,
        deferred >= 0,
        forall|i: int| 0 <= i < days.len() ==> #[trigger] days[i].1 >= 0,
    ensures
        0 <= debited(release_postings(days, deferred, def, ar), def) <= deferred,
        credited(release_postings(days, deferred, def, ar), def) == 0,
    decreases days.len(),
{
    if days.len() == 0 || deferred == 0 {
        assert(debited(Seq::<Posting>::empty(), def) == 0);
        assert(credited(Seq::<Posting>::empty(), def) == 0);
    } else {
        let rest = days.drop_first();
        assert forall|i: int| 0 <= i < rest.len() implies #[trigger] rest[i].1 >= 0 by {
            assert(rest[i] == days[i + 1]);
        }
        assert(days[0].1 >= 0);
        let (amt, next) = if days[0].1 <= deferred {
            (days[0].1, deferred - days[0].1)
        } else {
            (deferred, 0)
        };
        let q = (spec_day_of(days[0].0), amt, def, ar);
        lemma_release_at_most_deferred(rest, next, def, ar);
        lemma_debited_concat(seq![q], release_postings(rest, next, def, ar), def);
        lemma_debited_one(q, def);
    }
}

/// The sum of a concatenation of schedules is the sum of their sums.
pub proof fn lemma_amount_sum_concat(a: Seq<(int, int)>, b: Seq<(int, int)>)
    ensures
        amount_sum(a + b) == amount_sum(a) + amount_sum(b),
    decreases b.len(),
{
    if b.len() == 0 {
        assert(a + b =~= a);
    } else {
        lemma_amount_sum_concat(a, b.drop_last());
        assert((a + b).drop_last() =~= a + b.drop_last());
        assert((a + b).last() == b.last());
    }
}

/// A schedule whose amounts are not negative sums to at least zero.
pub proof fn lemma_amount_sum_nonneg(s: Seq<(int, int)>)
    requires
        forall|i: int| 0 <= i < s.len() ==> #[trigger] s[i].1 >= 0,
    ensures
        amount_sum(s) >= 0,
    decreases s.len(),
{
    if s.len() > 0 {
        let t = s.drop_last();
        assert forall|i: int| 0 <= i < t.len() implies #[trigger] t[i].1 >= 0 by {
            assert(t[i] == s[i]);
        }
        lemma_amount_sum_nonneg(t);
        assert(s.last() == s[s.len() - 1]);
    }
}

/// Over days whose amounts are not negative, releasing a non-negative `deferred` moves out
/// of deferred revenue `def` into receivables `ar` exactly the smaller of `deferred` and
/// what the days add up to, and debits or credits no other way and no other account.
pub proof fn lemma_release_totals(
    days: Seq<(int, int)>,
    deferred: int,
    def: Seq<char>,
    ar: Seq<char>,
    other: Seq<char>,
)
    requires
        def != ar,
        other != def,
        other != ar,
        deferred >= 0,
        forall|i: int| 0 <= i < days.len() ==> #[trigger] days[i].1 >= 0,
    ensures
        debited(release_postings(days, deferred, def, ar), def) == if deferred <= amount_sum(days) {
            deferred
        } else {
            amount_sum(days)
        },
        credited(release_postings(days, deferred, def, ar), ar) == debited(
            release_postings(days, deferred, def, ar),
            def,
        ),
        credited(release_postings(days, deferred, def, ar), def) == 0,
        debited(release_postings(days, deferred, def, ar), ar) == 0,
        debited(release_postings(days, deferred, def, ar), other) == 0,
        credited(release_postings(days, deferred, def, ar), other) == 0,
    decreases days.len(),
{
    let rel = release_postings(days, deferred, def, ar);
    if days.len() == 0 || deferred == 0 {
        assert(rel =~= Seq::<Posting>::empty());
        if days.len() > 0 {
            let rest = days.drop_first();
            assert forall|i: int| 0 <= i < rest.len() implies #[trigger] rest[i].1 >= 0 by {
                assert(rest[i] == days[i + 1]);
            }
            lemma_amount_sum_nonneg(rest);
            assert(days =~= seq![days[0]] + rest);
            lemma_amount_sum_concat(seq![days[0]], rest);
            assert(seq![days[0]].drop_last() =~= Seq::<(int, int)>::empty());
            assert(amount_sum(Seq::<(int, int)>::empty()) == 0);
            assert(seq![days[0]].last() == days[0]);
            assert(days[0].1 >= 0);
        } else {
            assert(amount_sum(days) == 0);
        }
    } else {
        let rest = days.drop_first();
        assert forall|i: int| 0 <= i < rest.len() implies #[trigger] rest[i].1 >= 0 by {
            assert(rest[i] == days[i + 1]);
        }
        assert(days[0].1 >= 0);
        assert(days =~= seq![days[0]] + rest);
        lemma_amount_sum_concat(seq![days[0]], rest);
        assert(seq![days[0]].drop_last() =~= Seq::<(int, int)>::empty());
        assert(amount_sum(Seq::<(int, int)>::empty()) == 0);
        assert(seq![days[0]].last() == days[0]);
        assert(amount_sum(seq![days[0]]) == days[0].1);
        lemma_amount_sum_nonneg(rest);
        let (amt, next) = if days[0].1 <= deferred {
            (days[0].1, deferred - days[0].1)
        } else {
            (deferred, 0)
        };
        let q = (spec_day_of(days[0].0), amt, def, ar);
        let tail = release_postings(rest, next, def, ar);
        lemma_release_totals(rest, next, def, ar, other);
        assert(rel == seq![q] + tail);
        lemma_debited_concat(seq![q], tail, def);
        lemma_debited_concat(seq![q], tail, ar);
        lemma_debited_concat(seq![q], tail, other);
        lemma_debited_one(q, def);
        lemma_debited_one(q, ar);
        lemma_debited_one(q, other);
    }
}

/// What the days of `s` (instant, amount) dated on day `d` come to.
pub open spec fn scheduled_on(s: Seq<(int, int)>, d: int) -> int
    decreases s.len(),
{
    if s.len() == 0 {
        0
    } else {
        (if spec_day_of(s[0].0) == d {
            s[0].1
        } else {
            0
        }) + scheduled_on(s.drop_first(), d)
    }
}

/// Dropping days with non-negative amounts from the front leaves no more on any day.
proof fn lemma_scheduled_on_skip(s: Seq<(int, int)>, k: int, d: int)
    requires
        0 <= k <= s.len(),
        forall|i: int| 0 <= i < s.len() ==> #[trigger] s[i].1 >= 0,
    ensures
        scheduled_on(s.skip(k), d) <= scheduled_on(s, d),
    decreases k,
{
    if k > 0 {
        let t = s.drop_first();
        assert forall|i: int| 0 <= i < t.len() implies #[trigger] t[i].1 >= 0 by {
            assert(t[i] == s[i + 1]);
        }
        lemma_scheduled_on_skip(t, k - 1, d);
        assert(t.skip(k - 1) =~= s.skip(k));
    } else {
        assert(s.skip(0) =~= s);
    }
}

/// Every release posting moves from `def` to `ar` on the day of one of the days.
proof fn lemma_release_shape(
    days: Seq<(int, int)>,
    deferred: int,
    def: Seq<char>,
    ar: Seq<char>,
    lo: int,
    hi: int,
)
    requires
        forall|j: int| 0 <= j < days.len() ==> lo <= #[trigger] spec_day_of(days[j].0) <= hi,
    ensures
        forall|i: int|
            0 <= i < release_postings(days, deferred, def, ar).len() ==> {
                let q = #[trigger] release_postings(days, deferred, def, ar)[i];
                q.2 == def && q.3 == ar && lo <= q.0 <= hi
            },
    decreases days.len(),
{
    if days.len() > 0 && deferred != 0 {
        let rest = days.drop_first();
        assert forall|j: int| 0 <= j < rest.len() implies lo <= #[trigger] spec_day_of(rest[j].0)
            <= hi by {
            assert(rest[j] == days[j + 1]);
        }
        assert(spec_day_of(days[0].0) == spec_day_of(days[0].0));
        let next = if days[0].1 <= deferred {
            deferred - days[0].1
        } else {
            0
        };
        lemma_release_shape(rest, next, def, ar, lo, hi);
        let q = (
            spec_day_of(days[0].0),
            if days[0].1 <= deferred {
                days[0].1
            } else {
                deferred
            },
            def,
            ar,
        );
        let rel = release_postings(days, deferred, def, ar);
        let tail = release_postings(rest, next, def, ar);
        assert(rel == seq![q] + tail);
        assert forall|i: int| 0 <= i < rel.len() implies {
            let r = #[trigger] rel[i];
            r.2 == def && r.3 == ar && lo <= r.0 <= hi
        } by {
            if i > 0 {
                assert(rel[i] == tail[i - 1]);
            }
        }
    }
}

/// On each day, releasing moves out of deferred revenue what it moves into receivables, at
/// least nothing and at most what the days dated that day come to.
proof fn lemma_release_day(
    days: Seq<(int, int)>,
    deferred: int,
    def: Seq<char>,
    ar: Seq<char>,
    d: int,
)
    requires
        def != ar,
        deferred >= 0,
        forall|i: int| 0 <= i < days.len() ==> #[trigger] days[i].1 >= 0,
    ensures
        postings_effect(release_postings(days, deferred, def, ar), at_key((d, def)))
            == -postings_effect(release_postings(days, deferred, def, ar), at_key((d, ar))),
        0 <= postings_effect(release_postings(days, deferred, def, ar), at_key((d, def)))
            <= scheduled_on(days, d),
    decreases days.len(),
{
    let rel = release_postings(days, deferred, def, ar);
    if days.len() == 0 || deferred == 0 {
        assert(rel =~= Seq::<Posting>::empty());
        if days.len() > 0 {
            lemma_scheduled_on_nonneg(days, d);
        }
    } else {
        let rest = days.drop_first();
        assert forall|i: int| 0 <= i < rest.len() implies #[trigger] rest[i].1 >= 0 by {
            assert(rest[i] == days[i + 1]);
        }
        assert(days[0].1 >= 0);
        let (amt, next) = if days[0].1 <= deferred {
            (days[0].1, deferred - days[0].1)
        } else {
            (deferred, 0)
        };
        let q = (spec_day_of(days[0].0), amt, def, ar);
        let tail = release_postings(rest, next, def, ar);
        lemma_release_day(rest, next, def, ar, d);
        assert(rel == seq![q] + tail);
        lemma_postings_effect_concat(seq![q], tail, at_key((d, def)));
        lemma_postings_effect_concat(seq![q], tail, at_key((d, ar)));
        assert(seq![q].drop_last() =~= Seq::<Posting>::empty());
        assert(seq![q].last() == q);
        assert(postings_effect(Seq::<Posting>::empty(), at_key((d, def))) == 0);
        assert(postings_effect(Seq::<Posting>::empty(), at_key((d, ar))) == 0);
        assert(postings_effect(seq![q], at_key((d, def))) == if q.0 == d {
            amt
        } else {
            0
        });
        assert(postings_effect(seq![q], at_key((d, ar))) == if q.0 == d {
            -amt
        } else {
            0
        });
        assert(scheduled_on(days, d) == (if spec_day_of(days[0].0) == d {
            days[0].1
        } else {
            0
        }) + scheduled_on(rest, d));
    }
}

/// What days with non-negative amounts come to on a day is not negative.
proof fn lemma_scheduled_on_nonneg(s: Seq<(int, int)>, d: int)
    requires
        forall|i: int| 0 <= i < s.len() ==> #[trigger] s[i].1 >= 0,
    ensures
        scheduled_on(s, d) >= 0,
    decreases s.len(),
{
    if s.len() > 0 {
        let t = s.drop_first();
        assert forall|i: int| 0 <= i < t.len() implies #[trigger] t[i].1 >= 0 by {
            assert(t[i] == s[i + 1]);
        }
        assert(s[0].1 >= 0);
        lemma_scheduled_on_nonneg(t, d);
    }
}

/// Day `j` of a schedule falls `j` days after the first day, and no later than the last.
proof fn lemma_schedule_days(start: int, end: int, amount: int, paid: int)
    requires
        start <= end,
    ensures
        forall|j: int|
            0 <= j < service_days(start, end) ==> spec_day_of(
                #[trigger] payable_schedule(start, end, amount, paid)[j].0,
            ) == spec_day_of(start) + j && spec_day_of(payable_schedule(start, end, amount, paid)[j].0)
                <= spec_day_of(end),
{
    let n = service_days(start, end);
    assert forall|j: int| 0 <= j < n implies spec_day_of(
        #[trigger] payable_schedule(start, end, amount, paid)[j].0,
    ) == spec_day_of(start) + j && spec_day_of(payable_schedule(start, end, amount, paid)[j].0)
        <= spec_day_of(end) by {
        let t = start + j * day_length();
        assert(payable_schedule(start, end, amount, paid)[j].0 == t);
        assert(t / 86_400_000_000_000 == start / 86_400_000_000_000 + j) by (nonlinear_arith)
            requires
                t == start + j * 86_400_000_000_000,
        ;
        assert(j <= (end - start) / 86_400_000_000_000);
        assert(t <= end) by (nonlinear_arith)
            requires
                t == start + j * 86_400_000_000_000,
                0 <= j <= (end - start) / 86_400_000_000_000,
                start <= end,
        ;
        assert(t / 86_400_000_000_000 <= end / 86_400_000_000_000) by (nonlinear_arith)
            requires
                t <= end,
        ;
    }
}

/// Postings none of which falls on the day of `k` leave `k` unchanged.
proof fn lemma_effect_other_day(ps: Seq<Posting>, k: EntryKey)
    requires
        forall|i: int| 0 <= i < ps.len() ==> (#[trigger] ps[i]).0 != k.0,
    ensures
        postings_effect(ps, at_key(k)) == 0,
    decreases ps.len(),
{
    if ps.len() > 0 {
        let t = ps.drop_last();
        assert forall|i: int| 0 <= i < t.len() implies (#[trigger] t[i]).0 != k.0 by {
            assert(t[i] == ps[i]);
        }
        lemma_effect_other_day(t, k);
        assert(ps.last() == ps[ps.len() - 1]);
    }
}

/// Which balances a payment under a daily accrual account touches, and how: only those of
/// the account it was received into, receivables and deferred revenue, and only from the
/// payment's day to the later of that day and the last day of service; on each day after
/// the payment's, deferred revenue rises by what receivables fall by, which is at least
/// nothing and at most what the schedule has on that day. This holds for a non-negative
/// payment of a non-negative charge with a service period that starts, like the payment,
/// at midnight, where receivables and deferred revenue differ.
pub proof fn lemma_payment_daily_keys(p: Payment)
    requires
        p.payee_account_code matches AccountCode::Daily(ac) && ac.deferred_code@
            != ac.accounts_receivable_code@,
        p.amount.pennies >= 0,
        p.payee_amount.pennies >= 0,
        period_ok(p.payee_service_start_date, p.payee_service_end_date),
        (p.payee_service_start_date.unwrap() as int) % day_length() == 0,
        (p.effective_on as int) % day_length() == 0,
    ensures
        p.payee_account_code matches AccountCode::Daily(ac) && (forall|k: EntryKey|
            #[trigger] touches(p.spec_postings(), k) ==> (k.1 == p.account_code@ || k.1
                == ac.accounts_receivable_code@ || k.1 == ac.deferred_code@) && spec_day_of(
                p.effective_on as int,
            ) <= k.0 <= (if spec_day_of(p.effective_on as int) <= spec_day_of(
                p.payee_service_end_date.unwrap() as int,
            ) {
                spec_day_of(p.payee_service_end_date.unwrap() as int)
            } else {
                spec_day_of(p.effective_on as int)
            })) && (forall|d: int|
            d > spec_day_of(p.effective_on as int) ==> #[trigger] postings_effect(
                p.spec_postings(),
                at_key((d, ac.deferred_code@)),
            ) == -postings_effect(p.spec_postings(), at_key((d, ac.accounts_receivable_code@)))
                && 0 <= postings_effect(p.spec_postings(), at_key((d, ac.deferred_code@)))
                <= scheduled_on(p.schedule(), d)),
{
    match *p.payee_account_code {
        AccountCode::Daily(ac) => {
            let def = ac.deferred_code@;
            let ar = ac.accounts_receivable_code@;
            let cash = p.account_code@;
            let start = p.payee_service_start_date.unwrap() as int;
            let end = p.payee_service_end_date.unwrap() as int;
            let eff = p.effective_on as int;
            let e = spec_day_of(eff);
            let hi = if e <= spec_day_of(end) {
                spec_day_of(end)
            } else {
                e
            };
            let sched = p.schedule();
            let n = service_days(start, end);
            lemma_schedule_days(
                start,
                end,
                p.payee_amount.pennies as int,
                p.previously_paid_amount.pennies as int,
            );
            lemma_schedule_bounded(
                start,
                end,
                p.payee_amount.pennies as int,
                p.previously_paid_amount.pennies as int,
            );
            let days = p.release_days();
            let k = p.days_elapsed();
            if p.within_service() {
                let w = (eff - start) / day_length();
                assert(e == spec_day_of(start) + w) by (nonlinear_arith)
                    requires
                        start % 86_400_000_000_000 == 0,
                        eff % 86_400_000_000_000 == 0,
                        w == (eff - start) / 86_400_000_000_000,
                        e == eff / 86_400_000_000_000,
                        start <= eff,
                ;
                assert(0 <= k <= sched.len());
                assert forall|i: int| 0 <= i < days.len() implies e <= #[trigger] spec_day_of(
                    days[i].0,
                ) <= hi && days[i].1 >= 0 by {
                    assert(days[i] == sched[i + k]);
                    assert(k == w);
                }
            } else {
                assert(e <= spec_day_of(start)) by (nonlinear_arith)
                    requires
                        eff < start,
                        e == eff / 86_400_000_000_000,
                ;
                assert forall|i: int| 0 <= i < days.len() implies e <= #[trigger] spec_day_of(
                    days[i].0,
                ) <= hi && days[i].1 >= 0 by {
                    assert(days[i] == sched[i]);
                }
            }
            let deferred = p.deferred_to_release();
            let rel = release_postings(days, deferred, def, ar);
            let first = p.payment_day_postings(ac);
            let ps = p.spec_postings();
            assert(ps == first + rel);
            lemma_release_shape(days, deferred, def, ar, e, hi);
            assert forall|i: int| 0 <= i < first.len() implies {
                let q = #[trigger] first[i];
                q.0 == e && q.2 == cash && (q.3 == ar || q.3 == def)
            } by {}
            assert forall|kk: EntryKey| #[trigger] touches(ps, kk) implies (kk.1 == cash || kk.1
                == ar || kk.1 == def) && e <= kk.0 <= hi by {
                lemma_touches_index(ps, kk);
                let i = choose|i: int|
                    0 <= i < ps.len() && ((#[trigger] ps[i]).0 == kk.0 && (ps[i].2 == kk.1
                        || ps[i].3 == kk.1));
                if i < first.len() {
                    assert(ps[i] == first[i]);
                } else {
                    assert(ps[i] == rel[i - first.len()]);
                }
            }
            assert forall|d: int| d > e implies #[trigger] postings_effect(ps, at_key((d, def)))
                == -postings_effect(ps, at_key((d, ar))) && 0 <= postings_effect(
                ps,
                at_key((d, def)),
            ) <= scheduled_on(sched, d) by {
                lemma_postings_effect_concat(first, rel, at_key((d, def)));
                lemma_postings_effect_concat(first, rel, at_key((d, ar)));
                lemma_effect_other_day(first, (d, def));
                lemma_effect_other_day(first, (d, ar));
                lemma_release_day(days, deferred, def, ar, d);
                if p.within_service() {
                    lemma_scheduled_on_skip(sched, k, d);
                }
            }
        },
        _ => {},
    }
}

/// What a payment under a daily accrual account does to each account over all days: the
/// account it was received into rises by the amount paid; receivables fall by what it
/// settles (the amount paid, up to what the payee's schedule comes to); deferred revenue
/// falls by the rest, so a payment that the schedule covers leaves none deferred. This holds
/// for a non-negative payment of a non-negative charge with a service period, where the
/// three accounts differ.
pub proof fn lemma_payment_daily_totals(p: Payment)
    requires
        p.payee_account_code matches AccountCode::Daily(ac) && p.account_code@ != ac.deferred_code@
            && p.account_code@ != ac.accounts_receivable_code@ && ac.deferred_code@
            != ac.accounts_receivable_code@,
        p.amount.pennies >= 0,
        p.payee_amount.pennies >= 0,
        period_ok(p.payee_service_start_date, p.payee_service_end_date),
    ensures
        p.payee_account_code matches AccountCode::Daily(ac) && postings_effect(
            p.spec_postings(),
            of_account(p.account_code@),
        ) == p.amount.pennies && postings_effect(
            p.spec_postings(),
            of_account(ac.accounts_receivable_code@),
        ) == -p.settled() && postings_effect(p.spec_postings(), of_account(ac.deferred_code@))
            == p.settled() - p.amount.pennies,
{
    match *p.payee_account_code {
        AccountCode::Daily(ac) => {
            let def = ac.deferred_code@;
            let ar = ac.accounts_receivable_code@;
            let cash = p.account_code@;
            let d = spec_day_of(p.effective_on as int);
            let sched = p.schedule();
            lemma_schedule_bounded(
                p.payee_service_start_date.unwrap() as int,
                p.payee_service_end_date.unwrap() as int,
                p.payee_amount.pennies as int,
                p.previously_paid_amount.pennies as int,
            );
            assert forall|i: int| 0 <= i < sched.len() implies #[trigger] sched[i].1 >= 0 by {}
            let days = p.release_days();
            let k = p.days_elapsed();
            assert forall|i: int| 0 <= i < days.len() implies #[trigger] days[i].1 >= 0 by {
                if p.within_service() {
                    assert(days[i] == sched[i + k]);
                } else {
                    assert(days[i] == sched[i]);
                }
            }
            let deferred = p.deferred_to_release();
            let rel = release_postings(days, deferred, def, ar);
            let first = p.payment_day_postings(ac);
            let ps = p.spec_postings();
            assert(ps == first + rel);
            lemma_release_totals(days, deferred, def, ar, cash);
            lemma_debited_concat(first, rel, cash);
            lemma_debited_concat(first, rel, ar);
            lemma_debited_concat(first, rel, def);
            lemma_postings_account_effect(ps, cash);
            lemma_postings_account_effect(ps, ar);
            lemma_postings_account_effect(ps, def);
            if p.within_service() {
                let pre = sched.take(k);
                assert forall|i: int| 0 <= i < pre.len() implies #[trigger] pre[i].1 >= 0 by {
                    assert(pre[i] == sched[i]);
                }
                lemma_amount_sum_nonneg(pre);
                lemma_amount_sum_nonneg(days);
                assert(sched =~= pre + days);
                lemma_amount_sum_concat(pre, days);
                let (ar_part, def_part) = p.ar_and_deferred();
                let q0 = (d, ar_part, cash, ar);
                lemma_debited_one(q0, cash);
                lemma_debited_one(q0, ar);
                lemma_debited_one(q0, def);
                if def_part > 0 {
                    let q1 = (d, def_part, cash, def);
                    assert(first == seq![q0] + seq![q1]);
                    lemma_debited_concat(seq![q0], seq![q1], cash);
                    lemma_debited_concat(seq![q0], seq![q1], ar);
                    lemma_debited_concat(seq![q0], seq![q1], def);
                    lemma_debited_one(q1, cash);
                    lemma_debited_one(q1, ar);
                    lemma_debited_one(q1, def);
                } else {
                    assert(first =~= seq![q0]);
                }
            } else {
                lemma_amount_sum_nonneg(days);
                let q = (d, p.amount.pennies as int, cash, def);
                assert(first =~= seq![q]);
                lemma_debited_one(q, cash);
                lemma_debited_one(q, ar);
                lemma_debited_one(q, def);
            }
        },
        _ => {},
    }
}

/// A payment under a daily accrual account never draws more out of deferred revenue than
/// it puts there: what it releases to receivables over the service period is at most what
/// it deferred (for a non-negative payment of a non-negative charge with a service period,
/// received into an account other than deferred revenue, which differs from receivables).
pub proof fn lemma_payment_releases_at_most_deferred(p: Payment)
    requires
        p.payee_account_code matches AccountCode::Daily(ac) && p.account_code@ != ac.deferred_code@
            && ac.deferred_code@ != ac.accounts_receivable_code@,
        p.amount.pennies >= 0,
        p.payee_amount.pennies >= 0,
        period_ok(p.payee_service_start_date, p.payee_service_end_date),
    ensures
        p.payee_account_code matches AccountCode::Daily(ac) && debited(
            p.spec_postings(),
            ac.deferred_code@,
        ) <= credited(p.spec_postings(), ac.deferred_code@),
{
    match *p.payee_account_code {
        AccountCode::Daily(ac) => {
            let def = ac.deferred_code@;
            let ar = ac.accounts_receivable_code@;
            let code = p.account_code@;
            let d = spec_day_of(p.effective_on as int);
            let sched = p.schedule();
            lemma_schedule_bounded(
                p.payee_service_start_date.unwrap() as int,
                p.payee_service_end_date.unwrap() as int,
                p.payee_amount.pennies as int,
                p.previously_paid_amount.pennies as int,
            );
            let days = p.release_days();
            let k = p.days_elapsed();
            assert forall|i: int| 0 <= i < days.len() implies #[trigger] days[i].1 >= 0 by {
                if p.within_service() {
                    assert(days[i] == sched[i + k]);
                    assert(sched[i + k].1 >= 0);
                } else {
                    assert(sched[i].1 >= 0);
                }
            }
            let deferred = p.deferred_to_release();
            let release = release_postings(days, deferred, def, ar);
            let first = p.payment_day_postings(ac);
            lemma_release_at_most_deferred(days, deferred, def, ar);
            lemma_debited_concat(first, release, def);
            if p.within_service() {
                let (ar_part, def_part) = p.ar_and_deferred();
                let q0 = (d, ar_part, code, ar);
                lemma_debited_one(q0, def);
                if def_part > 0 {
                    let q1 = (d, def_part, code, def);
                    lemma_debited_concat(seq![q0], seq![q1], def);
                    lemma_debited_one(q1, def);
                } else {
                    assert(seq![q0] + Seq::<Posting>::empty() =~= seq![q0]);
                }
            } else {
                lemma_debited_one((d, p.amount.pennies as int, code, def), def);
            }
        },
        _ => {},
    }
}

/// A payment against a cash-basis charge books the cash once, on the day the payment was
/// received, whatever the charge's own dates: the amount paid is debited to the account it
/// was received into and credited to the charge's revenue account.
pub proof fn lemma_cash_payment_on_its_day(p: Payment)
    requires
        p.payee_account_code matches AccountCode::Cash(_),
    ensures
        p.payee_account_code matches AccountCode::Cash(ac) && p.spec_postings().len() == 1
            && p.spec_postings()[0] == (
            spec_day_of(p.effective_on as int),
            p.amount.pennies as int,
            p.account_code@,
            ac.revenue_code@,
        ),
{
}

/// A credit that a non-negative charge spends never exceeds what was paid before, nor
/// falls below zero.
proof fn lemma_credit_within_paid(amount: int, n: int, paid: int, i: int)
    requires
        amount >= 0,
        n >= 1,
        paid >= 0,
    ensures
        0 <= credit_before(amount, n, paid, i) <= paid,
    decreases i,
{
    if i > 0 {
        lemma_credit_within_paid(amount, n, paid, i - 1);
        lemma_share_bounds_nonneg(amount, n, i - 1);
    }
}

/// The base share of a non-negative charge is not negative.
proof fn lemma_share_bounds_nonneg(amount: int, n: int, i: int)
    requires
        amount >= 0,
        n >= 1,
    ensures
        base_share(amount, n, i) >= 0,
{
    assert(amount / n >= 0) by (nonlinear_arith)
        requires
            amount >= 0,
            n >= 1,
    ;
}

/// The running sums of days payable from zero to the charge stay between zero and the
/// charge's base shares.
proof fn lemma_share_sum_bounds(amount: int, n: int, paid: int, j: int)
    requires
        amount >= 0,
        n >= 1,
        0 <= j <= n,
        forall|i: int|
            0 <= i < n ==> 0 <= #[trigger] day_share(amount, n, paid, i) <= base_share(amount, n, i),
    ensures
        0 <= share_sum(amount, n, paid, j) <= base_sum(amount, n, j),
    decreases j,
{
    if j > 0 {
        lemma_share_sum_bounds(amount, n, paid, j - 1);
        assert(0 <= day_share(amount, n, paid, j - 1) <= base_share(amount, n, j - 1));
    }
}

/// Releasing a deferred part that fits in `i64` over days whose amounts are not negative
/// never leaves `i64`.
proof fn lemma_release_fits_within(days: Seq<(int, int)>, deferred: int)
    requires
        0 <= deferred <= i64::MAX,
        forall|i: int| 0 <= i < days.len() ==> #[trigger] days[i].1 >= 0,
    ensures
        release_fits(days, deferred),
    decreases days.len(),
{
    if days.len() > 0 && deferred != 0 && days[0].1 <= deferred {
        let rest = days.drop_first();
        assert forall|i: int| 0 <= i < rest.len() implies #[trigger] rest[i].1 >= 0 by {
            assert(rest[i] == days[i + 1]);
        }
        assert(days[0].1 >= 0);
        lemma_release_fits_within(rest, deferred - days[0].1);
    }
}

/// A payment under a daily accrual account can always be processed when its service period
/// is there, its instants are ones a UTC date-time can hold, and its amounts are not
/// negative and below 2^40 pennies: whether it comes before, during or after the service
/// period (a late payment settles all the days of the period).
pub proof fn lemma_daily_payment_ready(p: Payment)
    requires
        p.payee_account_code matches AccountCode::Daily(_),
        period_ok(p.payee_service_start_date, p.payee_service_end_date),
        instant_ok(p.effective_on as int),
        0 <= p.amount.pennies < 0x100_0000_0000,
        0 <= p.payee_amount.pennies < 0x100_0000_0000,
        0 <= p.previously_paid_amount.pennies < 0x100_0000_0000,
    ensures
        p.spec_ready(),
{
    let start = p.payee_service_start_date.unwrap() as int;
    let end = p.payee_service_end_date.unwrap() as int;
    let amount = p.payee_amount.pennies as int;
    let paid = p.previously_paid_amount.pennies as int;
    let n = service_days(start, end);
    let sched = p.schedule();
    assert(n >= 1) by {
        assert(spec_whole_days(start, end) >= 0) by (nonlinear_arith)
            requires
                start <= end,
        ;
    }
    // the credit never leaves [0, paid]
    assert forall|i: int| 0 <= i <= n implies #[trigger] credit_before(amount, n, paid, i)
        <= i64::MAX by {
        lemma_credit_within_paid(amount, n, paid, i);
    }
    assert(p.schedule_ok());
    // every day is payable within [0, its base share], so running sums stay within [0, amount]
    lemma_schedule_bounded(start, end, amount, paid);
    assert forall|i: int| 0 <= i < n implies 0 <= #[trigger] day_share(amount, n, paid, i)
        <= base_share(amount, n, i) by {
        assert(sched[i].1 == day_share(amount, n, paid, i));
    }
    lemma_div_facts(amount, n);
    let q = trunc_div(amount, n);
    let r = trunc_rem(amount, n);
    assert(q >= 0) by (nonlinear_arith)
        requires
            amount >= 0,
            n >= 1,
            amount == n * q + r,
            0 <= r < n,
    ;
    assert forall|j: int| 0 <= j <= n implies 0 <= #[trigger] amount_sum(sched.take(j)) <= amount by {
        lemma_schedule_prefix(start, end, amount, paid, j);
        lemma_share_sum_bounds(amount, n, paid, j);
        lemma_base_sum(amount, n, j);
        assert(j * q <= n * q) by (nonlinear_arith)
            requires
                0 <= j <= n,
                q >= 0,
        ;
    }
    if p.within_service() {
        let k = p.days_elapsed();
        assert(0 <= k <= n);
        assert forall|j: int| 0 <= j <= sched.take(k).len() implies fits_i64(
            #[trigger] amount_sum(sched.take(k).take(j)),
        ) by {
            assert(sched.take(k).take(j) =~= sched.take(j));
        }
        assert(0 <= p.creditable_ar() <= amount);
    }
    let days = p.release_days();
    assert forall|i: int| 0 <= i < days.len() implies #[trigger] days[i].1 >= 0 by {
        if p.within_service() {
            assert(days[i] == sched[i + p.days_elapsed()]);
        } else {
            assert(days[i] == sched[i]);
        }
    }
    lemma_release_fits_within(days, p.deferred_to_release());
}

impl<'a> Transaction for Payment<'a> {
    open spec fn spec_payee_amount(&self) -> i64 {
        self.payee_amount.pennies
    }

    open spec fn spec_previously_paid_amount(&self) -> i64 {
        self.previously_paid_amount.pennies
    }

    open spec fn spec_payee_service_start_date(&self) -> Option<Timestamp> {
        self.payee_service_start_date
    }

    open spec fn spec_payee_service_end_date(&self) -> Option<Timestamp> {
        self.payee_service_end_date
    }

    /// As the payee's account is booked: daily accrual, periodic accrual or cash; a bare
    /// account records nothing.
    open spec fn spec_postings(&self) -> Seq<Posting> {
        match *self.payee_account_code {
            AccountCode::Daily(ac) => self.daily_accrual_postings(ac),
            AccountCode::Periodic(ac) => self.accrual_postings(ac),
            AccountCode::Cash(ac) => self.cash_postings(ac),
            AccountCode::Base(_) => Seq::empty(),
        }
    }

    open spec fn spec_ready(&self) -> bool {
        match *self.payee_account_code {
            AccountCode::Daily(_) => self.daily_accrual_ok(),
            _ => true,
        }
    }

    fn previously_paid_amount(&self) -> (r: USD) {
        self.previously_paid_amount
    }

    fn payee_service_start_date(&self) -> (r: Option<Timestamp>) {
        self.payee_service_start_date
    }

    fn payee_service_end_date(&self) -> (r: Option<Timestamp>) {
        self.payee_service_end_date
    }

    fn payee_amount(&self) -> (r: USD) {
        self.payee_amount
    }

    fn is_ready(&self) -> (r: bool) {
        match self.payee_account_code {
            AccountCode::Daily(_) => self.daily_accrual_ok_check(),
            _ => true,
        }
    }

    fn process(&self, gl: &mut GeneralLedger) {
        let entries = self.entries();
        gl.record_all(&entries);
    }

    fn entries(&self) -> (r: Vec<DoubleEntry>) {
        match self.payee_account_code {
            AccountCode::Daily(ac) => self.daily_accrual_entries(ac),
            AccountCode::Periodic(ac) => self.accrual_entries(ac),
            AccountCode::Cash(ac) => self.cash_entries(ac),
            AccountCode::Base(_) => Vec::new(),
        }
    }
}

} // verus!
