use vstd::prelude::*;
use crate::chart_of_accounts::{AccountCode, AccrualAccount, CashAccount};
use crate::ledger::general_ledger::{
    GeneralLedger, Posting, DoubleEntry, balances, trial_balance, apply_postings, postings_fit,
    entries_postings, push_double_entry,
};
use crate::ledger::transaction::{
    Transaction, schedule_view, payable_schedule, schedule_ready, schedule_ready_check,
};
use crate::time::{Timestamp, day_of, spec_day_of};
use crate::usd::USD;

verus! {

/// The void of a charge: `amount` reversing a charge (the payee) of `payee_amount` against
/// `payee_account_code`, effective on `effective_on`. Nothing is booked before that day.
#[derive(Debug)]
pub struct VoidAssessment<'a> {
    pub amount: USD,
    pub effective_on: Timestamp,
    pub payee_amount: USD,
    pub payee_account_code: &'a AccountCode,
    pub payee_service_start_date: Option<Timestamp>,
    pub payee_service_end_date: Option<Timestamp>,
    pub payee_effective_on: Timestamp,
}

impl<'a> VoidAssessment<'a> {
    pub fn new(
        amount: USD,
        effective_on: Timestamp,
        payee_amount: USD,
        payee_account_code: &'a AccountCode,
        payee_service_start_date: Option<Timestamp>,
        payee_service_end_date: Option<Timestamp>,
        payee_effective_on: Timestamp,
    ) -> (r: VoidAssessment<'a>)
        ensures
            r.amount == amount,
            r.effective_on == effective_on,
            r.payee_amount == payee_amount,
            *r.payee_account_code == *payee_account_code,
            r.payee_service_start_date == payee_service_start_date,
            r.payee_service_end_date == payee_service_end_date,
            r.payee_effective_on == payee_effective_on,
    {
        VoidAssessment {
            amount: amount,
            effective_on: effective_on,
            payee_amount: payee_amount,
            payee_account_code: payee_account_code,
            payee_service_start_date: payee_service_start_date,
            payee_service_end_date: payee_service_end_date,
            payee_effective_on: payee_effective_on,
        }
    }
}

/// The double entry of reversing `(instant, amount)` of a daily schedule: receivables
/// debited and revenue credited on that day, or on `effective_on` if the day is earlier.
pub open spec fn void_entry(e: (int, int), effective_on: int, account: AccrualAccount) -> Posting {
    (
        spec_day_of(if e.0 < effective_on { effective_on } else { e.0 }),
        e.1,
        account.accounts_receivable_code@,
        account.revenue_code@,
    )
}

impl<'a> VoidAssessment<'a> {
    /// The daily schedule of the voided amount.
    pub open spec fn schedule(&self) -> Seq<(int, int)> {
        payable_schedule(
            self.payee_service_start_date.unwrap() as int,
            self.payee_service_end_date.unwrap() as int,
            self.amount.pennies as int,
            0,
        )
    }

    /// The daily schedule can be computed.
    pub open spec fn schedule_ok(&self) -> bool {
        schedule_ready(self.payee_service_start_date, self.payee_service_end_date, self.amount.pennies as int, 0)
    }

    /// Under a daily accrual account: each day of the schedule, receivables debited and
    /// revenue credited that day, or on the effective day for days before it.
    pub open spec fn daily_accrual_postings(&self, account: AccrualAccount) -> Seq<Posting> {
        self.schedule().map_values(|e: (int, int)| void_entry(e, self.effective_on as int, account))
    }

    /// Under a periodic accrual account: the whole voided amount, receivables debited and
    /// revenue credited, on the effective day.
    pub open spec fn accrual_postings(&self, account: AccrualAccount) -> Seq<Posting> {
        seq![
            (
                spec_day_of(self.effective_on as int),
                self.amount.pennies as int,
                account.accounts_receivable_code@,
                account.revenue_code@,
            ),
        ]
    }

    /// The account of the voided charge.
    pub fn process_account_code(&self) -> (r: &'a AccountCode)
        ensures
            *r == *self.payee_account_code,
    {
        self.payee_account_code
    }

    /// The double entries of a daily accrual account, in order.
    pub fn daily_accrual_entries(&self, account_code: &AccrualAccount) -> (r: Vec<DoubleEntry>)
        requires
            self.schedule_ok(),
        ensures
            entries_postings(r@) == self.daily_accrual_postings(*account_code),
    {
        let amounts = self.payable_amounts_per_day();
        let ghost ps = self.daily_accrual_postings(*account_code);
        let mut journal: Vec<DoubleEntry> = Vec::new();
        let mut i: usize = 0;
        proof {
            assert(entries_postings(journal@) =~= ps.take(0));
        }
        while i < amounts.len()
            invariant
                schedule_view(amounts@) == self.schedule(),
                ps == self.daily_accrual_postings(*account_code),
                ps.len() == amounts@.len(),
                0 <= i <= amounts@.len(),
                entries_postings(journal@) == ps.take(i as int),
            decreases amounts@.len() - i,
        {
            let (date, amount) = amounts[i];
            let entry_date = if date < self.effective_on {
                self.effective_on
            } else {
                date
            };
            proof {
                assert(schedule_view(amounts@)[i as int] == (date as int, amount.pennies as int));
                assert(ps.take(i + 1) =~= ps.take(i as int).push(ps[i as int]));
            }
            push_double_entry(
                &mut journal,
                day_of(entry_date),
                amount,
                &account_code.accounts_receivable_code,
                &account_code.revenue_code,
            );
            i = i + 1;
        }
        proof {
            assert(ps.take(ps.len() as int) =~= ps);
        }
        journal
    }

    /// The double entries of a periodic accrual account.
    pub fn accrual_entries(&self, account_code: &AccrualAccount) -> (r: Vec<DoubleEntry>)
        ensures
            entries_postings(r@) == self.accrual_postings(*account_code),
    {
        let mut journal: Vec<DoubleEntry> = Vec::new();
        push_double_entry(
            &mut journal,
            day_of(self.effective_on),
            self.amount,
            &account_code.accounts_receivable_code,
            &account_code.revenue_code,
        );
        proof {
            assert(entries_postings(journal@) =~= self.accrual_postings(*account_code));
        }
        journal
    }

    /// Records the void day by day over its service period.
    pub fn process_daily_accrual(&self, account_code: &AccrualAccount, gl: &mut GeneralLedger)
        requires
            self.schedule_ok(),
            postings_fit(balances(old(gl)@), self.daily_accrual_postings(*account_code)),
        ensures
            balances(final(gl)@) == apply_postings(
                balances(old(gl)@),
                self.daily_accrual_postings(*account_code),
            ),
            trial_balance(final(gl)@) == trial_balance(old(gl)@),
    {
        let entries = self.daily_accrual_entries(account_code);
        gl.record_all(&entries);
    }

    /// Records the whole void on its effective day.
    pub fn process_accrual(&self, account_code: &AccrualAccount, gl: &mut GeneralLedger)
        requires
            postings_fit(balances(old(gl)@), self.accrual_postings(*account_code)),
        ensures
            balances(final(gl)@) == apply_postings(
                balances(old(gl)@),
                self.accrual_postings(*account_code),
            ),
            trial_balance(final(gl)@) == trial_balance(old(gl)@),
    {
        let entries = self.accrual_entries(account_code);
        gl.record_all(&entries);
    }

    /// Cash-based revenue is not recorded for a void.
    pub fn process_cash(&self, _account_code: &CashAccount, gl: &mut GeneralLedger)
        ensures
            final(gl)@ == old(gl)@,
    {
    }
}

/// A void books nothing before its effective day: every entry it makes falls on that
/// day or later.
pub proof fn lemma_void_not_before_effective(v: VoidAssessment)
    ensures
        forall|i: int|
            0 <= i < v.spec_postings().len() ==> (#[trigger] v.spec_postings()[i]).0 >= spec_day_of(
                v.effective_on as int,
            ),
{
    assert forall|i: int| 0 <= i < v.spec_postings().len() implies (
    #[trigger] v.spec_postings()[i]).0 >= spec_day_of(v.effective_on as int) by {
        match *v.payee_account_code {
            AccountCode::Daily(ac) => {
                let e = v.schedule()[i];
                let t = if e.0 < v.effective_on { v.effective_on as int } else { e.0 };
                assert(t / 86_400_000_000_000 >= (v.effective_on as int) / 86_400_000_000_000) by (nonlinear_arith)
                    requires t >= v.effective_on;
            },
            _ => {},
        }
    }
}

/// A void under a periodic accrual account moves exactly the amount voided, once, on the
/// void's effective day: receivables debited and revenue credited by that amount.
pub proof fn lemma_periodic_void_moves_its_amount(v: VoidAssessment)
    requires
        v.payee_account_code matches AccountCode::Periodic(_),
    ensures
        v.payee_account_code matches AccountCode::Periodic(ac) && v.spec_postings().len() == 1
            && v.spec_postings()[0] == (
            spec_day_of(v.effective_on as int),
            v.amount.pennies as int,
            ac.accounts_receivable_code@,
            ac.revenue_code@,
        ),
{
}

/// What a void books depends on the amount voided, not on the amount of the charge it
/// voids: two voids that differ only in the charge's amount book the same entries.
pub proof fn lemma_void_ignores_payee_amount(v: VoidAssessment, w: VoidAssessment)
    requires
        v.amount == w.amount,
        v.effective_on == w.effective_on,
        *v.payee_account_code == *w.payee_account_code,
        v.payee_service_start_date == w.payee_service_start_date,
        v.payee_service_end_date == w.payee_service_end_date,
        v.payee_effective_on == w.payee_effective_on,
    ensures
        v.spec_postings() == w.spec_postings(),
        v.spec_ready() == w.spec_ready(),
{
}

impl<'a> Transaction for VoidAssessment<'a> {
    open spec fn spec_payee_amount(&self) -> i64 {
        self.amount.pennies
    }

    open spec fn spec_previously_paid_amount(&self) -> i64 {
        0
    }

    open spec fn spec_payee_service_start_date(&self) -> Option<Timestamp> {
        self.payee_service_start_date
    }

    open spec fn spec_payee_service_end_date(&self) -> Option<Timestamp> {
        self.payee_service_end_date
    }

    /// Daily accrual accounts are booked day by day, periodic ones at once, cash and bare
    /// accounts record nothing. The amount spread is the void's own amount.
    open spec fn spec_postings(&self) -> Seq<Posting> {
        match *self.payee_account_code {
            AccountCode::Daily(ac) => self.daily_accrual_postings(ac),
            AccountCode::Periodic(ac) => self.accrual_postings(ac),
            _ => Seq::empty(),
        }
    }

    open spec fn spec_ready(&self) -> bool {
        match *self.payee_account_code {
            AccountCode::Daily(_) => self.schedule_ok(),
            _ => true,
        }
    }

    fn previously_paid_amount(&self) -> (r: USD) {
        USD::zero()
    }

    fn payee_service_start_date(&self) -> (r: Option<Timestamp>) {
        self.payee_service_start_date
    }

    fn payee_service_end_date(&self) -> (r: Option<Timestamp>) {
        self.payee_service_end_date
    }

    fn payee_amount(&self) -> (r: USD) {
        self.amount
    }

    fn is_ready(&self) -> (r: bool) {
        match self.payee_account_code {
            AccountCode::Daily(_) => schedule_ready_check(
                self.payee_service_start_date,
                self.payee_service_end_date,
                self.amount.pennies,
                0,
            ),
            _ => true,
        }
    }

    fn process(&self, gl: &mut GeneralLedger) {
        let entries = self.entries();
        gl.record_all(&entries);
    }

    fn entries(&self) -> (r: Vec<DoubleEntry>) {
        match self.payee_account_code {
            AccountCode::Daily(ac) => self.daily_accrual_entries(ac),
            AccountCode::Periodic(ac) => self.accrual_entries(ac),
            _ => Vec::new(),
        }
    }
}

} // verus!
