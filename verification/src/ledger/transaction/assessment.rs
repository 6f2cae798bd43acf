use vstd::prelude::*;
use crate::chart_of_accounts::{AccountCode, AccrualAccount, CashAccount};
use crate::ledger::general_ledger::{
    GeneralLedger, Posting, DoubleEntry, balances, trial_balance, apply_postings, postings_fit,
    entries_postings, push_double_entry, debited, credited, lemma_debited_one,
};
use crate::ledger::transaction::{
    Transaction, schedule_view, payable_schedule, schedule_ready, schedule_ready_check,
    period_ok, amount_sum,
    lemma_schedule_spreads_amount,
};
use crate::time::{Timestamp, day_of, spec_day_of};
use crate::usd::USD;

verus! {

/// A charge: `amount` assessed against an account on `effective_on`, for the service
/// period from `service_start_date` to `service_end_date` where it has one.
#[derive(Debug)]
pub struct Assessment<'a> {
    pub amount: USD,
    pub account_code: &'a AccountCode,
    pub effective_on: Timestamp,
    pub service_start_date: Option<Timestamp>,
    pub service_end_date: Option<Timestamp>,
}

impl<'a> Assessment<'a> {
    pub fn new(
        amount: USD,
        account_code: &'a AccountCode,
        effective_on: Timestamp,
        service_start_date: Option<Timestamp>,
        service_end_date: Option<Timestamp>,
    ) -> (r: Assessment<'a>)
        ensures
            r.amount == amount,
            *r.account_code == *account_code,
            r.effective_on == effective_on,
            r.service_start_date == service_start_date,
            r.service_end_date == service_end_date,
    {
        Assessment {
            amount: amount,
            account_code: account_code,
            effective_on: effective_on,
            service_start_date: service_start_date,
            service_end_date: service_end_date,
        }
    }
}

/// The double entry of accruing `(instant, amount)` of a daily schedule: receivables
/// debited and revenue credited on that day.
pub open spec fn accrual_entry(e: (int, int), account: AccrualAccount) -> Posting {
    (spec_day_of(e.0), e.1, account.accounts_receivable_code@, account.revenue_code@)
}

impl<'a> Assessment<'a> {
    /// The charge's daily schedule.
    pub open spec fn schedule(&self) -> Seq<(int, int)> {
        payable_schedule(
            self.service_start_date.unwrap() as int,
            self.service_end_date.unwrap() as int,
            self.amount.pennies as int,
            0,
        )
    }

    /// The daily schedule can be computed.
    pub open spec fn schedule_ok(&self) -> bool {
        schedule_ready(self.service_start_date, self.service_end_date, self.amount.pennies as int, 0)
    }

    /// Under a daily accrual account: each day of the schedule, receivables debited and
    /// revenue credited that day.
    pub open spec fn daily_accrual_postings(&self, account: AccrualAccount) -> Seq<Posting> {
        self.schedule().map_values(|e: (int, int)| accrual_entry(e, account))
    }

    /// Under a periodic accrual account: the whole amount, receivables debited and revenue
    /// credited, on the effective day.
    pub open spec fn accrual_postings(&self, account: AccrualAccount) -> Seq<Posting> {
        seq![
            (
                spec_day_of(self.effective_on as int),
                self.amount.pennies as int,
                account.accounts_receivable_code@,
                account.revenue_code@,
            ),
        ]
    }

    /// The account charged.
    pub fn process_account_code(&self) -> (r: &'a AccountCode)
        ensures
            *r == *self.account_code,
    {
        self.account_code
    }

    /// The double entries of a daily accrual account, in order.
    pub fn daily_accrual_entries(&self, account_code: &AccrualAccount) -> (r: Vec<DoubleEntry>)
        requires
            self.schedule_ok(),
        ensures
            entries_postings(r@) == self.daily_accrual_postings(*account_code),
    {
        let amounts = self.payable_amounts_per_day();
        let ghost ps = self.daily_accrual_postings(*account_code);
        let mut journal: Vec<DoubleEntry> = Vec::new();
        let mut i: usize = 0;
        proof {
            assert(entries_postings(journal@) =~= ps.take(0));
        }
        while i < amounts.len()
            invariant
                schedule_view(amounts@) == self.schedule(),
                ps == self.daily_accrual_postings(*account_code),
                ps.len() == amounts@.len(),
                0 <= i <= amounts@.len(),
                entries_postings(journal@) == ps.take(i as int),
            decreases amounts@.len() - i,
        {
            let (date, amount) = amounts[i];
            let entry_date = date;
            proof {
                assert(schedule_view(amounts@)[i as int] == (date as int, amount.pennies as int));
                assert(ps.take(i + 1) =~= ps.take(i as int).push(ps[i as int]));
            }
            push_double_entry(
                &mut journal,
                day_of(entry_date),
                amount,
                &account_code.accounts_receivable_code,
                &account_code.revenue_code,
            );
            i = i + 1;
        }
        proof {
            assert(ps.take(ps.len() as int) =~= ps);
        }
        journal
    }

    /// The double entries of a periodic accrual account.
    pub fn accrual_entries(&self, account_code: &AccrualAccount) -> (r: Vec<DoubleEntry>)
        ensures
            entries_postings(r@) == self.accrual_postings(*account_code),
    {
        let mut journal: Vec<DoubleEntry> = Vec::new();
        push_double_entry(
            &mut journal,
            day_of(self.effective_on),
            self.amount,
            &account_code.accounts_receivable_code,
            &account_code.revenue_code,
        );
        proof {
            assert(entries_postings(journal@) =~= self.accrual_postings(*account_code));
        }
        journal
    }

    /// Records the charge day by day over its service period.
    pub fn process_daily_accrual(&self, account_code: &AccrualAccount, gl: &mut GeneralLedger)
        requires
            self.schedule_ok(),
            postings_fit(balances(old(gl)@), self.daily_accrual_postings(*account_code)),
        ensures
            balances(final(gl)@) == apply_postings(
                balances(old(gl)@),
                self.daily_accrual_postings(*account_code),
            ),
            trial_balance(final(gl)@) == trial_balance(old(gl)@),
    {
        let entries = self.daily_accrual_entries(account_code);
        gl.record_all(&entries);
    }

    /// Records the whole charge on its effective day.
    pub fn process_accrual(&self, account_code: &AccrualAccount, gl: &mut GeneralLedger)
        requires
            postings_fit(balances(old(gl)@), self.accrual_postings(*account_code)),
        ensures
            balances(final(gl)@) == apply_postings(
                balances(old(gl)@),
                self.accrual_postings(*account_code),
            ),
            trial_balance(final(gl)@) == trial_balance(old(gl)@),
    {
        let entries = self.accrual_entries(account_code);
        gl.record_all(&entries);
    }

    /// Cash-based revenue is not recorded for a charge.
    pub fn process_cash(&self, _account_code: &CashAccount, gl: &mut GeneralLedger)
        ensures
            final(gl)@ == old(gl)@,
    {
    }
}

/// The daily accrual entries of a schedule debit receivables, and credit revenue, by what
/// the schedule adds up to.
pub proof fn lemma_accrual_entries_total(sched: Seq<(int, int)>, account: AccrualAccount)
    requires
        account.accounts_receivable_code@ != account.revenue_code@,
    ensures
        debited(
            sched.map_values(|e: (int, int)| accrual_entry(e, account)),
            account.accounts_receivable_code@,
        ) == amount_sum(sched),
        credited(
            sched.map_values(|e: (int, int)| accrual_entry(e, account)),
            account.revenue_code@,
        ) == amount_sum(sched),
    decreases sched.len(),
{
    let ps = sched.map_values(|e: (int, int)| accrual_entry(e, account));
    if sched.len() > 0 {
        lemma_accrual_entries_total(sched.drop_last(), account);
        assert(ps.drop_last() =~= sched.drop_last().map_values(
            |e: (int, int)| accrual_entry(e, account),
        ));
    } else {
        assert(ps =~= Seq::<Posting>::empty());
    }
}

/// An assessment under an accrual account debits receivables, and credits revenue, by
/// exactly the amount charged: periodically at once, daily spread over its service period
/// (for a non-negative charge). Receivables and revenue must be different accounts.
pub proof fn lemma_assessment_accrues_amount(a: Assessment)
    requires
        match *a.account_code {
            AccountCode::Daily(ac) => {
                &&& ac.accounts_receivable_code@ != ac.revenue_code@
                &&& a.amount.pennies >= 0
                &&& period_ok(a.service_start_date, a.service_end_date)
            },
            AccountCode::Periodic(ac) => ac.accounts_receivable_code@ != ac.revenue_code@,
            _ => false,
        },
    ensures
        match *a.account_code {
            AccountCode::Daily(ac) => debited(a.spec_postings(), ac.accounts_receivable_code@)
                == a.amount.pennies && credited(a.spec_postings(), ac.revenue_code@)
                == a.amount.pennies,
            AccountCode::Periodic(ac) => debited(a.spec_postings(), ac.accounts_receivable_code@)
                == a.amount.pennies && credited(a.spec_postings(), ac.revenue_code@)
                == a.amount.pennies,
            _ => true,
        },
{
    match *a.account_code {
        AccountCode::Daily(ac) => {
            lemma_accrual_entries_total(a.schedule(), ac);
            lemma_schedule_spreads_amount(
                a.service_start_date.unwrap() as int,
                a.service_end_date.unwrap() as int,
                a.amount.pennies as int,
                0,
            );
        },
        AccountCode::Periodic(ac) => {
            lemma_debited_one(a.accrual_postings(ac)[0], ac.accounts_receivable_code@);
            lemma_debited_one(a.accrual_postings(ac)[0], ac.revenue_code@);
            assert(a.accrual_postings(ac) =~= seq![a.accrual_postings(ac)[0]]);
        },
        _ => {},
    }
}

/// A charge under a periodic accrual account books its whole amount at once, on its
/// effective day, whatever its service period: receivables debited and revenue credited.
pub proof fn lemma_periodic_charge_on_effective_day(a: Assessment)
    requires
        a.account_code matches AccountCode::Periodic(_),
    ensures
        a.account_code matches AccountCode::Periodic(ac) && a.spec_postings().len() == 1
            && a.spec_postings()[0] == (
            spec_day_of(a.effective_on as int),
            a.amount.pennies as int,
            ac.accounts_receivable_code@,
            ac.revenue_code@,
        ),
{
}

impl<'a> Transaction for Assessment<'a> {
    open spec fn spec_payee_amount(&self) -> i64 {
        self.amount.pennies
    }

    open spec fn spec_previously_paid_amount(&self) -> i64 {
        0
    }

    open spec fn spec_payee_service_start_date(&self) -> Option<Timestamp> {
        self.service_start_date
    }

    open spec fn spec_payee_service_end_date(&self) -> Option<Timestamp> {
        self.service_end_date
    }

    /// Daily accrual accounts accrue day by day, periodic ones at once, cash and bare
    /// accounts record nothing.
    open spec fn spec_postings(&self) -> Seq<Posting> {
        match *self.account_code {
            AccountCode::Daily(ac) => self.daily_accrual_postings(ac),
            AccountCode::Periodic(ac) => self.accrual_postings(ac),
            _ => Seq::empty(),
        }
    }

    open spec fn spec_ready(&self) -> bool {
        match *self.account_code {
            AccountCode::Daily(_) => self.schedule_ok(),
            _ => true,
        }
    }

    fn previously_paid_amount(&self) -> (r: USD) {
        USD::zero()
    }

    fn payee_service_start_date(&self) -> (r: Option<Timestamp>) {
        self.service_start_date
    }

    fn payee_service_end_date(&self) -> (r: Option<Timestamp>) {
        self.service_end_date
    }

    fn payee_amount(&self) -> (r: USD) {
        self.amount
    }

    fn is_ready(&self) -> (r: bool) {
        match self.account_code {
            AccountCode::Daily(_) => schedule_ready_check(
                self.service_start_date,
                self.service_end_date,
                self.amount.pennies,
                0,
            ),
            _ => true,
        }
    }

    fn process(&self, gl: &mut GeneralLedger) {
        let entries = self.entries();
        gl.record_all(&entries);
    }

    fn entries(&self) -> (r: Vec<DoubleEntry>) {
        match self.account_code {
            AccountCode::Daily(ac) => self.daily_accrual_entries(ac),
            AccountCode::Periodic(ac) => self.accrual_entries(ac),
            _ => Vec::new(),
        }
    }
}

} // verus!
