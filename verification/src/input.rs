use vstd::prelude::*;
use crate::chart_of_accounts::ChartOfAccounts;
use crate::ledger::Ledger;
use crate::ledger::transaction::assessment::Assessment;
use crate::ledger::transaction::payment::Payment;
use crate::ledger::transaction::void_assessment::VoidAssessment;
use crate::time::Timestamp;
use crate::usd::USD;

verus! {

/// The transactions of a ledger as received, with accounts named by their codes.
#[derive(Debug)]
pub struct InputLedger {
    pub assessments: Vec<InputAssessment>,
    pub void_assessments: Vec<InputVoidAssessment>,
    pub payments: Vec<InputPayment>,
}

/// An assessment as received.
#[derive(Debug)]
pub struct InputAssessment {
    pub amount: USD,
    pub account_code: String,
    pub effective_on: Timestamp,
    pub service_start_date: Option<Timestamp>,
    pub service_end_date: Option<Timestamp>,
}

/// A payment as received.
#[derive(Debug)]
pub struct InputPayment {
    pub amount: USD,
    pub account_code: String,
    pub effective_on: Timestamp,
    pub payee_amount: USD,
    pub payee_account_code: String,
    pub payee_service_start_date: Option<Timestamp>,
    pub payee_service_end_date: Option<Timestamp>,
    pub payee_effective_on: Timestamp,
    pub payee_resolved_on: Option<Timestamp>,
    pub previously_paid_amount: USD,
}

/// A void of an assessment as received.
#[derive(Debug)]
pub struct InputVoidAssessment {
    pub amount: USD,
    pub effective_on: Timestamp,
    pub payee_amount: USD,
    pub payee_account_code: String,
    pub payee_service_start_date: Option<Timestamp>,
    pub payee_service_end_date: Option<Timestamp>,
    pub payee_effective_on: Timestamp,
}

/// `a` is `i` with its account looked up in `chart`.
pub open spec fn assessment_from(a: Assessment, i: InputAssessment, chart: ChartOfAccounts) -> bool {
    &&& a.amount == i.amount
    &&& *a.account_code == chart.table@[i.account_code@]
    &&& a.effective_on == i.effective_on
    &&& a.service_start_date == i.service_start_date
    &&& a.service_end_date == i.service_end_date
}

/// `p` is `i` with the payee's account looked up in `chart`.
pub open spec fn payment_from(p: Payment, i: InputPayment, chart: ChartOfAccounts) -> bool {
    &&& p.amount == i.amount
    &&& p.account_code == i.account_code
    &&& p.effective_on == i.effective_on
    &&& p.payee_amount == i.payee_amount
    &&& *p.payee_account_code == chart.table@[i.payee_account_code@]
    &&& p.payee_service_start_date == i.payee_service_start_date
    &&& p.payee_service_end_date == i.payee_service_end_date
    &&& p.payee_effective_on == i.payee_effective_on
    &&& p.payee_resolved_on == i.payee_resolved_on
    &&& p.previously_paid_amount == i.previously_paid_amount
}

/// `v` is `i` with the payee's account looked up in `chart`.
pub open spec fn void_assessment_from(
    v: VoidAssessment,
    i: InputVoidAssessment,
    chart: ChartOfAccounts,
) -> bool {
    &&& v.amount == i.amount
    &&& v.effective_on == i.effective_on
    &&& v.payee_amount == i.payee_amount
    &&& *v.payee_account_code == chart.table@[i.payee_account_code@]
    &&& v.payee_service_start_date == i.payee_service_start_date
    &&& v.payee_service_end_date == i.payee_service_end_date
    &&& v.payee_effective_on == i.payee_effective_on
}

/// Every account named by the input is in the chart.
pub open spec fn accounts_known(input: InputLedger, chart: ChartOfAccounts) -> bool {
    &&& forall|i: int|
        0 <= i < input.assessments@.len() ==> chart.table@.contains_key(
            #[trigger] input.assessments@[i].account_code@,
        )
    &&& forall|i: int|
        0 <= i < input.void_assessments@.len() ==> chart.table@.contains_key(
            #[trigger] input.void_assessments@[i].payee_account_code@,
        )
    &&& forall|i: int|
        0 <= i < input.payments@.len() ==> chart.table@.contains_key(
            #[trigger] input.payments@[i].payee_account_code@,
        )
}

impl InputLedger {
    /// The ledger of these transactions, each account looked up in `chart`. An account
    /// missing from the chart has no booking to look up, so every account named must be in it.
    pub fn into_ledger<'a>(self, chart: &'a ChartOfAccounts) -> (r: Ledger<'a>)
        requires
            accounts_known(self, *chart),
        ensures
            r.assessments@.len() == self.assessments@.len(),
            r.void_assessments@.len() == self.void_assessments@.len(),
            r.payments@.len() == self.payments@.len(),
            forall|i: int|
                0 <= i < r.assessments@.len() ==> assessment_from(
                    #[trigger] r.assessments@[i],
                    self.assessments@[i],
                    *chart,
                ),
            forall|i: int|
                0 <= i < r.void_assessments@.len() ==> void_assessment_from(
                    #[trigger] r.void_assessments@[i],
                    self.void_assessments@[i],
                    *chart,
                ),
            forall|i: int|
                0 <= i < r.payments@.len() ==> payment_from(
                    #[trigger] r.payments@[i],
                    self.payments@[i],
                    *chart,
                ),
            forall|i: int|
                0 <= i < r.assessments@.len() ==> {
                    &&& (#[trigger] r.assessments@[i]).amount == self.assessments@[i].amount
                    &&& r.assessments@[i].effective_on == self.assessments@[i].effective_on
                    &&& r.assessments@[i].service_start_date
                        == self.assessments@[i].service_start_date
                    &&& r.assessments@[i].service_end_date
                        == self.assessments@[i].service_end_date
                },
            forall|i: int|
                0 <= i < r.void_assessments@.len() ==> {
                    &&& (#[trigger] r.void_assessments@[i]).amount
                        == self.void_assessments@[i].amount
                    &&& r.void_assessments@[i].effective_on
                        == self.void_assessments@[i].effective_on
                    &&& r.void_assessments@[i].payee_amount
                        == self.void_assessments@[i].payee_amount
                    &&& r.void_assessments@[i].payee_service_start_date
                        == self.void_assessments@[i].payee_service_start_date
                    &&& r.void_assessments@[i].payee_service_end_date
                        == self.void_assessments@[i].payee_service_end_date
                    &&& r.void_assessments@[i].payee_effective_on
                        == self.void_assessments@[i].payee_effective_on
                },
            forall|i: int|
                0 <= i < r.payments@.len() ==> {
                    &&& (#[trigger] r.payments@[i]).amount == self.payments@[i].amount
                    &&& r.payments@[i].account_code == self.payments@[i].account_code
                    &&& r.payments@[i].effective_on == self.payments@[i].effective_on
                    &&& r.payments@[i].payee_amount == self.payments@[i].payee_amount
                    &&& r.payments@[i].payee_service_start_date
                        == self.payments@[i].payee_service_start_date
                    &&& r.payments@[i].payee_service_end_date
                        == self.payments@[i].payee_service_end_date
                    &&& r.payments@[i].payee_effective_on
                        == self.payments@[i].payee_effective_on
                    &&& r.payments@[i].payee_resolved_on
                        == self.payments@[i].payee_resolved_on
                    &&& r.payments@[i].previously_paid_amount
                        == self.payments@[i].previously_paid_amount
                },
    {
        let ghost input = self;
        let mut assessments: Vec<Assessment<'a>> = Vec::new();
        for ass in it: self.assessments.into_iter()
            invariant
                it.seq() == input.assessments@,
                accounts_known(input, *chart),
                assessments@.len() == it.index(),
                forall|j: int|
                    0 <= j < assessments@.len() ==> assessment_from(
                        #[trigger] assessments@[j],
                        input.assessments@[j],
                        *chart,
                    ),
        {
            assessments.push(ass.into_assessment(chart));
        }
        let mut void_assessments: Vec<VoidAssessment<'a>> = Vec::new();
        for void_ass in it: self.void_assessments.into_iter()
            invariant
                it.seq() == input.void_assessments@,
                accounts_known(input, *chart),
                void_assessments@.len() == it.index(),
                forall|j: int|
                    0 <= j < void_assessments@.len() ==> void_assessment_from(
                        #[trigger] void_assessments@[j],
                        input.void_assessments@[j],
                        *chart,
                    ),
        {
            void_assessments.push(void_ass.into_void_assessment(chart));
        }
        let mut payments: Vec<Payment<'a>> = Vec::new();
        for payment in it: self.payments.into_iter()
            invariant
                it.seq() == input.payments@,
                accounts_known(input, *chart),
                payments@.len() == it.index(),
                forall|j: int|
                    0 <= j < payments@.len() ==> payment_from(
                        #[trigger] payments@[j],
                        input.payments@[j],
                        *chart,
                    ),
        {
            payments.push(payment.into_payment(chart));
        }
        Ledger::new(assessments, void_assessments, payments)
    }
}

impl InputLedger {
    /// Whether every account that the input names is in `chart`.
    pub fn accounts_known_check(&self, chart: &ChartOfAccounts) -> (b: bool)
        ensures
            b == accounts_known(*self, *chart),
    {
        let mut i: usize = 0;
        while i < self.assessments.len()
            invariant
                i <= self.assessments@.len(),
                forall|j: int|
                    0 <= j < i ==> chart.table@.contains_key(
                        #[trigger] self.assessments@[j].account_code@,
                    ),
            decreases self.assessments@.len() - i,
        {
            if chart.get(self.assessments[i].account_code.as_str()).is_none() {
                return false;
            }
            i = i + 1;
        }
        let mut i: usize = 0;
        while i < self.void_assessments.len()
            invariant
                i <= self.void_assessments@.len(),
                forall|j: int|
                    0 <= j < i ==> chart.table@.contains_key(
                        #[trigger] self.void_assessments@[j].payee_account_code@,
                    ),
            decreases self.void_assessments@.len() - i,
        {
            if chart.get(self.void_assessments[i].payee_account_code.as_str()).is_none() {
                return false;
            }
            i = i + 1;
        }
        let mut i: usize = 0;
        while i < self.payments.len()
            invariant
                i <= self.payments@.len(),
                forall|j: int|
                    0 <= j < i ==> chart.table@.contains_key(
                        #[trigger] self.payments@[j].payee_account_code@,
                    ),
            decreases self.payments@.len() - i,
        {
            if chart.get(self.payments[i].payee_account_code.as_str()).is_none() {
                return false;
            }
            i = i + 1;
        }
        true
    }

    /// The ledger of these transactions as `into_ledger` builds it, or `None` where the
    /// input names an account that is not in `chart`.
    pub fn try_into_ledger<'a>(self, chart: &'a ChartOfAccounts) -> (r: Option<Ledger<'a>>)
        ensures
            r is Some <==> accounts_known(self, *chart),
            r is Some ==> forall|i: int|
                0 <= i < r->0.assessments@.len() ==> {
                    &&& (#[trigger] r->0.assessments@[i]).amount == self.assessments@[i].amount
                    &&& r->0.assessments@[i].effective_on == self.assessments@[i].effective_on
                    &&& r->0.assessments@[i].service_start_date
                        == self.assessments@[i].service_start_date
                    &&& r->0.assessments@[i].service_end_date
                        == self.assessments@[i].service_end_date
                },
            r is Some ==> forall|i: int|
                0 <= i < r->0.void_assessments@.len() ==> {
                    &&& (#[trigger] r->0.void_assessments@[i]).amount
                        == self.void_assessments@[i].amount
                    &&& r->0.void_assessments@[i].effective_on
                        == self.void_assessments@[i].effective_on
                    &&& r->0.void_assessments@[i].payee_amount
                        == self.void_assessments@[i].payee_amount
                    &&& r->0.void_assessments@[i].payee_service_start_date
                        == self.void_assessments@[i].payee_service_start_date
                    &&& r->0.void_assessments@[i].payee_service_end_date
                        == self.void_assessments@[i].payee_service_end_date
                    &&& r->0.void_assessments@[i].payee_effective_on
                        == self.void_assessments@[i].payee_effective_on
                },
            r is Some ==> forall|i: int|
                0 <= i < r->0.payments@.len() ==> {
                    &&& (#[trigger] r->0.payments@[i]).amount == self.payments@[i].amount
                    &&& r->0.payments@[i].account_code == self.payments@[i].account_code
                    &&& r->0.payments@[i].effective_on == self.payments@[i].effective_on
                    &&& r->0.payments@[i].payee_amount == self.payments@[i].payee_amount
                    &&& r->0.payments@[i].payee_service_start_date
                        == self.payments@[i].payee_service_start_date
                    &&& r->0.payments@[i].payee_service_end_date
                        == self.payments@[i].payee_service_end_date
                    &&& r->0.payments@[i].payee_effective_on
                        == self.payments@[i].payee_effective_on
                    &&& r->0.payments@[i].payee_resolved_on
                        == self.payments@[i].payee_resolved_on
                    &&& r->0.payments@[i].previously_paid_amount
                        == self.payments@[i].previously_paid_amount
                },

            r matches Some(l) ==> {
                &&& r->0.assessments@.len() == self.assessments@.len()
                &&& r->0.void_assessments@.len() == self.void_assessments@.len()
                &&& r->0.payments@.len() == self.payments@.len()
                &&& forall|i: int|
                    0 <= i < r->0.assessments@.len() ==> assessment_from(
                        #[trigger] r->0.assessments@[i],
                        self.assessments@[i],
                        *chart,
                    )
                &&& forall|i: int|
                    0 <= i < r->0.void_assessments@.len() ==> void_assessment_from(
                        #[trigger] r->0.void_assessments@[i],
                        self.void_assessments@[i],
                        *chart,
                    )
                &&& forall|i: int|
                    0 <= i < r->0.payments@.len() ==> payment_from(
                        #[trigger] r->0.payments@[i],
                        self.payments@[i],
                        *chart,
                    )
            },
    {
        if self.accounts_known_check(chart) {
            Some(self.into_ledger(chart))
        } else {
            None
        }
    }
}

impl InputAssessment {
    fn into_assessment<'a>(self, chart: &'a ChartOfAccounts) -> (r: Assessment<'a>)
        requires
            chart.table@.contains_key(self.account_code@),
        ensures
            assessment_from(r, self, *chart),
    {
        Assessment::new(
            self.amount,
            chart.get(self.account_code.as_str()).unwrap(),
            self.effective_on,
            self.service_start_date,
            self.service_end_date,
        )
    }
}

impl InputPayment {
    fn into_payment<'a>(self, chart: &'a ChartOfAccounts) -> (r: Payment<'a>)
        requires
            chart.table@.contains_key(self.payee_account_code@),
        ensures
            payment_from(r, self, *chart),
    {
        Payment::new(
            self.amount,
            self.account_code,
            self.effective_on,
            self.payee_amount,
            chart.get(self.payee_account_code.as_str()).unwrap(),
            self.payee_service_start_date,
            self.payee_service_end_date,
            self.payee_effective_on,
            self.payee_resolved_on,
            self.previously_paid_amount,
        )
    }
}

impl InputVoidAssessment {
    fn into_void_assessment<'a>(self, chart: &'a ChartOfAccounts) -> (r: VoidAssessment<'a>)
        requires
            chart.table@.contains_key(self.payee_account_code@),
        ensures
            void_assessment_from(r, self, *chart),
    {
        VoidAssessment::new(
            self.amount,
            self.effective_on,
            self.payee_amount,
            chart.get(self.payee_account_code.as_str()).unwrap(),
            self.payee_service_start_date,
            self.payee_service_end_date,
            self.payee_effective_on,
        )
    }
}

} // verus!
