use glrs::chart_of_accounts::ChartOfAccounts;
use glrs::input::{InputAssessment, InputLedger, InputPayment};
use glrs::ledger::Ledger;
use glrs::ledger::transaction::assessment::Assessment;
use glrs::time::{day_of, Timestamp};
use glrs::usd::USD;

use chrono::{TimeZone, Utc};

fn at(year: i32, month: u32, day: u32) -> Timestamp {
    i128::from(Utc.ymd(year, month, day).and_hms(0, 0, 0).timestamp()) * 1_000_000_000
}

#[test]
fn ledger_can_build_from_an_input_ledger() {
    let chart = ChartOfAccounts::cubesmart();
    let input = InputLedger {
        assessments: vec![InputAssessment {
            amount: USD::from_pennies(3000),
            account_code: String::from("4000"),
            effective_on: at(2017, 11, 1),
            service_start_date: Some(at(2017, 11, 1)),
            service_end_date: Some(at(2017, 11, 30)),
        }],
        void_assessments: vec![],
        payments: vec![InputPayment {
            amount: USD::from_pennies(3000),
            account_code: String::from("1000"),
            effective_on: at(2017, 11, 1),
            payee_amount: USD::from_pennies(3000),
            payee_account_code: String::from("4000"),
            payee_service_start_date: Some(at(2017, 11, 1)),
            payee_service_end_date: Some(at(2017, 11, 30)),
            payee_effective_on: at(2017, 11, 1),
            payee_resolved_on: None,
            previously_paid_amount: USD::from_pennies(0),
        }],
    };
    let ledger = input.into_ledger(&chart);
    assert_eq!(ledger.assessments.len(), 1);
    assert_eq!(ledger.void_assessments.len(), 0);
    assert_eq!(ledger.payments.len(), 1);
    assert_eq!(ledger.assessments[0].amount, USD::from_pennies(3000));
    assert_eq!(ledger.payments[0].account_code, String::from("1000"));

    let gl = ledger.process_general_ledger();
    let nov1 = day_of(at(2017, 11, 1));
    assert_eq!(gl.fetch_amount(nov1, String::from("1000")), Some(&USD::from_pennies(3000)));
    assert_eq!(gl.fetch_amount(nov1, String::from("2020")), Some(&USD::from_pennies(-2900)));
}

#[test]
fn ledger_can_build_a_gl() {
    let chart = ChartOfAccounts::cubesmart();
    let rent_charge = Assessment::new(
        USD::from_pennies(3000),
        chart.get("4000").unwrap(),
        at(2017, 11, 1),
        Some(at(2017, 11, 1)),
        Some(at(2017, 11, 30)),
    );
    let ledger = Ledger::new(vec![rent_charge], vec![], vec![]);
    let gl = ledger.process_general_ledger();
    // thirty days, each with a receivable and a revenue entry
    assert_eq!(gl.entries().len(), 60);
    let total: i64 = gl.entries().iter().map(|e| e.amount.pennies).sum();
    assert_eq!(total, 0);
    let nov30 = day_of(at(2017, 11, 30));
    assert_eq!(gl.fetch_amount(nov30, String::from("1101")), Some(&USD::from_pennies(100)));
    assert_eq!(gl.fetch_amount(nov30 + 1, String::from("1101")), None);
}


#[test]
fn ledger_from_input_is_refused_for_an_unknown_account() {
    let chart = ChartOfAccounts::cubesmart();
    let input = |code: &str| InputLedger {
        assessments: vec![InputAssessment {
            amount: USD::from_pennies(3000),
            account_code: String::from(code),
            effective_on: at(2017, 11, 1),
            service_start_date: Some(at(2017, 11, 1)),
            service_end_date: Some(at(2017, 11, 30)),
        }],
        void_assessments: vec![],
        payments: vec![],
    };
    assert!(input("9999").try_into_ledger(&chart).is_none());
    let ledger = input("4000").try_into_ledger(&chart).expect("known account");
    assert_eq!(ledger.assessments.len(), 1);
    assert_eq!(ledger.assessments[0].amount, USD::from_pennies(3000));
}
