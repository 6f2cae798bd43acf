use glrs::chart_of_accounts::ChartOfAccounts;
use glrs::ledger::general_ledger::GeneralLedger;
use glrs::ledger::transaction::Transaction;
use glrs::ledger::transaction::assessment::Assessment;
use glrs::ledger::transaction::payment::Payment;
use glrs::time::{day_of, Day, Timestamp};
use glrs::usd::USD;

use chrono::{TimeZone, Utc};

fn at(year: i32, month: u32, day: u32) -> Timestamp {
    i128::from(Utc.ymd(year, month, day).and_hms(0, 0, 0).timestamp()) * 1_000_000_000
}

fn from_float(d: f64) -> USD {
    USD::from_pennies((d * 100.0) as i64)
}

fn date(t: Timestamp) -> Day {
    day_of(t)
}

#[test]
fn it_tests_things() {
    println!("hello world");
}

#[test]
fn integration_test_test_rent_account_balance_accrues_daily() {
    let chart = ChartOfAccounts::cubesmart();

    println!("setup");
    let rent_charge = Assessment::new(
        from_float(30.0),
        &chart.get("4000").unwrap(),
        at(2017, 11, 1),
        Some(at(2017, 11, 1)),
        Some(at(2017, 11, 30)),
    );

    println!("setup");
    let mut gl = GeneralLedger::new();
    println!("process");
    rent_charge.process(&mut gl);
    println!("process done");
    let start = date(rent_charge.service_start_date.unwrap());
    let end = date(rent_charge.service_end_date.unwrap());

    let mut date_stepper = start;
    while date_stepper <= end {
        assert_eq!(gl.fetch_amount(date_stepper, String::from("1101")), Some(&from_float(1.0)));
        assert_eq!(gl.fetch_amount(date_stepper, String::from("4000")), Some(&from_float(-1.0)));

        date_stepper = date_stepper.checked_add(1).expect("Overflow");
    }
}

#[test]
fn integration_test_test_cash_based_account_balance_records_nothing_on_assessment() {
    let chart = ChartOfAccounts::cubesmart();
    let insurance_charge = Assessment::new(
        from_float(12.0),
        &chart.get("4100").unwrap(),
        at(2017, 11, 1),
        Some(at(2017, 11, 1)),
        Some(at(2017, 11, 30)),
    );

    let mut gl = GeneralLedger::new();
    insurance_charge.process(&mut gl);

    assert!(gl.entries().is_empty());
}

#[test]
fn integration_test_test_cash_based_account_balance_records_entries_on_payment() {
    let chart = ChartOfAccounts::cubesmart();
    let insurance_charge = Assessment::new(
        from_float(12.0),
        &chart.get("4100").unwrap(),
        at(2017, 11, 1),
        Some(at(2017, 11, 1)),
        Some(at(2017, 11, 30)),
    );

    let mut gl = GeneralLedger::new();
    insurance_charge.process(&mut gl);

    assert!(gl.entries().is_empty());

    let payment = Payment::new(
        from_float(12.0),
        String::from("1000"),
        at(2017, 11, 1),
        from_float(12.0),
        &chart.get("4100").unwrap(),
        Some(at(2017, 11, 1)),
        Some(at(2017, 11, 30)),
        at(2017, 11, 1),
        None,
        from_float(0.0),
    );

    payment.process(&mut gl);

    assert_eq!(gl.fetch_amount(date(insurance_charge.effective_on), String::from("1000")), Some(&from_float(12.0)));
    assert_eq!(gl.fetch_amount(date(insurance_charge.effective_on), String::from("4100")), Some(&from_float(-12.0)));
}

#[test]
fn integration_test_test_fee_account_balance_accrues_periodically() {
    let chart = ChartOfAccounts::cubesmart();
    let fee_charge = Assessment::new(
        from_float(30.0),
        &chart.get("4050").unwrap(),
        at(2017, 11, 1),
        None,
        None,
    );

    let mut gl = GeneralLedger::new();
    fee_charge.process(&mut gl);

    assert_eq!(gl.fetch_amount(date(fee_charge.effective_on), String::from("1104")), Some(&from_float(30.0)));
    assert_eq!(gl.fetch_amount(date(fee_charge.effective_on), String::from("4050")), Some(&from_float(-30.0)));
}

#[test]
fn integration_test_test_fee_account_balance_accrues_and_is_paid_periodically() {
    let chart = ChartOfAccounts::cubesmart();
    let fee_charge = Assessment::new(
        from_float(30.0),
        &chart.get("4050").unwrap(),
        at(2017, 11, 1),
        None,
        None,
    );

    let payment = Payment::new(
        from_float(30.0),
        String::from("1000"),
        at(2017, 11, 1),
        from_float(30.0),
        &chart.get("4050").unwrap(),
        None,
        None,
        at(2017, 11, 1),
        None,
        from_float(0.0),
    );

    let mut gl = GeneralLedger::new();
    fee_charge.process(&mut gl);
    payment.process(&mut gl);

    assert_eq!(gl.fetch_amount(date(fee_charge.effective_on), String::from("1000")), Some(&from_float(30.0)));
    assert_eq!(gl.fetch_amount(date(fee_charge.effective_on), String::from("4050")), Some(&from_float(-30.0)));
}

#[test]
fn integration_test_test_a_full_payment_against_rent() {
    let chart = ChartOfAccounts::cubesmart();
    let mut gl = GeneralLedger::new();

    let rent_charge = Assessment::new(
        from_float(30.0),
        &chart.get("4000").unwrap(),
        at(2017, 11, 1),
        Some(at(2017, 11, 1)),
        Some(at(2017, 11, 30)),
    );

    let payment = Payment::new(
        from_float(30.0),
        String::from("1000"),
        at(2017, 11, 1),
        from_float(30.0),
        &chart.get("4000").unwrap(),
        Some(at(2017, 11, 1)),
        Some(at(2017, 11, 30)),
        at(2017, 11, 1),
        None,
        from_float(0.0),
    );

    rent_charge.process(&mut gl);
    payment.process(&mut gl);

    assert_eq!(gl.fetch_amount(date(payment.effective_on), String::from("1000")), Some(&from_float(30.0)));
    assert_eq!(gl.fetch_amount(date(payment.effective_on), String::from("2020")), Some(&from_float(-29.0)));
    assert_eq!(gl.fetch_amount(date(payment.effective_on), String::from("4000")), Some(&from_float(-1.0)));

    let start = date(rent_charge.service_start_date.unwrap());
    let end = date(rent_charge.service_end_date.unwrap());
    let mut date_stepper = start.checked_add(1).expect("Overflow");
    while date_stepper <= end {
        assert_eq!(gl.fetch_amount(date_stepper, String::from("2020")), Some(&from_float(1.0)));
        assert_eq!(gl.fetch_amount(date_stepper, String::from("4000")), Some(&from_float(-1.0)));

        date_stepper = date_stepper.checked_add(1).expect("Overflow");
    }
}

#[test]
fn integration_test_test_a_full_payment_against_future_daily_accrual_assessment() {
    let chart = ChartOfAccounts::cubesmart();
    let mut gl = GeneralLedger::new();

    let rent_charge = Assessment::new(
        from_float(30.0),
        &chart.get("4000").unwrap(),
        at(2017, 11, 1),
        Some(at(2017, 11, 1)),
        Some(at(2017, 11, 30)),
    );

    let payment = Payment::new(
        from_float(30.0),
        String::from("1000"),
        at(2017, 10, 1),
        from_float(30.0),
        &chart.get("4000").unwrap(),
        Some(at(2017, 11, 1)),
        Some(at(2017, 11, 30)),
        at(2017, 11, 1),
        None,
        from_float(0.0),
    );

    rent_charge.process(&mut gl);
    payment.process(&mut gl);

    assert_eq!(gl.fetch_amount(date(payment.effective_on), String::from("1000")), Some(&from_float(30.0)));
    assert_eq!(gl.fetch_amount(date(payment.effective_on), String::from("2020")), Some(&from_float(-30.0)));

    let start = date(rent_charge.service_start_date.unwrap());
    let end = date(rent_charge.service_end_date.unwrap());
    let mut date_stepper = start.checked_add(1).expect("Overflow");
    while date_stepper <= end {
        assert_eq!(gl.fetch_amount(date_stepper, String::from("2020")), Some(&from_float(1.0)));
        assert_eq!(gl.fetch_amount(date_stepper, String::from("4000")), Some(&from_float(-1.0)));

        date_stepper = date_stepper.checked_add(1).expect("Overflow");
    }
}

#[test]
fn integration_test_test_a_full_payment_against_future_accrual_assessment() {
    let chart = ChartOfAccounts::cubesmart();
    let mut gl = GeneralLedger::new();

    let service_charge = Assessment::new(
        from_float(30.0),
        &chart.get("4150").unwrap(),
        at(2017, 11, 1),
        Some(at(2017, 11, 1)),
        Some(at(2017, 11, 30)),
    );

    let payment = Payment::new(
        from_float(30.0),
        String::from("1000"),
        at(2017, 10, 1),
        from_float(30.0),
        &chart.get("4150").unwrap(),
        Some(at(2017, 11, 1)),
        Some(at(2017, 11, 30)),
        at(2017, 11, 1),
        None,
        from_float(0.0),
    );

    service_charge.process(&mut gl);
    payment.process(&mut gl);

    assert_eq!(gl.fetch_amount(date(payment.effective_on), String::from("1000")), Some(&from_float(30.0)));
    assert_eq!(gl.fetch_amount(date(payment.effective_on), String::from("2023")), Some(&from_float(-30.0)));

    assert_eq!(gl.fetch_amount(date(service_charge.effective_on), String::from("2023")), Some(&from_float(30.0)));
    assert_eq!(gl.fetch_amount(date(service_charge.effective_on), String::from("4150")), Some(&from_float(-30.0)));
}

#[test]
fn integration_test_test_two_even_partial_payments_against_rent() {
    let chart = ChartOfAccounts::cubesmart();
    let mut gl = GeneralLedger::new();

    let rent_charge = Assessment::new(
        from_float(30.0),
        &chart.get("4000").unwrap(),
        at(2017, 11, 1),
        Some(at(2017, 11, 1)),
        Some(at(2017, 11, 30)),
    );

    let payment1 = Payment::new(
        from_float(15.0),
        String::from("1000"),
        at(2017, 11, 1),
        from_float(30.0),
        &chart.get("4000").unwrap(),
        Some(at(2017, 11, 1)),
        Some(at(2017, 11, 30)),
        at(2017, 11, 1),
        None,
        from_float(0.0),
    );

    let payment2 = Payment::new(
        from_float(15.0),
        String::from("1000"),
        at(2017, 11, 1),
        from_float(30.0),
        &chart.get("4000").unwrap(),
        Some(at(2017, 11, 1)),
        Some(at(2017, 11, 30)),
        at(2017, 11, 1),
        None,
        from_float(15.0),
    );

    rent_charge.process(&mut gl);
    payment1.process(&mut gl);
    payment2.process(&mut gl);

    assert_eq!(gl.fetch_amount(date(payment1.effective_on), String::from("1000")), Some(&from_float(30.0)));
    assert_eq!(gl.fetch_amount(date(payment1.effective_on), String::from("2020")), Some(&from_float(-29.0)));
    assert_eq!(gl.fetch_amount(date(payment1.effective_on), String::from("4000")), Some(&from_float(-1.0)));

    let start = date(rent_charge.service_start_date.unwrap());
    let end = date(rent_charge.service_end_date.unwrap());
    let mut date_stepper = start.checked_add(1).expect("Overflow");
    while date_stepper <= end {
        assert_eq!(gl.fetch_amount(date_stepper, String::from("2020")), Some(&from_float(1.0)));
        assert_eq!(gl.fetch_amount(date_stepper, String::from("4000")), Some(&from_float(-1.0)));

        date_stepper = date_stepper.checked_add(1).expect("Overflow");
    }
}
