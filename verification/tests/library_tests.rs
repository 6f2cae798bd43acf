use glrs::account_map::{accounts_receivable_code, deferred_code};
use glrs::chart_of_accounts::{AccountCode, ChartOfAccounts};
use glrs::ledger::general_ledger::{push_double_entry, DoubleEntry, GeneralLedger};
use glrs::ledger::report::text_less;
use glrs::ledger::transaction::assessment::Assessment;
use glrs::ledger::transaction::payment::Payment;
use glrs::ledger::transaction::void_assessment::VoidAssessment;
use glrs::ledger::transaction::Transaction;
use glrs::ledger::Ledger;
use glrs::time::{add_days, day_of, instant_in_range, whole_days_between, Timestamp, NANOS_PER_DAY};
use glrs::usd::USD;

use chrono::{TimeZone, Utc};

fn at(year: i32, month: u32, day: u32) -> Timestamp {
    i128::from(Utc.ymd(year, month, day).and_hms(0, 0, 0).timestamp()) * 1_000_000_000
}

fn pennies(p: i64) -> USD {
    USD::from_pennies(p)
}

fn total(gl: &GeneralLedger) -> i64 {
    gl.entries().iter().map(|e| e.amount.pennies).sum()
}

#[test]
fn usd_basic_operations() {
    assert_eq!(USD::zero().to_pennies(), 0);
    assert_eq!(pennies(1234).to_pennies(), 1234);
    assert_eq!(pennies(1234).inverse(), pennies(-1234));
    assert_eq!(pennies(-7).inverse(), pennies(7));
    assert_eq!(pennies(5) + pennies(7), pennies(12));
    assert_eq!(pennies(5) - pennies(7), pennies(-2));
    let mut a = pennies(10);
    a.add_assign(pennies(15));
    assert_eq!(a, pennies(25));
    a.sub_assign(pennies(30));
    assert_eq!(a, pennies(-5));
    assert!(pennies(-1) < pennies(0));
    assert!(!(pennies(3) < pennies(3)));
}

#[test]
fn usd_text_forms() {
    assert_eq!(pennies(150).to_debug_string(), "$1.50");
    assert_eq!(pennies(105).to_debug_string(), "$1.5");
    assert_eq!(pennies(100).to_debug_string(), "$1.0");
    assert_eq!(pennies(-150).to_debug_string(), "-$1.-50");
    assert_eq!(pennies(-5).to_debug_string(), "-$0.-5");
    assert_eq!(pennies(0).to_debug_string(), "-$0.0");
    assert_eq!(pennies(123456).to_debug_string(), "$1234.56");
}

#[test]
fn account_map_codes() {
    assert_eq!(accounts_receivable_code("4000"), "1101");
    assert_eq!(accounts_receivable_code("4050"), "1103");
    assert_eq!(accounts_receivable_code("4051"), "1104");
    assert_eq!(accounts_receivable_code("9999"), "FUCK");
    assert_eq!(deferred_code("4000"), "2020");
    assert_eq!(deferred_code("4050"), "FUCK");
}

#[test]
fn chart_lookups() {
    let chart = ChartOfAccounts::cubesmart();
    match chart.get("4000") {
        Some(AccountCode::Daily(a)) => {
            assert_eq!(a.revenue_code, "4000");
            assert_eq!(a.accounts_receivable_code, "1101");
            assert_eq!(a.deferred_code, "2020");
        }
        other => panic!("unexpected {:?}", other),
    }
    assert!(matches!(chart.get("4050"), Some(AccountCode::Periodic(_))));
    assert!(matches!(chart.get("4051"), Some(AccountCode::Periodic(_))));
    assert!(matches!(chart.get("4150"), Some(AccountCode::Periodic(_))));
    assert!(matches!(chart.get("4100"), Some(AccountCode::Cash(_))));
    assert!(chart.get("9999").is_none());
    assert!(ChartOfAccounts::new().get("4000").is_none());
}

#[test]
fn time_helpers() {
    let day = NANOS_PER_DAY;
    assert_eq!(day_of(0), 0);
    assert_eq!(day_of(day - 1), 0);
    assert_eq!(day_of(day), 1);
    assert_eq!(day_of(-1), -1);
    assert_eq!(day_of(-day), -1);
    assert_eq!(day_of(-day - 1), -2);
    assert_eq!(whole_days_between(0, 3 * day - 1), 2);
    assert_eq!(whole_days_between(at(2017, 11, 1), at(2017, 11, 30)), 29);
    // half a second short of a whole day is no whole day
    assert_eq!(whole_days_between(at(2017, 11, 1), at(2017, 11, 2) - 500_000_000), 0);
    assert_eq!(add_days(10, 2), 10 + 2 * day);
    assert!(instant_in_range(at(2017, 11, 1)));
    assert!(!instant_in_range(i128::MAX));
}

#[test]
fn instants_keep_their_fractions_of_a_second() {
    let chart = ChartOfAccounts::cubesmart();
    // paid half a second before the fee falls due: deferred, then released when due
    let p = Payment::new(
        pennies(700),
        String::from("1000"),
        at(2017, 11, 1) - 500_000_000,
        pennies(700),
        chart.get("4050").unwrap(),
        None,
        None,
        at(2017, 11, 1),
        None,
        pennies(0),
    );
    let entries = p.entries();
    assert_eq!(entries.len(), 2);
    assert_eq!(entries[0].date, day_of(at(2017, 10, 31)));
    assert_eq!(entries[0].credit_account_code, "");
    assert_eq!(entries[1].date, day_of(at(2017, 11, 1)));
    assert_eq!(entries[1].debit_account_code, "");
    assert_eq!(entries[1].credit_account_code, "1104");
}

#[test]
fn general_ledger_records_both_sides() {
    let mut gl = GeneralLedger::new();
    assert_eq!(gl.entries().len(), 0);
    gl.record_double_entry(7, pennies(250), &String::from("1101"), &String::from("4000"));
    gl.record_double_entry(7, pennies(50), &String::from("1101"), &String::from("4000"));
    assert_eq!(gl.fetch_amount(7, String::from("1101")), Some(&pennies(300)));
    assert_eq!(gl.fetch_amount(7, String::from("4000")), Some(&pennies(-300)));
    assert_eq!(gl.fetch_amount(8, String::from("1101")), None);
    assert_eq!(gl.fetch_amount(7, String::from("2020")), None);
    assert_eq!(gl.entries().len(), 2);
    assert_eq!(total(&gl), 0);
}

#[test]
fn general_ledger_same_account_on_both_sides_keeps_balance() {
    let mut gl = GeneralLedger::new();
    gl.record_double_entry(1, pennies(500), &String::from("1000"), &String::from("1000"));
    assert_eq!(gl.fetch_amount(1, String::from("1000")), Some(&pennies(0)));
    assert_eq!(gl.entries().len(), 1);
}

#[test]
fn general_ledger_fits_and_record_all() {
    let mut gl = GeneralLedger::new();
    let mut journal: Vec<DoubleEntry> = Vec::new();
    push_double_entry(&mut journal, 1, pennies(i64::MAX), &String::from("a"), &String::from("b"));
    push_double_entry(&mut journal, 2, pennies(40), &String::from("a"), &String::from("c"));
    assert_eq!(journal.len(), 2);
    assert!(gl.fits(&journal[0]));
    gl.record_all(&journal);
    assert_eq!(gl.fetch_amount(1, String::from("a")), Some(&pennies(i64::MAX)));
    assert_eq!(gl.fetch_amount(1, String::from("b")), Some(&pennies(-i64::MAX)));
    assert_eq!(gl.fetch_amount(2, String::from("c")), Some(&pennies(-40)));
    let more = DoubleEntry {
        date: 1,
        amount: pennies(1),
        debit_account_code: String::from("a"),
        credit_account_code: String::from("d"),
    };
    assert!(!gl.fits(&more));
    let fine = DoubleEntry {
        date: 2,
        amount: pennies(1),
        debit_account_code: String::from("a"),
        credit_account_code: String::from("d"),
    };
    assert!(gl.fits(&fine));
    gl.record(&fine);
    assert_eq!(gl.fetch_amount(2, String::from("a")), Some(&pennies(41)));
}

#[test]
fn text_order() {
    let s = |x: &str| String::from(x);
    assert!(text_less(&s("1101"), &s("4000")));
    assert!(text_less(&s("40"), &s("4000")));
    assert!(!text_less(&s("4000"), &s("40")));
    assert!(!text_less(&s(""), &s("")));
    assert!(text_less(&s(""), &s("a")));
    assert!(!text_less(&s("b"), &s("a")));
    assert!(text_less(&s("z"), &s("é")));
    assert!(!text_less(&s("4000"), &s("4000")));
}

#[test]
fn report_rows_are_ordered_with_debit_and_credit_columns() {
    let mut gl = GeneralLedger::new();
    gl.record_double_entry(10, pennies(250), &String::from("1101"), &String::from("4000"));
    gl.record_double_entry(3, pennies(0), &String::from("2020"), &String::from("1000"));
    let rows = gl.report_rows();
    assert_eq!(rows.len(), 4);
    let keys: Vec<(i128, String)> = rows.iter().map(|r| (r.date, r.account_code.clone())).collect();
    assert_eq!(
        keys,
        vec![
            (3, String::from("1000")),
            (3, String::from("2020")),
            (10, String::from("1101")),
            (10, String::from("4000")),
        ]
    );
    assert_eq!(rows[0].debit, None);
    assert_eq!(rows[0].credit, None);
    assert_eq!(rows[2].debit, Some(pennies(250)));
    assert_eq!(rows[2].credit, None);
    assert_eq!(rows[3].debit, None);
    assert_eq!(rows[3].credit, Some(pennies(250)));
}

#[test]
fn schedule_spreads_the_amount_with_remainder_first() {
    let chart = ChartOfAccounts::cubesmart();
    let a = Assessment::new(
        pennies(100),
        chart.get("4000").unwrap(),
        at(2017, 11, 1),
        Some(at(2017, 11, 1)),
        Some(at(2017, 11, 3)),
    );
    assert_eq!(a.days_in_payee_service_period(), 3);
    let days = a.payable_amounts_per_day();
    assert_eq!(
        days,
        vec![
            (at(2017, 11, 1), pennies(34)),
            (at(2017, 11, 2), pennies(33)),
            (at(2017, 11, 3), pennies(33)),
        ]
    );
    let sum: i64 = days.iter().map(|d| d.1.pennies).sum();
    assert_eq!(sum, 100);
}

#[test]
fn schedule_fully_credited_is_all_zero() {
    let chart = ChartOfAccounts::cubesmart();
    let p = Payment::new(
        pennies(1000),
        String::from("1000"),
        at(2017, 11, 1),
        pennies(3000),
        chart.get("4000").unwrap(),
        Some(at(2017, 11, 1)),
        Some(at(2017, 11, 30)),
        at(2017, 11, 1),
        None,
        pennies(3000),
    );
    let days = p.payable_amounts_per_day();
    assert_eq!(days.len(), 30);
    assert!(days.iter().all(|d| d.1 == pennies(0)));
}

#[test]
fn schedule_partly_credited_day_gets_the_remaining_credit() {
    let chart = ChartOfAccounts::cubesmart();
    let p = Payment::new(
        pennies(1000),
        String::from("1000"),
        at(2017, 11, 1),
        pennies(3000),
        chart.get("4000").unwrap(),
        Some(at(2017, 11, 1)),
        Some(at(2017, 11, 30)),
        at(2017, 11, 1),
        None,
        pennies(1530),
    );
    let days = p.payable_amounts_per_day();
    assert_eq!(days.len(), 30);
    for d in &days[0..15] {
        assert_eq!(d.1, pennies(0));
    }
    assert_eq!(days[15].1, pennies(30));
    for d in &days[16..30] {
        assert_eq!(d.1, pennies(100));
    }
}

#[test]
fn periodic_assessment_books_once_on_effective_day() {
    let chart = ChartOfAccounts::cubesmart();
    let fee = Assessment::new(
        pennies(2500),
        chart.get("4050").unwrap(),
        at(2017, 11, 5),
        None,
        None,
    );
    let entries = fee.entries();
    assert_eq!(entries.len(), 1);
    assert_eq!(entries[0].date, day_of(at(2017, 11, 5)));
    assert_eq!(entries[0].amount, pennies(2500));
    assert_eq!(entries[0].debit_account_code, "1104");
    assert_eq!(entries[0].credit_account_code, "4050");
}

#[test]
fn base_account_records_nothing() {
    let base = AccountCode::Base(String::from("9000"));
    let a = Assessment::new(pennies(100), &base, at(2017, 11, 1), None, None);
    let mut gl = GeneralLedger::new();
    a.process(&mut gl);
    assert_eq!(gl.entries().len(), 0);
}

#[test]
fn payment_mid_period_settles_elapsed_days_and_defers_the_rest() {
    let chart = ChartOfAccounts::cubesmart();
    let p = Payment::new(
        pennies(3000),
        String::from("1000"),
        at(2017, 11, 11),
        pennies(3000),
        chart.get("4000").unwrap(),
        Some(at(2017, 11, 1)),
        Some(at(2017, 11, 30)),
        at(2017, 11, 1),
        None,
        pennies(0),
    );
    let mut gl = GeneralLedger::new();
    p.process(&mut gl);
    let nov11 = day_of(at(2017, 11, 11));
    assert_eq!(gl.fetch_amount(nov11, String::from("1000")), Some(&pennies(3000)));
    assert_eq!(gl.fetch_amount(nov11, String::from("2020")), Some(&pennies(-1900)));
    assert_eq!(gl.fetch_amount(nov11, String::from("1101")), Some(&pennies(-1100)));
    for d in 1..20 {
        assert_eq!(gl.fetch_amount(nov11 + d, String::from("2020")), Some(&pennies(100)));
        assert_eq!(gl.fetch_amount(nov11 + d, String::from("1101")), Some(&pennies(-100)));
    }
    assert_eq!(gl.fetch_amount(nov11 + 20, String::from("2020")), None);
    assert_eq!(gl.fetch_amount(nov11 - 1, String::from("1101")), None);
    // everything the payment books is debited to its own account on its day
    let debited: i64 = gl
        .entries()
        .iter()
        .filter(|e| e.account_code == "1000")
        .map(|e| e.amount.pennies)
        .sum();
    assert_eq!(debited, 3000);
    assert_eq!(total(&gl), 0);
}

#[test]
fn cash_payment_goes_straight_to_revenue() {
    let chart = ChartOfAccounts::cubesmart();
    let p = Payment::new(
        pennies(1200),
        String::from("1000"),
        at(2017, 11, 1),
        pennies(1200),
        chart.get("4100").unwrap(),
        None,
        None,
        at(2017, 11, 1),
        None,
        pennies(0),
    );
    let mut gl = GeneralLedger::new();
    p.process(&mut gl);
    let nov1 = day_of(at(2017, 11, 1));
    assert_eq!(gl.fetch_amount(nov1, String::from("1000")), Some(&pennies(1200)));
    assert_eq!(gl.fetch_amount(nov1, String::from("4100")), Some(&pennies(-1200)));
    assert_eq!(gl.entries().len(), 2);
}

#[test]
fn early_periodic_payment_is_deferred_until_the_payee_is_due() {
    let chart = ChartOfAccounts::cubesmart();
    let p = Payment::new(
        pennies(700),
        String::from("1000"),
        at(2017, 10, 25),
        pennies(700),
        chart.get("4050").unwrap(),
        None,
        None,
        at(2017, 11, 1),
        None,
        pennies(0),
    );
    let mut gl = GeneralLedger::new();
    p.process(&mut gl);
    let oct25 = day_of(at(2017, 10, 25));
    let nov1 = day_of(at(2017, 11, 1));
    assert_eq!(gl.fetch_amount(oct25, String::from("1000")), Some(&pennies(700)));
    assert_eq!(gl.fetch_amount(oct25, String::from("")), Some(&pennies(-700)));
    assert_eq!(gl.fetch_amount(nov1, String::from("")), Some(&pennies(700)));
    assert_eq!(gl.fetch_amount(nov1, String::from("1104")), Some(&pennies(-700)));
}

#[test]
fn void_books_nothing_before_its_effective_day() {
    let chart = ChartOfAccounts::cubesmart();
    let v = VoidAssessment::new(
        pennies(3000),
        at(2017, 11, 16),
        pennies(3000),
        chart.get("4000").unwrap(),
        Some(at(2017, 11, 1)),
        Some(at(2017, 11, 30)),
        at(2017, 11, 1),
    );
    let mut gl = GeneralLedger::new();
    v.process(&mut gl);
    let nov16 = day_of(at(2017, 11, 16));
    assert_eq!(gl.fetch_amount(nov16 - 1, String::from("1101")), None);
    assert_eq!(gl.fetch_amount(nov16, String::from("1101")), Some(&pennies(1600)));
    assert_eq!(gl.fetch_amount(nov16, String::from("4000")), Some(&pennies(-1600)));
    assert_eq!(gl.fetch_amount(nov16 + 1, String::from("1101")), Some(&pennies(100)));
    assert!(gl.entries().iter().all(|e| e.date >= nov16));
    assert_eq!(total(&gl), 0);
}

#[test]
fn processed_ledger_balances() {
    let chart = ChartOfAccounts::cubesmart();
    let rent = Assessment::new(
        pennies(3000),
        chart.get("4000").unwrap(),
        at(2017, 11, 1),
        Some(at(2017, 11, 1)),
        Some(at(2017, 11, 30)),
    );
    let fee = Assessment::new(pennies(2500), chart.get("4050").unwrap(), at(2017, 11, 1), None, None);
    let pay = Payment::new(
        pennies(4000),
        String::from("1000"),
        at(2017, 11, 20),
        pennies(3000),
        chart.get("4000").unwrap(),
        Some(at(2017, 11, 1)),
        Some(at(2017, 11, 30)),
        at(2017, 11, 1),
        None,
        pennies(0),
    );
    let ledger = Ledger::new(vec![rent, fee], vec![], vec![pay]);
    let gl = ledger.try_process_general_ledger().expect("processable");
    assert_eq!(total(&gl), 0);
    let same = ledger.process_general_ledger();
    assert_eq!(same.entries().len(), gl.entries().len());
}

#[test]
fn try_process_refuses_a_daily_charge_without_a_valid_period() {
    let chart = ChartOfAccounts::cubesmart();
    let backwards = Assessment::new(
        pennies(3000),
        chart.get("4000").unwrap(),
        at(2017, 11, 1),
        Some(at(2017, 11, 30)),
        Some(at(2017, 11, 1)),
    );
    assert!(!backwards.is_ready());
    let ledger = Ledger::new(vec![backwards], vec![], vec![]);
    assert!(ledger.try_process_general_ledger().is_none());

    let undated = Assessment::new(pennies(3000), chart.get("4000").unwrap(), at(2017, 11, 1), None, None);
    assert!(!undated.is_ready());
    let ledger = Ledger::new(vec![undated], vec![], vec![]);
    assert!(ledger.try_process_general_ledger().is_none());

    let single_day = Assessment::new(
        pennies(3000),
        chart.get("4000").unwrap(),
        at(2017, 11, 1),
        Some(at(2017, 11, 1)),
        Some(at(2017, 11, 1)),
    );
    assert!(single_day.is_ready());
    let ledger = Ledger::new(vec![single_day], vec![], vec![]);
    let gl = ledger.try_process_general_ledger().expect("processable");
    let nov1 = day_of(at(2017, 11, 1));
    assert_eq!(gl.fetch_amount(nov1, String::from("1101")), Some(&pennies(3000)));
}

#[test]
fn payment_never_releases_more_than_it_deferred() {
    let chart = ChartOfAccounts::cubesmart();
    let p = Payment::new(
        pennies(4000),
        String::from("1000"),
        at(2017, 11, 20),
        pennies(3000),
        chart.get("4000").unwrap(),
        Some(at(2017, 11, 1)),
        Some(at(2017, 11, 30)),
        at(2017, 11, 1),
        None,
        pennies(0),
    );
    let mut gl = GeneralLedger::new();
    p.process(&mut gl);
    let nov20 = day_of(at(2017, 11, 20));
    // 19 elapsed days settle 1900 of receivables; 2100 is deferred and 1100 released
    assert_eq!(gl.fetch_amount(nov20, String::from("1101")), Some(&pennies(-2000)));
    assert_eq!(gl.fetch_amount(nov20, String::from("2020")), Some(&pennies(-2000)));
    for d in 1..11 {
        assert_eq!(gl.fetch_amount(nov20 + d, String::from("2020")), Some(&pennies(100)));
    }
    let deferred_net: i64 = gl
        .entries()
        .iter()
        .filter(|e| e.account_code == "2020")
        .map(|e| e.amount.pennies)
        .sum();
    assert_eq!(deferred_net, -1000);
    assert_eq!(total(&gl), 0);
}

fn sorted_balances(gl: &GeneralLedger) -> Vec<(i128, String, i64)> {
    let mut v: Vec<(i128, String, i64)> = gl
        .entries()
        .iter()
        .map(|e| (e.date, e.account_code.clone(), e.amount.pennies))
        .collect();
    v.sort();
    v
}

fn rent_ledger_parts(chart: &ChartOfAccounts) -> (Assessment<'_>, Assessment<'_>, Payment<'_>, Payment<'_>) {
    let rent = Assessment::new(
        pennies(3000),
        chart.get("4000").unwrap(),
        at(2017, 11, 1),
        Some(at(2017, 11, 1)),
        Some(at(2017, 11, 30)),
    );
    let fee = Assessment::new(pennies(2500), chart.get("4050").unwrap(), at(2017, 11, 3), None, None);
    let pay1 = Payment::new(
        pennies(1000),
        String::from("1000"),
        at(2017, 11, 5),
        pennies(3000),
        chart.get("4000").unwrap(),
        Some(at(2017, 11, 1)),
        Some(at(2017, 11, 30)),
        at(2017, 11, 1),
        None,
        pennies(0),
    );
    let pay2 = Payment::new(
        pennies(2500),
        String::from("1000"),
        at(2017, 11, 2),
        pennies(2500),
        chart.get("4050").unwrap(),
        None,
        None,
        at(2017, 11, 3),
        None,
        pennies(0),
    );
    (rent, fee, pay1, pay2)
}

#[test]
fn every_day_of_a_processed_ledger_balances() {
    let chart = ChartOfAccounts::cubesmart();
    let (rent, fee, pay1, pay2) = rent_ledger_parts(&chart);
    let gl = Ledger::new(vec![rent, fee], vec![], vec![pay1, pay2]).process_general_ledger();
    let mut days: Vec<i128> = gl.entries().iter().map(|e| e.date).collect();
    days.sort();
    days.dedup();
    assert!(days.len() > 1);
    for d in days {
        let sum: i64 = gl.entries().iter().filter(|e| e.date == d).map(|e| e.amount.pennies).sum();
        assert_eq!(sum, 0);
    }
}

#[test]
fn processing_is_processing_one_transaction_at_a_time() {
    let chart = ChartOfAccounts::cubesmart();
    let (rent, fee, pay1, pay2) = rent_ledger_parts(&chart);
    let mut by_hand = GeneralLedger::new();
    rent.process(&mut by_hand);
    fee.process(&mut by_hand);
    pay1.process(&mut by_hand);
    pay2.process(&mut by_hand);
    let ledger = Ledger::new(vec![rent, fee], vec![], vec![pay1, pay2]);
    let gl = ledger.process_general_ledger();
    assert_eq!(sorted_balances(&gl), sorted_balances(&by_hand));
    assert_eq!(sorted_balances(&gl), sorted_balances(&ledger.process_general_ledger()));
}

#[test]
fn processing_does_not_depend_on_the_order_of_transactions() {
    let chart = ChartOfAccounts::cubesmart();
    let (rent, fee, pay1, pay2) = rent_ledger_parts(&chart);
    let first = Ledger::new(vec![rent, fee], vec![], vec![pay1, pay2]).process_general_ledger();
    let (rent, fee, pay1, pay2) = rent_ledger_parts(&chart);
    let second = Ledger::new(vec![fee, rent], vec![], vec![pay2, pay1]).process_general_ledger();
    assert_eq!(sorted_balances(&first), sorted_balances(&second));
}

#[test]
fn daily_payment_totals_and_touched_keys() {
    let chart = ChartOfAccounts::cubesmart();
    // pays 4000 against a 3000 charge on day 20: settles 3000, 1000 stays deferred
    let p = Payment::new(
        pennies(4000),
        String::from("1000"),
        at(2017, 11, 20),
        pennies(3000),
        chart.get("4000").unwrap(),
        Some(at(2017, 11, 1)),
        Some(at(2017, 11, 30)),
        at(2017, 11, 1),
        None,
        pennies(0),
    );
    let mut gl = GeneralLedger::new();
    p.process(&mut gl);
    let account = |c: &str| -> i64 {
        gl.entries().iter().filter(|e| e.account_code == c).map(|e| e.amount.pennies).sum()
    };
    assert_eq!(account("1000"), 4000);
    assert_eq!(account("1101"), -3000);
    assert_eq!(account("2020"), -1000);
    let nov20 = day_of(at(2017, 11, 20));
    let nov30 = day_of(at(2017, 11, 30));
    for e in gl.entries() {
        assert!(e.account_code == "1000" || e.account_code == "1101" || e.account_code == "2020");
        assert!(nov20 <= e.date && e.date <= nov30);
    }
    for d in nov20 + 1..=nov30 {
        let def = gl.fetch_amount(d, String::from("2020")).unwrap().pennies;
        let ar = gl.fetch_amount(d, String::from("1101")).unwrap().pennies;
        assert_eq!(def, -ar);
        assert!(0 <= def && def <= 100);
    }
}

#[test]
fn ledger_entries_are_kept_in_order_of_day_and_account() {
    let mut gl = GeneralLedger::new();
    gl.record_double_entry(10, pennies(250), &String::from("4000"), &String::from("1101"));
    gl.record_double_entry(3, pennies(5), &String::from("2020"), &String::from("1000"));
    gl.record_double_entry(10, pennies(1), &String::from("1000"), &String::from("4000"));
    let keys: Vec<(i128, String)> =
        gl.entries().iter().map(|e| (e.date, e.account_code.clone())).collect();
    assert_eq!(
        keys,
        vec![
            (3, String::from("1000")),
            (3, String::from("2020")),
            (10, String::from("1000")),
            (10, String::from("1101")),
            (10, String::from("4000")),
        ]
    );
    assert_eq!(gl.fetch_amount(10, String::from("4000")), Some(&pennies(249)));
    assert_eq!(gl.fetch_amount(10, String::from("1000")), Some(&pennies(1)));
}
