use vstd::prelude::*;
use vstd::string::StrSliceExecFns;
use crate::time::Day;
use crate::usd::USD;
use crate::ledger::general_ledger::{GeneralLedger, LedgerEntry, EntryKey, entry_key, keys_sorted};

verus! {

/// `a` comes strictly before `b` when their characters are compared one by one by code
/// point, a proper prefix coming first (the order of Rust's strings).
pub open spec fn text_lt(a: Seq<char>, b: Seq<char>) -> bool
    decreases a.len(),
{
    if a.len() == 0 {
        b.len() > 0
    } else if b.len() == 0 {
        false
    } else if a[0] != b[0] {
        (a[0] as int) < (b[0] as int)
    } else {
        text_lt(a.drop_first(), b.drop_first())
    }
}

/// No text comes before itself.
pub proof fn lemma_text_lt_irreflexive(a: Seq<char>)
    ensures
        !text_lt(a, a),
    decreases a.len(),
{
    if a.len() > 0 {
        lemma_text_lt_irreflexive(a.drop_first());
    }
}

/// The order of texts is transitive.
pub proof fn lemma_text_lt_transitive(a: Seq<char>, b: Seq<char>, c: Seq<char>)
    requires
        text_lt(a, b),
        text_lt(b, c),
    ensures
        text_lt(a, c),
    decreases a.len(),
{
    if a.len() > 0 && b.len() > 0 && c.len() > 0 && a[0] == b[0] && b[0] == c[0] {
        lemma_text_lt_transitive(a.drop_first(), b.drop_first(), c.drop_first());
    }
}

/// Of two different texts, one comes before the other.
pub proof fn lemma_text_lt_total(a: Seq<char>, b: Seq<char>)
    requires
        a != b,
    ensures
        text_lt(a, b) || text_lt(b, a),
    decreases a.len(),
{
    if a.len() > 0 && b.len() > 0 {
        if a[0] == b[0] {
            if a.drop_first() == b.drop_first() {
                assert(a =~= seq![a[0]] + a.drop_first());
                assert(b =~= seq![b[0]] + b.drop_first());
            }
            lemma_text_lt_total(a.drop_first(), b.drop_first());
        } else {
            assert(a[0] as int != b[0] as int);
        }
    } else if a.len() == 0 && b.len() == 0 {
        assert(a =~= b);
    }
}

/// Whether `a` comes strictly before `b` in the order of texts.
pub fn text_less(a: &String, b: &String) -> (r: bool)
    ensures
        r == text_lt(a@, b@),
{
    let sa = a.as_str();
    let sb = b.as_str();
    let la = sa.unicode_len();
    let lb = sb.unicode_len();
    let mut i: usize = 0;
    proof {
        assert(a@.skip(0) =~= a@);
        assert(b@.skip(0) =~= b@);
    }
    while i < la && i < lb
        invariant
            sa@ == a@,
            sb@ == b@,
            la == a@.len(),
            lb == b@.len(),
            i <= la,
            i <= lb,
            text_lt(a@, b@) == text_lt(a@.skip(i as int), b@.skip(i as int)),
        decreases la - i,
    {
        let ca = sa.get_char(i);
        let cb = sb.get_char(i);
        let ghost rest_a = a@.skip(i as int);
        let ghost rest_b = b@.skip(i as int);
        proof {
            assert(rest_a[0] == ca);
            assert(rest_b[0] == cb);
        }
        if ca as u32 != cb as u32 {
            return (ca as u32) < (cb as u32);
        }
        proof {
            assert(rest_a.drop_first() =~= a@.skip(i + 1));
            assert(rest_b.drop_first() =~= b@.skip(i + 1));
        }
        i = i + 1;
    }
    i < lb
}

/// One line of the general ledger's report: the balance of an account on a day, in the
/// debit column when it is positive, in the credit column (as a positive amount) when it
/// is negative, and in neither when it is zero.
#[derive(Debug)]
pub struct ReportRow {
    pub date: Day,
    pub account_code: String,
    pub debit: Option<USD>,
    pub credit: Option<USD>,
}

/// Keys in report order: by day, then by account code.
pub open spec fn key_lt(a: EntryKey, b: EntryKey) -> bool {
    a.0 < b.0 || (a.0 == b.0 && text_lt(a.1, b.1))
}

/// The key of a report line.
pub open spec fn row_key(r: ReportRow) -> EntryKey {
    (r.date as int, r.account_code@)
}

/// `r` is the report line of the entry `e`.
pub open spec fn row_of(r: ReportRow, e: LedgerEntry) -> bool {
    &&& row_key(r) == entry_key(e)
    &&& r.debit == (if e.amount.pennies > 0 {
        Some(e.amount)
    } else {
        None::<USD>
    })
    &&& r.credit == (if e.amount.pennies < 0 {
        Some(USD { pennies: (-e.amount.pennies) as i64 })
    } else {
        None::<USD>
    })
}

/// The order of keys is irreflexive, transitive and total.
pub proof fn lemma_key_lt_order(a: EntryKey, b: EntryKey, c: EntryKey)
    ensures
        !key_lt(a, a),
        key_lt(a, b) && key_lt(b, c) ==> key_lt(a, c),
        a != b ==> key_lt(a, b) || key_lt(b, a),
{
    lemma_text_lt_irreflexive(a.1);
    if key_lt(a, b) && key_lt(b, c) && a.0 == b.0 && b.0 == c.0 {
        lemma_text_lt_transitive(a.1, b.1, c.1);
    }
    if a != b && a.0 == b.0 {
        lemma_text_lt_total(a.1, b.1);
    }
}

/// The report line of `e`.
fn report_row(e: &LedgerEntry) -> (r: ReportRow)
    requires
        e.amount.pennies != i64::MIN,
    ensures
        row_of(r, *e),
{
    let debit = if e.amount.pennies > 0 {
        Some(e.amount)
    } else {
        None
    };
    let credit = if e.amount.pennies < 0 {
        Some(e.amount.inverse())
    } else {
        None
    };
    ReportRow { date: e.date, account_code: e.account_code.clone(), debit: debit, credit: credit }
}

/// `r` is the line of one of the first `k` entries of `es`.
pub open spec fn line_of_some(r: ReportRow, es: Seq<LedgerEntry>, k: int) -> bool {
    exists|j: int| 0 <= j < k && #[trigger] row_of(r, es[j])
}

/// Some line of `rows` is the line of `e`.
pub open spec fn has_line(rows: Seq<ReportRow>, e: LedgerEntry) -> bool {
    exists|i: int| 0 <= i < rows.len() && #[trigger] row_of(rows[i], e)
}

/// Every line of `rows` is the line of one of the first `k` entries.
pub open spec fn rows_from(rows: Seq<ReportRow>, es: Seq<LedgerEntry>, k: int) -> bool {
    forall|i: int| 0 <= i < rows.len() ==> line_of_some(#[trigger] rows[i], es, k)
}

/// Each of the first `k` entries has its line in `rows`.
pub open spec fn rows_cover(rows: Seq<ReportRow>, es: Seq<LedgerEntry>, k: int) -> bool {
    forall|j: int| 0 <= j < k ==> has_line(rows, #[trigger] es[j])
}

/// The lines of `rows` are in strictly increasing order of key.
pub open spec fn rows_sorted(rows: Seq<ReportRow>) -> bool {
    forall|i: int, j: int|
        0 <= i < j < rows.len() ==> key_lt(row_key(#[trigger] rows[i]), row_key(#[trigger] rows[j]))
}

impl GeneralLedger {
    /// The lines of the ledger's report: one for each entry, in order of day and then of
    /// account code. An amount of `i64::MIN` pennies has no positive counterpart to show,
    /// so no entry may hold it.
    pub fn report_rows(&self) -> (r: Vec<ReportRow>)
        requires
            forall|i: int| 0 <= i < self@.len() ==> #[trigger] self@[i].amount.pennies != i64::MIN,
        ensures
            r@.len() == self@.len(),
            rows_sorted(r@),
            rows_from(r@, self@, self@.len() as int),
            rows_cover(r@, self@, self@.len() as int),
    {
        let es = self.entries();
        let mut rows: Vec<ReportRow> = Vec::new();
        let mut k: usize = 0;
        while k < es.len()
            invariant
                es@ == self@,
                keys_sorted(es@),
                forall|i: int| 0 <= i < es@.len() ==> #[trigger] es@[i].amount.pennies != i64::MIN,
                k <= es@.len(),
                rows@.len() == k,
                forall|i: int| 0 <= i < k ==> row_of(#[trigger] rows@[i], es@[i]),
            decreases es@.len() - k,
        {
            rows.push(report_row(&es[k]));
            k = k + 1;
        }
        proof {
            let r = rows@;
            let s = es@;
            assert forall|i: int, j: int| 0 <= i < j < r.len() implies key_lt(
                row_key(#[trigger] r[i]),
                row_key(#[trigger] r[j]),
            ) by {
                assert(row_of(r[i], s[i]) && row_of(r[j], s[j]));
                assert(key_lt(entry_key(s[i]), entry_key(s[j])));
            }
            assert forall|i: int| 0 <= i < r.len() implies line_of_some(
                #[trigger] r[i],
                s,
                s.len() as int,
            ) by {
                assert(row_of(r[i], s[i]));
            }
            assert forall|j: int| 0 <= j < s.len() implies has_line(r, #[trigger] s[j]) by {
                assert(row_of(r[j], s[j]));
            }
        }
        rows
    }
}

} // verus!
