use vstd::prelude::*;

pub mod general_ledger;
pub mod report;
pub mod transaction;

use crate::ledger::general_ledger::{
    GeneralLedger, Posting, Balances, balances, trial_balance, apply_postings, postings_fit,
    lemma_apply_postings_concat, entries_postings, posting_fits, post, entry_posting, EntryKey,
    total_where, postings_effect, lemma_postings_effect_concat, lemma_apply_postings_effect, day_total, on_day,
    lemma_postings_keep_days, at_key, touches, lemma_touches_concat,
};
use crate::ledger::transaction::Transaction;
use crate::ledger::transaction::assessment::Assessment;
use crate::ledger::transaction::payment::Payment;
use crate::ledger::transaction::void_assessment::VoidAssessment;

verus! {

/// The double entries of a run of transactions, each processed in turn.
pub open spec fn all_postings<T: Transaction>(s: Seq<T>) -> Seq<Posting>
    decreases s.len(),
{
    if s.len() == 0 {
        Seq::empty()
    } else {
        all_postings(s.drop_last()) + s.last().spec_postings()
    }
}

/// Every transaction of the run can be processed.
pub open spec fn all_ready<T: Transaction>(s: Seq<T>) -> bool {
    forall|i: int| 0 <= i < s.len() ==> #[trigger] s[i].spec_ready()
}

/// The postings of a run split where the run is split.
pub proof fn lemma_all_postings_split<T: Transaction>(s: Seq<T>, j: int)
    requires
        0 <= j <= s.len(),
    ensures
        all_postings(s) == all_postings(s.take(j)) + all_postings(s.skip(j)),
    decreases s.len(),
{
    if j == s.len() {
        assert(s.take(j) =~= s);
        assert(s.skip(j) =~= Seq::<T>::empty());
        assert(all_postings(s) + Seq::<Posting>::empty() =~= all_postings(s));
    } else {
        let dl = s.drop_last();
        lemma_all_postings_split(dl, j);
        assert(dl.take(j) =~= s.take(j));
        assert(s.skip(j).drop_last() =~= dl.skip(j));
        assert(s.skip(j).last() == s.last());
        assert(all_postings(s) =~= all_postings(s.take(j)) + all_postings(s.skip(j)));
    }
}

/// The balances after processing the transactions of `s` one at a time, starting from `m`.
pub open spec fn process_each<T: Transaction>(m: Balances, s: Seq<T>) -> Balances
    decreases s.len(),
{
    if s.len() == 0 {
        m
    } else {
        apply_postings(process_each(m, s.drop_last()), s.last().spec_postings())
    }
}

/// Processing one transaction at a time is applying the postings of the whole run.
proof fn lemma_process_each<T: Transaction>(m: Balances, s: Seq<T>)
    ensures
        process_each(m, s) == apply_postings(m, all_postings(s)),
    decreases s.len(),
{
    if s.len() > 0 {
        lemma_process_each(m, s.drop_last());
        lemma_apply_postings_concat(m, all_postings(s.drop_last()), s.last().spec_postings());
    }
}

/// Processing a ledger gives the balances of processing its transactions one at a time:
/// the assessments in turn, then the voids, then the payments, from an empty ledger.
pub proof fn lemma_processing_one_at_a_time(l: Ledger)
    ensures
        apply_postings(Balances::empty(), l.spec_postings()) == process_each(
            process_each(process_each(Balances::empty(), l.assessments@), l.void_assessments@),
            l.payments@,
        ),
{
    let m0 = Balances::empty();
    let a = all_postings(l.assessments@);
    let v = all_postings(l.void_assessments@);
    let p = all_postings(l.payments@);
    lemma_process_each(m0, l.assessments@);
    lemma_process_each(apply_postings(m0, a), l.void_assessments@);
    lemma_process_each(apply_postings(apply_postings(m0, a), v), l.payments@);
    lemma_apply_postings_concat(m0, a, v);
    lemma_apply_postings_concat(m0, a + v, p);
}

/// A run of transactions in another order moves every key by as much, and touches the
/// same keys.
proof fn lemma_all_postings_permuted<T: Transaction>(s1: Seq<T>, s2: Seq<T>, k: EntryKey)
    requires
        s1.to_multiset() == s2.to_multiset(),
    ensures
        postings_effect(all_postings(s1), at_key(k)) == postings_effect(all_postings(s2), at_key(k)),
        touches(all_postings(s1), k) == touches(all_postings(s2), k),
    decreases s1.len(),
{
    broadcast use vstd::seq_lib::group_to_multiset_ensures;

    if s1.len() == 0 {
        assert(s1.to_multiset().len() == 0);
        assert(s2.to_multiset().len() == 0);
        assert(s2.len() == 0);
        assert(s2 =~= Seq::<T>::empty());
        assert(s1 =~= Seq::<T>::empty());
    } else {
        let x = s1.last();
        let d1 = s1.drop_last();
        assert(s1 =~= d1.push(x));
        assert(s2.to_multiset().count(x) > 0);
        assert(s2.contains(x));
        let i = choose|i: int| 0 <= i < s2.len() && s2[i] == x;
        let r = s2.remove(i);
        assert(r.to_multiset() == d1.to_multiset());
        lemma_all_postings_permuted(d1, r, k);
        // split the second run around position `i`
        let a = all_postings(s2.take(i));
        let b = x.spec_postings();
        let c = all_postings(s2.skip(i + 1));
        lemma_all_postings_split(s2, i);
        lemma_all_postings_split(s2.skip(i), 1);
        assert(s2.skip(i).take(1) =~= seq![x]);
        assert(seq![x].drop_last() =~= Seq::<T>::empty());
        assert(seq![x].last() == x);
        assert(all_postings(Seq::<T>::empty()) == Seq::<Posting>::empty());
        assert(Seq::<Posting>::empty() + b =~= b);
        assert(all_postings(seq![x]) == b);
        assert(s2.skip(i).skip(1) =~= s2.skip(i + 1));
        assert(all_postings(s2) == a + (b + c));
        lemma_all_postings_split(r, i);
        assert(r.take(i) =~= s2.take(i));
        assert(r.skip(i) =~= s2.skip(i + 1));
        assert(all_postings(r) == a + c);
        lemma_postings_effect_concat(a, b + c, at_key(k));
        lemma_postings_effect_concat(b, c, at_key(k));
        lemma_postings_effect_concat(a, c, at_key(k));
        lemma_postings_effect_concat(all_postings(d1), b, at_key(k));
        lemma_touches_concat(a, b + c, k);
        lemma_touches_concat(b, c, k);
        lemma_touches_concat(a, c, k);
        lemma_touches_concat(all_postings(d1), b, k);
    }
}

/// Processing is the same whatever order the transactions of each kind come in: runs of
/// assessments, voids and payments that hold the same transactions give the same balances.
pub proof fn lemma_processing_order_independent(l1: Ledger, l2: Ledger)
    requires
        l1.assessments@.to_multiset() == l2.assessments@.to_multiset(),
        l1.void_assessments@.to_multiset() == l2.void_assessments@.to_multiset(),
        l1.payments@.to_multiset() == l2.payments@.to_multiset(),
    ensures
        apply_postings(Balances::empty(), l1.spec_postings()) == apply_postings(
            Balances::empty(),
            l2.spec_postings(),
        ),
{
    let m0 = Balances::empty();
    let a1 = all_postings(l1.assessments@);
    let v1 = all_postings(l1.void_assessments@);
    let p1 = all_postings(l1.payments@);
    let a2 = all_postings(l2.assessments@);
    let v2 = all_postings(l2.void_assessments@);
    let p2 = all_postings(l2.payments@);
    let b1 = apply_postings(m0, l1.spec_postings());
    let b2 = apply_postings(m0, l2.spec_postings());
    assert forall|k: EntryKey| #[trigger] b1.contains_key(k) == b2.contains_key(k) && (
    b1.contains_key(k) ==> b1[k] == b2[k]) by {
        lemma_all_postings_permuted(l1.assessments@, l2.assessments@, k);
        lemma_all_postings_permuted(l1.void_assessments@, l2.void_assessments@, k);
        lemma_all_postings_permuted(l1.payments@, l2.payments@, k);
        lemma_postings_effect_concat(a1 + v1, p1, at_key(k));
        lemma_postings_effect_concat(a1, v1, at_key(k));
        lemma_postings_effect_concat(a2 + v2, p2, at_key(k));
        lemma_postings_effect_concat(a2, v2, at_key(k));
        lemma_touches_concat(a1 + v1, p1, k);
        lemma_touches_concat(a1, v1, k);
        lemma_touches_concat(a2 + v2, p2, k);
        lemma_touches_concat(a2, v2, k);
        lemma_apply_postings_effect(m0, l1.spec_postings(), k);
        lemma_apply_postings_effect(m0, l2.spec_postings(), k);
    }
    assert(b1 =~= b2);
}

/// Processes each transaction of `items` in turn.
fn process_all<T: Transaction>(items: &Vec<T>, gl: &mut GeneralLedger)
    requires
        all_ready(items@),
        postings_fit(balances(old(gl)@), all_postings(items@)),
    ensures
        balances(final(gl)@) == apply_postings(balances(old(gl)@), all_postings(items@)),
        trial_balance(final(gl)@) == trial_balance(old(gl)@),
        forall|f: spec_fn(EntryKey) -> bool|
            #[trigger] total_where(final(gl)@, f) == total_where(old(gl)@, f) + postings_effect(
                all_postings(items@),
                f,
            ),
{
    let ghost m0 = balances(gl@);
    let ghost t0 = trial_balance(gl@);
    let ghost s0 = gl@;
    let mut i: usize = 0;
    proof {
        assert(items@.take(0) =~= Seq::<T>::empty());
        assert(apply_postings(m0, Seq::<Posting>::empty()) == m0);
    }
    while i < items.len()
        invariant
            all_ready(items@),
            postings_fit(m0, all_postings(items@)),
            0 <= i <= items@.len(),
            balances(gl@) == apply_postings(m0, all_postings(items@.take(i as int))),
            trial_balance(gl@) == t0,
            forall|f: spec_fn(EntryKey) -> bool|
                #[trigger] total_where(gl@, f) == total_where(s0, f) + postings_effect(
                    all_postings(items@.take(i as int)),
                    f,
                ),
        decreases items@.len() - i,
    {
        proof {
            let s = items@;
            lemma_all_postings_split(s, i as int);
            lemma_all_postings_split(s.skip(i as int), 1);
            let a = all_postings(s.take(i as int));
            let b = s[i as int].spec_postings();
            let c = all_postings(s.skip(i as int).skip(1));
            assert(s.skip(i as int).take(1) =~= seq![s[i as int]]);
            assert(seq![s[i as int]].drop_last() =~= Seq::<T>::empty());
            assert(all_postings(Seq::<T>::empty()) == Seq::<Posting>::empty());
            assert(Seq::<Posting>::empty() + b =~= b);
            assert(all_postings(seq![s[i as int]]) =~= b);
            lemma_apply_postings_concat(m0, a, b + c);
            assert(a + (b + c) =~= all_postings(s));
            lemma_apply_postings_concat(apply_postings(m0, a), b, c);
            lemma_apply_postings_concat(m0, a, b);
            assert(s.take(i + 1).drop_last() =~= s.take(i as int));
            assert(s.take(i + 1).last() == s[i as int]);
            assert(s[i as int].spec_ready());
            assert(all_postings(s.take(i + 1)) == a + b);
            assert forall|f: spec_fn(EntryKey) -> bool|
                #[trigger] postings_effect(all_postings(s.take(i + 1)), f) == postings_effect(a, f)
                    + postings_effect(b, f) by {
                lemma_postings_effect_concat(a, b, f);
            }
        }
        items[i].process(gl);
        i = i + 1;
    }
    proof {
        assert(items@.take(i as int) =~= items@);
    }
}

/// Processes each transaction of `items` in turn, as long as it can: stops with `false` at
/// the first transaction that cannot be processed or whose entries would take a balance
/// out of `i64`.
fn try_process_all<T: Transaction>(items: &Vec<T>, gl: &mut GeneralLedger) -> (ok: bool)
    ensures
        ok == (all_ready(items@) && postings_fit(balances(old(gl)@), all_postings(items@))),
        ok ==> balances(final(gl)@) == apply_postings(balances(old(gl)@), all_postings(items@)),
        ok ==> trial_balance(final(gl)@) == trial_balance(old(gl)@),
        ok ==> forall|f: spec_fn(EntryKey) -> bool|
            #[trigger] total_where(final(gl)@, f) == total_where(old(gl)@, f) + postings_effect(
                all_postings(items@),
                f,
            ),
{
    let ghost m0 = balances(gl@);
    let ghost t0 = trial_balance(gl@);
    let ghost s0 = gl@;
    let ghost s = items@;
    let mut i: usize = 0;
    proof {
        assert(s.take(0) =~= Seq::<T>::empty());
        assert(apply_postings(m0, Seq::<Posting>::empty()) == m0);
    }
    while i < items.len()
        invariant
            s == items@,
            m0 == balances(old(gl)@),
            0 <= i <= s.len(),
            forall|j: int| 0 <= j < i ==> #[trigger] s[j].spec_ready(),
            postings_fit(m0, all_postings(s.take(i as int))),
            balances(gl@) == apply_postings(m0, all_postings(s.take(i as int))),
            trial_balance(gl@) == t0,
            forall|f: spec_fn(EntryKey) -> bool|
                #[trigger] total_where(gl@, f) == total_where(s0, f) + postings_effect(
                    all_postings(s.take(i as int)),
                    f,
                ),
        decreases s.len() - i,
    {
        let ghost a = all_postings(s.take(i as int));
        proof {
            lemma_all_postings_split(s, i as int);
            lemma_all_postings_split(s.skip(i as int), 1);
            assert(s.skip(i as int).take(1) =~= seq![s[i as int]]);
            assert(seq![s[i as int]].drop_last() =~= Seq::<T>::empty());
            assert(all_postings(Seq::<T>::empty()) == Seq::<Posting>::empty());
            assert(Seq::<Posting>::empty() + s[i as int].spec_postings() =~= s[i as int].spec_postings());
            assert(s.take(i + 1).drop_last() =~= s.take(i as int));
            assert(s.take(i + 1).last() == s[i as int]);
            lemma_all_postings_split(s, i + 1);
        }
        if !items[i].is_ready() {
            return false;
        }
        let entries = items[i].entries();
        let ghost b = s[i as int].spec_postings();
        let mut j: usize = 0;
        proof {
            assert(b.take(0) =~= Seq::<Posting>::empty());
            assert(a + b.take(0) =~= a);
        }
        while j < entries.len()
            invariant
                s == items@,
                m0 == balances(old(gl)@),
                0 <= i < s.len(),
                b == s[i as int].spec_postings(),
                entries_postings(entries@) == b,
                a == all_postings(s.take(i as int)),
                all_postings(s.take(i + 1)) == a + b,
                all_postings(s) == all_postings(s.take(i + 1)) + all_postings(s.skip(i + 1)),
                0 <= j <= entries@.len(),
                postings_fit(m0, a + b.take(j as int)),
                balances(gl@) == apply_postings(m0, a + b.take(j as int)),
                trial_balance(gl@) == t0,
                forall|f: spec_fn(EntryKey) -> bool|
                    #[trigger] total_where(gl@, f) == total_where(s0, f) + postings_effect(
                        a + b.take(j as int),
                        f,
                    ),
            decreases entries@.len() - j,
        {
            let ghost pre = a + b.take(j as int);
            proof {
                assert((a + b.take(j + 1)).drop_last() =~= pre);
                assert((a + b.take(j + 1)).last() == b[j as int]);
                assert(b[j as int] == entry_posting(entries@[j as int]));
            }
            if !gl.fits(&entries[j]) {
                proof {
                    let r = all_postings(s.skip(i + 1));
                    assert(!postings_fit(m0, a + b.take(j + 1)));
                    lemma_apply_postings_concat(m0, a + b.take(j + 1), b.skip(j + 1) + r);
                    assert(b =~= b.take(j + 1) + b.skip(j + 1));
                    assert((a + b.take(j + 1)) + (b.skip(j + 1) + r) =~= (a + b) + r);
                    assert(!postings_fit(m0, all_postings(s)));
                    assert(!postings_fit(m0, all_postings(items@)));
                }
                return false;
            }
            gl.record(&entries[j]);
            j = j + 1;
        }
        proof {
            assert(b.take(b.len() as int) =~= b);
            assert(a + b.take(b.len() as int) =~= all_postings(s.take(i + 1)));
        }
        i = i + 1;
    }
    proof {
        assert(s.take(s.len() as int) =~= s);
    }
    true
}

/// The transactions of a ledger: assessments, their voids and payments.
#[derive(Debug)]
pub struct Ledger<'a> {
    pub assessments: Vec<Assessment<'a>>,
    pub void_assessments: Vec<VoidAssessment<'a>>,
    pub payments: Vec<Payment<'a>>,
}

impl<'a> Ledger<'a> {
    pub fn new(
        assessments: Vec<Assessment<'a>>,
        void_assessments: Vec<VoidAssessment<'a>>,
        payments: Vec<Payment<'a>>,
    ) -> (r: Ledger<'a>)
        ensures
            r.assessments == assessments,
            r.void_assessments == void_assessments,
            r.payments == payments,
    {
        Ledger { assessments: assessments, void_assessments: void_assessments, payments: payments }
    }

    /// The double entries of the ledger: those of the assessments, then of the voids,
    /// then of the payments, each in order.
    pub open spec fn spec_postings(&self) -> Seq<Posting> {
        all_postings(self.assessments@) + all_postings(self.void_assessments@) + all_postings(
            self.payments@,
        )
    }

    /// Every transaction can be processed.
    pub open spec fn ready(&self) -> bool {
        &&& all_ready(self.assessments@)
        &&& all_ready(self.void_assessments@)
        &&& all_ready(self.payments@)
    }

    /// The general ledger of all transactions: assessments first, then voids, then
    /// payments. Its debits and credits balance.
    pub fn process_general_ledger(&self) -> (r: GeneralLedger)
        requires
            self.ready(),
            postings_fit(Balances::empty(), self.spec_postings()),
        ensures
            balances(r@) == apply_postings(Balances::empty(), self.spec_postings()),
            trial_balance(r@) == 0,
            forall|f: spec_fn(EntryKey) -> bool|
                #[trigger] total_where(r@, f) == postings_effect(self.spec_postings(), f),
            forall|d: int| #[trigger] day_total(r@, d) == 0,
    {
        let mut general_ledger = GeneralLedger::new();
        let ghost m0 = Balances::empty();
        let ghost a = all_postings(self.assessments@);
        let ghost v = all_postings(self.void_assessments@);
        let ghost p = all_postings(self.payments@);
        proof {
            lemma_apply_postings_concat(m0, a + v, p);
            lemma_apply_postings_concat(m0, a, v);
        }
        process_all(&self.assessments, &mut general_ledger);
        process_all(&self.void_assessments, &mut general_ledger);
        process_all(&self.payments, &mut general_ledger);
        proof {
            assert forall|f: spec_fn(EntryKey) -> bool|
                #[trigger] postings_effect(self.spec_postings(), f) == postings_effect(a, f)
                    + postings_effect(v, f) + postings_effect(p, f) by {
                lemma_postings_effect_concat(a + v, p, f);
                lemma_postings_effect_concat(a, v, f);
            }
            assert forall|d: int| #[trigger] day_total(general_ledger@, d) == 0 by {
                lemma_postings_keep_days(self.spec_postings(), d);
            }
        }
        general_ledger
    }

    /// The general ledger of all transactions, as `process_general_ledger` builds it, or
    /// `None` where that would fail: some transaction cannot be processed, or some balance
    /// would leave `i64`.
    pub fn try_process_general_ledger(&self) -> (r: Option<GeneralLedger>)
        ensures
            r is Some <==> (self.ready() && postings_fit(Balances::empty(), self.spec_postings())),
            r matches Some(gl) ==> balances(gl@) == apply_postings(
                Balances::empty(),
                self.spec_postings(),
            ) && trial_balance(gl@) == 0,
            r matches Some(gl) ==> forall|f: spec_fn(EntryKey) -> bool|
                #[trigger] total_where(gl@, f) == postings_effect(self.spec_postings(), f),
            r matches Some(gl) ==> forall|d: int| #[trigger] day_total(gl@, d) == 0,
    {
        let mut general_ledger = GeneralLedger::new();
        let ghost m0 = Balances::empty();
        let ghost a = all_postings(self.assessments@);
        let ghost v = all_postings(self.void_assessments@);
        let ghost p = all_postings(self.payments@);
        proof {
            lemma_apply_postings_concat(m0, a + v, p);
            lemma_apply_postings_concat(m0, a, v);
        }
        if !try_process_all(&self.assessments, &mut general_ledger) {
            return None;
        }
        if !try_process_all(&self.void_assessments, &mut general_ledger) {
            return None;
        }
        if !try_process_all(&self.payments, &mut general_ledger) {
            return None;
        }
        proof {
            assert forall|f: spec_fn(EntryKey) -> bool|
                #[trigger] postings_effect(self.spec_postings(), f) == postings_effect(a, f)
                    + postings_effect(v, f) + postings_effect(p, f) by {
                lemma_postings_effect_concat(a + v, p, f);
                lemma_postings_effect_concat(a, v, f);
            }
            assert forall|d: int| #[trigger] day_total(general_ledger@, d) == 0 by {
                lemma_postings_keep_days(self.spec_postings(), d);
            }
        }
        Some(general_ledger)
    }
}

} // verus!
