use vstd::prelude::*;
use crate::time::Day;
use crate::usd::{USD, fits_i64};
use crate::ledger::report::{key_lt, lemma_key_lt_order, text_less};

verus! {

/// The balance of one account on one day.
#[derive(Debug)]
pub struct LedgerEntry {
    pub date: Day,
    pub account_code: String,
    pub amount: USD,
}

/// A double entry to record: `amount` debited to `debit_account_code` and credited to
/// `credit_account_code`, both on `date`.
#[derive(Debug)]
pub struct DoubleEntry {
    pub date: Day,
    pub amount: USD,
    pub debit_account_code: String,
    pub credit_account_code: String,
}

/// An account on a day: the key under which the general ledger keeps a balance.
pub type EntryKey = (int, Seq<char>);

/// A balance for each (day, account) that the ledger has seen, in pennies.
pub type Balances = Map<EntryKey, int>;

/// One double entry: (day, amount in pennies, debited account, credited account).
pub type Posting = (int, int, Seq<char>, Seq<char>);

/// The key of an entry.
pub open spec fn entry_key(e: LedgerEntry) -> EntryKey {
    (e.date as int, e.account_code@)
}

/// No two entries share a key.
pub open spec fn keys_distinct(s: Seq<LedgerEntry>) -> bool {
    forall|i: int, j: int|
        0 <= i < s.len() && 0 <= j < s.len() && i != j ==> entry_key(#[trigger] s[i]) != entry_key(
            #[trigger] s[j],
        )
}

/// The entries come in strictly increasing order of key: by day, then by account code.
pub open spec fn keys_sorted(s: Seq<LedgerEntry>) -> bool {
    forall|i: int, j: int|
        0 <= i < j < s.len() ==> key_lt(entry_key(#[trigger] s[i]), entry_key(#[trigger] s[j]))
}

/// Entries in strictly increasing order of key have distinct keys.
pub proof fn lemma_sorted_distinct(s: Seq<LedgerEntry>)
    requires
        keys_sorted(s),
    ensures
        keys_distinct(s),
{
    assert forall|i: int, j: int|
        0 <= i < s.len() && 0 <= j < s.len() && i != j implies entry_key(#[trigger] s[i])
        != entry_key(#[trigger] s[j]) by {
        lemma_key_lt_order(entry_key(s[i]), entry_key(s[j]), entry_key(s[i]));
    }
}

/// The balances that a sequence of entries holds (a later entry of a key overrides an earlier one).
pub open spec fn balances(s: Seq<LedgerEntry>) -> Balances
    decreases s.len(),
{
    if s.len() == 0 {
        Map::empty()
    } else {
        balances(s.drop_last()).insert(entry_key(s.last()), s.last().amount.pennies as int)
    }
}

/// The sum of all entries' amounts: the difference between total debits and total credits.
pub open spec fn trial_balance(s: Seq<LedgerEntry>) -> int
    decreases s.len(),
{
    if s.len() == 0 {
        0
    } else {
        trial_balance(s.drop_last()) + s.last().amount.pennies
    }
}

/// The sum of the balances whose key satisfies `f`.
pub open spec fn total_where(s: Seq<LedgerEntry>, f: spec_fn(EntryKey) -> bool) -> int
    decreases s.len(),
{
    if s.len() == 0 {
        0
    } else {
        total_where(s.drop_last(), f) + if f(entry_key(s.last())) {
            s.last().amount.pennies as int
        } else {
            0
        }
    }
}

/// The keys of day `d`.
pub open spec fn on_day(d: int) -> spec_fn(EntryKey) -> bool {
    |k: EntryKey| k.0 == d
}

/// The keys of account `code`, on any day.
pub open spec fn of_account(code: Seq<char>) -> spec_fn(EntryKey) -> bool {
    |k: EntryKey| k.1 == code
}

/// The sum of the balances of day `d`: what was debited that day less what was credited.
pub open spec fn day_total(s: Seq<LedgerEntry>, d: int) -> int {
    total_where(s, on_day(d))
}

/// The sum of the balances of account `code` over all days.
pub open spec fn account_total(s: Seq<LedgerEntry>, code: Seq<char>) -> int {
    total_where(s, of_account(code))
}

/// The balance under key `k`, zero where there is none yet.
pub open spec fn balance_of(m: Balances, k: EntryKey) -> int {
    if m.contains_key(k) {
        m[k]
    } else {
        0
    }
}

/// `m` after `delta` is added to the balance under `k` (which is created at zero if absent).
pub open spec fn adjusted(m: Balances, k: EntryKey, delta: int) -> Balances {
    m.insert(k, balance_of(m, k) + delta)
}

/// `m` after posting `p`: its amount is added to the debited account and subtracted
/// from the credited account, both on the posting's day.
pub open spec fn post(m: Balances, p: Posting) -> Balances {
    adjusted(adjusted(m, (p.0, p.2), p.1), (p.0, p.3), -p.1)
}

/// Posting `p` onto `m` keeps both touched balances within `i64`.
pub open spec fn posting_fits(m: Balances, p: Posting) -> bool {
    &&& fits_i64(balance_of(m, (p.0, p.2)) + p.1)
    &&& fits_i64(balance_of(adjusted(m, (p.0, p.2), p.1), (p.0, p.3)) - p.1)
}

/// `m` after the postings `ps`, in order.
pub open spec fn apply_postings(m: Balances, ps: Seq<Posting>) -> Balances
    decreases ps.len(),
{
    if ps.len() == 0 {
        m
    } else {
        post(apply_postings(m, ps.drop_last()), ps.last())
    }
}

/// Every posting of `ps`, applied in order to `m`, keeps its balances within `i64`.
pub open spec fn postings_fit(m: Balances, ps: Seq<Posting>) -> bool
    decreases ps.len(),
{
    if ps.len() == 0 {
        true
    } else {
        postings_fit(m, ps.drop_last()) && posting_fits(apply_postings(m, ps.drop_last()), ps.last())
    }
}

/// The posting that `record_double_entry(date, amount, debit, credit)` makes.
pub open spec fn posting(date: Day, amount: USD, debit: String, credit: String) -> Posting {
    (date as int, amount.pennies as int, debit@, credit@)
}

/// The posting of a double entry.
pub open spec fn entry_posting(e: DoubleEntry) -> Posting {
    posting(e.date, e.amount, e.debit_account_code, e.credit_account_code)
}

/// The postings of a run of double entries.
pub open spec fn entries_postings(s: Seq<DoubleEntry>) -> Seq<Posting> {
    s.map_values(|e: DoubleEntry| entry_posting(e))
}

/// What posting `p` adds to the sum of the balances whose key satisfies `f`: its amount
/// where the debited key does, less its amount where the credited key does.
pub open spec fn posting_effect(p: Posting, f: spec_fn(EntryKey) -> bool) -> int {
    (if f((p.0, p.2)) {
        p.1
    } else {
        0
    }) - (if f((p.0, p.3)) {
        p.1
    } else {
        0
    })
}

/// What the postings `ps` add to the sum of the balances whose key satisfies `f`.
pub open spec fn postings_effect(ps: Seq<Posting>, f: spec_fn(EntryKey) -> bool) -> int
    decreases ps.len(),
{
    if ps.len() == 0 {
        0
    } else {
        postings_effect(ps.drop_last(), f) + posting_effect(ps.last(), f)
    }
}

/// The effect of a concatenation is the sum of the effects.
pub proof fn lemma_postings_effect_concat(a: Seq<Posting>, b: Seq<Posting>, f: spec_fn(EntryKey) -> bool)
    ensures
        postings_effect(a + b, f) == postings_effect(a, f) + postings_effect(b, f),
    decreases b.len(),
{
    if b.len() == 0 {
        assert(a + b =~= a);
    } else {
        lemma_postings_effect_concat(a, b.drop_last(), f);
        assert((a + b).drop_last() =~= a + b.drop_last());
        assert((a + b).last() == b.last());
    }
}

/// Debits and credits balance on every day: postings leave each day's sum unchanged.
pub proof fn lemma_postings_keep_days(ps: Seq<Posting>, d: int)
    ensures
        postings_effect(ps, on_day(d)) == 0,
    decreases ps.len(),
{
    if ps.len() > 0 {
        lemma_postings_keep_days(ps.drop_last(), d);
    }
}

/// Over all days, postings move an account by what they debit to it less what they
/// credit to it.
pub proof fn lemma_postings_account_effect(ps: Seq<Posting>, code: Seq<char>)
    ensures
        postings_effect(ps, of_account(code)) == debited(ps, code) - credited(ps, code),
    decreases ps.len(),
{
    if ps.len() > 0 {
        lemma_postings_account_effect(ps.drop_last(), code);
    }
}

/// Applying two runs of postings one after the other is applying their concatenation.
pub proof fn lemma_apply_postings_concat(m: Balances, a: Seq<Posting>, b: Seq<Posting>)
    ensures
        apply_postings(m, a + b) == apply_postings(apply_postings(m, a), b),
        postings_fit(m, a + b) <==> (postings_fit(m, a) && postings_fit(apply_postings(m, a), b)),
    decreases b.len(),
{
    if b.len() == 0 {
        assert(a + b =~= a);
    } else {
        lemma_apply_postings_concat(m, a, b.drop_last());
        assert((a + b).drop_last() =~= a + b.drop_last());
        assert((a + b).last() == b.last());
    }
}

/// Posting the next one of a fitting run: the prefix up to it fits, and applying
/// one more posting extends the prefix by one.
pub proof fn lemma_prefix_step(m: Balances, ps: Seq<Posting>, i: int)
    requires
        0 <= i < ps.len(),
        postings_fit(m, ps),
    ensures
        posting_fits(apply_postings(m, ps.take(i)), ps[i]),
        postings_fit(m, ps.take(i + 1)),
        apply_postings(m, ps.take(i + 1)) == post(apply_postings(m, ps.take(i)), ps[i]),
{
    lemma_apply_postings_concat(m, ps.take(i + 1), ps.skip(i + 1));
    assert(ps.take(i + 1) + ps.skip(i + 1) =~= ps);
    assert(ps.take(i + 1).drop_last() =~= ps.take(i));
    assert(ps.take(i + 1).last() == ps[i]);
}

/// The whole of a run is its prefix of full length.
pub proof fn lemma_take_all(ps: Seq<Posting>)
    ensures
        ps.take(ps.len() as int) == ps,
{
    assert(ps.take(ps.len() as int) =~= ps);
}

/// The total that the postings debit to `code`.
pub open spec fn debited(ps: Seq<Posting>, code: Seq<char>) -> int
    decreases ps.len(),
{
    if ps.len() == 0 {
        0
    } else {
        debited(ps.drop_last(), code) + if ps.last().2 == code {
            ps.last().1
        } else {
            0
        }
    }
}

/// The total that the postings credit to `code`.
pub open spec fn credited(ps: Seq<Posting>, code: Seq<char>) -> int
    decreases ps.len(),
{
    if ps.len() == 0 {
        0
    } else {
        credited(ps.drop_last(), code) + if ps.last().3 == code {
            ps.last().1
        } else {
            0
        }
    }
}

/// Debits and credits of a concatenation add up.
pub proof fn lemma_debited_concat(a: Seq<Posting>, b: Seq<Posting>, code: Seq<char>)
    ensures
        debited(a + b, code) == debited(a, code) + debited(b, code),
        credited(a + b, code) == credited(a, code) + credited(b, code),
    decreases b.len(),
{
    if b.len() == 0 {
        assert(a + b =~= a);
    } else {
        lemma_debited_concat(a, b.drop_last(), code);
        assert((a + b).drop_last() =~= a + b.drop_last());
        assert((a + b).last() == b.last());
    }
}

/// Debits and credits of a single posting.
pub proof fn lemma_debited_one(p: Posting, code: Seq<char>)
    ensures
        debited(seq![p], code) == if p.2 == code {
            p.1
        } else {
            0
        },
        credited(seq![p], code) == if p.3 == code {
            p.1
        } else {
            0
        },
{
    assert(seq![p].drop_last() =~= Seq::<Posting>::empty());
    assert(debited(Seq::<Posting>::empty(), code) == 0);
    assert(credited(Seq::<Posting>::empty(), code) == 0);
}

/// Recording a double entry adds its amount to the debited account's balance on its day
/// and takes it from the credited account's (one account on both sides keeps its balance);
/// every other balance, and whether it exists, is unchanged.
pub proof fn lemma_post_effect(m: Balances, p: Posting)
    ensures
        post(m, p).contains_key((p.0, p.2)),
        post(m, p).contains_key((p.0, p.3)),
        p.2 != p.3 ==> balance_of(post(m, p), (p.0, p.2)) == balance_of(m, (p.0, p.2)) + p.1,
        p.2 != p.3 ==> balance_of(post(m, p), (p.0, p.3)) == balance_of(m, (p.0, p.3)) - p.1,
        p.2 == p.3 ==> balance_of(post(m, p), (p.0, p.2)) == balance_of(m, (p.0, p.2)),
        forall|k: EntryKey|
            k != (p.0, p.2) && k != (p.0, p.3) ==> (#[trigger] post(m, p).contains_key(k)
                == m.contains_key(k) && balance_of(post(m, p), k) == balance_of(m, k)),
{
}

/// The single key `k`.
pub open spec fn at_key(k: EntryKey) -> spec_fn(EntryKey) -> bool {
    |x: EntryKey| x == k
}

/// Some posting of `ps` debits or credits key `k`.
pub open spec fn touches(ps: Seq<Posting>, k: EntryKey) -> bool
    decreases ps.len(),
{
    ps.len() > 0 && (touches(ps.drop_last(), k) || (ps.last().0, ps.last().2) == k || (
    ps.last().0, ps.last().3) == k)
}

/// Postings change the balance under each key by their effect on that key, and create
/// exactly the balances of the keys they touch: a key they do not touch keeps its balance,
/// and exists afterwards only if it existed before.
pub proof fn lemma_apply_postings_effect(m: Balances, ps: Seq<Posting>, k: EntryKey)
    ensures
        balance_of(apply_postings(m, ps), k) == balance_of(m, k) + postings_effect(ps, at_key(k)),
        apply_postings(m, ps).contains_key(k) == (m.contains_key(k) || touches(ps, k)),
        !touches(ps, k) ==> postings_effect(ps, at_key(k)) == 0,
    decreases ps.len(),
{
    if ps.len() > 0 {
        lemma_apply_postings_effect(m, ps.drop_last(), k);
        lemma_post_effect(apply_postings(m, ps.drop_last()), ps.last());
    }
}

/// A touched key is the debited or credited key of one of the postings.
pub proof fn lemma_touches_index(ps: Seq<Posting>, k: EntryKey)
    requires
        touches(ps, k),
    ensures
        exists|i: int|
            0 <= i < ps.len() && ((#[trigger] ps[i]).0 == k.0 && (ps[i].2 == k.1 || ps[i].3 == k.1)),
    decreases ps.len(),
{
    let t = ps.drop_last();
    if touches(t, k) {
        lemma_touches_index(t, k);
        let i = choose|i: int|
            0 <= i < t.len() && ((#[trigger] t[i]).0 == k.0 && (t[i].2 == k.1 || t[i].3 == k.1));
        assert(ps[i] == t[i]);
    } else {
        assert(ps[ps.len() - 1] == ps.last());
    }
}

/// A concatenation touches a key where either part does.
pub proof fn lemma_touches_concat(a: Seq<Posting>, b: Seq<Posting>, k: EntryKey)
    ensures
        touches(a + b, k) == (touches(a, k) || touches(b, k)),
    decreases b.len(),
{
    if b.len() == 0 {
        assert(a + b =~= a);
    } else {
        lemma_touches_concat(a, b.drop_last(), k);
        assert((a + b).drop_last() =~= a + b.drop_last());
        assert((a + b).last() == b.last());
    }
}

/// Under distinct keys, the balances hold exactly the entries' keys, each with its entry's amount.
proof fn lemma_balances_lookup(s: Seq<LedgerEntry>)
    requires
        keys_distinct(s),
    ensures
        forall|i: int|
            0 <= i < s.len() ==> #[trigger] balances(s).contains_key(entry_key(s[i]))
                && balances(s)[entry_key(s[i])] == s[i].amount.pennies,
        forall|k: EntryKey|
            #[trigger] balances(s).contains_key(k) ==> exists|i: int|
                0 <= i < s.len() && entry_key(s[i]) == k,
    decreases s.len(),
{
    if s.len() > 0 {
        let t = s.drop_last();
        assert(keys_distinct(t)) by {
            assert forall|i: int, j: int|
                0 <= i < t.len() && 0 <= j < t.len() && i != j implies entry_key(
                    #[trigger] t[i],
                ) != entry_key(#[trigger] t[j]) by {
                assert(t[i] == s[i] && t[j] == s[j]);
            }
        }
        lemma_balances_lookup(t);
        assert forall|i: int| 0 <= i < s.len() implies #[trigger] balances(s).contains_key(
            entry_key(s[i]),
        ) && balances(s)[entry_key(s[i])] == s[i].amount.pennies by {
            if i < s.len() - 1 {
                assert(t[i] == s[i]);
                assert(balances(t).contains_key(entry_key(t[i])));
                assert(entry_key(s[i]) != entry_key(s[s.len() - 1]));
            }
        }
        assert forall|k: EntryKey| #[trigger] balances(s).contains_key(k) implies exists|i: int|
            0 <= i < s.len() && entry_key(s[i]) == k by {
            if k != entry_key(s.last()) {
                assert(balances(t).contains_key(k));
                let i = choose|i: int| 0 <= i < t.len() && entry_key(t[i]) == k;
                assert(t[i] == s[i]);
            } else {
                assert(entry_key(s[s.len() - 1]) == k);
            }
        }
    }
}

/// Replacing an entry by one with the same key changes only that key's balance.
proof fn lemma_balances_update(s: Seq<LedgerEntry>, i: int, e: LedgerEntry)
    requires
        0 <= i < s.len(),
        entry_key(e) == entry_key(s[i]),
        keys_distinct(s),
    ensures
        balances(s.update(i, e)) == balances(s).insert(entry_key(e), e.amount.pennies as int),
        trial_balance(s.update(i, e)) == trial_balance(s) - s[i].amount.pennies + e.amount.pennies,
    decreases s.len(),
{
    let u = s.update(i, e);
    let t = s.drop_last();
    if i == s.len() - 1 {
        assert(u.drop_last() =~= t);
        assert(u.last() == e);
    } else {
        assert(u.drop_last() =~= t.update(i, e));
        assert(keys_distinct(t)) by {
            assert forall|a: int, b: int|
                0 <= a < t.len() && 0 <= b < t.len() && a != b implies entry_key(
                    #[trigger] t[a],
                ) != entry_key(#[trigger] t[b]) by {
                assert(t[a] == s[a] && t[b] == s[b]);
            }
        }
        lemma_balances_update(t, i, e);
        assert(u.last() == s.last());
        assert(entry_key(s.last()) != entry_key(s[i]));
        assert(balances(u) =~= balances(s).insert(entry_key(e), e.amount.pennies as int));
    }
}

/// Replacing an entry changes the sums of balances by the difference of the two amounts,
/// where the keys count.
proof fn lemma_total_update(s: Seq<LedgerEntry>, i: int, e: LedgerEntry, f: spec_fn(EntryKey) -> bool)
    requires
        0 <= i < s.len(),
    ensures
        total_where(s.update(i, e), f) == total_where(s, f) - (if f(entry_key(s[i])) {
            s[i].amount.pennies as int
        } else {
            0
        }) + (if f(entry_key(e)) {
            e.amount.pennies as int
        } else {
            0
        }),
    decreases s.len(),
{
    let u = s.update(i, e);
    let t = s.drop_last();
    if i == s.len() - 1 {
        assert(u.drop_last() =~= t);
        assert(u.last() == e);
    } else {
        assert(u.drop_last() =~= t.update(i, e));
        lemma_total_update(t, i, e, f);
        assert(u.last() == s.last());
        assert(t[i] == s[i]);
    }
}

/// The sums of a concatenation of entries are the sums of its parts.
proof fn lemma_totals_concat(a: Seq<LedgerEntry>, b: Seq<LedgerEntry>, f: spec_fn(EntryKey) -> bool)
    ensures
        total_where(a + b, f) == total_where(a, f) + total_where(b, f),
        trial_balance(a + b) == trial_balance(a) + trial_balance(b),
    decreases b.len(),
{
    if b.len() == 0 {
        assert(a + b =~= a);
    } else {
        lemma_totals_concat(a, b.drop_last(), f);
        assert((a + b).drop_last() =~= a + b.drop_last());
        assert((a + b).last() == b.last());
    }
}

/// Putting an entry with a new key in at position `pos` adds its balance under that key,
/// and adds its amount to the sums where its key counts.
proof fn lemma_insert_entry(s: Seq<LedgerEntry>, pos: int, e: LedgerEntry)
    requires
        0 <= pos <= s.len(),
        keys_distinct(s),
        forall|i: int| 0 <= i < s.len() ==> entry_key(#[trigger] s[i]) != entry_key(e),
    ensures
        keys_distinct(s.insert(pos, e)),
        balances(s.insert(pos, e)) == balances(s).insert(entry_key(e), e.amount.pennies as int),
        trial_balance(s.insert(pos, e)) == trial_balance(s) + e.amount.pennies,
        forall|f: spec_fn(EntryKey) -> bool|
            #[trigger] total_where(s.insert(pos, e), f) == total_where(s, f) + (if f(
                entry_key(e),
            ) {
                e.amount.pennies as int
            } else {
                0
            }),
{
    let n = s.insert(pos, e);
    s.insert_ensures(pos, e);
    assert(keys_distinct(n)) by {
        assert forall|a: int, b: int|
            0 <= a < n.len() && 0 <= b < n.len() && a != b implies entry_key(#[trigger] n[a])
            != entry_key(#[trigger] n[b]) by {
            let oa = if a < pos { a } else { a - 1 };
            let ob = if b < pos { b } else { b - 1 };
            if a != pos {
                assert(n[a] == s[oa]);
            }
            if b != pos {
                assert(n[b] == s[ob]);
            }
        }
    }
    let pre = s.take(pos);
    let post = s.skip(pos);
    assert(s =~= pre + post);
    assert(n =~= (pre + seq![e]) + post);
    assert(seq![e].drop_last() =~= Seq::<LedgerEntry>::empty());
    assert(seq![e].last() == e);
    assert forall|f: spec_fn(EntryKey) -> bool| #[trigger] total_where(n, f) == total_where(s, f)
        + (if f(entry_key(e)) {
        e.amount.pennies as int
    } else {
        0
    }) by {
        assert(total_where(Seq::<LedgerEntry>::empty(), f) == 0);
        lemma_totals_concat(pre + seq![e], post, f);
        lemma_totals_concat(pre, seq![e], f);
        lemma_totals_concat(pre, post, f);
    }
    assert(trial_balance(Seq::<LedgerEntry>::empty()) == 0);
    assert(trial_balance(seq![e]) == e.amount.pennies);
    lemma_totals_concat(pre + seq![e], post, |k: EntryKey| true);
    lemma_totals_concat(pre, seq![e], |k: EntryKey| true);
    lemma_totals_concat(pre, post, |k: EntryKey| true);
    lemma_balances_lookup(s);
    lemma_balances_lookup(n);
    let m = balances(s).insert(entry_key(e), e.amount.pennies as int);
    assert forall|k: EntryKey| #[trigger] balances(n).contains_key(k) == m.contains_key(k) && (
    balances(n).contains_key(k) ==> balances(n)[k] == m[k]) by {
        if balances(n).contains_key(k) {
            let i = choose|i: int| 0 <= i < n.len() && entry_key(n[i]) == k;
            if i != pos {
                let o = if i < pos { i } else { i - 1 };
                assert(n[i] == s[o]);
                assert(balances(s).contains_key(entry_key(s[o])));
            }
        }
        if m.contains_key(k) && k != entry_key(e) {
            let o = choose|o: int| 0 <= o < s.len() && entry_key(s[o]) == k;
            let i = if o < pos { o } else { o + 1 };
            assert(n[i] == s[o]);
            assert(balances(n).contains_key(entry_key(n[i])));
        }
        if k == entry_key(e) {
            assert(balances(n).contains_key(entry_key(n[pos])));
        }
    }
    assert(balances(n) =~= m);
}

/// Putting an entry in where its key falls between those before and after it keeps the
/// entries sorted.
proof fn lemma_insert_keeps_sorted(s: Seq<LedgerEntry>, pos: int, e: LedgerEntry)
    requires
        0 <= pos <= s.len(),
        keys_sorted(s),
        forall|i: int| 0 <= i < pos ==> key_lt(entry_key(#[trigger] s[i]), entry_key(e)),
        forall|i: int| pos <= i < s.len() ==> key_lt(entry_key(e), entry_key(#[trigger] s[i])),
    ensures
        keys_sorted(s.insert(pos, e)),
{
    let n = s.insert(pos, e);
    s.insert_ensures(pos, e);
    assert forall|a: int, b: int| 0 <= a < b < n.len() implies key_lt(
        entry_key(#[trigger] n[a]),
        entry_key(#[trigger] n[b]),
    ) by {
        if b < pos {
            assert(n[a] == s[a] && n[b] == s[b]);
        } else if b == pos {
            assert(n[a] == s[a]);
        } else if a < pos {
            assert(n[a] == s[a] && n[b] == s[b - 1]);
            lemma_key_lt_order(entry_key(s[a]), entry_key(e), entry_key(s[b - 1]));
        } else if a == pos {
            assert(n[b] == s[b - 1]);
        } else {
            assert(n[a] == s[a - 1] && n[b] == s[b - 1]);
        }
    }
}

/// Appends to `journal` the double entry of `amount` debited to `debit_account_code` and
/// credited to `credit_account_code` on `date`.
pub fn push_double_entry(
    journal: &mut Vec<DoubleEntry>,
    date: Day,
    amount: USD,
    debit_account_code: &String,
    credit_account_code: &String,
)
    ensures
        entries_postings(final(journal)@) == entries_postings(old(journal)@).push(
            posting(date, amount, *debit_account_code, *credit_account_code),
        ),
{
    let e = DoubleEntry {
        date: date,
        amount: amount,
        debit_account_code: debit_account_code.clone(),
        credit_account_code: credit_account_code.clone(),
    };
    let ghost before = journal@;
    journal.push(e);
    proof {
        assert(journal@ == before.push(e));
        assert(entries_postings(journal@) =~= entries_postings(before).push(entry_posting(e)));
    }
}

/// The general ledger: for each day and account, the running balance in pennies
/// (debits positive, credits negative), kept in order of day and then of account code.
#[derive(Debug)]
pub struct GeneralLedger {
    entries: Vec<LedgerEntry>,
}

impl View for GeneralLedger {
    type V = Seq<LedgerEntry>;

    /// The entries, in order of key: by day, then by account code.
    closed spec fn view(&self) -> Seq<LedgerEntry> {
        self.entries@
    }
}

impl GeneralLedger {
    #[verifier::type_invariant]
    spec fn well_formed(self) -> bool {
        keys_sorted(self.entries@)
    }

    /// An empty ledger.
    pub fn new() -> (r: GeneralLedger)
        ensures
            r@ == Seq::<LedgerEntry>::empty(),
            balances(r@) == Balances::empty(),
            trial_balance(r@) == 0,
    {
        GeneralLedger { entries: Vec::new() }
    }

    /// Where the key (`date`, `code`) stands among the entries, found by halving: whether an
    /// entry has it, and its position, or else the position at which it would go.
    fn locate(&self, date: Day, code: &String) -> (r: (bool, usize))
        ensures
            r.1 <= self@.len(),
            r.0 ==> r.1 < self@.len() && entry_key(self@[r.1 as int]) == (date as int, code@),
            !r.0 ==> forall|i: int|
                0 <= i < r.1 ==> key_lt(entry_key(#[trigger] self@[i]), (date as int, code@)),
            !r.0 ==> forall|i: int|
                r.1 <= i < self@.len() ==> key_lt((date as int, code@), entry_key(#[trigger] self@[i])),
    {
        proof {
            use_type_invariant(self);
        }
        let ghost s = self.entries@;
        let ghost k = (date as int, code@);
        let mut lo: usize = 0;
        let mut hi: usize = self.entries.len();
        while lo < hi
            invariant
                s == self.entries@,
                keys_sorted(s),
                k == (date as int, code@),
                lo <= hi <= s.len(),
                forall|i: int| 0 <= i < lo ==> key_lt(entry_key(#[trigger] s[i]), k),
                forall|i: int| hi <= i < s.len() ==> key_lt(k, entry_key(#[trigger] s[i])),
            decreases hi - lo,
        {
            let mid = lo + (hi - lo) / 2;
            let e = &self.entries[mid];
            if e.date == date && e.account_code == *code {
                return (true, mid);
            }
            let ghost km = entry_key(s[mid as int]);
            if date < e.date || (date == e.date && text_less(code, &e.account_code)) {
                proof {
                    assert(key_lt(k, km));
                    assert forall|i: int| mid <= i < s.len() implies key_lt(
                        k,
                        entry_key(#[trigger] s[i]),
                    ) by {
                        if i > mid {
                            lemma_key_lt_order(k, km, entry_key(s[i]));
                        }
                    }
                }
                hi = mid;
            } else {
                proof {
                    assert(km != k);
                    lemma_key_lt_order(k, km, k);
                    assert(key_lt(km, k));
                    assert forall|i: int| 0 <= i <= mid implies key_lt(
                        entry_key(#[trigger] s[i]),
                        k,
                    ) by {
                        if i < mid {
                            lemma_key_lt_order(entry_key(s[i]), km, k);
                        }
                    }
                }
                lo = mid + 1;
            }
        }
        (false, lo)
    }

    /// The position of the entry for `code` on `date`, if there is one.
    fn find(&self, date: Day, code: &String) -> (r: Option<usize>)
        ensures
            match r {
                Some(i) => i < self@.len() && entry_key(self@[i as int]) == (date as int, code@),
                None => forall|i: int|
                    0 <= i < self@.len() ==> entry_key(#[trigger] self@[i]) != (date as int, code@),
            },
    {
        let (found, pos) = self.locate(date, code);
        if found {
            Some(pos)
        } else {
            proof {
                let k = (date as int, code@);
                assert forall|i: int| 0 <= i < self@.len() implies entry_key(#[trigger] self@[i])
                    != k by {
                    lemma_key_lt_order(k, entry_key(self@[i]), k);
                }
            }
            None
        }
    }

    /// Adds `amount` to (debit) or subtracts it from (credit) the balance of `code` on `date`.
    fn adjust(&mut self, date: Day, code: &String, amount: USD, debit: bool)
        requires
            fits_i64(
                balance_of(balances(old(self)@), (date as int, code@)) + (if debit {
                    amount.pennies as int
                } else {
                    -amount.pennies
                }),
            ),
        ensures
            balances(final(self)@) == adjusted(
                balances(old(self)@),
                (date as int, code@),
                if debit {
                    amount.pennies as int
                } else {
                    -amount.pennies
                },
            ),
            trial_balance(final(self)@) == trial_balance(old(self)@) + (if debit {
                amount.pennies as int
            } else {
                -amount.pennies
            }),
            forall|f: spec_fn(EntryKey) -> bool|
                #[trigger] total_where(final(self)@, f) == total_where(old(self)@, f) + (if f(
                    (date as int, code@),
                ) {
                    if debit {
                        amount.pennies as int
                    } else {
                        -amount.pennies
                    }
                } else {
                    0
                }),
    {
        proof {
            use_type_invariant(&*self);
            lemma_sorted_distinct(self.entries@);
            lemma_balances_lookup(self.entries@);
        }
        let ghost s = self.entries@;
        let ghost k = (date as int, code@);
        let ghost delta: int = if debit {
            amount.pennies as int
        } else {
            -amount.pennies
        };
        let (found, pos) = self.locate(date, code);
        let mut entries: Vec<LedgerEntry> = Vec::new();
        std::mem::swap(&mut entries, &mut self.entries);
        if found {
            let i = pos;
            let old_amount = entries[i].amount;
            let new_amount = if debit {
                old_amount + amount
            } else {
                old_amount - amount
            };
            let e = LedgerEntry { date: date, account_code: code.clone(), amount: new_amount };
            proof {
                lemma_balances_update(s, i as int, e);
                assert forall|f: spec_fn(EntryKey) -> bool|
                    #[trigger] total_where(s.update(i as int, e), f) == total_where(s, f) + (if f(k) {
                        delta
                    } else {
                        0
                    }) by {
                    lemma_total_update(s, i as int, e, f);
                }
                let u = s.update(i as int, e);
                assert forall|a: int, b: int| 0 <= a < b < u.len() implies key_lt(
                    entry_key(#[trigger] u[a]),
                    entry_key(#[trigger] u[b]),
                ) by {
                    assert(entry_key(u[a]) == entry_key(s[a]));
                    assert(entry_key(u[b]) == entry_key(s[b]));
                }
            }
            entries.set(i, e);
        } else {
            proof {
                assert forall|i: int| 0 <= i < s.len() implies entry_key(#[trigger] s[i]) != k by {
                    lemma_key_lt_order(k, entry_key(s[i]), k);
                }
                assert(!balances(s).contains_key(k));
            }
            let zero = USD::zero();
            let new_amount = if debit {
                zero + amount
            } else {
                zero - amount
            };
            let e = LedgerEntry { date: date, account_code: code.clone(), amount: new_amount };
            proof {
                lemma_insert_entry(s, pos as int, e);
                lemma_insert_keeps_sorted(s, pos as int, e);
            }
            entries.insert(pos, e);
        }
        self.entries = entries;
    }

    /// Records one double entry: `amount` is debited to `debit_account_code` and credited
    /// to `credit_account_code`, both on `date`. Balances that do not exist yet start at zero.
    pub fn record_double_entry(
        &mut self,
        date: Day,
        amount: USD,
        debit_account_code: &String,
        credit_account_code: &String,
    )
        requires
            posting_fits(
                balances(old(self)@),
                posting(date, amount, *debit_account_code, *credit_account_code),
            ),
        ensures
            balances(final(self)@) == post(
                balances(old(self)@),
                posting(date, amount, *debit_account_code, *credit_account_code),
            ),
            trial_balance(final(self)@) == trial_balance(old(self)@),
            forall|f: spec_fn(EntryKey) -> bool|
                #[trigger] total_where(final(self)@, f) == total_where(old(self)@, f)
                    + posting_effect(
                    posting(date, amount, *debit_account_code, *credit_account_code),
                    f,
                ),
    {
        self.adjust(date, debit_account_code, amount, true);
        self.adjust(date, credit_account_code, amount, false);
    }

    /// The balance of `code` on `date` (zero if none was recorded).
    fn balance(&self, date: Day, code: &String) -> (r: i64)
        ensures
            r == balance_of(balances(self@), (date as int, code@)),
    {
        proof {
            use_type_invariant(self);
            lemma_sorted_distinct(self.entries@);
            lemma_balances_lookup(self.entries@);
        }
        match self.find(date, code) {
            Some(i) => {
                proof {
                    assert(balances(self.entries@).contains_key(entry_key(self.entries@[i as int])));
                }
                self.entries[i].amount.pennies
            },
            None => 0,
        }
    }

    /// Whether recording `e` keeps both balances it touches within `i64`.
    pub fn fits(&self, e: &DoubleEntry) -> (b: bool)
        ensures
            b == posting_fits(balances(self@), entry_posting(*e)),
    {
        let a = e.amount.pennies as i128;
        let debit_balance = self.balance(e.date, &e.debit_account_code) as i128;
        let new_debit = debit_balance + a;
        if new_debit < i64::MIN as i128 || new_debit > i64::MAX as i128 {
            return false;
        }
        let credit_balance: i128 = if e.credit_account_code == e.debit_account_code {
            new_debit
        } else {
            self.balance(e.date, &e.credit_account_code) as i128
        };
        let new_credit = credit_balance - a;
        !(new_credit < i64::MIN as i128 || new_credit > i64::MAX as i128)
    }

    /// Records the double entry `e`.
    pub fn record(&mut self, e: &DoubleEntry)
        requires
            posting_fits(balances(old(self)@), entry_posting(*e)),
        ensures
            balances(final(self)@) == post(balances(old(self)@), entry_posting(*e)),
            trial_balance(final(self)@) == trial_balance(old(self)@),
            forall|f: spec_fn(EntryKey) -> bool|
                #[trigger] total_where(final(self)@, f) == total_where(old(self)@, f)
                    + posting_effect(entry_posting(*e), f),
    {
        self.record_double_entry(e.date, e.amount, &e.debit_account_code, &e.credit_account_code);
    }

    /// Records the double entries `es`, in order.
    pub fn record_all(&mut self, es: &Vec<DoubleEntry>)
        requires
            postings_fit(balances(old(self)@), entries_postings(es@)),
        ensures
            balances(final(self)@) == apply_postings(balances(old(self)@), entries_postings(es@)),
            trial_balance(final(self)@) == trial_balance(old(self)@),
            forall|f: spec_fn(EntryKey) -> bool|
                #[trigger] total_where(final(self)@, f) == total_where(old(self)@, f)
                    + postings_effect(entries_postings(es@), f),
    {
        let ghost m0 = balances(self@);
        let ghost t0 = trial_balance(self@);
        let ghost s0 = self@;
        let ghost ps = entries_postings(es@);
        let mut i: usize = 0;
        proof {
            assert(ps.take(0) =~= Seq::<Posting>::empty());
        }
        while i < es.len()
            invariant
                ps == entries_postings(es@),
                postings_fit(m0, ps),
                0 <= i <= es@.len(),
                balances(self@) == apply_postings(m0, ps.take(i as int)),
                trial_balance(self@) == t0,
                forall|f: spec_fn(EntryKey) -> bool|
                    #[trigger] total_where(self@, f) == total_where(s0, f) + postings_effect(
                        ps.take(i as int),
                        f,
                    ),
            decreases es@.len() - i,
        {
            proof {
                lemma_prefix_step(m0, ps, i as int);
                assert(ps.take(i + 1).drop_last() =~= ps.take(i as int));
                assert(ps.take(i + 1).last() == ps[i as int]);
            }
            self.record(&es[i]);
            i = i + 1;
        }
        proof {
            lemma_take_all(ps);
        }
    }

    /// The balance of `account_code` on `date`, if anything was ever recorded there.
    pub fn fetch_amount(&self, date: Day, account_code: String) -> (r: Option<&USD>)
        ensures
            match r {
                Some(v) => balances(self@).contains_key((date as int, account_code@)) && v.pennies
                    == balances(self@)[(date as int, account_code@)],
                None => !balances(self@).contains_key((date as int, account_code@)),
            },
    {
        proof {
            use_type_invariant(self);
            lemma_sorted_distinct(self.entries@);
            lemma_balances_lookup(self.entries@);
        }
        match self.find(date, &account_code) {
            Some(i) => {
                proof {
                    assert(balances(self.entries@).contains_key(entry_key(self.entries@[i as int])));
                }
                Some(&self.entries[i].amount)
            },
            None => None,
        }
    }

    /// All entries of the ledger.
    pub fn entries(&self) -> (r: &Vec<LedgerEntry>)
        ensures
            r@ == self@,
            keys_distinct(r@),
            keys_sorted(r@),
    {
        proof {
            use_type_invariant(self);
            lemma_sorted_distinct(self.entries@);
        }
        &self.entries
    }
}

} // verus!
