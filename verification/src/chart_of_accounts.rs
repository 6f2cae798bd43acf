use vstd::prelude::*;
use vstd::hash_map::StringHashMap;

verus! {

/// How a revenue account is booked.
#[derive(Debug)]
pub enum AccountCode {
    /// A bare account code that is not booked by itself.
    Base(String),
    /// Revenue accrued day by day over a service period.
    Daily(AccrualAccount),
    /// Revenue accrued at once when assessed.
    Periodic(AccrualAccount),
    /// Revenue recognised only when cash is received.
    Cash(CashAccount),
}

/// The accounts that an accrual-based revenue account books against.
#[derive(Debug)]
pub struct AccrualAccount {
    pub revenue_code: String,
    pub accounts_receivable_code: String,
    pub deferred_code: String,
}

/// The account that a cash-based revenue account books against.
#[derive(Debug)]
pub struct CashAccount {
    pub revenue_code: String,
}

/// The chart of accounts: how each revenue code is booked.
pub struct ChartOfAccounts {
    pub table: StringHashMap<AccountCode>,
}

/// `a` books revenue to `rev`, receivables to `ar` and deferred revenue to `def`.
pub open spec fn accrual_codes(a: AccrualAccount, rev: Seq<char>, ar: Seq<char>, def: Seq<char>) -> bool {
    &&& a.revenue_code@ == rev
    &&& a.accounts_receivable_code@ == ar
    &&& a.deferred_code@ == def
}

/// `c` is a daily accrual account booking to `rev`, `ar` and `def`.
pub open spec fn is_daily(c: AccountCode, rev: Seq<char>, ar: Seq<char>, def: Seq<char>) -> bool {
    c matches AccountCode::Daily(a) && accrual_codes(a, rev, ar, def)
}

/// `c` is a periodic accrual account booking to `rev`, `ar` and `def`.
pub open spec fn is_periodic(c: AccountCode, rev: Seq<char>, ar: Seq<char>, def: Seq<char>) -> bool {
    c matches AccountCode::Periodic(a) && accrual_codes(a, rev, ar, def)
}

/// `c` is a cash account booking to `rev`.
pub open spec fn is_cash(c: AccountCode, rev: Seq<char>) -> bool {
    c matches AccountCode::Cash(a) && a.revenue_code@ == rev
}

/// The chart used by the storage business: rent accrues daily, fees and services
/// periodically, insurance on a cash basis.
pub open spec fn cubesmart_chart(m: Map<Seq<char>, AccountCode>) -> bool {
    &&& m.dom() == set!["4000"@, "4050"@, "4051"@, "4150"@, "4100"@]
    &&& is_daily(m["4000"@], "4000"@, "1101"@, "2020"@)
    &&& is_periodic(m["4050"@], "4050"@, "1104"@, ""@)
    &&& is_periodic(m["4051"@], "4051"@, "1104"@, ""@)
    &&& is_periodic(m["4150"@], "4150"@, "1103"@, "2023"@)
    &&& is_cash(m["4100"@], "4100"@)
}

fn owned(s: &str) -> (r: String)
    ensures
        r@ == s@,
{
    s.to_owned()
}

fn accrual(rev: &str, ar: &str, def: &str) -> (r: AccrualAccount)
    ensures
        accrual_codes(r, rev@, ar@, def@),
{
    AccrualAccount {
        revenue_code: owned(rev),
        accounts_receivable_code: owned(ar),
        deferred_code: owned(def),
    }
}

impl ChartOfAccounts {
    /// An empty chart.
    pub fn new() -> (r: ChartOfAccounts)
        ensures
            r.table@ == Map::<Seq<char>, AccountCode>::empty(),
    {
        ChartOfAccounts { table: StringHashMap::new() }
    }

    /// The storage business's chart of accounts.
    pub fn cubesmart() -> (r: ChartOfAccounts)
        ensures
            cubesmart_chart(r.table@),
    {
        let rent = AccountCode::Daily(accrual("4000", "1101", "2020"));
        let fee = AccountCode::Periodic(accrual("4050", "1104", ""));
        let fee2 = AccountCode::Periodic(accrual("4051", "1104", ""));
        let service = AccountCode::Periodic(accrual("4150", "1103", "2023"));
        let insurance = AccountCode::Cash(CashAccount { revenue_code: owned("4100") });
        let mut chart = ChartOfAccounts::new();

        chart.table.insert(owned("4000"), rent);
        chart.table.insert(owned("4050"), fee);
        chart.table.insert(owned("4051"), fee2);
        chart.table.insert(owned("4150"), service);
        chart.table.insert(owned("4100"), insurance);
        proof {
            reveal_strlit("4000");
            reveal_strlit("4050");
            reveal_strlit("4051");
            reveal_strlit("4150");
            reveal_strlit("4100");
            assert("4000"@[2] != "4050"@[2] && "4000"@[2] != "4051"@[2] && "4000"@[1] != "4150"@[1]
                && "4000"@[1] != "4100"@[1]);
            assert("4050"@[3] != "4051"@[3] && "4050"@[1] != "4150"@[1] && "4050"@[1] != "4100"@[1]);
            assert("4051"@[1] != "4150"@[1] && "4051"@[1] != "4100"@[1]);
            assert("4150"@[2] != "4100"@[2]);
            assert(chart.table@.dom() =~= set!["4000"@, "4050"@, "4051"@, "4150"@, "4100"@]);
            assert(chart.table@["4000"@] == rent);
            assert(chart.table@["4050"@] == fee);
            assert(chart.table@["4051"@] == fee2);
            assert(chart.table@["4150"@] == service);
            assert(chart.table@["4100"@] == insurance);
        }
        chart
    }

    /// How `key` is booked, if the chart has it.
    pub fn get(&self, key: &str) -> (r: Option<&AccountCode>)
        ensures
            match r {
                Some(v) => self.table@.contains_key(key@) && *v == self.table@[key@],
                None => !self.table@.contains_key(key@),
            },
    {
        self.table.get(key)
    }
}

} // verus!
