use vstd::prelude::*;

verus! {

fn same_text(a: &str, b: &str) -> (r: bool)
    ensures
        r == (a@ == b@),
{
    let x: String = a.to_owned();
    let y: String = b.to_owned();
    x == y
}

/// The receivables account that a revenue code books against, in the fixed mapping
/// "4000" -> "1101", "4050" -> "1103", "4051" -> "1104"; any other code gives "FUCK".
pub open spec fn spec_accounts_receivable_code(revenue_code: Seq<char>) -> Seq<char> {
    if revenue_code == "4000"@ {
        "1101"@
    } else if revenue_code == "4050"@ {
        "1103"@
    } else if revenue_code == "4051"@ {
        "1104"@
    } else {
        "FUCK"@
    }
}

/// The deferred revenue account of a revenue code: "4000" -> "2020"; any other code gives "FUCK".
pub open spec fn spec_deferred_code(revenue_code: Seq<char>) -> Seq<char> {
    if revenue_code == "4000"@ {
        "2020"@
    } else {
        "FUCK"@
    }
}

/// The receivables account that `revenue_code` books against.
pub fn accounts_receivable_code(revenue_code: &str) -> (r: String)
    ensures
        r@ == spec_accounts_receivable_code(revenue_code@),
{
    if same_text(revenue_code, "4000") {
        "1101".to_owned()
    } else if same_text(revenue_code, "4050") {
        "1103".to_owned()
    } else if same_text(revenue_code, "4051") {
        "1104".to_owned()
    } else {
        "FUCK".to_owned()
    }
}

/// The deferred revenue account of `revenue_code`.
pub fn deferred_code(revenue_code: &str) -> (r: String)
    ensures
        r@ == spec_deferred_code(revenue_code@),
{
    if same_text(revenue_code, "4000") {
        "2020".to_owned()
    } else {
        "FUCK".to_owned()
    }
}

} // verus!
