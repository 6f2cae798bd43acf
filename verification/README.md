# glrs

A general ledger for a storage business, verified with Verus.

Transactions (assessments, voids of assessments and payments) are turned into double
entries under a chart of accounts and recorded into a general ledger that keeps one
balance per day and account.

- `src/` is the verified library. `usd` holds amounts of money, `time` the day arithmetic,
  `chart_of_accounts` and `account_map` the accounts, `ledger` the general ledger, its
  report, and the transactions with their daily schedules; `input` builds a ledger from
  plain input records.
- `app/` is the C interface: JSON in and out, dates as calendar values, printing.
- `tests/` runs the library on concrete ledgers.
