# ledger

A double-entry ledger kept in SQLite and held to what banks, brokers and hand
counts say it should be. The rules are a library in Rust, with their contracts
proved by Verus; the program around it reads files, runs queries and prints.

## Layout

- `src/` – the library. Every function is verified but the few that make one
  call into an outside crate or into std, which are taken on trust.
  - `amount`, `bounds`, `currency`, `date`, `text`, `rows`, `sort`, `keyed`:
    money, days, text and ordered tables.
  - `accounts`, `names`, `model`, `assertion`, `journal`, `valuation`,
    `summary`: the chart of accounts and what a ledger is made of.
  - `statements`: reading 國泰世華 exports and LINE Bank statements, joining
    them per account, and the refs that tell their lines apart.
  - `corrected`, `daily`, `manual`, `interim`: the records kept by hand and how
    they book.
  - `matcher`, `pairing`, `plan`: pairing statement lines with records and
    planning an import whose balances chain.
  - `import`: what importing a bank, a broker, a count or 天天記帳 records does.
  - `db`: what is read from and written to the database: the balance check, the
    reports, the review queue, the hledger export.
- `app/` – the program: arguments, files, `pdftotext` and SQLite.
- `tests/` – tests of the library.

## What is proved

Contracts state results over mathematical views: an amount is a decimal, a day
is a number of days, a text is a sequence of characters. A refusal is stated
with its exact words. Public proof functions state what holds across calls,
among them that a planned transaction balances where no sum is rounded, that a
plan ends each day on the statement's balance, that statements imported again
add nothing, that a ledger that passes agrees with every figure vouched for, and
that what is written reads back.

Decimal arithmetic, dates, CSV, TOML and JSON come from `rust_decimal`,
`chrono`, `csv`, `toml` and `serde_json`, each call behind a function whose
contract says what is taken on trust.
