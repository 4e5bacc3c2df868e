# jama

Plain-text double-entry accounting: a ledger kept as Beancount-style text
(`jama.beancount`) alongside a SQLite working store (`jama.db`).

- `src/` is the library, verified with Verus: dates, exact decimals,
  accounts and transactions (balancing per commodity), the ledger-file
  parser and serializer (with the proof that serialized ledgers parse back
  to themselves), the balance / register / net-worth / check reports, the
  CSV import rules and planning, the export formats, table rendering and
  the command line's error reports. `laws.rs` and `round_trip.rs` hold the
  properties that span several functions.
- `app/` is the `jama` binary around it: argument parsing, the SQLite
  store, files, terminals and JSON output.
- `tests/` exercise the library on concrete values.
