# ost_mcp

A read-only reader for Outlook mailboxes, and the logic of a server that lets a
model query one in place. The library is written in Verus: what each function
returns is stated in its contract and proved.

Two kinds of store are read, both behind the `Mailbox` trait of `src/mailbox.rs`:

- `src/ost/`: the OST/PST file in three layers. `ndb` opens the file, its node and
  block trees and its blocks; `ltp` reads heaps, property contexts and table
  contexts; `store` makes folders, messages and attachments of them. `ost_adapter`
  puts it behind the trait.
- `src/mac_outlook/`: a Mac Outlook profile. `schema` and `profile` turn database
  rows and files into folders and messages, `olk15` reads the data files, and
  `hxstore`, `hxlz4`, `hxrecord` and `classify` recover messages from the Hx cache.

On top of them:

- `src/vtab.rs`: the tables that SQL sees.
- `src/sql.rs`, `src/statement.rs`: which statements may run, by the verbs that run
  in them, and how results are shown.
- `src/server.rs`: the tools: statements, limits, reports and replies.
- `src/discover.rs`, `src/cli.rs`: finding a store, and the command line.

The rest of `src/` is what these share: bytes, text, searching, ordering, dates and
base64.

Calls into other crates stand behind small functions marked
`#[verifier::external_body]`, each with a comment that says what is taken on trust.
`app/` is the program around the library: memory mapping, SQLite, DuckDB, the
registry, the MCP transport and JSON. `tests/` runs the library on synthetic stores.
