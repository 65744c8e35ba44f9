# Unicode collision workbench

A workbench for migrations of Unicode identifiers: it imports identifiers with stable ids, runs them
through case folding, normalization and the removal of ignorable characters, and gathers those that
come out equal into buckets. A migration plan decides on every bucket of several identifiers; it is
carried out as a whole or not at all.

The library in `src/` is written in Verus: every function states what it computes, and the statements
are proved. `app/` is the server around it, and `tests/` runs the library.

## The library

Identifiers and rules:

| Module | Contents |
| --- | --- |
| `unicode`, `stages`, `decode`, `align` | the staged pipeline over raw bytes, with provenance of every unit |
| `tables` | Unicode data for the pipeline (`caseless`, `unicode-normalization`, `unicode-general-category`, `unicode-script`) |
| `engine`, `source` | analyses under one of two sets of tables, with eligibility and buckets |
| `icu_tables` | Unicode data for the engine (ICU4X) |

The ledger, a service of data sets and plans:

| Module | Contents |
| --- | --- |
| `ledger`, `requests` | the state as a fold over events; requests and errors |
| `import`, `mappings`, `cycles`, `shapes` | imports, the mappings of a plan, cycles of aliases, stable hashes |
| `service` | what every request leads to |
| `exports` | the text of an exported plan, with its digest (`sha2`) |
| `guarantees`, `consistency`, `conflicts` | what holds over any number of requests |
| `http`, `urls`, `scan` | reading of requests, routes, heads of responses |

The journal, a log of events with snapshots:

| Module | Contents |
| --- | --- |
| `model`, `store` | entities, events, recovery from a snapshot and a log |
| `server` | what is shown of a journal |
| `lines` | the lines of a log that were written as a whole |

`text`, `order`, `sorting`, `strmap`, `json`, `hex_bytes`, `base64` and `cli` are what the others are
built from.

## The server

```sh
server --listen 127.0.0.1:5213 --data-dir workbench-data
```

A directory with a journal (`snapshot.json`, `wal.log`) is shown as it is; any other directory is
opened as a ledger, whose events are kept in `events.log`. A line at the end of a log that was cut short
while it was written is dropped when the log is opened.
