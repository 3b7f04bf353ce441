# libtau

A bitemporal time series database engine, written in Verus. Every append is an immutable
layer, the newest layer wins, and old values are never overwritten. Statements are written
in TauQL:

```
CREATE DATABASE sensors
CREATE LENS temperature float
APPEND LENS temperature 0 3600 18.5
AT LENS temperature 1800
DERIVE LENS fahrenheit AS temperature * 1.8 + 32
XDERIVE LENS fahrenheit_mat AS temperature * 1.8 + 32
```

## Layout

`src/` is the library. Each executable function has a contract, and Verus proves it.

- Data: `model` (taus and layers), `layers` (stacks of layers, lookups, scans, compaction),
  `memory` (the store in memory), `value`, `names`, `order`, `text`.
- Language: `lex`, `parser`, `ast`, `render` (statements as text), `reread` and `replay`
  (that text parses back to the same statement).
- Evaluation: `ops`, `eval`, `catalog` (derivations and cycles), `depth`, `windows`,
  `extremes` (least and greatest values after compaction), `derived` (what derived lenses
  depend on), `views` (what materialised lenses hold), `floats` (floating-point work that is left to the
  caller), `copy`, `inputs`.
- Databases: `database` (store and log), `state`, `change`, `recovery`, `restart`, `restore`,
  `restored` and `logged` (what a database answers once it is restored or opened again),
  `reopen`, `service` (all databases, transactions), `query`, `read`, `output`, `error`,
  `faults`.
- Runs on disk: `bytes`, `codec`, `crypto`, `bloom`, `run`, `manifest`, `flatten`,
  `rebuild`, `sstable`, `durability`, `merging`.
- Kernel: `kernel`, `handle`, `auth`, `perm`, `policy`, `functions`, `hostcall`, `metrics`,
  `exposition`, `status`, `clock`.

`tests/` runs the library. `app/` is the ordinary Rust around it: files, floating-point
arithmetic, Lua functions, Prometheus metrics and an asynchronous host.

## How inputs reach the library

The library does no I/O and no floating-point arithmetic. A statement that needs a result
of either stops with an error that names what it needs, and changes nothing. The caller
puts the result into `Inputs` and executes the statement again.

## Laws

Public proof functions whose names start with `law_` state what holds across functions:

- Compaction, flushes, merges and restarts change no lookup, and compaction keeps the least and
  the greatest value of a window.
- Every statement keeps the log telling of all that a database holds. A database opened from its
  log, or restored from a backup, has the same schema, and its base lenses answer as before. Its
  derived lenses do too, where they read no aggregate and no lens holds both zeros, or where
  restoring merges no layers.
- A range shows what lookups say at each time, on base lenses and on derived lenses that read
  no aggregate.
- A write leaves every materialised lens that depends on it with the values of its expression.
- A statement whose log entry cannot be written changes no database. Of the statements that fail
  otherwise, only those that write rows may leave something behind in one: what was written
  before a materialised lens could not be computed anew.
- A transaction commits unless its statements executed directly would fail. It then leaves what
  they would leave, and a commit that fails changes no database.
- Merges and log writes are counted, each once.
- Schema texts parse back, a rolled-back transaction leaves no trace, and stale handles stay
  stale.
