# junctiontrace

Decoding of rail interlocking evidence bundles (`JTRC` files): the envelope and
its section table, dictionary pages, route plans, fragmented radio frames and
their reassembly, occupancy traces, maintenance journals with attachment pages,
and controller scripts run on a small stack machine. An analyzer turns a decoded
bundle into findings.

Every function in `src/` is verified with Verus against a mathematical model of
the format (`*_of` spec functions over byte sequences). Route, signal and
interlock reference data is passed in as a `Catalog`; the standard entry points
use the empty catalog.

- `src/` — the verified library.
- `tests/` — tests on concrete inputs.
- `app/` — the entry points with an error type that implements `Display` and
  `std::error::Error`.
