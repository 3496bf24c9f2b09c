# collector

The verified core of an options-flow collector (dealer positioning from
option chains), written in Verus.

`src/` is the library. Its functions are proved against their contracts,
except eight small trusted wrappers, whose contracts are believed, not
proved: five around chrono (date validation, weekday, adding days within a
month, UTC timestamp, day difference) and three around std (`str::trim`,
`str::to_uppercase`, `u64` parsing). Each says in its doc comment what it
claims of the call it makes.

- `calendar` — valid calendar dates and the chrono calls on them
  (validation, weekday, day arithmetic, UTC timestamps, day differences);
- `clock` — the 16:00 New York close of an expiry under the US daylight
  saving rule, and whether a contract is still alive at a given instant;
- `occ` — OCC option symbols (root + YYMMDD + C/P + strike*1000);
- `chain` — front-expiry selection over a provider's quote rows;
- `strikes` — ascending per-strike buckets for exposure aggregation;
- `config` — ticker list and polling interval from settings text;
- `schedule` — the polling loop's cycle counter and pruning cadence.

`app/` is the program around it: HTTP and PostgreSQL I/O, the synthetic
provider, and the floating-point analytics (Black-Scholes greeks, GEX/DEX
aggregation, gamma flip, ATM vol), which Verus cannot hold.
