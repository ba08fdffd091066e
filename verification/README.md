# redlib_ops

Operational health and upstream-traffic telemetry for a Reddit front-end, written
in Verus: what the reports say is stated in contracts and proved.

- `src/` is the verified library. `health` decides whether an instance is working,
  and why not. `telemetry` records upstream fetches and reports where the bytes
  went. Below them stand `traffic` (what telemetry holds and what each event does
  to it), `report` (the parts of a report), `bucket` (counters and hourly
  reservoirs of one endpoint or route), `buckets` (tables of them by name),
  `window` (what the reservoirs hold after a run of observations), `percentile`,
  `route` (templates of upstream paths), `inbound` (templates of matched routes),
  `clock`, `order`, `table`, `sum`, `text` and `counter`.
- `app/` holds the process-wide state, the environment, the task-local route and
  the HTTP handlers of `/.health` and `/.metrics`, and turns ratios into fractions.
- `tests/` runs the library.

Four things come from other crates and are taken at their word: the clock and the
calendar text of a second (`time`), the place drawn in a full reservoir
(`fastrand`), and the values that a matched route captured (`route-recognizer`).
Their contracts stand beside the calls, in `clock`, `bucket` and `inbound`.
