# rtce — discrete-event core

The event-ordering, buff-instance and rotation-decision core of the rtce
timeline simulator, verified with Verus.

- `src/` — the verified library. Instants, expiries and rates are carried as
  `u64` order keys (the integer order of a key is the order of the value it
  stands for):
  - `queue` — event classes under the coincident-event order, the event
    queue, and the run-loop step with its fight-horizon drain bound;
  - `buff` — one buff's instance list under each reapply policy, its
    generation self-cancel, and its expiry sweep;
  - `engine` — the queue, every buff and the active-buff set together, with
    the invariant that each active buff has exactly one live expiry event;
  - `decide` — cost affordability and the priority-ordered rotation walk;
  - `condition` — the sorted active-buff set and the condition-driver rule;
  - `procs`, `stats`, `slots`, `mode` — proc gating, nearest-rank
    percentiles, the sim slot layout, and run-mode validation.
- `app/` — the floating-point side: report types with `serde` derives, the
  Monte Carlo distribution summary, and the float-to-key conversions.
- `tests/` — tests of the library on concrete values.
