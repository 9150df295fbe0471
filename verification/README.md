# lockwatch

Predictive lock-contention monitoring for Postgres, as a verified library and a
thin extension around it.

A background worker samples `pg_locks` and `pg_stat_activity`, walks the wait-for
graph to the root blockers, tracks them in a fixed-size table, scores the risk of
each lock queue turning into a wider cascade, and raises an alert when a score
crosses the threshold.

## Layout

- `src/`: the library, verified with Verus
  - `settings`: the tunable settings and their soft caps
  - `lock_mode`: lock modes and their severities
  - `blocker`: what is tracked of one blocker, with its ring buffer of waiter counts
  - `scoring`, `ratio`, `natural`, `fraction`: the weighted risk score, in exact
    fractions of natural numbers of any size
  - `notation`: settings written in scientific notation
  - `table`: the tracking table with its upsert, eviction and alert rules
  - `chain`, `wait_graph`: the wait-for graph, root blockers and cascade depth
  - `held`: the representative lock of each backend
  - `fingerprint`, `json`, `report`: query fingerprints, alert payloads and the
    current-state rows
  - `worker`: one sample-and-score cycle, and what the worker does next
- `app/`: the Postgres extension: settings registration, shared memory, queries,
  notifications and history writes
- `tests/`: tests of the library

Scores are exact: weights and thresholds are decimal fractions with as many places
as a double needs, times are counted in microseconds, and a score is a fraction of
integers. Doubles appear only in `app/`, where settings are read and scores are
shown.

The functions named `law_...` state what holds of the library as a whole.
