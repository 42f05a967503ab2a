# loadbalancer

Load-balancing policies with machine-checked contracts (Verus).

- `src/` is the verified library: server lists kept unique (and, on
  request, sorted) by server identity; round robin; power of two choices,
  at random or by two hashes of a key; a consistent-hashing ring with
  replicas; request counters and the peak-EWMA estimate; and the older
  copy-handing policies under `src/policies/` with their server sets.
- `app/` holds what the verifier does not take: the jump hash (floating
  point), keyed access to the ring built on it, and the peak-EWMA figure
  that locks its state and reads the clock.
- `tests/` exercises the library on concrete values.
