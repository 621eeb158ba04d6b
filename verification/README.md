# ps_reclaim

Grace-period reclamation for lock-free readers, verified with Verus.

A reader loads a pointer from a shared slot and dereferences it without a lock. A
writer unlinks that pointer and wants the memory back. This decides when that is
safe.

## The contract

1. A retirement does not run while a reader that predates it is live.
2. Readers in strictly later epochs do not delay older retirements. Same-epoch
   readers can delay them, even if they started after retirement. Wildcard pins
   delay every domain. At 40-bit epoch saturation, new retirements require a scan
   without matching pins. Monitor `epoch_headroom()` and arrange exclusive
   maintenance with `renew_epoch()` before saturation.
3. Reclamation is driven by `advance()` / `advance_up_to()` and by ending the
   domain. Releasing a pin never invokes retirement callbacks.

Exclusive registrations abandoned with outstanding guards are quarantined until
those guards are released, then recovered on a later registration. Truly forgotten
guards continue to consume capacity; `registry_stats()` reports it.

## Layout

- `src/` is the verified library. Shared state is plain data that is passed in, so
  every contract says exactly what an operation does to it.
  - `pins`, `registry`, `stats`: packed pin words, slots, leases, capacity.
  - `local`, `guard`, `tls`: registrations, guards, storage keys.
  - `scan`, `garbage`, `domain`: the halves of a reclamation pass, and domains.
  - `protocol`, `safety`, `accounting`, `refinement`: all interleavings of readers,
    writers and reclaimers; that no callback runs under an older reader or twice,
    and none is lost; and that the interleaved steps are the executable operations.
  - `laws`: the other guarantees.
- `app/` is the concurrent front end: atomics, fences, locks and platform
  thread-local storage around the library's decisions. Memory ordering is its
  business and is not verified.
- `tests/` runs the library.
