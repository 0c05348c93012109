# fips_engine

Verified building blocks of a deterministic individual-node network simulation:
compact graph storage and topology generation, a link service with serialization,
loss, duplication and queueing, a coordinate cache, a lookup model, Bloom filters with
their replacement waves, and the loss and counter arithmetic that ties them together.

Everything in `src/` is verified by Verus: public functions state what they return
or change in `ensures` contracts, and the properties that span several calls are stated as public proof functions
named `law_*`. Calls into outside crates (`sha2`, `hex`) go through small trusted
functions whose contracts say what those crates document.

Layout:

- `src/graph.rs` with `src/graph/regular.rs` and `src/graph/attachment.rs`: node and
  edge columns, topology generators, connectivity and attachment selection.
- `src/network.rs` with `src/network/stream.rs`: per-direction link service and
  aggregate stream packetization.
- `src/cache.rs`, `src/lookup.rs`, `src/bloom.rs`: coordinate cache, lookup retries and
  routing signals, Bloom models and split-horizon replacement waves.
- `src/engine.rs`: loss composition, stable jitter and counter aggregation.
- `src/campaign.rs`, `src/interventions.rs`, `src/recovery.rs`: validation of the
  campaign settings of a run, of its intervention events and of the plain settings of
  a recovery run, with `app/` reading them out of the campaign JSON.
- `src/mixing.rs`, `src/digest.rs`, `src/bytes.rs`, `src/text.rs`, `src/counting.rs`,
  `src/labels.rs`:
  shared arithmetic, byte and counting helpers.
- `app/`: what needs floating point or serde (Bloom occupancy estimates, graph digests,
  map-shaped reports) around the verified library.
- `tests/`: executable scenarios for the library.

What is not here: the discrete-event simulation itself (its event loop, event
handlers, run reports and recovery model). It is built on a scheduler, resource and
traffic models and artifact types that are not part of this crate's sources, so the
library stops at the components above.
