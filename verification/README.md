# lending_stream

Streams that hand out items one call of `next` at a time, with the usual
combinators (`map`, `take`, `skip`, `step_by`, `chain`, `zip`, `fuse`,
`flatten`, ...) and consumers (`count`, `nth`, `fold`, `collect`, `find`,
...), verified with Verus.

Every stream states, in its `step` spec function, what one call of `next`
may do, in terms of the calls it makes on the streams it wraps. A `bound`
caps how many items a stream can still yield; the consumers that run a
stream to its end require one, which is how their loops are shown to end.

Layout of `src/`:

- `lending_stream.rs`: the `LendingStream` trait, `once`, and closures as streams.
- `runs.rs`: runs of consecutive calls, and the law that a bound is never exceeded.
- `counted.rs`: `Take`, `Skip`, `StepBy`, `Enumerate`.
- `fuse.rs`: `Fuse`, `Chain`, `Cycle`.
- `pairs.rs`: `Zip`, `Or`, `Race` (the only outside call: `fastrand::bool`).
- `closures.rs`: `Mapped`, `Inspect`, `TakeWhile`, `Filter`, `SkipWhile`.
- `values.rs`, `borrowed.rs`: `Scan`; `Cloned`, `Copied`.
- `flatten.rs`: `FlatMap`, `Flatten`.
- `bounded.rs`: `Bounded`, which gives a stream a proved limit on its items.
- `lending_stream_ext.rs`: the `LendingStreamExt` trait with every constructor and consumer.
- `laws.rs`: properties of whole runs of calls: the item sequences of `take`,
  `skip`, `step_by`, `chain` and `cycle` (with `once(v).cycle()` yielding `v`
  forever), and the duality of `any` and `all`.

`app/` holds `then`, which awaits a future, and `filter_map`, whose loop does
not end once its stream runs out.
