# tollgate

An API gateway policy engine whose decision logic is verified with Verus.

`decide(config, request, now, limiter)` routes a request, checks its API key,
charges a token bucket, and shapes the request for the upstream, or rejects it
with a status, a reason, and the response headers. Its contract states the whole
result as a specification function of its inputs, so the decision is a pure
function of the config, the request, the clock, and the bucket store.

## Layout

- `src/`: the verified library.
  - `request.rs`, `route.rs`, `auth.rs`, `ratelimit.rs`, `shape.rs`, `pipeline.rs`:
    the pipeline stages and `decide`.
  - `config.rs`: the config text format, its parser and its printer;
    `round_trip.rs` proves that they round-trip.
  - `fixed.rs`: the decimal numbers of the config format (rates and bursts).
  - `server.rs`: the wire-format logic: reading a request head from bytes with
    hard bounds, and rendering responses and upstream request heads.
  - `text.rs`, `error.rs`: character-level helpers and the error types.
- `app/`: the `tollgate` command (`serve`, `check`, `print`) and the socket layer.
- `tests/`: the test suites.

## Numbers

Rates, bursts and the clock are exact integers. A rate is held in billionths of
a token per second and a burst in billionths of a token; the clock is in
nanoseconds; a bucket holds its tokens in units of 1e-18 tokens. One nanosecond
at a rate of `r` billionths per second therefore adds exactly `r` units, and no
rounding enters the rate limiter. In the config text a number is written in
decimal with at most nine significant fractional digits, such as `0.125/s` or
`burst 2.5`.
