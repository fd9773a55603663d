# GatewayKit

A config-driven API gateway: it forwards requests to upstreams through an ordered
chain of policy stages, all described by one YAML document. Everything the gateway
decides is in a library that is verified with [Verus](https://github.com/verus-lang/verus).

## Layout

- `src/` is the verified library. Every decision takes the time as an argument, and
  state is changed through `&mut`. Only `now_rfc3339` reads a clock, and nothing does
  I/O.
  - `config`, `router`, `cli`: the configuration and its checks, route matching,
    and where the configuration file is.
  - `pipeline/`: the stages of a route (method, authentication, rate limit, request
    transform) and of its responses.
  - `rate_limit`, `wide`: fixed and sliding windows, in exact integers.
  - `upstream/`: balancing, circuit breakers, health, retries, and what a forwarded
    request looks like.
  - `error`, `health`, `state`: the gateway's own replies, and its state.
  - `headers`, `json`, `yaml`, `uri`: what is relied on of the crates that hold
    header maps, JSON and YAML values and URIs.
  - `text`, `clock`: strings and time.
- `tests/` holds the tests.
- `app/` is the program: it reads the configuration, listens, forwards, probes and
  logs, and asks the library what to do.

The statements that hold of the library as a whole are the public proof functions
whose names begin with `law_`.
