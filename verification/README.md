# simple-metrics

A small metrics collector for a single Linux machine, with its logic verified
with Verus.

It samples a fixed set of variables at a regular interval, keeps only the most
recent records in memory (older ones are discarded as new ones arrive), and
serves them over a Unix socket as JSON lines. Nothing is written to disk. `smq`
is a command-line client for it.

| Path | Purpose |
|---|---|
| `src/` | The library: settings, parsing, sampling, the store, the protocol, the client. Every function is proved against its contract, except for the few that call `serde_json` or the standard library on its behalf: what those promise is stated above them and taken as it is. |
| `app/` | The program around it: files, sockets, threads, clocks, and arithmetic on floating-point numbers. |
| `tests/` | Tests of the library on concrete values. |

The library holds a measured value as the bits of a 64-bit floating-point number
and never computes with it. Where an answer needs a value as a JSON number, or
the mean of several, the caller passes in a function for that, and the contracts
say which bits it is given and where its results go.

What is proved of the whole is stated in the public proof functions whose names
begin with `law_`: that the store keeps the most recent records in time order,
that every request gets exactly one line in answer, that the client's requests
are understood as they were meant, that it shows what the daemon says, and so
on.
