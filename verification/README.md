# tcp_forwarder

A TCP forwarder that sends traffic through the best of many addresses. A scan
splits networks into small ones, samples addresses in each, and keeps a score
per network. The forwarder draws addresses from the best networks, connects to
several at once, and uses the connection that is made first. A pool keeps
connections ready. A second forwarder, the relay, works on a fixed list of
remotes instead: it probes them, keeps the best in use, and balances
connections over them.

## Layout

`src/` decides and computes. Every item in it is verified with Verus: contracts
say what each function returns or changes, and public proof functions state what
holds across functions.

| module | subject |
| --- | --- |
| `net`, `utils` | addresses, networks, their parts, and hosts in them |
| `model`, `state` | records of networks, the store, expiry, eviction, the draw of addresses |
| `scanner` | targets, probes, batches, summaries, phases of a scan, lists from the web |
| `pool`, `server`, `metrics` | the connection pool, the race, the fallback, and their counters |
| `analytics`, `web` | the ranking of data centres and the pages |
| `config`, `cli`, `jsonc` | settings and their validation, arguments, comments in settings |
| `forwarder` | the relay: remotes, selection, balancing, pools, probing, metrics, logging |
| `text`, `time`, `url`, `sort`, `float_bits`, `random` | what the others share |

Floating-point numbers appear in `src/` as their bits. They are ordered and
compared there, and computed with in `app/`.

`app/` is ordinary Rust: `main`, sockets, files, timers, tasks, logging, and
arithmetic in floating point. It performs what `src/` decides and reports back
what happened. The relay in `app/relay/` runs with whatever keeps the scores of
its remotes.

`tests/` runs the library on concrete values.

## What is not proved

A few functions call other crates or the standard library, and their contracts
are believed. Each has a doc comment that names the function it calls and says
what is claimed of it:

- `net`: parsing of networks and addresses, and joining of networks
- `random`: drawing and shuffling
- `sort`: parallel sorting
- `state`: the concurrent map
- `text`: lower case, and appending a character to a string
- `url`: parsing of URLs
