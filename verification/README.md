# realm

A relay for TCP and UDP whose rules can be replaced while it runs.

A rule ("endpoint") has a local address to listen on and a remote to relay to.
A set of rules is submitted as a whole, under a generation number; the library
works out which listeners to start, replace and stop so that the set is served,
that rules which did not change keep their connections, and that a rule which
cannot be served leaves the others alone.

## Layout

`src/` is the library. It makes every decision and does no I/O: each operation
is a step function which hands out the actions to perform (start, stop, drain)
and takes back what came of them. Every function has a contract that Verus
proves.

- `text`, `time`, `net`, `io`, `idmap`: text, spans of time, addresses, errors, a
  map ordered by id
- `endpoint`: what a listener serves
- `conf`: rules as they are written, and how they become endpoints; defaults,
  options of transports, the older file format, certificate material
- `lifecycle`: the endpoint manager (one slot per id and protocol), the
  reconciler (generations), planning and handover of addresses, restoring from a
  snapshot, cohorts of connections and their drains. The modules that end in
  `_laws` hold theorems about these.
- `control`: the HTTP control interface: routing, statuses, replies
- `accept`, `dns`, `process`, `startup`, `cmd`: the accept loop, name
  resolution, process settings, what to start with, the command line

`app/` is the program around the library: sockets, files, threads, HTTP.

`tests/` runs the library, against an in-memory host where a host is needed.

## What is trusted

Four items have a contract that is believed rather than proved. Each stands in
front of one function of std or of a dependency, and its doc comment says what is
claimed: appending a character to a `String`, the debug form of a path, the
number of peers a balancer was given, and the parent of a path.
