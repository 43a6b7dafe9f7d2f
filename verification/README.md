# Model distribution

A tracker-controlled peer-to-peer system that pushes large model files to the nodes of a
cluster. A file is cut into chunks, every chunk has its SHA-256 digest in a manifest, and the
nodes fetch chunks from each other. A central tracker knows which node holds which chunk and
tells each node where to fetch; no chunk data passes through it.

The logic is a library that is verified with Verus. The program around it does the input and
output.

## `src/`: the verified library

| Module | What it holds |
|---|---|
| `manifest` | cutting a file into chunks, the digest of each, checking a chunk |
| `bitmap`, `bits` | which chunks a node has; the bit vector behind it |
| `hash`, `text`, `paths`, `ratio`, `sorting`, `ids`, `error` | building blocks |
| `codec`, `erasure`, `stripes` | Reed-Solomon coding: any `k` of `k + m` shards give back the data |
| `delta` | what changed between two versions of a file |
| `tracker` | jobs, nodes, peer selection, and the answers to requests |
| `proto` | messages, their frames, and the client's side |
| `peer` | download rounds, the fetching and the transfer of a chunk, serving chunks |
| `swarm` | a tracker for one file in one process |
| `metrics` | the figures that are reported |

Every executable function states in its contract what it returns. Properties that relate
several functions are public proof functions next to them: that a bitmap and a frame survive
transmission, that a patch leads from the old version to the new one, that a finished download
has every chunk on disk and verified, that a chunk a node reported can be fetched from it, that
a refused request changes nothing, and others.

Calls into outside crates stand behind small wrappers whose contracts are trusted. Each says in
its doc comment which function it calls and what is claimed of it.

Time is an argument: the library never reads a clock. Percentages and ratios are exact
fractions.

## `app/`: the program

`model-dist server`, `node`, `client` and `self-test`: TCP, files, JSON, logging and the metrics
endpoint.

## `tests/`

Ordinary Rust tests that run the library with the real outside crates.
