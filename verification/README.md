# lumen_device

The decisions a lighting device makes: time sync, timebase election, the source
stack, zones, replicated records, channels, gateway policy, audio analysis and the
render loop. No I/O happens here. Every machine takes events and a clock and answers
with actions, so a recorded run replays identically.

The library in `src/` is written in Verus. Every function states what it returns or
changes, and Verus proves it. Beyond single functions, the public proof functions
named `law_*` state what holds across calls: that two nodes settle after one gossip
round, that the order records arrive in does not matter, that shards of a strip
render what one core would, that nothing outlives its expiry.

What the library does not own it is handed:

| Handed in | As |
|---|---|
| fixed-point arithmetic | a function from an operation and its operands to a number (`q16::Op`) |
| the machine that runs effects | a function from a machine and a step to a machine and an outcome (`render::Step`, `render::Ran`) |
| the datagram codec | values in, values out (`wire::Datagram`) |
| signature checks | a function from key, message and signature to a yes or no |

What is proved holds for every such function that answers, and where it says so,
for every one that always answers alike.

- `src/` — the library.
- `tests/` — its tests.
- `app/` — a bench on standard input and output, which drives any of the machines
  from a script. It uses `lumen_proto`, `lumen_vm`, `lumen_crypto` and
  `lumen_conformance`.
