# master-control

The Master Control Program: the world server of the Grid, with its rules of record verified.

`src/` is the library, each function with the contract it keeps:

- `stager` - the acceptance window, the idempotent resend, latest-wins, the silence rules
  (repeat once, then coast) and the dead-owner rule, as a state machine over a `Map` of
  intent streams.
- `roster` - the roster of record: who is embodied, owned by whom; rez, adoption, claim,
  derez, leave and orphaning; the spawn lattice's walk.
- `world` - the two together, kept in step: only a body's owner steers it.
- `validator` - the only path into the world: declared bounds, a mesh's extent and a chain
  judged, and every intent sanitised (subnormals flushed) and clamped, on the values' binary32
  bit patterns.
- `heartbeat` - the pacing accumulator and its clamp, the keepalive, and when and to which
  file the Disk rolls over.
- `record` - the input log's lines, byte for byte; `clu` - reading them back and the
  re-simulation's bookkeeping; `readback` - the laws that what the log writes, Clu reads back.
- `physics` - the state hash over every body's bit patterns; `script` - the set dressing's
  clock; `wire` - the protocol's numbers and rows; `table` - std's ordered map with the order
  of its keys brought out as a sequence; `text` - the byte-level reading and writing of
  numbers the rest is built on.

`app/` is the program around it: the wire's foreign interface, the sockets, the files, the
operating system's stop signals, and the physics in binary32 - the body step, the hull, the
floor and the transcendentals - which the library leaves to it.

`tests/` runs the library on concrete values.
