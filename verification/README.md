# LumenFS

A content-addressed block store with crash recovery, virtual disks, snapshots,
writer leases, placement over members, and replication, as a library whose
behaviour is stated in contracts and proved by Verus.

- `src/` is the library. `hash`, `codec`, `table`: addresses, bytes, sorted
  maps. `disk`, `sim`: what a disk promises, and a simulated one that crashes.
  `format`, `brick`, `brick_set`, `wal`, `map`: what is on the disks. `pool`:
  vdisks over a brick set; `pool::recover`, `pool::calls` and `pool::outlive`
  state what an open gives back after a crash, where nothing on the disks
  passes for a frame that was never appended and no two payloads share an
  address. `slice`: which members are home to which blocks. `repl`: a node
  that keeps its peers in lockstep. `bytes`: the byte view, and what reads
  give back over any run of calls, a collection or a crash. `room`, `nbd`,
  `burn`: changes that make room for themselves, the network block device
  wire, and the burn-in's rules.
- `tests/` runs the library.
- `app/` is a command that serves a pool on a file as a network block device.

Proof functions named `law_*` state what holds across functions.
