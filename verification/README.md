# hyperlight

A shared-memory transport between a host and a micro-VM guest, verified with Verus.

- `src/virtq` holds packed virtqueues: descriptors, rings, buffer pools, chains of buffers,
  and the producer and consumer that exchange them.
- `src/flatbuffer_wrappers` encodes function calls, results and log records.
- `src/transport.rs`, `src/layout`, `src/mem.rs` frame messages and place them in memory.
- `src/guest` is the guest's side: its queues from creation to snapshot, message framing,
  dispatch of calls.
- `src/ci` holds the rules by which benchmark results are found, matched and reported.
- `src/fuzz` drives a ring through memory that a faulty peer may have written, and a driver and
  a device through turns on one ring.
- `app` is the program around the library: command line, GitHub and file access, raw guest
  memory and VM exits.

Memory is reached through the traits `MemOps` and `BufferMap`. The contracts speak of the bytes
of that memory. A `Notifier`, which a queue calls while it submits or completes a chain, notes
that the peer is to be woken; the peer runs, and changes memory, once the queue's call has
returned. `app` wakes it there.
