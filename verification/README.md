# mechanix

The core of a small Wayland UI runtime, written in Verus and proved
against its contracts: a generational node tree with widget and component
columns and their lending rules, the event and signal queues, the Wayland
wire format and message arguments, the object and global tables, the
io_uring token bookkeeping, and the state machines that present windows,
route pointer input and pick render buffers.

Layout:

- `src/` — the verified library. Each module states its model as spec
  functions and views; the laws that span several operations are public
  proof functions next to the code they speak of.
- `tests/` — ordinary Rust tests run against the compiled library.
- `app/` — the unverified shell: the application runtime over the
  library's parts, the io_uring ring, the socket and its file descriptors,
  and the protocol objects the presenting side uses.
