# wg-dbusd

A daemon that publishes each WireGuard interface and peer as an object on the
system D-Bus and keeps that view in sync with the kernel.

- `src/` is the verified library:
  - `text`: decimal and hexadecimal rendering, base64 and hex of keys;
  - `net`: IP and socket addresses and their text forms;
  - `device`, `peer`: the published state of an interface and of a peer, their
    property values, and the step-wise refresh that reports which property
    changed;
  - `service`: object paths and the bookkeeping of a reconcile cycle (what to
    serve, what to refresh, what to remove and in which order), with the laws
    that a successful cycle leaves exactly the kernel's objects served.
- `app/` is the program: the bus connection and object server, netlink reads,
  signal emission and the five-second loop.
- `tests/` runs the library on concrete values.
