# overwatchd

A per-client traffic monitor for a home router. It reads the kernel's
conntrack table, attributes each flow's bytes to the LAN client on one side,
keeps per-client realtime and per-minute history, optionally counts the DNS
queries each client sends, and answers JSON requests on a Unix socket.

- `src/` is the library, verified with Verus: conntrack line parsing, LAN
  attribution and byte accounting, IP address text in both directions, the
  DHCP-lease/ARP name tables, the history recorder and its ring buffers,
  downsampling, the DNS query parser and per-window counters, the UCI
  configuration reader, and the control requests' decisions.
- `app/` is the daemon around it: file and socket I/O, the SQLite store,
  packet capture, threads, and the JSON encoding of the library's values.
- `tests/` exercises the library on concrete inputs.

## Maps

Lookups go through hash or ordered maps that vstd specifies, keyed by
integers or strings:

- `IpMap` indexes its entries by IPv4 number (`u32`) and IPv6 number
  (`u128`) in two `HashMapWithView`s. An `IpAddress` key itself is not used:
  its `Hash` is derived, and vstd has no key model for such a type.
- `Recorder` indexes clients by MAC in a `StringHashMap`.
- `CaptureState` indexes its (client, domain) counts by domain in a
  `StringHashMap`. vstd has no key model for a pair of strings.
- The per-timestamp merge of the history totals uses a `BTreeMap` keyed by
  timestamp.

The entries themselves also stay in vectors, in the order they were first
seen. vstd's `HashMapWithView` and `StringHashMap` give no way to walk their
entries, and the client lists and DNS counts are handed out from those
vectors.
