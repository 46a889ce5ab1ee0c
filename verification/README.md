# ip_pinger

A mass IPv4 pinger and port scanner. It reads a list of address ranges
(`start;end` per line, further fields ignored) and a list of ports, probes
every address with a reverse DNS lookup, connects to the listed ports of the
addresses found up, and appends the results to `up_ips.csv` and
`open_ports.csv`.

Layout:

- `src/` — the library, verified with Verus: dotted-quad and decimal text
  (`text`), range-list reading and range expansion (`parser`), probe results
  and the up/down decision (`pings`), counting (`stats`), report text
  (`saver`), and run planning: port list, shuffling, chunking (`launch`).
- `app/main.rs` — the program: command line, files, DNS lookups, TCP
  connects, threads and the floating-point statistics.
- `tests/` — tests of the library.
