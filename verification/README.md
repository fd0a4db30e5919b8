# speed_limit

A Windows bandwidth limiter: WinDivert intercepts every IP packet, a token
bucket per direction paces traffic to a global limit, and processes named in
rules get buckets of their own. The decisions are a Verus-verified library;
the window, the driver and the operating-system calls are a thin program
around it.

## Layout

- `src/` — the verified library.
  - `packet.rs`: the flow (protocol, local and remote address and port) of a
    raw IPv4/IPv6 packet.
  - `flow_table.rs`: flows and their owning processes, process names, the
    names offered for rules.
  - `rules.rs`: per-process rules, found and added by case-insensitive name.
  - `token_bucket.rs`: the token bucket, in exact integer units.
  - `shaper.rs`: the per-packet decision (which bucket pays, how long to
    wait) and the statistics window.
  - `recv_policy.rs`: what the two receive loops do on an error.
  - `text.rs`, `assoc.rs`: character-sequence helpers and association lists.
- `app/` — the program: the egui window, the WinDivert threads, the
  settings file, administrator elevation.
- `tests/` — tests of the library.

Rates are whole bytes per second in the library; the program converts the
Mbps that users type and the settings file holds.
Time comes into the library as nanoseconds read by the program from a
monotonic clock, so every bucket update is stated exactly.
