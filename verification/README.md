# bandix_plus

Traffic monitoring for routers: counters are read once a second, kept as recent samples, gathered
into hours and days of local time, saved across restarts, and shown through an HTTP interface.

- `src/` is the library, verified with Verus. Its functions work on plain values; what depends on
  the clock, the time zone or JSON goes through a few small wrappers whose contracts are taken on
  trust and say so.
- `tests/` runs the library on concrete values.
- `app/` is the service around it: command line, eBPF maps, SQLite, HTTP. The operating system and
  the rate limit engine are traits there (`machine::Host`, `policy::PolicyEngine`).

Times are milliseconds since the epoch. An hour or day is a closed window: its end is its last
millisecond. Where the local clock does not show the beginning or the end of a window exactly once,
the window is written as two zeros.
