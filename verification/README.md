# vnstat-dashboard

A network usage dashboard for Linux: it serves what vnStat reports, and books
the traffic of each second under the applications that hold network sockets.

- `src/` is the library, verified with Verus. It works on plain values: the
  texts of `/proc` files and of command output, counters, and daily logs.
- `app/` is the program around it: it reads files, runs `ss` and `vnstat`,
  stores logs as JSON, answers HTTP requests on `127.0.0.1:9876` and shows the
  dashboard in a window. With `--server-only` it shows no window.
- `tests/` runs the library on concrete values.

| Module | What it is about |
| --- | --- |
| `text`, `number` | words, lines, searching, decimal numbers |
| `interface` | which interfaces are hardware, and which one traffic leaves by |
| `net_dev`, `proc_io`, `sockets` | the counters of interfaces and processes, and who holds sockets |
| `live` | the speeds last measured |
| `name_map` | a map by name, kept in order |
| `daily_log`, `tracker` | the log of a day, and booking traffic in it |
| `clock`, `vnstat` | the current day, and what vnStat reports for it |
| `paths`, `store` | where files are kept, and how a log is stored |
| `http` | replies to requests |

Sums that do not fit a counter are left out of the functions that add; each has
a companion whose name ends in `fit` or `fits` that says beforehand whether they
do.
