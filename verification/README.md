# tdx_maintain_core

Maintenance of a local TDX (通达信) market-data directory: daily K-line
files, the trading calendar, ex-rights events, adjustment factors, integrity
scans, a freshness check against the quote servers and a Qlib binary export.

The crate is written in Verus.  `src/` holds the logic with its contracts and
proofs:

| module        | content |
|---------------|---------|
| `text`        | strings as `Seq<char>`: digits, trimming, text order, stable sort, substring search |
| `date`        | calendar dates packed as `yyyymmdd` (`.day` files) and any `chrono` date (the trade calendar), `%Y-%m-%d` text both ways |
| `tdx::paths`  | markets, `.day` file names and their parsing |
| `tdx::day_file` | the 32-byte record format: decode, encode, merge |
| `tdx_servers` | the `[HQHOST]` section of `connect.cfg`, server order |
| `checker`     | per-market freshness, the report, the server probe state machine |
| `scanner`     | gaps and lag of the daily files against the calendar |
| `downloader`  | the daily update run, retries, counters and messages, ex-rights keys |
| `calendar`, `tushare` | calendar rows from the index and from Tushare |
| `adj_factor`  | factor tiers, the factor lag scan, the factor lookup for a bar |
| `qlib`        | A-share selection, calendar alignment, gap filling, dump bookkeeping |
| `task`        | task kinds, progress events, pause/resume/abort, failure records |
| `config`, `models`, `dashboard` | configuration rules, database rows, endpoint decisions |

`app/` is the HTTP server around it (axum, sqlx, rustdx, arrow/parquet,
reqwest): file and network I/O, the task runtime and the floating-point
price arithmetic.  `tests/` exercises the library.
