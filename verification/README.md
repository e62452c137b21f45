# ghdown

A GitHub release download accelerator: it fetches release assets through a
pool of mirror proxies, ranks the proxies by their health, falls over to
the next one when a download fails, downloads large files in parallel
ranged segments, checks SHA-256 digests and upgrades itself from the latest
release.

## Layout

- `src/` — the library, verified with Verus:
  - `proxy.rs`: the proxy pool (known urls, one health record per url),
    the bookkeeping of successes, failures, probes and cooldowns, and the
    ranked choices made from it (best proxy, fallbacks, probe ranking,
    report order), the failover decisions of a download, with their laws.
  - `config.rs`: user configuration, health records, exact health scores.
  - `sorting.rs`: stable ordering by a ranking key; existence and
    uniqueness of the stable order.
  - `download.rs`: download planning, segment ranges, `Range` and
    `Content-Range` values, resuming, human-readable sizes, SHA-256
    checksums and the warning on a mismatch.
  - `upgrade.rs`: asset names per platform, release selection, version
    comparison, the enforced digest check.
  - `clock.rs`: UTC moments read and written with `chrono`.
  - `cli.rs`, `text.rs`: url trimming, file names, decimal text.
- `app/` — the command line program: argument parsing, HTTP, files,
  progress bars, the system clock, and the configuration files (TOML and
  JSON). It runs the download loops and performs the steps that the
  library decides.
- `tests/` — tests of the library.
