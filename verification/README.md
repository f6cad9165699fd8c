# ssh_knock

The verified core of a server-side SSH port-knocking daemon, written in Verus.

`src/` is the library, every function in it verified:

- `config` — the configuration types, their defaults, and `Config::validate`
  with an exact statement of which check refuses a configuration.
- `knock` — `KnockTracker`, the per-source state machine that follows each
  source through the knock sequence, with its window, idle timeout and
  capacity; the laws that tie an accepted source to the steps it sent.
- `rate_limit` — per-key token buckets, with idle buckets dropped only when
  dropping them changes no decision.
- `firewall` — the ipset/iptables argument vectors; `CommandLog`, which
  records every command handed to a runner, so that setup, preflight, allow
  and ban state exactly which commands ran; the idempotent setup (each rule
  is checked with `-C` and added only when missing); and the law that no
  argument built from configuration values can carry shell or option syntax.
- `server` — the daemon's packet decision: bans, tracking, rate limits,
  telemetry, and the audit entries each packet produces.
- `script` — the shell lines that reproduce a knock sequence, with the server
  name quoted so that it always reads back as one word.
- `update` — release asset selection, digest checking and installer commands.
- `net`, `text`, `store` — address text, number text, and the finite map the
  state machines keep.

Times in the library are nanoseconds on a monotonic clock.

`app/` is the daemon around it: argument parsing, reading the TOML file,
sockets, the audit log file, running processes, and fetching releases.
