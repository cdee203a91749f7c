# shuttle

Builds Snap packages from Lua declarations. This crate is its verified core:
every decision that the program takes on plain values is a function with a
contract, proved by Verus.

- `src/` is the library. Nothing in it touches the disk, the network, the clock
  or a process; calls into other crates stand behind wrappers whose contracts
  say what they rely on.
- `app/` is the program around it: the command line, files and processes.
- `tests/` runs the library, with the real crates behind the wrappers.

| module | what it decides |
| --- | --- |
| `analysis` | which definitions are checked at all, and where a key stands in one |
| `assertion`, `openpgp` | whether a store revision is backed by a signed chain |
| `audit`, `source_url` | what to ask OSV about a lockfile, and what the replies mean |
| `boot_test` | how an image is booted, and whether it came up |
| `build_prefix` | how payloads merge into one prefix, and how wrappers resolve there |
| `build_sched` | which builds run next, and how many at once |
| `cache` | cache keys, and what is evicted |
| `checks` | what is suspicious in a project |
| `confine` | how an app of a pod is run, and inside which sandbox |
| `dep_fetch`, `fetch`, `wheel`, `glob`, `archive` | dependency closures, from lockfile to archive |
| `deps` | build order and dependency trees |
| `calendar`, `timestamp`, `digest`, `json`, `json_doc`, `ordered`, `text` | what the others share |
