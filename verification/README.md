# pod_helper

Helpers for CocoaPods projects, verified with Verus: reading the pods that a
`Podfile.lock` pins, locating them in the CocoaPods CDN index (by the first
three hex digits of the MD5 of their names), and reporting which of them have
newer versions.

- `src/` — the library, with its contracts and laws:
  - `text.rs`: splitting, trimming and line handling over characters;
  - `common.rs`: pod versions (reading, printing, ordering) and pod specs;
  - `utils.rs`: index keys, `str_join`, the `Podfile.lock` reader;
  - `cmds/check.rs`: the decisions of `pod_helper check`;
  - `pod_http_client.rs`: CDN addresses; `opts/`: command options.
- `app/` — the `pod_helper` program: command line, file reading, HTTP
  requests, progress bar and table output.
- `tests/` — tests of the library.
