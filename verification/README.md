# clawpanel

The configuration logic of ClawPanel, the desktop panel that manages an OpenClaw
installation, as a Verus-verified library.

- `src/json.rs` — the JSON documents the panel edits, their mathematical model
  (objects as entry sequences, lookup by first matching key) and safe accessors.
- `src/config.rs` — cleaning interface-only fields out of model entries, declaring
  vision input, the loaded-configuration rule, and their laws (the edits settle after
  one application; a written configuration reads back unchanged).
- `src/version.rs` — version numbers, their lexicographic order and its laws, the
  version report.
- `src/registry.rs` — the npm registry in use, package names and registry addresses,
  the upgrade plan and its progress.
- `src/backup.rs` — backup names, their safety, the time-stamped name of a new backup
  (from a clock reading that `app/` takes with `chrono`), restore/delete decisions and
  the stable newest-first listing.
- `src/paths.rs` — path components under the Unix and the Windows rules (drive
  prefixes, both separators), `join`, `starts_with`, and where an environment file may
  be written: only inside the panel's directory, never through `..`.
- `src/remote.rs` — provider endpoints, the probe request, the answers' messages,
  sorted model lists, the panel's release report.
- `src/system.rs` — status reports, `u32` parsing of the user id, the launchd target.
- `src/text.rs` — the text operations all of the above rest on (trim, search, order,
  decimal notation).

`app/` holds the commands themselves: file, process and network work, and the
conversion between `serde_json` values and the library's documents.
