# createcore_updater

The verified core of the CreateCore modpack updater: the tool that finds the newest
`CreateCore-vX.Y.Z.csv` modlist, keeps the mods meant for the client or the server, downloads
them into `mods/`, and logs each run.

- `src/` is the library, verified with Verus:
  - `text` — characters, `str::trim`, decimal numbers and `u32` parsing;
  - `version` — modlist file names, picking the latest modlist, its URL and label;
  - `modlist` — reading the modlist CSV (columns `FileName`, `Url`, `Side`, through the `csv`
    crate) and selecting mods by side;
  - `download` — file names and paths of downloads, progress lines;
  - `report` — the run tally, the end-of-run summary and the log entry;
  - `calendar` — leap years and `YYYY-MM-DD HH:MM:SS` timestamps;
  - `session` — command-line mode, instance markers, answers to prompts, backup names, and
    the order of the steps of a run.
- `app/` is the executable: HTTP (`ureq`), JSON (`serde`), the file system and the console.
- `tests/` runs the library on concrete values.
