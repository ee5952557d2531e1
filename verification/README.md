# log-scouter

The engine of a log browser: it reads log files under schemas, filters and searches their
entries, merges files by time, keeps a project per folder, shares schemas through hubs, and
lends its tools to an assistant. The engine is written in Verus; every function of `src/` has a
contract that is proved.

- `src/` is the library.
  - Reading: `parser`, `extractor`, `detect`, `models`, `timestamp`, `pattern`.
  - Looking: `filters`, `search`, `tokens`, `views`, `merge`, `templates`, `shapes`.
  - Keeping: `project`, `packs`, `library`, `paths`.
  - Sharing: `hub`, `repo`, `sync`, `archive`, `release`, `cli`.
  - Talking: `ai`, `mcp`, `json`.
  - Underneath: `text`, `lists`, `sorting`, `shell`, `clock`.
- `app/` is the program around it: files, network, arguments, and the stored form of each type.
- `tests/` runs the library with the real outside crates.

What is believed without proof stands in functions marked `external_body` and in
`assume_specification` items, each with a comment that says what it claims of which outside
function. The laws that span several functions are public proof functions at the end of each
module.
