# component-test

Tooling for test suites that are WebAssembly components: an inventory of
cases and their feature marks, a results stream and its folded document, the
join of several targets into one corpus, reports, and the decisions of the
runners that execute suites.

- `src/` is the library, verified with Verus. Every function states in its
  contract what it returns.
  - names and marks: `name`, `feature`, `marks`, `tags`, `shared`
  - suites: `suite`, `registry`, `inventory`, `lockfile`, `lock`
  - results: `verdict`, `results`, `stream`, `selection`, `roles`
  - targets: `manifest`, `aggregate`, `matrix`, `junit`, `report`, `tally`
  - runners: `schedule`, `session`, `runner`, `composed`, `provider`, `bench`,
    `args`
  - composition and pins: `shape`, `opening`, `reading`, `linking`, `ties`,
    `compose`, `pins`
  - ground: `text`, `order`, `table`, `debug`, `digest`, `json`, `tomlread`
  - laws that relate several modules: `inventory_laws`, `suite_laws`,
    `run_laws`, `aggregate_laws`
- `app/` is the program around it: the command line, files, JSON and TOML
  records, and the execution of components with wasmtime.
- `tests/` runs the library.

What the library takes from other crates (arcstr, serde_json, sha2, toml,
wac-graph, wasmparser) stands behind functions whose contracts say what is
relied on; their doc comments name the function behind them.
