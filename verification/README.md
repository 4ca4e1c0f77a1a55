# dreamchecker sleep verdicts

Which procs of a DreamMaker object tree can park the proc that called them,
and the allowlist of the procs that never can, spelled the way the `.dmb`
spells them. The logic is verified with Verus. Four small functions are
trusted rather than proved, each a single call into `foldhash`'s map (`new`,
`get`, `insert` in `src/intern.rs`) or into std's string order (`str_lt` in
`src/paths.rs`); their contracts say what those calls do.

- `src/model.rs`: the analysis of an object tree as plain data (types with
  their parents, procs with their call edges and what their bodies do), its
  well-formedness, inheritance and overriding.
- `src/visits.rs`: the steps of the walk over the call tree and where each
  step can go next, under the three analysis versions.
- `src/overrides.rs`: for each proc, its overrides on the types below.
- `src/intern.rs`: the `foldhash` map that numbers the steps met.
- `src/verdicts.rs`: `AnalyzeObjectTree::sleep_verdicts`, proved to give each
  proc the verdict "some walk from it reaches a proc that sleeps".
- `src/paths.rs`, `src/allowlist.rs`: `.dmb` paths, their order, and
  `allowlist`, proved to list exactly the allowed paths, sorted.
- `src/laws.rs`: laws of the walk. A caller of a parking callee parks, `waitfor = 0` callees shield, trusting unresolved calls only clears
  verdicts, and version 1 parks whatever versions 2 and 3 park.
