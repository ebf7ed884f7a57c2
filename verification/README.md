# chaste

One model for the lockfiles of the npm ecosystem (npm, bun, pnpm and yarn in its
classic, berry and JSON formats): packages, their names and versions, where they
come from, where they are installed, and the dependencies between them. The
library is written in Verus: every reader states, in its contract, what it returns
for each lockfile, and Verus proves it.

## Layout

- `src/` — the verified library.
  - `name`, `svs`, `svd`, `modpath`, `semver`, `checksums`, `source`: the pieces of
    text a lockfile is made of (package names, version specifiers and descriptors,
    `node_modules` paths, integrities), each with a spec of what it reads.
  - `package`, `dependency`, `derivation`, `installation`, `chastefile`: the model
    that every reader builds, with its builders and the dependency walks.
  - `npm`, `bun`, `pnpm`, `yarn`: one reader per lockfile format. Each has a spec
    function that runs the reading step by step on plain values (`*_model`,
    `*_run`), and a `resolve`/`parse` function whose contract ties the chastefile it
    gives, or the error, to that run.
  - `audit`, `why`: the two commands' logic (checks over the chastefile, and the
    chains of dependents that lead to a package).
  - Calls into outside crates (`ssri`, `nodejs-semver`, `yarn-lock-parser`,
    `percent-encoding`, `globreeks`) stand behind small trusted wrappers whose
    contracts say what those crates do.
- `app/` — the command-line program: reading files and directories, parsing
  JSON and YAML into the library's plain types, printing.
- `tests/` — tests of the library on concrete lockfiles built in code.
