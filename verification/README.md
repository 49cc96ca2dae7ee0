# doc_checker

A linting tool that enforces documentation rules across Soroban smart
contracts. The rules are a verified library; a small program around it reads
the repository and prints what was found.

## Rules

* Public functions in a `#[contractimpl]` block have a doc comment that speaks
  of parameters, the returned value and access control.
* With `--events`, the fields and variants of `#[contracttype]` items whose
  name contains `Event` or `Payload` have doc comments.
* Variants of `#[contracterror]` enums have doc comments.
* Every `docs/**/*.md` file can be reached by links from the `README.md` of
  the repository or from a `README.md` under `docs/`.
* A snake_case name between backticks in a document is that of a public
  function of the contracts.

The last three rules, and functions without any doc comment, only warn unless
`--strict` is given. A committed baseline turns findings that were there
before into warnings.

## Layout

* `src/`: the library.
  * `checks`, `source`: rules on contract sources.
  * `flags`: what the configuration changes in their findings.
  * `links`, `traversal`, `orphans`: documents that no index leads to.
  * `references`: references to functions that do not exist.
  * `joining`: what is found in texts that are put together.
  * `findings`, `identity`, `baseline`, `violations`: findings, their stable
    identities, and the baseline.
  * `shape`, `line_numbers`, `recognition`, `identity_form`, `classification`:
    what holds of identities.
  * `patterns`: the regular expressions and what they match.
  * `text`, `files`, `paths`, `order`, `calendar`: text, files, paths, orders and
    dates.
  * `cli`, `report`: the command line and the report.
* `tests/`: tests of the library.
* `app/`: the program.

What the library takes on trust is what it calls in other crates and in the
standard library: `syn` for parsing (`source`), `regex` for matching
(`patterns`), lower case (`checks`), `String::push` (`text`) and the clock
(`calendar`).

## Usage

```bash
cd tools/doc_checker
cargo run -- --strict --events --baseline baseline.json
cargo run -- --strict --events --update-baseline
```
