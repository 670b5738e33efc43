# ows_runtime

The verified core of a runtime for the
[Open Workflow Specification](https://open-workflow-specification.org/): the
expression language, the rules for definitions, events and their matching,
scheduling, lifecycle events, telemetry, execution records and the conformance
scenarios. Functions state in their contracts what they return, and Verus proves it.
Of what rests on chance or time, the contract says what holds of every outcome.

## Layout

- `src/` is the library.
  - `text`, `double`, `number`, `json`, `value`, `document`, `dict`, `builder`: text,
    exact double-precision arithmetic on bits, decimal notation, JSON values and how
    they are read from JSON and YAML.
  - `expressions`: the lexer, the parser and the evaluator of a subset of `jq`, and
    the engine for `${ ... }` blocks. `expressions::laws`, `expressions::literals`
    and `expressions::canonical` hold what is proved of the language as a whole.
  - `definition`, `model`, `validate`: reading, normal form and rules of workflow
    definitions.
  - `events`, `service`, `schedule`, `lifecycle`, `telemetry`, `store`, `secret`,
    `policy`, `clock`, `identity`, `phase`, `error`, `context`: the core of the
    runtime.
  - `conformance`, `testing`: the scenario runner and fakes for tests.
- `tests/` runs the library.
- `app/` is the command line program and the adapters around the library: files,
  databases, collectors, asynchronous ports.

## What is trusted

Calls into `std` and other crates stand behind small functions marked
`#[verifier::external_body]`. The comment above each says what is claimed of the
call. Where the result of a call is only named and more is computed from it, a
function beside it takes the result as an argument and does the rest.

Doubles are held as their 64 bits. Their arithmetic is computed and verified on
integers; the shortest decimal for a double comes from `serde_json`.
