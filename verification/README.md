# libpipeline

An incremental pipeline engine, verified with Verus.

Stages are registered with a builder and run over inputs. The engine memoizes each
stage under the content of its input, observes which inputs a stage reads, marks stale
what a change reaches, cuts the marking off where a recompute repeats itself, and says
what to poll next. A run never waits: it answers with a value, that the last value
stands, or that a wake is coming.

## Layout

| Module | What it holds |
| --- | --- |
| `effect` | what a poll answers |
| `key` | stage identities, content addresses, memo keys |
| `store` | where answers are remembered |
| `wake` | wake targets, and the wakers kept of them |
| `track` | the ledger: reads as edges, staleness and its reasons |
| `track::invalidate` | a change marks its dependents; an equal recompute takes it back |
| `track::schedule` | what to poll, in which order, or which nodes form a cycle |
| `track::nodes` | stages and inputs as nodes of a ledger |
| `context` | what a poll is handed |
| `stage` | the stage contract |
| `memo`, `chain`, `boundary` | a stage with a memo, two stages in a row, a stage with its failures handled |
| `driver`, `watch` | driving a stage to an answer, and reporting polls that nothing can wake |
| `builder`, `pipeline` | registering stages, and running them |
| `laws`, `laws::verdicts`, `laws::graphs`, `track::laws` | what holds across functions |

`node_set` is the ordered set of nodes that the ledger is made of, and `number` draws the
number that tells a ledger from others. `app/` holds what a program puts around the engine:
process-wide numbering, sharing, erased rows, wakes from other threads, pipelines run from
inside a poll, and unwinding.

## Stages

A stage implements `Stage`: an `id`, a `memo_key` that can be computed without running,
and `poll_stage`. What it does is said by the spec functions of the trait, all of which
have defaults. A stage written outside the verifier owes what the contract of
`poll_stage` says: it closes the runs it opens, and it answers `Unchanged` only where it
has answered before.

A stage that holds a node or a tally is registered with `stage_within`, which hands over
the drive to make it in; `within` gives the builder a drive that holds some already.

A stage that runs a pipeline of its own hands it the context it is polled with, with
`run_within`: inside a poll that is revalidating, no store answers.

Registering a stage memoizes it. A stage that answers `memo_key -> None` is neither
looked up nor recorded, and failures are never remembered.

A store is a `MemoStore`. What it may answer is said by `may_find`, which by default admits
anything: a store that others write to can say no more. A store for a whole pipeline is a
`PipelineStore`, which hands every position a handle on itself.

## What is not proved

Two things are taken from the standard library as they come: how many shares an `Arc` has,
which says whether a waker that was kept has been dropped since, and the numbers that a
random hasher gives, which tell ledgers apart. Nothing is claimed of either but that an `Arc`
at hand has a share.
