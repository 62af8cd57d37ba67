# semcast

Semantic SQL, served over the Postgres wire protocol: a `MEANS` predicate, a
typed extraction or a ranking is an operator of the query plan that asks a
language model about the text of its rows.

The library under `src/` holds everything that is decided or computed on the
way, and Verus proves it: how a plan is rewritten, what each operator asks and
what it makes of the answers, what is cached under which key, how an index is
chunked, pruned and calibrated, how statements are split, routed and answered,
and what becomes of a batch job.

- `logical/` and `optimizer/`: plans, and the rules that put semantic nodes in
  the place of marker calls.
- `physical/`: the two steps of every operator around its model calls, and the
  bill that `EXPLAIN` shows.
- `index/`: chunks, documents, clusters and near duplicates.
- `model/`: providers, requests, retries.
- `sql/`: clauses and declarations that are not standard SQL.
- `server/`: statements, progress, rows on the wire, batch jobs.
- `cache.rs`, `json.rs`, `text.rs`, `number.rs`, `sort.rs`, `clock.rs`: what the
  others share.

Floating-point numbers stand in the library by their bits; arithmetic on them is
in `app/`, with `main`, the network, the disk, DataFusion and Lance.

Each function's contract says what it returns. Public proof functions state what
holds across functions: that a row is kept exactly when its verdict is yes, that
an answer is paid for once and the first one stands, so that a query run again
gives the same rows, that splitting statements again changes nothing, that a row
the index has never seen is never silently dropped, that a calibrated floor keeps
the recall target that a statement gives, that a job that is over stays as it is.
