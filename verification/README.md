# ArcRun

ArcRun runs graphs of tasks. A client posts a batch of tasks with dependencies,
concurrency and capacity rules, and webhook actions; ArcRun starts each task when what it
depends on has ended and its rules leave room, calls its webhooks, and passes successes,
failures and cancellations on along the graph.

The library (`src/`) holds the rules of the service as verified Rust: every function
states what it does to the tables, and Verus proves it. The server (`app/`) holds what
talks to the outside: HTTP, PostgreSQL, webhooks, timers.

## The model

`store::Store` is the tables as vectors of rows; its view `Tables` is sequences of
mathematical rows. Instants are microseconds since the Unix epoch, ids are the numbers of
UUIDs, JSON columns are texts. An operation takes the tables, or some of them, and the
current instant. A transaction of the server loads the rows that an operation works on,
calls it, and writes back what changed.

`workers::finish_laws::consistent` says what holds of the tables between transactions: ids
are unique, the counters of a waiting task count its live parents, a slot is charged with
exactly what the active tasks hold of it, a batch counts its live tasks, and an event is
queued or recorded at most once. The laws in the files whose names end in `_laws` say that
every operation keeps this.

## Layout

| Module       | What it holds                                                          |
|--------------|------------------------------------------------------------------------|
| `models`     | rows and their views                                                   |
| `store`      | the tables                                                             |
| `dtos`       | what requests carry                                                    |
| `rule`       | what start and dedupe rules compare, and the slots they mean           |
| `validation` | checks on requests and on webhook URLs                                 |
| `auth`       | bearer tokens                                                          |
| `action`     | webhook requests and idempotency keys                                  |
| `db`         | operations on the tables: creating, claiming, ending, queueing, purging|
| `workers`    | propagation, claiming, starting, delivering, timing out, retention     |
| `handlers`   | requests and their answers                                             |
| `metrics`    | counters and gauges; `metric_ids`: that their registry takes all of them |
| `text`, `order`, `tally` | texts, sorting, counting                                   |
