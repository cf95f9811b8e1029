# QuickQL

QuickQL is a pipeline query language over JSON rows. A query is a text of steps that run from top
to bottom:

```ql
SOURCE OPEN('orders.json')
FILTER EQ(status, 'shipped')
MAP customer_id, total, shipped_date = GETDATE(shipped_at)
GROUP_BY customer_id MAP total = SUM(total), last_ship = MAXDATE(shipped_date)
SORT_BY last_ship DESC
LIMIT 1024
```

## Layout

- `src/` is the language as a verified library: JSON values and their order, the parser, the
  functions, the steps, paging, CSV tables, streams and the run of a query. Every function states
  in its contract what it returns, over mathematical values, and Verus proves it.
- `tests/` runs the library on concrete values.
- `app/` is the program around the library: the command line, files, HTTP, secrets, the web
  service, the language server, and what is computed on doubles.

## How a query runs

`run::Run` does one small step at a time. Each call of `advance` takes in what came from the outside
and says what is wanted next: a file, a response, a secret or a computation on doubles. `app/`
performs it and hands back what came of it. `next_state` in `src/run.rs` says what each call does.

## What is taken on trust

The doubles of JSON, JSON texts, CSV tables, dates, URLs and Base64 come from `serde_json`, `csv`,
`chrono`, `url` and `base64`. Each call into one of them stands in a small function marked
`#[verifier::external_body]`, whose comment says what is believed of it.
