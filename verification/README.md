# duckdb_jfr

A DuckDB extension that reads Java Flight Recorder (JFR) files as tables:

- `jfr_scan(filename, event_type)` gives one row per event of the type, one
  column per field of the type;
- `jfr_attach(filename)` registers one view per event type of the recording.

## Layout

- `src/` is the library, verified with Verus:
  - `jfr_schema` builds the schema of an event type from the type pool of a
    chunk: the tree of its fields, numbered in preorder, with recursion cut
    where a type repeats on the path from the root;
  - `jfr_scan` maps fields to column types, reads event values along the
    schema, turns them into writes on column vectors, and decides, event by
    event, how a scan pages through a recording;
  - `jfr_attach` lists the event types of a recording as views, in the order
    of their names;
  - `reader` unpacks gzip input and takes the first chunk of a recording;
  - `type_pool` and `jfr_access` hold the calls into `jfrs`, each with the
    contract it is trusted to meet;
  - `text` holds small verified string operations;
  - `duckdb` holds the handles of DuckDB's C API objects and the bookkeeping
    of databases and files.
- `app/` is the extension itself: its entry points and the C callbacks of
  the two table functions, which read files through DuckDB, walk the chunks
  and events of a recording with `jfrs` (whose readers may not return on
  malformed input, so no verified code calls them), hand each to the
  library, and carry its column writes into DuckDB's vectors.
- `tests/` runs the library on hand-built values and on a short recording
  of a Java program, stored gzipped in `tests/recording.rs`.
