# cerveau

The decisions of a memory service, verified with [Verus](https://github.com/verus-lang/verus).

- `pipeline_status` reads and edits the column that says for which datasets a data record has
  been processed: marking it, forgetting it, clearing a dataset. `data` plans the operations on
  records around it: what to read, in which chunks, and what to write.
- `ingest_gate` decides which memories are kept: it builds the request to a judge, reads the
  reply, and drops an add only when every text of it scores below a threshold. `score` compares
  the scores, doubles held as their bits.
- `tenant` resolves the user of a request from the headers of a trusted caller; `server` checks
  the settings read at startup.
- `json` holds every call into `serde_json` and what is taken for granted about it; `ids` does
  the same for `uuid`. `text` has the text functions that the others share.

`app/` is the program around the library: the relational store, the HTTP calls to the judge, and
the server. `tests/` runs the library against the real crates.
