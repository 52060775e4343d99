# followup

Follow-up tracking for questions asked on X/Twitter with a `#fu` tag (`#fu`,
`#fu7`, `#fu30`, ...): the tweet's first mention is the account that owes an
answer; a reply from that account answers it, the tag's number of days
(7 by default) sets when it expires, and it can be closed by hand.

The library in `src/` is verified with Verus:

- `text`, `date`: characters, decimal numbers, `str::parse` on integers, and
  ISO-8601 timestamps (`YYYY-MM-DDTHH:MM:SSZ`) to and from Unix seconds.
- `parser`: the `#fu` tag and the mentioned account of a tweet.
- `model`: statuses, tweets, tracked records, drafts, the dashboard.
- `json`: the JSON writer and the flat-object reader.
- `store`: the store interface, an in-memory store, and the JSON codec of a
  record (with the law that a stored record reads back unchanged).
- `service`: tracking, answering, expiring, closing, and the dashboard, each
  stated as a relation between the records before and after.
- `http`: the dashboard page, request parsing, routing, the API token, and the
  response texts of `handle_request`.
- `cli`: options, settings, the help text, and each command of `run_command`.
- `velo_layout`: the keys, the id index, the id counter, the writes that file a
  record, and the listing order of the Velo-Lite key-value store (with the law
  that the text order of timestamps is their time order).

`app/` is the program around it: environment variables, the TCP server loop,
the Velo-Lite native library (through its C interface) and the store built on
it. `tests/` runs the library on concrete values.
