# firewalleye

A web viewer for the packet log that a firewall writes to SQLite. This crate is
its library, verified with Verus: what a filter form asks of the log, how the
per-interface, per-protocol and per-action statistics are summed from grouped
query rows, how filter values are sorted by kind, the paging of the live feed,
the timeline's bucket width and the unit in which counts are shown.

- `src/models/queries.rs`: the filter conditions and their meaning, the live
  window and cursor, the ranking and timeline plans and what their queries
  return, the interface tally, the
  distributions and the sorting of filter values, with their laws.
- `src/models/named_map.rs`: a map from names to values with unique names.
- `src/models/models.rs`, `src/models/tables/`: the records.
- `src/utils.rs`: the unit in which a count is shown, and the text of small counts.
- `src/decimal.rs`: the decimal text of an unsigned integer.
- `app/`: the server: database queries, HTTP routes, the OpenAPI document,
  system protocol and service lookups, and number formatting.
