# sorted_table

Builds B-tree tables bottom-up from streams of records that arrive by strictly increasing key.

A `WriteTransaction` opens an empty table, hands a `SortedTableBuilder` to a producer, and gives
itself back once the table is complete, with all other tables as they were. Any error on the way,
also one that the producer ignores, consumes the transaction, and the database stays as it was.

- `layout`: encoded sizes of pages.
- `types`, `text`, `order`: key and value types, their encodings and their order.
- `page`, `tree`, `btree`: pages, the page store, and trees of pages.
- `bulk_model`: the bottom-up build as a state machine; `btree_bulk`: its implementation.
- `sorted_table`: transactions, builders, and the builds themselves.
- `catalog`, `search`, `database`: named tables, reading them, and committing them.
- `bulk_laws`, `earlier_pages`, `packing`, `success`, `stream_laws`: what a build guarantees. The
  finished tree holds the inserted records in order, its pages keep within their limits, and no leaf
  has room for the record that follows it. A sorted stream of acceptable records becomes a table if
  there are two pages for each record and a branch page can hold two of the longest keys.
