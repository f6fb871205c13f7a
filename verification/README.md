# tablestg

Table storage for a small database, verified with Verus.

Rows of a table are values of a data type, encoded to bytes and kept in a
store of keyed records. The store keeps small records in hash buckets of
pages, reached through a tree of pages, and large records in chunks. Pages
are read and written through a page cache over `page_store`.

Layout of `src/`:

- `bytes`, `varint`: little-endian and variable-length integers.
- `vbucket`, `vpage`: bucket pages of small variable-size records, their
  well-formedness, and what insert and remove do to them.
- `pagetree`, `pageset`: the tree of pages and the page cache.
- `vbuckmap`, `store`: the hash map of records and the store of records of
  any length.
- `bucket`, `buckmap`: bucket pages and map of fixed-size records.
- `value`, `datatype`, `indirect`, `table`: values, their encoding (parts
  that are too long are kept apart in the store), and tables.
- `token`, `operator`, `builtin`, `transaction`, `database`: the tokens,
  operators, built-in functions and transactions of the query language.
- `exp`: its expressions, how they are taken over from the source text,
  and their encoding for execution (binary expressions on operands of a
  known type become typed expressions).

`app/` holds what Verus does not see: serialisation with serde and
postcard, file storage, and the clock.

What the crate does not hold: the query language's parser, its statements,
the evaluation and display of expressions, the schema dictionary and the
interpreter that executes statements (schema updates, `alter table`,
`rename`, `drop`, the rule that an item that others refer to cannot be
dropped) are neither in `src/` nor in `app/`. The built-ins that execute
SQL or read the dictionary are therefore not evaluated here. The crate
holds the storage that such an interpreter runs on, the lexer, the
operators, the built-ins that need only the stack and a transaction, and
the expressions with their encoding.
