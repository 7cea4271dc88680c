# sqlite_from_scratch

A verified reader for the on-disk structures of an SQLite database file,
written in Verus.

- `src/encoding.rs`: big-endian numbers and UTF-8 text.
- `src/cell.rs`: varints, cell pointers, serial types, values, records and
  table-leaf cells, with the laws proved of them (varint sizes and values,
  varint and record prefixes, serial type codes and sizes, record shape).
- `src/page.rs`: the database header, B-tree page headers and page types.
- `src/error.rs`: the reasons an input is rejected.
- `app/main.rs`: a command-line program that prints the database header and
  each B-tree page header of a file.
- `tests/`: tests of the library on concrete bytes.

Each reading function states exactly what it returns for every input it
accepts; its `requires` leaves out only the inputs whose bytes run short of
what is read.
