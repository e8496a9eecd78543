# tiny-lsm

`tiny-lsm` is a small log-structured merge tree in memory, with one level of tables, verified with
Verus. A key is a `u32`, a value a `u64`.

Writes are numbered and go to a buffer. A full buffer is sorted into a table, and when enough tables
have accumulated they are compacted into one: of each key only the newest entry remains, and a key
whose newest entry is a delete is gone.

## Layout

- `src/` is the library, the crate `lsm_compaction`: entries and the newest entry of a key
  (`entry`), the orders they are sorted in (`order`), tables (`table`), compaction (`compaction`),
  entries as columns for a device (`columns`), the states of the store and what its operations keep
  (`state`, `run`), the store (`kvs`), the record of a compaction and the clock it is timed with
  (`stats`, `clock`), and the stream of commands (`commands`).
- `app/` is a program that runs an endless stream of random commands on the store and on a
  `BTreeMap`, and stops at the first difference. Compaction on a GPU is done here, with `massively`
  and `cubecl`.
- `tests/` holds the tests.

## What is trusted

The stable sorts of std's slices, which the library calls to sort entries, and the clock that
compactions are timed with. A compaction on a GPU is done outside the library: the store waits for
it and takes in the table that comes of it, whatever it holds. That it is the compaction, and leaves
every key as it was, follows where the device sorts the rows by key and from the newest to the
oldest, takes the first of each key and leaves out the deletes.

## Options of the program

- `--compaction=cpu|gpu`: where tables are compacted.
- `--buffer <N>`: the number of entries in the buffer.
- `--compaction-threshold <N>`: the number of tables that are compacted into one.
- `--key-space <N>`: the keys of the random commands are below this number.
