# order_book_server

A local server for order book data. A node writes three streams of files: order statuses, book
diffs and fills, one batch of events to a block. This project rebuilds the order books from them,
checks the books against snapshots that the node writes on request, and sends websocket
subscribers the books (summed up by price, or order by order) and the trades.

`src/` is the library. Every function in it is verified with [Verus](https://github.com/verus-lang/verus),
but for three short calls into other code that are named below.
`app/` holds what touches the outside: files, timers, sockets and the JSON forms of everything that
is read or sent. `tests/` runs the library on concrete data.

## The library

| Module | What it holds |
| --- | --- |
| `text` | numbers, options and amounts in words |
| `coin`, `coin_map` | coin symbols, and maps keyed by them |
| `order`, `node_data` | orders, and the batches that the node writes |
| `order_book`, `multi_book` | the resting orders of one coin, and of all coins |
| `rounding`, `levels` | prices rounded to significant figures, and books summed up by them |
| `state` | how a block changes the books |
| `validation` | comparing the books with a node snapshot |
| `tail` | finished lines of a growing file |
| `listener`, `listener_laws` | pairing batches, keeping the live books, replacing them |
| `snapshot_check` | bringing books to a snapshot's height, comparing, recovering |
| `listen` | what the listening task does about each event |
| `subscription`, `trades`, `book_updates` | what clients ask for, and the data of each stream |
| `responses`, `session`, `session_laws` | what a connection is told |

Each type has a model, which its contracts speak of: a book is two sequences of orders, the books
are a map from symbols to them, the listener and a connection are records of such values. What the
methods do is a function on models (`applied`, `received`, `replaced`, `processed`, `requested`,
`told`), and the functions named `law_*` prove what holds of the whole: that the best price comes
first, that pairs are formed in block order and none is lost, that the height never moves back, that
a mismatch is reported exactly when the books differ, and that a client who replaces its book by each
snapshot and applies the later updates in between has the live book again after every message, as long
as a block has each of its orders on one coin.

Prices and sizes are whole numbers of a hundred millionth.

Three functions are taken on trust instead of being verified, each a call into other code: `quote`
(how the standard library quotes a string), `debug_address` (how `alloy` prints an address) and
`each_in_parallel` (`rayon`).
