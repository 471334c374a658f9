# 息壤 (XiRang)

A verified library for trees of nodes in binary `.xirang` files, written in Rust and
proved with Verus, with the programs around it.

Every node has an id, a parent, a name and a value. A file is a list of records; where an
id comes more than once, the last record counts.

## The library (`src/`)

| Modules | What they hold |
|---|---|
| `bytes`, `codec`, `header`, `tree`, `model` | records and files as bytes, the store of nodes and its changes |
| `validator`, `scan`, `query`, `search`, `sort`, `idmap`, `text`, `floats`, `paths` | checking, scanning and searching; helpers |
| `shard`, `workspace`, `catalog`, `fixture` | collections of shards, several files, the catalog of a machine, made-up files |
| `index`, `backend`, `wsidx`, `ledger`, `edit` | the index beside a file, the ledgers of a workspace, edits that append |
| `fresh`, `renew` | what an index that was built anew finds, and what an update of it leaves |
| `json`, `xml`, `convert`, `transfer`, `grow` | other formats |
| `ops`, `lookup`, `change`, `batch`, `template` | operations on a store |
| `console`, `report`, `request`, `reply`, `tools` | what commands and a server ask and answer |

Floating-point numbers are held as bit patterns. Their decimal texts come in tables that
the caller makes.

## The programs (`app/`)

`xr` (commands), `xr-mcp` (a JSON-RPC server) and `xr-bench` (measurements) are one binary
that goes by the name it is started under. They read and write files, and leave the rest
to the library. To answer a question on a workspace they read its index and its files into
memory.
