# SeGraph

A graph database engine whose logic is verified with Verus. The library under
`src/` holds the data structures, the binary formats and the decisions of the
server, the client and the benchmark; each function states what it does, and
Verus proves it. `app/` is the program around it: sockets, files, SQLite, clocks
and the terminal.

## Modules

| Module | Contents |
|---|---|
| `ecs` | Component storage with counted references, epochs and cursors |
| `proto` | Values and messages, little-endian integers, frames of tiles |
| `float`, `rounding`, `narrow` | Floating-point values by their bits: order, rounding, conversion |
| `text` | Texts and numbers as text |
| `server::edge_csr`, `traversal` | Adjacency arrays and breadth-first traversal |
| `server::tile_math`, `cell_walk`, `spatial_index` | Tiles, cells and the grid of positions |
| `server::roster`, `entity_store`, `hot_tier`, `warm_tier`, `cold_tier` | The tiers that hold entities |
| `server::graph_index`, `graph_store`, `pipeline`, `dispatch` | Loaded graphs, queries, answers to requests |
| `client` | State of a client, collection of answers, assembly of blobs |
| `bench` | What a benchmark runs, random graphs, reports |

What holds across functions is stated in proof functions whose names begin with
`law_`: a frame that was encoded decodes to the same tiles, a traversal reports
exactly what is within reach and the nearest first, a spatial search finds
everything inside its bounds, a referenced component is never vacated, a cache
file that is opened again gives back what was put into it, as long as it has not
started over.

## Coordinates

Positions are binary32 values, held as their bit patterns (`Float32`). Tile
numbers and comparisons are computed on the bits; the rounding is that of the
IEEE formats. The tests compare sampled values with the machine's arithmetic.

## Trust

Contracts that are believed and not proved stand on the functions marked
`external_body` and in the `assume_specification` items: the buffers of `bytes`,
a bounded random number of `rand`, and the sorts of the standard library.

## Running

`segraph [DATABASE [CACHE]]` serves a SQLite database on
`GRAPH_LISTEN_ADDR` (default `127.0.0.1:5177`); `segraph bench` generates graphs
and measures the server and, where one is running, Neo4j.
