# Brindle

Filter-aware hybrid vector search for PostgreSQL: an HNSW index whose searches
honour attribute predicates while they walk, its storage in relation pages, and
Reciprocal Rank Fusion of vector and full-text rankings. The logic is a Verus
library; the PostgreSQL glue is a thin layer around it.

## Layout

- `src/` is the verified library.
  - `bytes`, `floats`, `text`: little-endian words, IEEE bit patterns and their
    orders, decimal and literal text.
  - `vector`, `distance`, `filter`: metrics, dimension checks, attribute values
    and predicates.
  - `hnsw`: parameters, the graph and its invariant, the search beam, the
    predicate-aware walk and its allowances, insertion, compaction, and the byte
    format.
  - `index_am`: operator classes, options, datums and scan keys, the stored index
    with its rows that have no vector, page images, the per-backend cache,
    pending writes, builds, scans and vacuum.
  - `fusion`, `hybrid`: rank fusion and the two-sided search.
  - `pg_vector`, `guc`: the vector type's rules and the settings.
- `tests/` runs the library with real floating point.
- `app/` is the extension itself: callbacks, buffers, SPI, WAL, and the float
  kernels.

## Floating point

The library holds floats as bits. It decides finiteness, order and equality on
them itself. What needs arithmetic (a distance kernel, a square root, a level
draw, a rank's contribution) comes from the caller as a function, of which the
library asks only that it answers every input and answers alike inputs alike.
Contracts speak of what that function answers, so they hold for any kernel.

## Contracts

Searches, inserts and decoders are stated exactly, against mathematical models
of the graph (`hnsw::graph::Graph`), the walk (`hnsw::search::Walk`) and the
serialized form. The properties that span functions stand beside them as public
proof functions: what an insert keeps, what a read gives back of a write, what a
predicate can never let through, what a vacuum leaves alone.
