# gvector

A vector search engine: exact and approximate nearest-neighbour search over
float vectors, with metadata filters, a segmented index that is built in the
background, snapshots, and a write-ahead log.

`src/` is the library. Every function in it states what it returns or changes,
and Verus proves it; the wrappers around outside crates say in their doc comments
what is taken on trust. `app/` is the program around the library: floating-point
kernels, files, threads, the HTTP service and measurements. `tests/` runs the
library.

## The library

| modules | what they hold |
|---------|----------------|
| `types`, `error`, `distance`, `numerics`, `index` | ids, results, errors, metrics, the arithmetic that the program supplies, and what the indexes have in common |
| `rank`, `bruteforce`, `graph`, `hnsw`, `quant` | rankings, the exact scan, the layered graph, and a copy of it on codes |
| `number`, `text`, `meta`, `posting`, `numeric`, `catalog`, `planner` | metadata, the indexes on it, and the choice of how to search with a filter |
| `segmented`, `segmented_build`, `segmented_search` | the mutable index: a buffer, a queue of buffers to seal, and segments that are merged |
| `codec`, `layout`, `record`, `wal`, `storage`, `hnsw_file` | the bytes of log and snapshots |
| `checkpoint`, `recovery` | what a checkpoint writes and in which order, and how an index comes back |
| `dataset`, `eval`, `service` | vector files, recall, and the order in which a writer works off commands |

Modules that end in `_laws` hold what is proved of several operations together:

- `graph_laws`, `hnsw_laws`: what searches and changes of a graph keep;
- `segmented_laws`, `segmented_search_laws`, `vector_laws`: no record is lost or
  doubled by sealing and merging, its vector stays (under cosine it is normalized
  once more), searches find only what exists, and a filtered search that comes up
  short has left out no match;
- `recovery_laws`, `checkpoint_laws`, `durability_laws`: wherever a checkpoint is
  interrupted, what is on disk gives the records back, and a log that is cut loses
  only the last operations. A checkpoint that fails leaves the log in use that the
  manifest on disk refers to;
- `usage_laws`: what users rely on, each promise in one piece;
- `history_laws`: the same of whatever a sequence of operations has made of an
  empty index.

Other laws stand beside the functions they speak of.

A segment is taken as its file and the manifest give it, whatever its dimension,
metric and list of dead. What is proved of an index as a whole holds where its
segments are like those that it builds itself: see `segmented::Store::matched`.

## Floating point

The library holds a float as its bits. What has to be computed in floating point
(distances, normalisation, level draws, histogram buckets) comes from an
implementation of `numerics::Numerics`, and the contracts hold for every
implementation that answers equal questions equally. Distances are ranked as
integers in the IEEE total order: see `distance::distance_key`. Where the graph
compares two of them it compares them as numbers: see `distance::is_nearer`.
