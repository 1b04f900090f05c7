# osm_index

Tools around OpenStreetMap PBF extracts, with their logic verified by Verus.

- `src/` — the verified library:
  - `id_range`: inclusive id ranges and widening them by an id;
  - `vec_buffer`: a bounded most-recently-used buffer;
  - `indexed`: id ranges of data blocks, the per-block node maps, their
    cache, and node lookups as steps that ask for a block to be read;
  - `node_db`: a flat node-coordinate store over a writable memory map;
  - `pbf`: statistics over ways (polygons, lines, largest node id) and
    their merging.
- `app/` — the program: command line, reading and decoding PBF files in
  parallel, creating the store's file, progress output, and benchmarks.
- `tests/` — tests of the library.
