# grafeo

Verified building blocks of an embedded graph database, written in Verus: what the
code does is stated in contracts and proved.

| Module | What it holds |
| --- | --- |
| `types` | property values, doubles by their bits, orders |
| `codec` | bit packing, dictionary encoding, bit vectors and wavelet trees |
| `graph` | the graph store, columns and zone maps, RDF terms and triples |
| `index::ring` | the triple ring and its packed form |
| `execution` | chunks, sorting with spilling, scans |
| `algorithms` | subgraph isomorphism |
| `storage` | byte ranges from paged sources, storage tiers |
| `testing` | failure injection |
| `cli` | export and import, memory reports |
| `bindings` | what the language bindings decide and compute |
| `trusted` | contracts of functions of other crates, which are not proved |

`law_*` functions state what holds across several operations: that reading undoes
writing, that skipping a block loses no row, that spilling does not change a sort.

`app/` is the ordinary Rust around the library: files, locks, tasks, pointers and
floating-point numbers. `tests/` runs the library on concrete values.
