# hexodsp (verified core)

The verified core of a DSP graph and block-code library, written in Verus.

- `src/cell_dir.rs`: directions on the hexagonal cell grid.
- `src/blocklang.rs`: the block language editor: block types and languages,
  areas of placed blocks, chains, the block function with its sub areas, and
  the generation of a syntax tree from the program. `src/blocklang/json_io.rs`
  writes snapshots to JSON values and reads them back.
- `src/block_compiler.rs`: the compiler front end (syntax tree to statements
  over temporary variables); `src/block_compiler/jit.rs` turns statements into
  a program tree of the DSP JIT language, `src/block_compiler/dump.rs` prints
  statement trees.
- `src/json.rs`: JSON values and their lookups.
- `src/dsp/`: integer random number generators, trigger counters, node types
  with their names and their tables of parameters, settings and outputs,
  and their categories, random node picks.
- `src/log.rs`: the byte framing of log messages.
- `src/text.rs`: string building helpers.

`app/` holds what runs around the library: JSON text through `serde_json`, the
thread-local random number generator, the cross-thread logger on `ringbuf`,
pitch conversions in floating point and the hand-over of compiled programs to
`synfx-dsp-jit`.
