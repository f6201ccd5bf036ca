# Velo-Core

The core of an LLM inference engine for Apple Silicon, written in Verus: prefix
caching, paged attention, speculative decoding, continuous batching, model files,
grammar constraints, sharding, and the planning of forward passes.

- `src/` is the library. All of its logic is verified; each function says in its
  contract what it returns or changes. What holds across functions is stated by
  public proof functions next to the functions that they speak of. Not verified are
  the calls into other crates and the standard library that are named below.
- `tests/` runs the library on concrete values.
- `app/` is the ordinary Rust around it: the programs `velo run`, `velo spec`,
  `velo bench`, `velo project` and `velo serve`, file and network access, floating
  point arithmetic, and the Metal calls (on macOS only).

Floating point numbers are held by their bit patterns in `src/` (`scalar`). The
library orders, stores and converts them; it does not compute with them.

Calls into other crates (`vob`, `llguidance`, `toktrie`, `minijinja`, `serde_json`)
and a few into the standard library stand behind small functions marked
`external_body`, whose contracts say what is relied on and are not proved.
