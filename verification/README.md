# constellation

The logic of a code-intelligence server for Django projects, written in Rust and verified with
Verus: what each tool of the server answers, how results are ranked and paged, and how a reference
in the source is resolved to the symbol it names.

- `src/` is the verified library. Every function states what it returns; the functions named
  `law_*` state what holds across calls.
  - `resolution/` turns unresolved references into edges.
  - `tools/` holds one module per family of tools, from symbols and flows to history and `winnow`.
  - `cursor`, `hints`, `render`, `explore`, `rank`, `recency` and `risk` are what the tools share:
    paging, follow-up hints, rendering and ranking.
  - `git`, `dates`, `winnow` and `args` read what a caller or a program hands in.
  - `chars`, `text`, `numbers`, `order`, `keys` and `fx` are the ground they stand on. `fx` and
    `chars` hold the few contracts that are taken on trust: those of the hash tables of
    `rustc_hash`, and of the Unicode tables of the standard library. The one other is that of
    `Arc::clone`, in `resolution/context`.
- `app/` is the server around it: the tools as they are offered over stdio, the queries each makes
  of an index, and the scores that are floating-point numbers.
- `tests/` runs the library on concrete values.

The library never reads a database, a file or a clock. It asks for plain values and answers with
plain values: a walk over the graph says whose neighbours it needs next, and a tool's text is a
function of what was found.
