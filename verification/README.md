# migjorn

A lossless reader and editor for MCNP input files, written in Verus and
proved against its contracts.

- `src/` is the verified library. Parsing keeps every byte: re-emitting an
  unedited model gives back the input exactly, and edits rewrite only the
  tokens they name.
  - `lex`, `lines`, `segment`, `card`, `cst`: the lexer, the split of a file
    into blocks and cards (message block, title, cell, surface and data
    blocks, continuation lines, comments), and the per-card tree.
  - `model`, `view`, `cell`, `surface`, `data`: the `Model` facade, its
    id index (`rustc_hash` maps from each id to the card that defines it
    first) and its typed, read-only views of cells, surfaces, materials and
    transforms.
  - `fx`: the `rustc_hash` map and set operations the indexes use, stated
    as trusted contracts.
  - `diagnostic`: what reading a model reports (ids defined twice, unknown
    tokens, unreadable cards).
  - `edit`, `renumber`, `compose`: editing, renumbering (definitions and every
    reference together) and composing models; `report` checks a renumbered
    model against the original.
  - `crunchy`: a second front end over one flat token array (lexer, card
    tree, cells, surfaces, data cards, renumbering, emission), with its
    `Deck` facade and id index.
- `app/` is the command-line front end (`bench`, `model`, `parse`, `lex`,
  `surfaces`, `cells`, `renumber`): file reading, timing and printing around
  the library.
- `tests/` runs the library on concrete inputs.

Contracts are stated over spec functions of the source bytes; the laws that
span several operations (reading back what an edit wrote, renumbering with
the identity changing nothing, cards tiling the token stream, a batch of
token edits being its edits made one at a time, an edited tree staying
edited) are public proof functions.
