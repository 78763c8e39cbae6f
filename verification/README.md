# lipuzzles

A database of chess puzzles in three file formats, with the rules of the formats
proved in Verus.

| Format | Module | What a file holds |
|---|---|---|
| 2 | `db`, `builder` | records of 40 bytes, a theme dictionary and a move pool |
| 3 | `block_db`, `block_builder` | compressed blocks of 512 records |
| 4 | `columnar_db`, `columnar_builder` | compressed blocks of columns |

Formats 3 and 4 keep identifiers of any form up to 255 bytes and the fullmove number
behind the puzzles of a block (`appendix`), and format 4 keeps any number of pieces.
A record of format 2 has room for an identifier of five base-62 digits and for 32
pieces, and none for a fullmove number.

- `src/` is the library. Identifiers, moves, FEN texts, boards and theme masks are
  packed and unpacked (`id`, `moves`, `fen`, `board`, `theme`), rows of puzzle
  sources are read (`ingest`, `sql`), files are built, opened and queried, and
  puzzles are written as PGN games, as comma-separated lines and as reports
  (`position`, `exporter`, `render`). The public proof functions whose names begin
  with `law_` state what holds of the functions together: above all that a puzzle
  that was put into a file comes out of it as it was.
- `tests/` runs the library on concrete values.
- `app/` is the `lpdb` program: the command line, files, SQLite, compressed CSV,
  downloads and JSON.

Compression (`zstd`), random numbers (`rand`) and the parallel sort (`rayon`) are
called from `frame`, `chance` and `ingest`; what is believed of them is stated
there.
