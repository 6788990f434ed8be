# assfonts

Font handling for ASS subtitle scripts, verified with Verus: which fonts a
script asks for and with which characters, which indexed font serves each
request, one face of a font collection as a standalone font, the subset of a
face for the characters it has to draw (with a repair of CFF charstrings that
the subsetter refuses), and the embedding of the subsets back into the script
as a uuencoded `[Fonts]` section.

Layout:

- `src/` — the verified library, one module per concern: `ass` (script
  analysis), `embed` (uuencoding and the `[Fonts]` section), `cff_fix`
  (charstring repair), `sfnt` (collections, table directory, checksum,
  standalone faces), `font` (font records and matching), `subset`,
  `commands` (the rules of a run: grouping, subsetting policy, coverage),
  `error`, `cli` (options), `db` (schema check), `gui_backend` and `ui_state`
  (what the desktop front end shows), and the helpers `bytes` and `text`.
- `tests/` — tests on concrete values, among them a tiny TrueType font built
  byte by byte.
- `app/` — the command-line program: argument parsing, directory scans,
  file reading and writing, the JSON index and report, parallel runs, and
  the background tasks of a desktop front end.
