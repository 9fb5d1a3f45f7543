# phonetik

English phonetic analysis over an ARPAbet pronouncing dictionary: perfect,
slant and near rhymes, stress patterns, meter fitting, syllable counting and
splitting, and phoneme-repetition maps across lines of verse.

## Layout

- `src/` — the library, written in Verus. Every function carries a contract
  and is verified.
  - `phoneme.rs` — the one-byte phoneme encoding (ARPAbet symbol, stress).
  - `lexicon.rs`, `byte_map.rs` — ordered word lists and byte-keyed maps.
  - `dict.rs` — the dictionary blob, word normalization, g-dropped forms.
  - `coda_groups.rs`, `rhyme_index.rs`, `slant_index.rs`, `near_index.rs` —
    the three rhyme indexes and their lookups.
  - `stress.rs`, `syllable.rs`, `meter.rs` — stress scanning, written
    syllables, metrical feet.
  - `rhymemap.rs` — repeated phoneme n-grams across lines.
  - `distance.rs`, `rhyme.rs` — edit distance and rhyme-tail helpers.
  - `text.rs` — the few calls into std's character and string handling.
  - `lib.rs` — the `Phonetik` engine that ties them together.
- `tests/` — tests run against the compiled library.
- `app/` — the HTTP and MCP servers: I/O, JSON, and the floating-point
  scoring (similarity, meter regularity, pattern scores).

The dictionary, rhyme-group and coda-neighbour data are passed in as byte
blobs (`Phonetik::new(dict, groups, neighbors)`); the servers read them from
the directory named by `PHONETIK_DATA`.
