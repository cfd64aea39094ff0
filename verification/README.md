# fast_disambig

Arabic morphological analysis, disambiguation and stemming, with the text
processing, the morphology database reader, the analyzer and the stemmers
written in Verus and proved against their contracts.

## Layout

- `src/` — the verified library.
  - `chars`, `text_rules`, `utils` — character sequences, the per-character
    rewriting rules, and the text utilities: dediacritization and
    normalization, the character tests, the tokenizer, the rewriting of
    diacritized and phonetic forms, and the cutting and merging of segments.
  - `outside` — the calls into `regex`, `sha2` and std that the library
    trusts, each with the contract it is believed to meet.
  - `db_format`, `morphology_db` — the text format of the morphology
    database and its reader, which maps each line to what it adds to the
    database; the supplementary stems.
  - `analyzer` — analyses of a word from its prefixes, stems and suffixes,
    with the backoff to proper nouns.
  - `readings` — the readings of a word that the database allows, and the
    law that the analyses without backoff are one for each of them.
  - `stemmer`, `noan_stemmer` — cutting the words of a text into segments,
    as a string or as tagged pieces; when they come to an end; the laws
    relating them, the tags of the pieces, and that stemming only adds
    separators.
  - `mle` — the counting part of scoring an analysis against the model.
  - `options`, `resources`, `catalogue` — defaults of the options, the
    addresses of the SINA assets, the checking of resource destinations, the
    order in which a resource is looked for, whether download progress is
    shown, and the catalogue's component tree.
- `app/` — the command line and what needs the file system, the network,
  threads or floating point: downloads, the catalogue files, loading the
  database and the model from disk, the scoring and ranking of analyses,
  the engines with their caches, and stemming with a cache that the caller
  keeps.
- `tests/` — tests of the library.
