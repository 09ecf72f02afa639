# crow_text

Text utilities for an editor, written in Verus with their behaviour stated
in contracts and proved:

- `diff`: character- and line-level diffs by the Myers algorithm. The result
  is an edit script of the two texts, its blocks are separated, and no edit
  script deletes and inserts fewer elements.
- `range`, `position`: ranges of positions, normalised so that start <= end.
- `utf16`: conversion between character columns and UTF-16 columns of a line.
- `sha1`: streaming SHA-1, proved against the FIPS 180-4 definition.
- `terms`, `json`, `tfidf`: term splitting, the small JSON subset of the
  search index, and a TF-IDF index whose occurrence counts stay consistent
  with its documents.

`src/` is the verified library, `tests/` its tests, and `app/` the thin
unverified layer around it: serde forms of the value types, the
WebAssembly exports, and the floating-point scoring of the search index.
