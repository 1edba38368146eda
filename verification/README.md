# adaptive-selector

CSS selectors that survive website redesigns: save an element's structural
fingerprint once, and when the page changes and the selector breaks, find the
element again by similarity — tag, attributes, text, path, parent, siblings.

The library in `src/` is verified with Verus:

- `difflib` — a `SequenceMatcher` over sequences of symbols with difflib's
  longest matching block recursion and its "popular element" discount;
  strings are compared character by character, tag paths and attribute
  lists name by name; ratios come out as exact counts (`Ratio`).
- `text`, `attributes` — whitespace trimming and collapsing, and a sorted
  attribute map.
- `dom` — the parsed tree as plain nodes, the walks over it, and the
  fingerprint of an element.
- `fingerprint` — the comparisons that score a candidate against a saved
  fingerprint.
- `document` — parsing, CSS selection, element accessors, and the choice of
  the best-scoring group.

HTML parsing and CSS matching are `scraper`'s; the library calls them through
a few trusted wrappers whose contracts are stated in `src/dom.rs` and
`src/document.rs`.

`app/` holds what stands around it: the floating-point score and relocation
by it (`Relocate`, `SimilarityThreshold`), the JSON form of a fingerprint
(`FingerprintJson`), and a displayable error type.
