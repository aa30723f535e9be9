# luminary

The verified core of a performer recommendation engine, written in Verus.

- `src/text.rs`: character-level primitives (Unicode whitespace, splitting,
  joining, substring search, trimming) stated over `Seq<char>`, and the two
  trusted case-mapping calls (`str::to_lowercase`, `char::to_uppercase`).
- `src/query.rs`: plain-English query parsing into face/body references and
  hair/eye/ethnicity attributes.
- `src/pornpics.rs`: name slugs, the pornstar page address, and the full-size
  image URLs read out of a gallery-index page.
- `src/stashdb.rs`: image URLs of the best StashDB match, largest first.
- `src/tpdb.rs`: ThePornDB request addresses (with `urlencoding`), body-type
  inference and the profile-image choice.
- `src/source.rs`: the image-source trait, manual sources, the gallery split and
  the front/rear/side view rule.
- `src/eval.rs`: hit counts and relevant ranks behind precision, recall,
  average precision and NDCG.

`app/` holds the HTTP clients, JSON decoding and the floating-point metrics
built on these functions.

Not part of this crate: a command-line front end, a performer database and a
performer model. Accordingly the ThePornDB client in `app/` returns the decoded
ThePornDB record rather than a performer model, and no gallery-based image
source (pornpics or pichunter galleries) implements `ImageSource`; only
`ManualSource` does. `ImageSource::gather` is synchronous, since Verus does not
verify async code.
