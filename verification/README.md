# yaml_serde_edit

Edit YAML in place through a plain value, keeping the comments and layout of
everything the edit does not touch. The library is written in Verus: its
logic carries contracts that the verifier proves.

## Layout

- `src/yaml.rs`: `Yaml` and `Num`, the plain-value picture of a parsed YAML
  document, with YAML equality (`yaml_eq`, `Yaml::equals`) as `serde_norway`
  defines it: mappings unordered, the two float zeros equal, a tag's leading
  `!` not significant.
- `src/leading.rs`: the leading comment block of a text (`leading_block`),
  specified line by line, with the law that a comment block in front of a
  text is kept whole.
- `src/diff.rs`: the differ. `plan_mapping` and `plan_sequence` compute the
  edits that carry an old value to a new one; the laws prove which keys are
  removed, which entries are left alone, that the mapping plan gives the new
  mapping's keys and values, and that a complete sequence plan gives the new
  sequence.
- `src/document.rs`: `YamlValue` (untyped) and `YamlObject<T>` (typed, with
  caller-supplied decode and encode functions). Parsing, setting a value,
  the round-trip check and the transactional `set` are proved against the
  contracts of the outside calls.
- `src/tree.rs`: the edit tree as the library drives it: the text it was
  parsed from, the handles its lookups gave out, and the record of every
  call made on it. The tree's printed text is named as a function of that
  text and that record, so the contracts of the edits say exactly which
  calls the tree got.
- `src/outside.rs`: the trusted items, each a small wrapper around one call
  into std, `serde_norway` or `yaml_edit`, with the contract the library
  relies on.
- `app/lib.rs`: what stays outside the verified library: serde's traits on
  the typed value, the conversions between `serde_norway::Value` and `Yaml`,
  the error type with `Display`, and `YamlFile<T>`, which reads a file and
  writes it back atomically.
