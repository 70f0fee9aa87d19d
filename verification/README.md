# Shotgun

Shotgun diffs two OpenAPI descriptions — the API to expose (source) and the
service actually called (target) — writes an editable mapping file, and runs
a reverse proxy that translates requests and responses between the two
shapes.

The library under `src/` is written in Verus: every function carries a
contract over mathematical models (sequences, maps, JSON trees) and is
proved against it.

## Layout

```
src/
  text.rs, search.rs   character-level string helpers and index searches
  json.rs              KeyedMap (a key-ordered map) and JsonValue / JsonTree
  codec.rs             JSON and YAML text through serde_json / serde_yaml
  error.rs             the library's errors and the text they print
  spec/                the normalized API model; OpenAPI 2.0 / 3.x parsing
  diff/                endpoint matching, field diffing, mapping generation
  mapping/             mapping file types, formats, and the `sync` merge
  proxy/               request planning, JSON transforms, pagination, headers
  config.rs            what `validate` finds and the lines the commands print
  cli.rs               the command line as plain values
app/                   the binary: clap, file I/O, serde, the axum server
tests/                 scenario tests of the library
```

## Properties proved

Beyond each function's contract, the library states and proves:

- parsing the name `HttpMethod::as_str` prints gives the method back;
- normalized paths ignore path-parameter names; normalizing is idempotent
  and keeps the number of segments;
- a parsed field is consistently typed (a schema reference only on an
  object, item details only on an array);
- field diffing never proposes a rename, and a generated mapping file holds
  no field rename anywhere;
- every generated entry without a target carries a note saying why;
- a generated summary's counts add up to the number of source endpoints;
- `sync` keeps hand-edited entries verbatim, refreshes generated ones, adds
  new ones, flags entries whose source disappeared, and never drops a
  source it knew; every hand-edited schema is kept unchanged, as the only
  schema of its name;
- header renames move the first value under each target name to its
  source name whenever the header map has room;
- a rename-only mapping applied to a request and then to the response gives
  the object back; fields no rule mentions pass through untouched;
- pagination parameter names translated forward and back are unchanged.
