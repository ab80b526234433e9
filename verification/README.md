# structured_merge_diff

Structured merge and diff of JSON/YAML objects against a schema, with field
ownership tracking for the managers that apply or update an object. The
library is written in Verus: its data structures and algorithms carry
`requires`/`ensures` contracts over mathematical models, and Verus proves
them.

## Layout

- `src/value.rs`: values (null, booleans, integers, floats held as JSON
  text, strings, lists, sorted maps), their total order and JSON text.
- `src/fieldpath/`: path elements and paths, sets of field paths (a tree of
  members and children), maps keyed by path elements, the text form of path
  elements and the JSON form of sets (`serialize.rs`, with the round-trip
  law in `round_trip.rs`), and the per-manager record of owned fields.
- `src/schema/`: the schema language (types, maps, lists, unions), type
  resolution, and the schema of schemas.
- `src/typed/`: values paired with a type: validation with the exact list of
  errors, conversion to field sets, comparison, merge, removal and
  extraction of field sets, and reconciliation of owned fields with schema
  changes; `parser.rs` reads values as a type of a schema.
- `src/merge/`: conflicts and the updater (apply, update, extract-apply).
- `src/openapi/`: OpenAPI v2/v3 documents and their conversion to schemas.
- `src/json.rs`, `src/text.rs`: the calls into serde_json and std's string
  building, behind trusted wrappers; `json.rs` also models the documents
  serde_json reads (`JsonView`), over which those wrappers are stated.
- `app/`: the command-line tool (reading files, YAML and JSON documents,
  printing results).
- `tests/`: tests of the library.
