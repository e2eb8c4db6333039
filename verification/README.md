# serde_adif

Reading and writing ADIF (Amateur Data Interchange Format), the text format
in which ham radio logs are exchanged, with the reader and the writer proved
correct by Verus.

## Layout

- `src/` — the verified library.
  - `de.rs`: the reader. `AdifDeserializer` reads a document one tag at a
    time (`parse_next`, `next_field`, `consume_eor`, ...) or whole
    (`read_run`, `read_all`); each step is
    stated over spec functions (`next_tag`, `field_step`, `read_fields`,
    `read_records`, `read_document`) on the bytes of the input.
    `ValueDeserializer` turns a field's text into booleans, characters,
    integers and lists.
  - `ser.rs`: the writer. `ValueSerializer`, `RecordSerializer` and
    `AdifSerializer` build a value, a record or header, and a document
    (`write_text_document` writes one of text-valued fields at once);
    their text is stated by `field_text`, `record_text`, `document_text`.
  - `laws.rs`: what holds across the two, proved: reading what was
    written gives back the same fields, records and header (names in
    ASCII lower case), and the same booleans, integers and lists.
  - `number.rs`: integer text in both directions, following the standard
    library's parsing rules.
  - `text.rs`: UTF-8 scanning (Unicode whitespace, byte search, ASCII
    case-insensitive matching).
  - `error.rs`, `strings.rs`, `adif.rs`: the error type and its messages,
    two standard library calls, and the `Adif` document type.
- `app/` — the serde front end: `from_str` and `to_string` drive the
  library from the `Deserialize` and `Serialize` impls of the caller's
  types, and handle floating point.
- `tests/` — tests of the library on concrete documents.
