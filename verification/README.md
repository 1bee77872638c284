# stdf-convert

Convert STDF V4 and V4-2007 semiconductor test data files to JSON Lines, one JSON object
per record. The binary records are parsed by `rust-stdf`; this crate decides which records
are kept, where each one sits in the file, what its type is called, where the output goes,
and the JSON text of every value. That logic is verified with Verus.

```bash
stdf-convert results.stdf.gz                 # writes results.jsonl
stdf-convert -o out/ lots/                   # every STDF file under lots/, recursively
stdf-convert --records PIR,PTR,PRR lot.stdf  # only these record types
```

## Layout

| Path | |
|---|---|
| `src/record_types.rs` | The table of record type names and the name of a parsed record |
| `src/filter.rs` | Record type filters, case-insensitive |
| `src/records.rs` | Records with their sequence number and byte offset, and the cursor that numbers and filters them |
| `src/paths.rs` | Which file names are STDF files, and the default output path |
| `src/text.rs` | The JSON text of strings, bytes, integers and the other plain values, and what a parser reads back |
| `src/json.rs` | The JSON writer: values, arrays, objects, keys, byte fields, and the start of each record line |
| `src/strings.rs` | String equality and ASCII upper case |
| `app/` | The command: arguments, finding and reading files, the serde serializer, float formatting |

Gzip (`.gz`) and bzip2 (`.bz2`) inputs are read directly.
