# excel-tool

Turns the sheets of Excel workbooks into JSON, CSV or tab-separated files,
and copies a rectangle of one sheet into another workbook (`refer`),
changing only the target sheet's XML inside the `.xlsx` archive.

- `src/` is the library, verified with Verus: configuration, header and
  attribute parsing, flattened keys and JSON building, sheet reading and
  merging, cell-reference arithmetic, and the rewriting of a sheet's XML.
  Calls into outside crates (regex, heck, url, quick-xml, flate2,
  path-clean, serde_json) go through small trusted wrappers whose contracts
  are stated in their doc comments.
- `app/` is the command-line program: argument handling, file and archive
  I/O, reading workbooks with calamine, printing.
- `tests/` runs the library on concrete inputs.
