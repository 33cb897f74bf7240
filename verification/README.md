# rusty_sheet

Reads spreadsheets (XLSX, OpenDocument, and the records of binary workbooks) for a
DuckDB table function. The library under `src/` is verified with Verus; `app/` holds
the files, threads and output vectors around it.

- `src/error.rs`: the errors and their messages.
- `src/helpers/`: bytes and texts, the record readers of BIFF8 and BIFF12, compound
  files, ZIP archives and XML events.
- `src/spreadsheet/`: cells, references, criteria, sheets and their chunks, shared
  strings, and the readers of XLSX and OpenDocument files.
- `src/extension/`: what the table function reads, and what it writes for a cell.
- `tests/`: runs the library with the real archives and parsers.

Compound files, archives, XML, text encodings and glob patterns come from `cfb`,
`zip`, `quick-xml`, `encoding_rs` and `glob`. What is believed of them without proof
stands in the doc comments of the functions marked `#[verifier::external_body]`.
