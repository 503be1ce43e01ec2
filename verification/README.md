# artifact

Inert data containers for program payloads: a payload travels as an
embedded-file attachment of an ordinary PDF, or as base64 text in a
namespaced `<metadata>` element of an ordinary SVG. The loader is strict and
fails closed: exactly one payload, at most 1 MiB, SHA-256 checked.

The library under `src/` is verified with Verus:

- `lib.rs`: errors, formats, `detect`, `embed_payload`, `extract_payload`
  and the integrity check.
- `pdf.rs`, `svg.rs`: writing and reading each container, each with a
  specification of the exact bytes written and of what reading gives.
- `digest.rs`: SHA-256 (through `sha2`) and its hexadecimal text.
- `decimal.rs`, `seqs.rs`, `text.rs`: numerals, byte search, characters.
- `tags.rs`: every `<` of an SVG document opens one of the template's
  tags, none of which carries an event handler or is a script.
- `inert.rs`: a PDF document adds no key of an entry that makes a viewer
  act (JavaScript, launch, actions) beyond what its payload or title holds.
- `laws.rs`: what holds across functions — reading back what was written,
  detection of written containers, what an accepted file carries, the PDF
  cross-reference table, that an SVG document holds no `<script`, and that
  a file with one byte changed is refused or read back with the payload's
  digest.

`app/` is the command line (`pack`, `inspect`, `run`): program
serialisation and validation, files, and the Machine VM.
