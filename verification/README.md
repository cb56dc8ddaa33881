# rust365

A dependency-free converter from Word `.docx` files to HTML, written in Verus: the ZIP reader,
the DEFLATE decoder, the XML pull parser and the WordprocessingML-to-HTML conversion are all
verified against contracts stated over mathematical models.

## Layout

```
src/inflate.rs   DEFLATE (RFC 1951) decoder; `inflate_raw` is proved to compute `inflate_spec`
src/zip.rs       ZIP central-directory reader (stored and deflated entries)
src/xml.rs       zero-copy XML pull parser; each event is `xml_step` of the parser state
src/htmlutil.rs  HTML escaping and base64
src/text.rs      byte and string helpers (decimal and hex formatting, case folding)
src/table.rs     lookup tables keyed by text (vectors) or by integers (a std `HashMap`)
src/docx.rs      conversion helpers: attribute values, run and paragraph properties, part paths
src/grid.rs      table layout: spans, vertical merges and the emitted table markup
src/walk.rs      the document model: what each element of the body adds to the output
src/docx_run.rs  the converter's passes and `convert_docx_to_html`
src/paths.rs     output and title names for the command line
app/main.rs      the command-line program (argument handling and file I/O)
tests/           tests of the library on concrete inputs
```

## What is proved

- `inflate_raw` returns exactly what `inflate_spec` (stored, fixed-Huffman and
  dynamic-Huffman blocks, with the output cap) gives for its input; the block decoders also
  state what the output holds when they fail (`block_out`, `dynamic_out`), and `construct`'s
  answer is the unused part of the code space by the Kraft sum.
- `ZipArchive::open`, `find` and `extract` follow `zip_entries`, `first_named` and
  `extract_spec`; the archive is read by the last end record in the searched window, and every
  deflated entry is inflated under a cap (one byte for an entry that says it is empty).
- `XmlParser::next` and `skip_element` follow the event model `xml_step` / `skip_from`;
  `append_decoded` follows `xml_decode`. Reported names, texts and attributes are stretches of
  the input, tag names stop at their delimiters, Eof comes within `len + 1` calls, decimal
  references beyond U+10FFFF give nothing (hexadecimal ones keep their low 32 bits), and
  decoding undoes both escapers.
- `convert_docx_to_html` rejects non-archives with the exact messages, fails exactly when the
  main part (found through `_rels/.rels`) cannot be read, and on success returns exactly
  `page_of(fragment, title, converted_body(..))`: the body that `walk.rs` describes for the
  package (paragraphs, runs, lists, tables, fields, links, images, notes), alone or in a page
  whose title is the requested one or the document's own.
- Base64 text is digits then padding, and different bytes never give the same text.
- A list level below 0 is taken as 0.
- Every pass only appends to the output; list nesting, table spans and merges, note
  numbering and field links are stated exactly over their models.
