# nullmark

A verified library that finds and removes invisible Unicode watermarks in
text and metadata in PNG, JPEG, WebP, PDF, SVG, DOCX, XLSX, PPTX and ODT
files, then re-analyses every result.

Layout:

- `src/engine`: the Unicode rule table, classification and the three
  sanitizing modes (Safe, Strict, Maximum), with the laws that sanitized text
  is clean for its mode, that sanitizing is idempotent and that the modes are
  nested.
- `src/binary`: format detection, analysis and sanitizing per file format.
  PNG, JPEG and WebP are parsed byte by byte, and their sanitized output is
  proved to analyse clean. PDF is read into a plain model (`PdfModel`) whose
  analysis is exact; SVG and the ZIP-based office formats are read as XML
  events.
- `src/report.rs`: the text and binary reports (Base64 payloads, SHA-256
  fingerprints, size ceilings, post-sanitization verification).
- `src/xml.rs`, `src/container.rs`, `src/pdf_file.rs`, `src/text.rs`: the
  trusted boundary to quick-xml, zip, lopdf and std, one small wrapper per
  outside call, each with the contract it is trusted for.
- `app/`: the command layer with serde copies of the report types.
