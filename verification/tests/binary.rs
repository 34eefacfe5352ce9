use crc32fast::Hasher;
use lopdf::{Dictionary, Document, Object, Stream};
use nullmark::binary::{analyze, detect_format, sanitize, BinaryFormat};
use std::io::{Cursor, Write};
use zip::write::SimpleFileOptions;
use zip::{CompressionMethod, ZipWriter};

const PNG_SIGNATURE: &[u8; 8] = b"\x89PNG\r\n\x1a\n";

fn zip_container(entries: &[(&str, &[u8], CompressionMethod)]) -> Vec<u8> {
    let mut writer = ZipWriter::new(Cursor::new(Vec::new()));
    for (name, data, compression) in entries {
        let options = SimpleFileOptions::default()
            .compression_method(*compression)
            .unix_permissions(0o600);
        writer
            .start_file(*name, options)
            .expect("synthetic ZIP entry must start");
        writer
            .write_all(data)
            .expect("synthetic ZIP entry must write");
    }
    writer
        .finish()
        .expect("synthetic ZIP must finish")
        .into_inner()
}

fn png_chunk(kind: &[u8; 4], data: &[u8], output: &mut Vec<u8>) {
    output.extend_from_slice(&(data.len() as u32).to_be_bytes());
    output.extend_from_slice(kind);
    output.extend_from_slice(data);
    let mut hasher = Hasher::new();
    hasher.update(kind);
    hasher.update(data);
    output.extend_from_slice(&hasher.finalize().to_be_bytes());
}

fn marked_png() -> Vec<u8> {
    let mut output = PNG_SIGNATURE.to_vec();
    let mut header = [0u8; 13];
    header[3] = 1;
    header[7] = 1;
    header[8] = 8;
    header[9] = 6;
    png_chunk(b"IHDR", &header, &mut output);
    png_chunk(b"tEXt", b"Author\0NullMark", &mut output);
    png_chunk(b"caBX", b"c2pa", &mut output);
    png_chunk(b"IDAT", b"synthetic", &mut output);
    png_chunk(b"IEND", b"", &mut output);
    output
}

fn marked_jpeg() -> Vec<u8> {
    let mut output = vec![0xFF, 0xD8, 0xFF, 0xE1, 0x00, 0x08];
    output.extend_from_slice(b"Exif\0\0");
    output.extend_from_slice(&[0xFF, 0xDA, 0x00, 0x08, 1, 1, 0, 0, 0, 0]);
    output.extend_from_slice(&[0x11, 0x22, 0xFF, 0xD9]);
    output
}

fn append_jpeg_segment(output: &mut Vec<u8>, marker: u8, payload: &[u8]) {
    output.extend_from_slice(&[0xFF, marker]);
    output.extend_from_slice(&((payload.len() + 2) as u16).to_be_bytes());
    output.extend_from_slice(payload);
}

fn webp_chunk(kind: &[u8; 4], data: &[u8], output: &mut Vec<u8>) {
    output.extend_from_slice(kind);
    output.extend_from_slice(&(data.len() as u32).to_le_bytes());
    output.extend_from_slice(data);
    if data.len() & 1 == 1 {
        output.push(0);
    }
}

fn marked_webp() -> Vec<u8> {
    let mut output = b"RIFF\0\0\0\0WEBP".to_vec();
    webp_chunk(
        b"VP8X",
        &[0b0000_1100, 0, 0, 0, 0, 0, 0, 0, 0, 0],
        &mut output,
    );
    webp_chunk(b"VP8 ", b"synthetic", &mut output);
    webp_chunk(b"EXIF", b"private", &mut output);
    webp_chunk(b"XMP ", b"private", &mut output);
    webp_chunk(b"C2PA", b"provenance", &mut output);
    let size = (output.len() - 8) as u32;
    output[4..8].copy_from_slice(&size.to_le_bytes());
    output
}

fn dictionary(entries: Vec<(&str, Object)>) -> Dictionary {
    let mut dictionary = Dictionary::new();
    for (key, value) in entries {
        dictionary.set(key, value);
    }
    dictionary
}

fn empty_pages(document: &mut Document) -> (u32, u16) {
    document.add_object(dictionary(vec![
        ("Type", Object::from("Pages")),
        ("Kids", Object::Array(Vec::new())),
        ("Count", Object::Integer(0)),
    ]))
}

fn marked_pdf() -> Vec<u8> {
    let mut document = Document::with_version("1.7");
    let pages = empty_pages(&mut document);
    let metadata = document.add_object(Stream::new(
        dictionary(vec![
            ("Type", Object::from("Metadata")),
            ("Subtype", Object::from("XML")),
        ]),
        b"<x:xmpmeta>private-xmp</x:xmpmeta>".to_vec(),
    ));
    let c2pa_stream = document.add_object(Stream::new(
        dictionary(vec![("Subtype", Object::from("application/c2pa"))]),
        b"private-c2pa-manifest".to_vec(),
    ));
    let c2pa_filespec = document.add_object(dictionary(vec![
        ("Type", Object::from("Filespec")),
        ("AFRelationship", Object::from("C2PA_Manifest")),
        (
            "EF",
            Object::Dictionary(dictionary(vec![("F", Object::Reference(c2pa_stream))])),
        ),
    ]));
    let catalog = document.add_object(dictionary(vec![
        ("Type", Object::from("Catalog")),
        ("Pages", Object::Reference(pages)),
        ("Metadata", Object::Reference(metadata)),
        ("AF", Object::Array(vec![Object::Reference(c2pa_filespec)])),
    ]));
    let info = document.add_object(dictionary(vec![
        ("Author", Object::string_literal("Alice")),
        ("Creator", Object::string_literal("NullMark test")),
    ]));
    document.trailer.set("Root", catalog);
    document.trailer.set("Info", info);
    let mut output = Vec::new();
    document
        .save_to(&mut output)
        .expect("synthetic PDF must serialize");
    output
}

fn deep_privacy_pdf() -> Vec<u8> {
    let mut document = Document::with_version("1.7");
    let pages = empty_pages(&mut document);
    document.add_object(Stream::new(
        dictionary(vec![
            ("Type", Object::from("Metadata")),
            ("Subtype", Object::from("XML")),
        ]),
        b"<x:xmpmeta>page-private-xmp</x:xmpmeta>".to_vec(),
    ));
    document.add_object(dictionary(vec![
        ("Type", Object::from("Annot")),
        ("Subtype", Object::from("Text")),
        ("T", Object::string_literal("Alice")),
        ("M", Object::string_literal("D:20260815")),
        ("CreationDate", Object::string_literal("D:20260814")),
        ("NM", Object::string_literal("private-annotation-id")),
        ("Contents", Object::string_literal("Keep this visible note")),
    ]));
    let javascript = document.add_object(dictionary(vec![
        ("S", Object::from("JavaScript")),
        ("JS", Object::string_literal("app.alert('tracking')")),
    ]));
    let catalog = document.add_object(dictionary(vec![
        ("Type", Object::from("Catalog")),
        ("Pages", Object::Reference(pages)),
        ("OpenAction", Object::Reference(javascript)),
    ]));
    document.trailer.set("Root", catalog);
    let mut output = Vec::new();
    document
        .save_to(&mut output)
        .expect("deep PDF must serialize");
    output
}

fn contains(haystack: &[u8], needle: &[u8]) -> bool {
    haystack.windows(needle.len()).any(|window| window == needle)
}

#[test]
fn png_cleaning_removes_metadata_and_c2pa_then_verifies() {
    let input = marked_png();
    let before = analyze(&input).expect("synthetic PNG must parse");
    assert_eq!(before.metadata_count(), 2);
    assert!(before.c2pa_detected);
    let cleaned = sanitize(&input).expect("synthetic PNG must sanitize");
    let after = analyze(&cleaned.bytes).expect("sanitized PNG must reparse");
    assert_eq!(cleaned.removed_items, 2);
    assert_eq!(after.metadata_count(), 0);
    assert!(!after.c2pa_detected);
}

#[test]
fn png_crc_corruption_is_rejected() {
    let mut input = marked_png();
    input[29] ^= 1;
    assert!(analyze(&input).is_err());
}

#[test]
fn jpeg_cleaning_preserves_scan_and_removes_exif() {
    let input = marked_jpeg();
    assert_eq!(
        analyze(&input).expect("JPEG must parse").metadata_count(),
        1
    );
    let cleaned = sanitize(&input).expect("JPEG must sanitize");
    assert_eq!(
        analyze(&cleaned.bytes)
            .expect("JPEG must reparse")
            .metadata_count(),
        0
    );
    assert!(cleaned.bytes.ends_with(&[0x11, 0x22, 0xFF, 0xD9]));
}

#[test]
fn jpeg_removes_post_scan_metadata_and_all_c2pa_fragments() {
    let mut input = vec![0xFF, 0xD8];
    append_jpeg_segment(&mut input, 0xEB, b"c2pa first fragment");
    append_jpeg_segment(&mut input, 0xEB, b"continuation");
    append_jpeg_segment(&mut input, 0xDA, &[1, 1, 0, 0, 0, 0]);
    input.extend_from_slice(&[0x11, 0x22]);
    append_jpeg_segment(&mut input, 0xFE, b"post-scan comment");
    input.extend_from_slice(&[0xFF, 0xD9]);
    let before = analyze(&input).expect("multi-segment JPEG must parse");
    assert_eq!(before.metadata_count(), 3);
    assert!(before.c2pa_detected);
    let cleaned = sanitize(&input).expect("multi-segment JPEG must sanitize");
    let after = analyze(&cleaned.bytes).expect("cleaned JPEG must reparse");
    assert_eq!(after.metadata_count(), 0);
    assert!(!after.c2pa_detected);
}

#[test]
fn webp_cleaning_clears_metadata_flags_and_rewrites_riff_size() {
    let input = marked_webp();
    assert_eq!(
        analyze(&input).expect("WebP must parse").metadata_count(),
        3
    );
    let cleaned = sanitize(&input).expect("WebP must sanitize");
    assert_eq!(
        analyze(&cleaned.bytes)
            .expect("WebP must reparse")
            .metadata_count(),
        0
    );
    assert_eq!(cleaned.bytes[20] & 0b0000_1100, 0);
    assert!(
        !analyze(&cleaned.bytes)
            .expect("WebP must verify")
            .c2pa_detected
    );
    assert_eq!(
        u32::from_le_bytes(cleaned.bytes[4..8].try_into().expect("RIFF size")) as usize + 8,
        cleaned.bytes.len()
    );
}

#[test]
fn docx_cleaning_removes_properties_revision_authorship_and_unicode() {
    let content_types = br#"<?xml version="1.0"?><Types xmlns="http://schemas.openxmlformats.org/package/2006/content-types"/>"#;
    let document = "<?xml version=\"1.0\" encoding=\"UTF-8\"?><w:document xmlns:w=\"urn:w\"><w:body><w:ins w:author=\"Alice\" w:date=\"2026-01-01\"><w:t>A\u{200B}B</w:t></w:ins></w:body></w:document>";
    let core = br#"<?xml version="1.0"?><cp:coreProperties xmlns:cp="urn:cp"><dc:creator xmlns:dc="urn:dc">Alice</dc:creator></cp:coreProperties>"#;
    let input = zip_container(&[
        (
            "[Content_Types].xml",
            content_types,
            CompressionMethod::Deflated,
        ),
        (
            "word/document.xml",
            document.as_bytes(),
            CompressionMethod::Deflated,
        ),
        ("docProps/core.xml", core, CompressionMethod::Deflated),
        (
            "META-INF/content_credential.c2pa",
            b"provenance",
            CompressionMethod::Stored,
        ),
    ]);

    let before = analyze(&input).expect("DOCX must parse");
    assert_eq!(before.format, BinaryFormat::Docx);
    assert_eq!(before.metadata_count(), 5);
    assert!(before.c2pa_detected);
    let cleaned = sanitize(&input).expect("DOCX must sanitize");
    let after = analyze(&cleaned.bytes).expect("cleaned DOCX must reopen");
    assert_eq!(after.metadata_count(), 0);
    assert_eq!(cleaned.removed_items, 5);
    assert!(!after.c2pa_detected);
}

#[test]
fn odt_cleaning_preserves_container_contract_and_removes_private_metadata() {
    let mimetype = b"application/vnd.oasis.opendocument.text";
    let content = "<?xml version=\"1.0\" encoding=\"UTF-8\"?><office:document-content xmlns:office=\"urn:office\"><office:body>A\u{2060}B</office:body></office:document-content>";
    let meta = br#"<?xml version="1.0"?><office:document-meta xmlns:office="urn:office"><office:meta>private</office:meta></office:document-meta>"#;
    let input = zip_container(&[
        ("mimetype", mimetype, CompressionMethod::Stored),
        (
            "content.xml",
            content.as_bytes(),
            CompressionMethod::Deflated,
        ),
        ("meta.xml", meta, CompressionMethod::Deflated),
        (
            "META-INF/content_credential.c2pa",
            b"provenance",
            CompressionMethod::Stored,
        ),
    ]);

    let before = analyze(&input).expect("ODT must parse");
    assert_eq!(before.format, BinaryFormat::Odt);
    assert_eq!(before.metadata_count(), 3);
    assert!(before.c2pa_detected);
    let cleaned = sanitize(&input).expect("ODT must sanitize");
    let after = analyze(&cleaned.bytes).expect("cleaned ODT must reopen");
    assert_eq!(after.metadata_count(), 0);
    assert_eq!(detect_format(&cleaned.bytes), Ok(BinaryFormat::Odt));
    assert!(!after.c2pa_detected);
}

#[test]
fn xlsx_cleaning_scrubs_properties_comments_shared_strings_and_c2pa() {
    let input = zip_container(&[
        (
            "[Content_Types].xml",
            b"<Types/>",
            CompressionMethod::Deflated,
        ),
        (
            "xl/workbook.xml",
            b"<workbook/>",
            CompressionMethod::Deflated,
        ),
        (
            "xl/sharedStrings.xml",
            "<sst><si><t>A\u{200B}B</t></si></sst>".as_bytes(),
            CompressionMethod::Deflated,
        ),
        (
            "xl/comments1.xml",
            b"<comments author=\"Alice\" date=\"2026-01-01\"/>",
            CompressionMethod::Deflated,
        ),
        (
            "docProps/core.xml",
            b"<private>Alice</private>",
            CompressionMethod::Deflated,
        ),
        (
            "META-INF/content_credential.c2pa",
            b"provenance",
            CompressionMethod::Stored,
        ),
    ]);
    let before = analyze(&input).expect("XLSX must parse");
    assert_eq!(before.format, BinaryFormat::Xlsx);
    assert_eq!(before.metadata_count(), 5);
    let cleaned = sanitize(&input).expect("XLSX must sanitize");
    let after = analyze(&cleaned.bytes).expect("cleaned XLSX must reopen");
    assert_eq!(after.metadata_count(), 0);
    assert!(!after.c2pa_detected);
}

#[test]
fn pptx_cleaning_scrubs_properties_authors_slide_unicode_and_c2pa() {
    let input = zip_container(&[
        (
            "[Content_Types].xml",
            b"<Types/>",
            CompressionMethod::Deflated,
        ),
        (
            "ppt/presentation.xml",
            b"<presentation/>",
            CompressionMethod::Deflated,
        ),
        (
            "ppt/slides/slide1.xml",
            "<slide><text>A\u{2060}B</text></slide>".as_bytes(),
            CompressionMethod::Deflated,
        ),
        (
            "ppt/commentAuthors.xml",
            b"<authors><author author=\"Alice\" initials=\"A\"/></authors>",
            CompressionMethod::Deflated,
        ),
        (
            "docProps/app.xml",
            b"<private>Office</private>",
            CompressionMethod::Deflated,
        ),
        (
            "META-INF/content_credential.c2pa",
            b"provenance",
            CompressionMethod::Stored,
        ),
    ]);
    let before = analyze(&input).expect("PPTX must parse");
    assert_eq!(before.format, BinaryFormat::Pptx);
    assert_eq!(before.metadata_count(), 5);
    let cleaned = sanitize(&input).expect("PPTX must sanitize");
    let after = analyze(&cleaned.bytes).expect("cleaned PPTX must reopen");
    assert_eq!(after.metadata_count(), 0);
    assert!(!after.c2pa_detected);
}

#[test]
fn svg_cleaning_removes_metadata_active_content_external_links_and_unicode() {
    let input = "<?xml version=\"1.0\"?><svg xmlns=\"http://www.w3.org/2000/svg\"><metadata>private</metadata><!--trace--><script>alert(1)</script><a href=\"https://tracker.invalid\" onclick=\"run()\"><text>A\u{200B}B</text></a><path d=\"M0 0h1v1z\"/></svg>".as_bytes();
    let before = analyze(input).expect("SVG must parse");
    assert_eq!(before.format, BinaryFormat::Svg);
    assert_eq!(before.metadata_count(), 6);
    let cleaned = sanitize(input).expect("SVG must sanitize");
    let after = analyze(&cleaned.bytes).expect("cleaned SVG must reopen");
    assert_eq!(after.metadata_count(), 0);
    assert!(!String::from_utf8_lossy(&cleaned.bytes).contains("tracker.invalid"));
    assert!(String::from_utf8_lossy(&cleaned.bytes).contains("<path"));
}

#[test]
fn svg_rejects_document_type_declarations() {
    assert!(analyze(br#"<!DOCTYPE svg><svg xmlns="http://www.w3.org/2000/svg"/>"#).is_err());
}

#[test]
fn document_container_rejects_path_traversal_names() {
    let input = zip_container(&[
        (
            "[Content_Types].xml",
            b"<Types/>",
            CompressionMethod::Stored,
        ),
        (
            "word/document.xml",
            b"<document/>",
            CompressionMethod::Stored,
        ),
        ("../outside.xml", b"<unsafe/>", CompressionMethod::Stored),
    ]);
    assert!(analyze(&input).is_err());
}

#[test]
fn odt_rejects_noncanonical_mimetype_layout() {
    let input = zip_container(&[
        ("content.xml", b"<content/>", CompressionMethod::Stored),
        (
            "mimetype",
            b"application/vnd.oasis.opendocument.text",
            CompressionMethod::Deflated,
        ),
    ]);
    assert!(analyze(&input).is_err());
}

#[test]
fn pdf_cleaning_removes_info_and_xmp_then_reopens() {
    let input = marked_pdf();
    let before = analyze(&input).expect("PDF must parse");
    assert_eq!(before.format, BinaryFormat::Pdf);
    assert_eq!(before.metadata_count(), 3);
    assert!(before.c2pa_detected);
    let cleaned = sanitize(&input).expect("PDF must sanitize");
    let after = analyze(&cleaned.bytes).expect("cleaned PDF must reopen");
    assert_eq!(after.metadata_count(), 0);
    assert_eq!(cleaned.removed_items, 3);
    assert!(!after.c2pa_detected);
    assert!(!cleaned.bytes.windows(5).any(|window| window == b"Alice"));
    assert!(!cleaned
        .bytes
        .windows(b"private-xmp".len())
        .any(|window| window == b"private-xmp"));
    assert!(!cleaned
        .bytes
        .windows(b"private-c2pa-manifest".len())
        .any(|window| window == b"private-c2pa-manifest"));
}

#[test]
fn pdf_deep_cleaning_removes_page_xmp_annotation_identity_and_javascript() {
    let input = deep_privacy_pdf();
    let before = analyze(&input).expect("deep PDF must parse");
    assert!(before
        .findings
        .iter()
        .any(|finding| finding.kind == "pdf-metadata"));
    assert!(before
        .findings
        .iter()
        .any(|finding| finding.kind == "pdf-annotation-privacy"));
    assert!(before
        .findings
        .iter()
        .any(|finding| finding.kind == "pdf-active-content"));
    let cleaned = sanitize(&input).expect("deep PDF must sanitize");
    let after = analyze(&cleaned.bytes).expect("deep cleaned PDF must reopen");
    assert_eq!(after.metadata_count(), 0);
    assert!(!cleaned.bytes.windows(5).any(|window| window == b"Alice"));
    assert!(!cleaned.bytes.windows(8).any(|window| window == b"tracking"));
    assert!(cleaned
        .bytes
        .windows(b"Keep this visible note".len())
        .any(|window| window == b"Keep this visible note"));
}

#[test]
fn unknown_signature_is_rejected() {
    assert_eq!(
        detect_format(b"GIF89a"),
        Err("Unsupported or mismatched binary file signature.")
    );
    assert_eq!(
        analyze(b"").map(|parsed| parsed.format),
        Err("Unsupported or mismatched binary file signature.")
    );
}

#[test]
fn signatures_pick_the_format() {
    assert_eq!(detect_format(&marked_png()), Ok(BinaryFormat::Png));
    assert_eq!(detect_format(&[0xFF, 0xD8, 0x00]), Ok(BinaryFormat::Jpeg));
    assert_eq!(detect_format(&marked_webp()), Ok(BinaryFormat::WebP));
    assert_eq!(detect_format(&marked_pdf()), Ok(BinaryFormat::Pdf));
}

#[test]
fn pdf_signature_without_document_is_rejected() {
    assert_eq!(
        analyze(b"%PDF-1.7 not a document").map(|parsed| parsed.format),
        Err("PDF structural validation failed.")
    );
}

#[test]
fn ambiguous_office_container_is_rejected() {
    let input = zip_container(&[
        ("[Content_Types].xml", b"<Types/>", CompressionMethod::Stored),
        ("word/document.xml", b"<document/>", CompressionMethod::Stored),
        ("xl/workbook.xml", b"<workbook/>", CompressionMethod::Stored),
    ]);
    assert_eq!(
        detect_format(&input),
        Err("ZIP container is not an unambiguous supported Office document.")
    );
}

#[test]
fn duplicate_or_backslash_entry_names_are_rejected() {
    let input = zip_container(&[
        ("[Content_Types].xml", b"<Types/>", CompressionMethod::Stored),
        ("word/document.xml", b"<document/>", CompressionMethod::Stored),
        ("word\\other.xml", b"<x/>", CompressionMethod::Stored),
    ]);
    assert_eq!(
        detect_format(&input),
        Err("Unsafe or duplicate document entry name rejected.")
    );
}

#[test]
fn compressed_c2pa_manifest_is_rejected() {
    let input = zip_container(&[
        ("[Content_Types].xml", b"<Types/>", CompressionMethod::Stored),
        ("word/document.xml", b"<document/>", CompressionMethod::Stored),
        (
            "META-INF/content_credential.c2pa",
            b"provenance",
            CompressionMethod::Deflated,
        ),
    ]);
    assert_eq!(
        detect_format(&input),
        Err("Compressed C2PA document manifest rejected.")
    );
}

#[test]
fn malformed_document_xml_is_rejected() {
    let input = zip_container(&[
        ("[Content_Types].xml", b"<Types/>", CompressionMethod::Stored),
        ("word/document.xml", b"<document><open></document>", CompressionMethod::Stored),
    ]);
    assert_eq!(
        analyze(&input).map(|parsed| parsed.format),
        Err("Malformed document XML rejected.")
    );
}

#[test]
fn docx_sanitizing_writes_canonical_properties_and_keeps_text() {
    let input = zip_container(&[
        ("[Content_Types].xml", b"<Types/>", CompressionMethod::Deflated),
        (
            "word/document.xml",
            "<w:document xmlns:w=\"urn:w\"><w:t w:author=\"Alice\">Visible\u{200B}</w:t></w:document>"
                .as_bytes(),
            CompressionMethod::Deflated,
        ),
        ("docProps/core.xml", b"<private>Alice</private>", CompressionMethod::Deflated),
    ]);
    let cleaned = sanitize(&input).expect("DOCX must sanitize");
    let mut archive = zip::ZipArchive::new(Cursor::new(cleaned.bytes.clone())).expect("reopen");
    let mut core = String::new();
    std::io::Read::read_to_string(
        &mut archive.by_name("docProps/core.xml").expect("core part"),
        &mut core,
    )
    .expect("core text");
    assert!(core.contains("coreProperties"));
    assert!(!core.contains("Alice"));
    let mut body = String::new();
    std::io::Read::read_to_string(
        &mut archive.by_name("word/document.xml").expect("document part"),
        &mut body,
    )
    .expect("document text");
    assert!(body.contains("Visible"));
    assert!(!body.contains("Alice"));
    assert!(!body.contains('\u{200B}'));
}

#[test]
fn pdf_annotation_fields_are_counted() {
    let before = analyze(&deep_privacy_pdf()).expect("deep PDF must parse");
    let annotation = before
        .findings
        .iter()
        .find(|finding| finding.kind == "pdf-annotation-privacy")
        .expect("annotation finding");
    assert_eq!(annotation.count, 4);
    assert!(contains(&deep_privacy_pdf(), b"Keep this visible note"));
}

#[test]
fn analysis_reports_the_detected_format() {
    let samples = vec![marked_png(), marked_jpeg(), marked_webp(), marked_pdf(), deep_privacy_pdf()];
    for sample in samples {
        let parsed = analyze(&sample).expect("sample must parse");
        assert_eq!(detect_format(&sample), Ok(parsed.format));
    }
}

#[test]
fn raster_sanitizing_removes_what_analysis_counts() {
    for sample in [marked_png(), marked_jpeg(), marked_webp()] {
        let parsed = analyze(&sample).expect("sample must parse");
        let cleaned = sanitize(&sample).expect("sample must sanitize");
        assert_eq!(cleaned.removed_items, parsed.metadata_count());
        let after = analyze(&cleaned.bytes).expect("output must parse");
        assert_eq!(after.metadata_count(), 0);
        assert!(!after.c2pa_detected);
    }
}
