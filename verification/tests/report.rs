use base64::Engine;
use crc32fast::Hasher;
use nullmark::binary::document::{is_private_attribute, unicode_payload_count};
use nullmark::binary::pdf::{
    analyze_model, c2pa_filespec_ids, embedded_stream_ids, PdfModel, PdfObject, PdfValue,
};
use nullmark::binary::{BinaryFormat, ParsedBinary};
use nullmark::engine::{Mode, Severity};
use nullmark::report::{
    analyze_binary, analyze_text, codepoint_label, decode_binary, sanitize_binary, sanitize_text,
    severity_label, sha256_hex, validate_input, MAX_BINARY_BASE64_BYTES, MAX_INPUT_BYTES,
};

fn encode(bytes: &[u8]) -> String {
    base64::engine::general_purpose::STANDARD.encode(bytes)
}

fn png_chunk(kind: &[u8; 4], data: &[u8], output: &mut Vec<u8>) {
    output.extend_from_slice(&(data.len() as u32).to_be_bytes());
    output.extend_from_slice(kind);
    output.extend_from_slice(data);
    let mut hasher = Hasher::new();
    hasher.update(kind);
    hasher.update(data);
    output.extend_from_slice(&hasher.finalize().to_be_bytes());
}

fn png_with_time() -> Vec<u8> {
    let mut output = b"\x89PNG\r\n\x1a\n".to_vec();
    let mut header = [0u8; 13];
    header[3] = 1;
    header[7] = 1;
    header[8] = 8;
    png_chunk(b"IHDR", &header, &mut output);
    png_chunk(b"tIME", &[7, 234, 1, 1, 0, 0, 0], &mut output);
    png_chunk(b"IDAT", b"pixels", &mut output);
    png_chunk(b"IEND", b"", &mut output);
    output
}

#[test]
fn sha256_of_empty_text_is_the_known_digest() {
    assert_eq!(
        sha256_hex(""),
        "e3b0c44298fc1c149afbf4c8996fb92427ae41e4649b934ca495991b7852b855"
    );
    assert_eq!(
        sha256_hex("abc"),
        "ba7816bf8f01cfea414140de5dae2223b00361a396177a9cb410ff61f20015ad"
    );
}

#[test]
fn codepoints_are_labelled_in_upper_hex_with_four_digits() {
    assert_eq!(codepoint_label(0x200B), "U+200B");
    assert_eq!(codepoint_label(0x41), "U+0041");
    assert_eq!(codepoint_label(0xE0061), "U+E0061");
    assert_eq!(severity_label(Severity::High), "high");
}

#[test]
fn oversized_text_is_rejected() {
    let text = "a".repeat(MAX_INPUT_BYTES + 1);
    assert_eq!(
        validate_input(&text),
        Err("Input exceeds the 8 MiB beta safety limit.".to_string())
    );
    assert!(validate_input("small").is_ok());
    assert!(analyze_text(&text).is_err());
}

#[test]
fn text_analysis_groups_findings_by_codepoint() {
    let report = analyze_text("A\u{200B}B\u{200B}C\u{00A0}").expect("text must analyse");
    assert_eq!(report.bytes, "A\u{200B}B\u{200B}C\u{00A0}".len());
    assert_eq!(report.characters, 6);
    assert_eq!(report.finding_count, 3);
    assert_eq!(report.findings.len(), 2);
    assert_eq!(report.findings[0].codepoint, "U+00A0");
    assert_eq!(report.findings[0].first_positions, vec![5]);
    assert_eq!(report.findings[1].codepoint, "U+200B");
    assert_eq!(report.findings[1].count, 2);
    assert_eq!(report.findings[1].first_positions, vec![1, 3]);
    assert_eq!(report.sha256, sha256_hex("A\u{200B}B\u{200B}C\u{00A0}"));
}

#[test]
fn finding_positions_are_capped_at_eight() {
    let text = "\u{200B}".repeat(20);
    let report = analyze_text(&text).expect("text must analyse");
    assert_eq!(report.findings.len(), 1);
    assert_eq!(report.findings[0].count, 20);
    assert_eq!(report.findings[0].first_positions, vec![0, 1, 2, 3, 4, 5, 6, 7]);
}

#[test]
fn text_sanitation_verifies_and_keeps_projection() {
    let report = sanitize_text("A\u{200B}B\u{2014}C", "maximum").expect("text must sanitize");
    assert_eq!(report.output, "AB-C");
    assert_eq!(report.mode, "maximum");
    assert_eq!(report.removed_count, 1);
    assert_eq!(report.normalized_count, 1);
    assert!(report.verification_passed);
    assert!(report.canonical_projection_unchanged);
    assert_eq!(report.after.finding_count, 0);
    assert_eq!(report.change_count, 2);
    assert!(!report.changes_truncated);
}

#[test]
fn unknown_mode_is_rejected() {
    assert_eq!(
        sanitize_text("text", "aggressive").map(|report| report.output),
        Err("Unsupported sanitization mode.".to_string())
    );
}

#[test]
fn binary_payload_errors_are_reported() {
    let long = "A".repeat(MAX_BINARY_BASE64_BYTES + 1);
    assert_eq!(
        decode_binary(&long),
        Err("Encoded file exceeds the 32 MiB safety limit.".to_string())
    );
    assert_eq!(
        decode_binary("***"),
        Err("Binary payload encoding rejected.".to_string())
    );
    assert_eq!(
        decode_binary(""),
        Err("File size boundary violation.".to_string())
    );
    assert_eq!(decode_binary("AAEC"), Ok(vec![0, 1, 2]));
}

#[test]
fn binary_analysis_report_describes_the_file() {
    let png = png_with_time();
    let report = analyze_binary(&encode(&png)).expect("PNG must analyse");
    assert_eq!(report.format, "png");
    assert_eq!(report.mime, "image/png");
    assert_eq!(report.bytes, png.len());
    assert_eq!(report.metadata_count, 1);
    assert!(!report.c2pa_detected);
    assert_eq!(report.findings[0].kind, "timestamp");
    assert_eq!(
        analyze_binary(&encode(b"plain text")).map(|report| report.bytes),
        Err("Binary file validation failed.".to_string())
    );
}

#[test]
fn binary_sanitation_report_verifies_and_encodes_output() {
    let png = png_with_time();
    let report = sanitize_binary(&encode(&png)).expect("PNG must sanitize");
    assert!(report.verification_passed);
    assert_eq!(report.removed_items, 1);
    assert_eq!(report.before.metadata_count, 1);
    assert_eq!(report.after.metadata_count, 0);
    let output = base64::engine::general_purpose::STANDARD
        .decode(&report.output_base64)
        .expect("output must be Base64");
    assert_eq!(output.len(), png.len() - 19);
    assert_eq!(report.after.bytes, output.len());
    assert_ne!(report.before.sha256, report.after.sha256);
    assert_eq!(
        sanitize_binary(&encode(b"plain text")).map(|report| report.removed_items),
        Err("Binary file validation failed.".to_string())
    );
}

#[test]
fn private_attributes_are_recognised_by_local_name() {
    assert!(is_private_attribute("w:author"));
    assert!(is_private_attribute("date"));
    assert!(is_private_attribute("cp:lastModifiedBy"));
    assert!(!is_private_attribute("w:val"));
    assert!(!is_private_attribute("authority"));
}

#[test]
fn unicode_payloads_are_counted_in_utf8_only() {
    assert_eq!(unicode_payload_count("A\u{200B}B\u{2060}".as_bytes()), 2);
    assert_eq!(unicode_payload_count(&[0xFF, 0xFE]), 0);
}

fn name(text: &str) -> PdfValue {
    PdfValue::Name(text.as_bytes().to_vec())
}

fn entry(key: &str, value: PdfValue) -> (Vec<u8>, PdfValue) {
    (key.as_bytes().to_vec(), value)
}

fn sample_model() -> PdfModel {
    PdfModel {
        objects: vec![
            (
                (1, 0),
                PdfObject::Dictionary(vec![entry("Type", name("Catalog"))]),
            ),
            (
                (2, 0),
                PdfObject::Stream(vec![entry("Type", name("Metadata"))], 12),
            ),
            (
                (3, 0),
                PdfObject::Dictionary(vec![
                    entry("AFRelationship", name("C2PA_Manifest")),
                    entry(
                        "EF",
                        PdfValue::Dictionary(vec![(
                            b"F".to_vec(),
                            nullmark::binary::pdf::PdfLeaf::Reference(4, 0),
                        )]),
                    ),
                ]),
            ),
            ((4, 0), PdfObject::Stream(Vec::new(), 8)),
            (
                (5, 0),
                PdfObject::Dictionary(vec![
                    entry("Type", name("Annot")),
                    entry("T", PdfValue::Other),
                    entry("NM", PdfValue::Other),
                ]),
            ),
            (
                (6, 0),
                PdfObject::Dictionary(vec![entry("S", name("Launch")), entry("AA", PdfValue::Other)]),
            ),
        ],
        trailer: vec![
            entry("Root", PdfValue::Reference(1, 0)),
            entry("Info", PdfValue::Reference(7, 0)),
        ],
        encrypted: false,
    }
}

#[test]
fn pdf_model_analysis_counts_each_kind() {
    let parsed: ParsedBinary = analyze_model(&sample_model()).expect("model must pass");
    assert_eq!(parsed.format, BinaryFormat::Pdf);
    let counts: Vec<(&str, usize)> = parsed
        .findings
        .iter()
        .map(|finding| (finding.kind, finding.count))
        .collect();
    assert_eq!(
        counts,
        vec![
            ("pdf-metadata", 2),
            ("c2pa", 1),
            ("pdf-annotation-privacy", 2),
            ("pdf-active-content", 2)
        ]
    );
    assert!(parsed.c2pa_detected);
}

#[test]
fn pdf_model_rejections() {
    let mut encrypted = sample_model();
    encrypted.encrypted = true;
    assert_eq!(
        analyze_model(&encrypted).map(|parsed| parsed.format),
        Err("Encrypted PDF documents are not accepted.")
    );
    let mut no_catalog = sample_model();
    no_catalog.objects[0].1 = PdfObject::Dictionary(vec![entry("Type", name("Pages"))]);
    assert_eq!(
        analyze_model(&no_catalog).map(|parsed| parsed.format),
        Err("PDF catalog validation failed.")
    );
    let mut no_root = sample_model();
    no_root.trailer.remove(0);
    assert_eq!(
        analyze_model(&no_root).map(|parsed| parsed.format),
        Err("PDF structural validation failed.")
    );
    let mut empty = sample_model();
    empty.objects.clear();
    assert_eq!(
        analyze_model(&empty).map(|parsed| parsed.format),
        Err("PDF object boundary rejected.")
    );
    let mut large = sample_model();
    large.objects[1].1 = PdfObject::Stream(Vec::new(), 200_000_000);
    assert_eq!(
        analyze_model(&large).map(|parsed| parsed.format),
        Err("PDF stream boundary rejected.")
    );
}

#[test]
fn pdf_c2pa_files_are_found_through_the_filespec() {
    let model = sample_model();
    let filespecs = c2pa_filespec_ids(&model.objects);
    assert_eq!(filespecs, vec![(3, 0)]);
    assert_eq!(embedded_stream_ids(&model.objects, &filespecs), vec![(4, 0)]);
}

#[test]
fn modes_are_nested_on_a_sample() {
    let input = "x\u{200B}\u{200D}\u{00A0}\u{E123}";
    for mode in [Mode::Safe, Mode::Strict, Mode::Maximum] {
        let once = nullmark::engine::sanitize(input, mode).output;
        assert_eq!(nullmark::engine::sanitize(&once, mode).output, once);
    }
}

#[test]
fn sanitized_output_can_be_sent_in_again() {
    let png = png_with_time();
    let report = sanitize_binary(&encode(&png)).expect("PNG must sanitize");
    let again = analyze_binary(&report.output_base64).expect("output must be accepted");
    assert_eq!(again, report.after);
    assert_eq!(again.metadata_count, 0);
    let output = decode_binary(&report.output_base64).expect("output must decode");
    assert_eq!(output.len(), report.after.bytes);
}
