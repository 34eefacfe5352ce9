//! Metadata in binary files: PNG, JPEG, WebP, Office documents, SVG and PDF.
//! A file's signature picks the format; each format reports what it holds
//! and rewrites the file without it.
pub mod bytes;
pub mod document;
pub mod jpeg;
pub mod markup;
pub mod model;
pub mod pdf;
pub mod pdf_determined;
pub mod png;
pub mod svg;
pub mod webp;

pub use model::{BinaryFinding, BinaryFormat, BinaryResult, CleanedBinary, ParsedBinary};

use self::model::capped_total;

use self::bytes::{be32, has_prefix, read_be32, starts_with};
use self::pdf::{bytes_of, PdfModel};
use self::png::png_signature;
use self::svg::svg_candidate;
use crate::xml::XmlItem;
use vstd::prelude::*;

verus! {

/// The kinds of signature a file can begin with.
#[derive(Debug, Clone, Copy, PartialEq, Eq, Structural)]
pub enum Signature {
    Png,
    Jpeg,
    WebP,
    Zip,
    Pdf,
    Svg,
    Unknown,
}

/// The signature a file begins with, tried in this order.
pub open spec fn signature_of(b: Seq<u8>) -> Signature {
    if has_prefix(b, png_signature()) {
        Signature::Png
    } else if has_prefix(b, seq![0xFFu8, 0xD8u8]) {
        Signature::Jpeg
    } else if b.len() >= 12 && be32(b, 0) == webp::RIFF && be32(b, 8) == webp::WEBP {
        Signature::WebP
    } else if has_prefix(b, seq![0x50u8, 0x4Bu8, 0x03u8, 0x04u8]) {
        Signature::Zip
    } else if has_prefix(b, bytes_of("%PDF-")) {
        Signature::Pdf
    } else if svg_candidate(b) {
        Signature::Svg
    } else {
        Signature::Unknown
    }
}

pub const UNSUPPORTED: &'static str = "Unsupported or mismatched binary file signature.";

/// The signature a file begins with.
pub fn signature(bytes: &[u8]) -> (s: Signature)
    ensures
        s == signature_of(bytes@),
{
    if starts_with(bytes, png::signature().as_slice()) {
        return Signature::Png;
    }
    let jpeg: [u8; 2] = [0xFF, 0xD8];
    if starts_with(bytes, &jpeg) {
        assert(jpeg@ == seq![0xFFu8, 0xD8u8]);
        return Signature::Jpeg;
    }
    assert(jpeg@ == seq![0xFFu8, 0xD8u8]);
    if bytes.len() >= 12 && read_be32(bytes, 0) == webp::RIFF && read_be32(bytes, 8) == webp::WEBP {
        return Signature::WebP;
    }
    let zip: [u8; 4] = [0x50, 0x4B, 0x03, 0x04];
    assert(zip@ == seq![0x50u8, 0x4Bu8, 0x03u8, 0x04u8]);
    if starts_with(bytes, &zip) {
        return Signature::Zip;
    }
    if starts_with(bytes, "%PDF-".as_bytes()) {
        return Signature::Pdf;
    }
    if svg::is_candidate(bytes) {
        return Signature::Svg;
    }
    Signature::Unknown
}

/// Whether `r` is what detection gives for `b`: the format its signature
/// names, confirmed by that format's own checks for containers, PDF and SVG.
pub open spec fn detection(b: Seq<u8>, r: BinaryResult<BinaryFormat>) -> bool {
    match signature_of(b) {
        Signature::Png => r == Ok::<BinaryFormat, &'static str>(BinaryFormat::Png),
        Signature::Jpeg => r == Ok::<BinaryFormat, &'static str>(BinaryFormat::Jpeg),
        Signature::WebP => r == Ok::<BinaryFormat, &'static str>(BinaryFormat::WebP),
        Signature::Zip => r == document::detection(b),
        Signature::Pdf => pdf::detection(b, r),
        Signature::Svg => exists|items: Seq<XmlItem>|
            svg::svg_events(b, items) && svg::svg_detection(b, items, r),
        Signature::Unknown => r == Err::<BinaryFormat, &'static str>(UNSUPPORTED),
    }
}

/// Identifies a binary file by its signature.
pub fn detect_format(bytes: &[u8]) -> (r: BinaryResult<BinaryFormat>)
    ensures
        detection(bytes@, r),
{
    match signature(bytes) {
        Signature::Png => Ok(BinaryFormat::Png),
        Signature::Jpeg => Ok(BinaryFormat::Jpeg),
        Signature::WebP => Ok(BinaryFormat::WebP),
        Signature::Zip => document::detect(bytes),
        Signature::Pdf => pdf::detect(bytes),
        Signature::Svg => svg::detect(bytes),
        Signature::Unknown => Err(UNSUPPORTED),
    }
}

/// Whether `r` is what analysis gives for `b`, by the format its signature
/// names.
pub open spec fn analysis(b: Seq<u8>, r: BinaryResult<ParsedBinary>) -> bool {
    match signature_of(b) {
        Signature::Png => png::analysis(b, r),
        Signature::Jpeg => jpeg::analysis(b, r),
        Signature::WebP => webp::analysis(b, r),
        Signature::Zip => exists|runs: Seq<Seq<XmlItem>>|
            document::runs_read(b, runs) && document::document_analysis(b, runs, r),
        Signature::Pdf => exists|m: PdfModel| pdf::pdf_report(b, m, r),
        Signature::Svg => exists|items: Seq<XmlItem>|
            svg::svg_events(b, items) && svg::svg_analysis(b, items, r),
        Signature::Unknown => r == Err::<ParsedBinary, &'static str>(UNSUPPORTED),
    }
}

/// Reports the metadata of a binary file.
pub fn analyze(bytes: &[u8]) -> (r: BinaryResult<ParsedBinary>)
    ensures
        analysis(bytes@, r),
{
    let format = match detect_format(bytes) {
        Ok(format) => format,
        Err(e) => {
            proof {
                if signature_of(bytes@) == Signature::Pdf {
                    let m = choose|m: PdfModel|
                        pdf::pdf_parsed(bytes@, m) && pdf::load_result(bytes@, m) == Err::<(), &'static str>(e);
                    assert(pdf::pdf_report(bytes@, m, Err(e)));
                } else if signature_of(bytes@) == Signature::Svg {
                    let items = choose|items: Seq<XmlItem>|
                        svg::svg_events(bytes@, items) && svg::svg_detection(bytes@, items, Err(e));
                    assert(svg::svg_analysis(bytes@, items, Err(e)));
                } else if signature_of(bytes@) == Signature::Zip {
                    assert(document::runs_read(bytes@, Seq::empty()) && document::document_analysis(bytes@, Seq::empty(), Err(e)));
                }
            }
            return Err(e);
        },
    };
    match format {
        BinaryFormat::Png => png::analyze(bytes),
        BinaryFormat::Jpeg => jpeg::analyze(bytes),
        BinaryFormat::WebP => webp::analyze(bytes),
        BinaryFormat::Docx | BinaryFormat::Xlsx | BinaryFormat::Pptx | BinaryFormat::Odt => {
            document::analyze(bytes)
        },
        BinaryFormat::Svg => svg::analyze(bytes),
        BinaryFormat::Pdf => pdf::analyze(bytes),
    }
}

/// Whether `r` is what sanitizing gives for `b`, by the format its signature
/// names.
pub open spec fn sanitization(b: Seq<u8>, r: BinaryResult<CleanedBinary>) -> bool {
    match signature_of(b) {
        Signature::Png => png::sanitization(b, r),
        Signature::Jpeg => jpeg::sanitization(b, r),
        Signature::WebP => webp::sanitization(b, r),
        Signature::Zip => document::sanitization(b, r),
        Signature::Pdf => pdf::sanitization(b, r),
        Signature::Svg => exists|items: Seq<XmlItem>|
            svg::svg_events(b, items) && svg::sanitization(b, items, r),
        Signature::Unknown => r == Err::<CleanedBinary, &'static str>(UNSUPPORTED),
    }
}

/// Rewrites a binary file without the metadata its analysis reports.
pub fn sanitize(bytes: &[u8]) -> (r: BinaryResult<CleanedBinary>)
    ensures
        sanitization(bytes@, r),
{
    let format = match detect_format(bytes) {
        Ok(format) => format,
        Err(e) => {
            proof {
                if signature_of(bytes@) == Signature::Svg {
                    let items = choose|items: Seq<XmlItem>|
                        svg::svg_events(bytes@, items) && svg::svg_detection(bytes@, items, Err(e));
                    assert(svg::sanitization(bytes@, items, Err(e)));
                } else if signature_of(bytes@) == Signature::Pdf {
                    let m = choose|m: PdfModel|
                        pdf::pdf_parsed(bytes@, m) && pdf::load_result(bytes@, m) == Err::<(), &'static str>(e);
                    assert(pdf::pdf_report(bytes@, m, Err(e)));
                    assert(pdf::pdf_refusal(e));
                }
            }
            return Err(e);
        },
    };
    match format {
        BinaryFormat::Png => png::sanitize(bytes),
        BinaryFormat::Jpeg => jpeg::sanitize(bytes),
        BinaryFormat::WebP => webp::sanitize(bytes),
        BinaryFormat::Docx | BinaryFormat::Xlsx | BinaryFormat::Pptx | BinaryFormat::Odt => {
            document::sanitize(bytes)
        },
        BinaryFormat::Svg => svg::sanitize(bytes),
        BinaryFormat::Pdf => pdf::sanitize(bytes),
    }
}

/// A file that begins with the PDF signature is a PDF file.
proof fn lemma_pdf_signature(b: Seq<u8>)
    requires
        has_prefix(b, bytes_of("%PDF-")),
    ensures
        signature_of(b) == Signature::Pdf,
{
    reveal_strlit("%PDF-");
    assert(vstd::utf8::is_ascii_chars("%PDF-"@));
    vstd::utf8::is_ascii_chars_encode_utf8("%PDF-"@);
    assert(b[0] == bytes_of("%PDF-")[0]);
    assert(bytes_of("%PDF-")[0] == 0x25u8);
}

/// Sanitizing a PDF file leaves nothing for analysis to report: whatever
/// analysis gives for the rewritten file is a PDF with no finding and no
/// C2PA manifest.
pub proof fn law_sanitized_pdf_is_clean(b: Seq<u8>, cleaned: CleanedBinary, r: BinaryResult<ParsedBinary>)
    requires
        signature_of(b) == Signature::Pdf,
        sanitization(b, Ok(cleaned)),
        analysis(cleaned.bytes@, r),
    ensures
        r is Ok,
        r->Ok_0.format == BinaryFormat::Pdf,
        capped_total(r->Ok_0.findings@) == 0,
        !r->Ok_0.c2pa_detected,
{
    let out = cleaned.bytes@;
    assert(pdf::reports_nothing(out));
    let (m2, after) = choose|m2: PdfModel, after: ParsedBinary|
        #[trigger] pdf::pdf_report(out, m2, Ok(after)) && capped_total(after.findings@) == 0
            && !after.c2pa_detected;
    assert(pdf::load_result(out, m2) is Ok);
    lemma_pdf_signature(out);
    let m = choose|m: PdfModel| pdf::pdf_report(out, m, r);
    pdf_determined::law_sanitized_pdf_analyses_clean(b, cleaned, m, r);
}

/// Sanitizing a PNG, JPEG or WebP file leaves nothing for analysis to
/// report: whatever analysis gives for the rewritten file is a success with
/// no finding and no C2PA manifest.
pub proof fn law_sanitized_raster_is_clean(b: Seq<u8>, cleaned: CleanedBinary, r: BinaryResult<ParsedBinary>)
    requires
        b.len() <= usize::MAX,
        signature_of(b) == Signature::Png || signature_of(b) == Signature::Jpeg || signature_of(b)
            == Signature::WebP,
        sanitization(b, Ok(cleaned)),
        analysis(cleaned.bytes@, r),
    ensures
        r matches Ok(parsed) && parsed.findings@ == Seq::<BinaryFinding>::empty()
            && !parsed.c2pa_detected,
{
    let out = cleaned.bytes@;
    if signature_of(b) == Signature::Png {
        png::law_png_sanitized_is_clean(b);
        assert(out.subrange(0, 8) =~= png_signature());
        assert(signature_of(out) == Signature::Png);
    } else if signature_of(b) == Signature::Jpeg {
        jpeg::law_jpeg_sanitized_is_clean(b);
        let segs = jpeg::jpeg_segments(b)->Ok_0;
        assert(out[0] == 0xFF && out[1] == 0xD8);
        assert(!has_prefix(out, png_signature())) by {
            if has_prefix(out, png_signature()) {
                assert(out[0] == out.subrange(0, 8)[0]);
            }
        }
        assert(out.subrange(0, 2) =~= seq![0xFFu8, 0xD8u8]);
        assert(signature_of(out) == Signature::Jpeg);
    } else {
        webp::law_webp_sanitized_is_clean(b);
        assert(out.len() >= 20);
        assert(be32(out, 0) == webp::RIFF);
        assert(!has_prefix(out, png_signature())) by {
            if has_prefix(out, png_signature()) {
                assert(out[0] == out.subrange(0, 8)[0]);
            }
        }
        assert(!has_prefix(out, seq![0xFFu8, 0xD8u8])) by {
            if has_prefix(out, seq![0xFFu8, 0xD8u8]) {
                assert(out[0] == out.subrange(0, 2)[0]);
            }
        }
        assert(signature_of(out) == Signature::WebP);
    }
}

/// The format analysis reports for a file is the one detection names.
pub proof fn law_analysis_format_is_detected(b: Seq<u8>, parsed: ParsedBinary)
    requires
        analysis(b, Ok(parsed)),
    ensures
        detection(b, Ok(parsed.format)),
{
    if signature_of(b) == Signature::Pdf {
        let m = choose|m: PdfModel| pdf::pdf_report(b, m, Ok(parsed));
        assert(pdf::load_result(b, m) is Ok);
    } else if signature_of(b) == Signature::Svg {
        let items = choose|items: Seq<XmlItem>| svg::svg_analysis(b, items, Ok(parsed));
        assert(svg::svg_detection(b, items, Ok(parsed.format)));
    }
}

/// For PNG, JPEG and WebP, the number of items sanitizing removes is the
/// number of metadata items analysis reports for the same file.
pub proof fn law_removed_items_match_analysis(
    b: Seq<u8>,
    cleaned: CleanedBinary,
    r: BinaryResult<ParsedBinary>,
)
    requires
        signature_of(b) == Signature::Png || signature_of(b) == Signature::Jpeg || signature_of(b)
            == Signature::WebP,
        sanitization(b, Ok(cleaned)),
        analysis(b, r),
    ensures
        r matches Ok(parsed) && cleaned.removed_items == capped_total(parsed.findings@),
{
    if signature_of(b) == Signature::Png {
        png::lemma_findings_total(png::png_chunks(b)->Ok_0);
    } else if signature_of(b) == Signature::Jpeg {
        jpeg::lemma_findings_total(jpeg::jpeg_segments(b)->Ok_0);
    } else {
        webp::lemma_findings_total(webp::webp_chunks(b)->Ok_0);
    }
}

} // verus!
