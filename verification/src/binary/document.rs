//! Office documents: DOCX, XLSX and PPTX (Office Open XML) and ODT
//! (OpenDocument text), all ZIP containers. Package properties, revision
//! authorship, invisible Unicode in the XML parts and ZIP-based C2PA
//! manifests are reported and removed.
use vstd::prelude::*;
use vstd::utf8::{decode_utf8, encode_utf8, valid_utf8};

use super::model::{
    capped_total, finding_if, push_finding, BinaryFinding, BinaryFormat, BinaryResult, CleanedBinary,
    ParsedBinary,
};
use super::bytes::same_bytes;
use super::markup::{
    ends_with, ends_with_chars, has_char, local_chars, local_part, safe_payloads, same_chars,
    starts_with, starts_with_chars, unicode_count,
};
use crate::container::{
    archive_decompressed_size, archive_has_overlap, archive_len, archive_offset, archive_source,
    entry_data, entry_info, entry_name, open_archive, zip_decompressed_size, zip_entry,
    zip_entry_data, zip_len, zip_name_for_index, zip_offset, zip_opens, zip_overlapping, Archive,
    Compression, EntryInfo, ReadFailure,
};
use super::svg::sat;
use crate::container::{
    add_directory, finish_writer, new_writer, start_file, write_data, zip_accepts, zip_finished, ZipOp,
};
use crate::engine::model::Mode;
use crate::engine::sanitizer::{sanitize as sanitize_text, sanitized};
use crate::text::{chars_of, utf8_text};
use crate::xml::{
    event_budget, events_from, lemma_out_after_push, next_item, out_after, out_then, pairs, read_from,
    read_items, write_element, write_raw, written, xml_document, xml_event, xml_reader, xml_serialized,
    xml_writer, XmlAttribute, XmlItem, XmlItemView, XmlKind, XmlOut,
};

verus! {

/// The most entries a document container may hold.
pub const MAX_ENTRIES: usize = 4096;

/// The largest decompressed entry accepted, in bytes.
pub const MAX_ENTRY_BYTES: u64 = 33554432;

/// The largest total decompressed size a container may declare, in bytes.
pub const MAX_EXPANDED_BYTES: u128 = 134217728;

/// The entry that holds a ZIP-based C2PA manifest.
pub const C2PA_ENTRY: &'static str = "META-INF/content_credential.c2pa";

/// The content of an ODT `mimetype` entry.
pub const ODT_MIMETYPE: &'static str = "application/vnd.oasis.opendocument.text";

pub const ZIP_ERROR: &'static str = "Document ZIP validation failed.";

pub const IO_ERROR: &'static str = "Document container I/O failed.";

pub const NAME_ERROR: &'static str = "Document entry name unavailable.";

pub const ENTRY_LIMIT_ERROR: &'static str = "Expanded document entry limit exceeded.";

/// What opening a container over `b` gives, before its entries are read.
pub open spec fn container_check(b: Seq<u8>) -> BinaryResult<()> {
    if !zip_opens(b) {
        Err(ZIP_ERROR)
    } else if zip_offset(b) != 0 || zip_len(b) == 0 || zip_len(b) > MAX_ENTRIES {
        Err("Document ZIP entry boundary rejected.")
    } else if !(zip_decompressed_size(b) matches Some(size) && size <= MAX_EXPANDED_BYTES) {
        Err("Document decompression boundary rejected.")
    } else {
        match zip_overlapping(b) {
            None => Err(ZIP_ERROR),
            Some(true) => Err("Overlapping ZIP entries rejected."),
            Some(false) => Ok(()),
        }
    }
}

/// Opens a container and checks its offset, entry count, declared size and
/// overlap.
fn open(bytes: &[u8]) -> (r: BinaryResult<Archive>)
    ensures
        match r {
            Ok(archive) => container_check(bytes@) is Ok && archive_source(archive) == bytes@,
            Err(e) => container_check(bytes@) == Err::<(), &'static str>(e),
        },
{
    let mut archive = match open_archive(bytes) {
        Some(archive) => archive,
        None => return Err(ZIP_ERROR),
    };
    let len = archive_len(&archive);
    if archive_offset(&archive) != 0 || len == 0 || len > MAX_ENTRIES {
        return Err("Document ZIP entry boundary rejected.");
    }
    match archive_decompressed_size(&archive) {
        Some(size) => if size > MAX_EXPANDED_BYTES {
            return Err("Document decompression boundary rejected.");
        },
        None => return Err("Document decompression boundary rejected."),
    }
    match archive_has_overlap(&mut archive) {
        None => Err(ZIP_ERROR),
        Some(true) => Err("Overlapping ZIP entries rejected."),
        Some(false) => Ok(archive),
    }
}

/// Why an entry is refused, given the names of the entries before it.
pub open spec fn entry_problem(info: Option<EntryInfo>, seen: Seq<Seq<char>>) -> Option<&'static str> {
    match info {
        None => Some(ZIP_ERROR),
        Some(e) => if !e.enclosed || e.name@.contains('\\') || seen.contains(e.name@) {
            Some("Unsafe or duplicate document entry name rejected.")
        } else if e.encrypted || e.symlink || e.size > MAX_ENTRY_BYTES {
            Some("Encrypted, linked or oversized document entry rejected.")
        } else if e.compression == Compression::Other {
            Some("Unsupported document compression method.")
        } else if e.name@ == C2PA_ENTRY@ && e.compression != Compression::Stored {
            Some("Compressed C2PA document manifest rejected.")
        } else {
            None
        },
    }
}

/// The names of the first `n` entries of the container over `b`.
pub open spec fn entry_names(b: Seq<u8>, n: int) -> Seq<Seq<char>> {
    Seq::new(n as nat, |i: int| zip_entry(b, i)->Some_0.name@)
}

/// The check of the first `n` entries of the container over `b`.
pub open spec fn entries_check(b: Seq<u8>, n: int) -> BinaryResult<()>
    decreases n,
{
    if n <= 0 {
        Ok(())
    } else {
        match entries_check(b, n - 1) {
            Err(e) => Err(e),
            Ok(_) => match entry_problem(zip_entry(b, n - 1), entry_names(b, n - 1)) {
                Some(e) => Err(e),
                None => Ok(()),
            },
        }
    }
}

/// A refused entry decides the check of every longer prefix.
proof fn lemma_check_sticks(b: Seq<u8>, k: int, n: int)
    requires
        k <= n,
        entries_check(b, k) is Err,
    ensures
        entries_check(b, n) == entries_check(b, k),
    decreases n - k,
{
    if k < n {
        lemma_check_sticks(b, k, n - 1);
    }
}

fn names_contain(seen: &Vec<Vec<char>>, name: &[char]) -> (r: bool)
    ensures
        r == seen@.map_values(|v: Vec<char>| v@).contains(name@),
{
    let ghost views = seen@.map_values(|v: Vec<char>| v@);
    let mut i: usize = 0;
    while i < seen.len()
        invariant
            i <= seen.len(),
            views == seen@.map_values(|v: Vec<char>| v@),
            forall|j: int| 0 <= j < i ==> views[j] != name@,
        decreases seen.len() - i,
    {
        if same_chars(seen[i].as_slice(), name) {
            assert(views[i as int] == name@);
            return true;
        }
        i = i + 1;
    }
    false
}

/// Checks every entry: safe and unique names, no encryption or links, sizes
/// within bounds, stored or deflated data, and an uncompressed C2PA manifest.
fn validate(archive: &mut Archive) -> (r: BinaryResult<()>)
    requires
        zip_len(archive_source(*old(archive))) <= MAX_ENTRIES,
    ensures
        archive_source(*final(archive)) == archive_source(*old(archive)),
        r == entries_check(
            archive_source(*old(archive)),
            zip_len(archive_source(*old(archive))) as int,
        ),
{
    let ghost b = archive_source(*archive);
    let len = archive_len(archive);
    // The names seen so far, as a list: vstd specifies `HashSet` for keys
    // whose hashing it models, which a name is not, so a list searched in
    // full states exactly when a name repeats.
    let mut seen: Vec<Vec<char>> = Vec::new();
    let mut index: usize = 0;
    while index < len
        invariant
            index <= len == zip_len(b),
            archive_source(*archive) == b,
            b == archive_source(*old(archive)),
            entries_check(b, index as int) is Ok,
            seen@.map_values(|v: Vec<char>| v@) == entry_names(b, index as int),
        decreases len - index,
    {
        let info = match entry_info(archive, index) {
            Some(info) => info,
            None => {
                proof {
                    lemma_check_sticks(b, index + 1, len as int);
                }
                return Err(ZIP_ERROR);
            },
        };
        proof {
            assert(seen@.map_values(|v: Vec<char>| v@) == entry_names(b, index as int));
            reveal_strlit("META-INF/content_credential.c2pa");
            if entries_check(b, index + 1) is Err {
                lemma_check_sticks(b, index + 1, len as int);
            }
        }
        let name = chars_of(info.name.as_str());
        if !info.enclosed || has_char(name.as_slice(), '\\') || names_contain(&seen, name.as_slice()) {
            return Err("Unsafe or duplicate document entry name rejected.");
        }
        if info.encrypted || info.symlink || info.size > MAX_ENTRY_BYTES {
            return Err("Encrypted, linked or oversized document entry rejected.");
        }
        if info.compression == Compression::Other {
            return Err("Unsupported document compression method.");
        }
        if same_chars(name.as_slice(), chars_of(C2PA_ENTRY).as_slice()) && info.compression
            != Compression::Stored {
            return Err("Compressed C2PA document manifest rejected.");
        }
        let ghost prev = seen@;
        let ghost prev_views = seen@.map_values(|v: Vec<char>| v@);
        assert(prev_views.len() == prev.len());
        assert(prev.len() == index);
        let ghost name_view = name@;
        assert(name_view == zip_entry(b, index as int)->Some_0.name@);
        seen.push(name);
        index = index + 1;
        assert forall|j: int| 0 <= j < index implies seen@.map_values(|v: Vec<char>| v@)[j]
            == entry_names(b, index as int)[j] by {
            if j < index - 1 {
                assert(seen@[j] == prev[j]);
                assert(prev_views[j] == entry_names(b, index - 1)[j]);
            } else {
                assert(seen@[j] == name);
            }
        }
        assert(seen@.map_values(|v: Vec<char>| v@) =~= entry_names(b, index as int));
    }
    Ok(())
}

/// The data of entry `i` as reading gives it: decompressed, within the entry
/// limit.
pub open spec fn read_result(b: Seq<u8>, i: int) -> BinaryResult<Seq<u8>> {
    match zip_entry_data(b, i, (MAX_ENTRY_BYTES + 1) as u64) {
        Err(ReadFailure::Zip) => Err(ZIP_ERROR),
        Err(ReadFailure::Io) => Err(IO_ERROR),
        Ok(data) => if data.len() > MAX_ENTRY_BYTES {
            Err(ENTRY_LIMIT_ERROR)
        } else {
            Ok(data)
        },
    }
}

/// Reads the data of entry `index`, refusing more than the entry limit.
fn read_entry(archive: &mut Archive, index: usize) -> (r: BinaryResult<Vec<u8>>)
    ensures
        archive_source(*final(archive)) == archive_source(*old(archive)),
        match r {
            Ok(data) => read_result(archive_source(*old(archive)), index as int) == Ok::<
                Seq<u8>,
                &'static str,
            >(data@),
            Err(e) => read_result(archive_source(*old(archive)), index as int) == Err::<
                Seq<u8>,
                &'static str,
            >(e),
        },
{
    let data = match entry_data(archive, index, MAX_ENTRY_BYTES + 1) {
        Ok(data) => data,
        Err(ReadFailure::Zip) => return Err(ZIP_ERROR),
        Err(ReadFailure::Io) => return Err(IO_ERROR),
    };
    if data.len() as u64 > MAX_ENTRY_BYTES {
        return Err(ENTRY_LIMIT_ERROR);
    }
    Ok(data)
}

/// The marker entries found so far.
#[derive(Debug, Clone, Copy, PartialEq, Eq)]
pub struct Markers {
    pub content_types: bool,
    pub docx: bool,
    pub xlsx: bool,
    pub pptx: bool,
    pub odt: bool,
}

pub open spec fn no_markers() -> Markers {
    Markers { content_types: false, docx: false, xlsx: false, pptx: false, odt: false }
}

/// The markers after entry `i`.
pub open spec fn marker_step(b: Seq<u8>, i: int, m: Markers) -> BinaryResult<Markers> {
    match zip_name_for_index(b, i) {
        None => Err(NAME_ERROR),
        Some(name) => if name == "[Content_Types].xml"@ {
            Ok(Markers { content_types: true, ..m })
        } else if name == "word/document.xml"@ {
            Ok(Markers { docx: true, ..m })
        } else if name == "xl/workbook.xml"@ {
            Ok(Markers { xlsx: true, ..m })
        } else if name == "ppt/presentation.xml"@ {
            Ok(Markers { pptx: true, ..m })
        } else if name == "mimetype"@ {
            match zip_entry(b, i) {
                None => Err(ZIP_ERROR),
                Some(e) => if i == 0 && e.compression == Compression::Stored {
                    match read_result(b, i) {
                        Err(err) => Err(err),
                        Ok(data) => Ok(Markers { odt: data == encode_utf8(ODT_MIMETYPE@), ..m }),
                    }
                } else {
                    Ok(Markers { odt: false, ..m })
                },
            }
        } else {
            Ok(m)
        },
    }
}

/// The markers of the first `n` entries.
pub open spec fn markers(b: Seq<u8>, n: int) -> BinaryResult<Markers>
    decreases n,
{
    if n <= 0 {
        Ok(no_markers())
    } else {
        match markers(b, n - 1) {
            Err(e) => Err(e),
            Ok(m) => marker_step(b, n - 1, m),
        }
    }
}

proof fn lemma_markers_stick(b: Seq<u8>, k: int, n: int)
    requires
        0 <= k <= n,
        markers(b, k) is Err,
    ensures
        markers(b, n) == markers(b, k),
    decreases n - k,
{
    if k < n {
        lemma_markers_stick(b, k, n - 1);
    }
}

/// The format the markers name: ODT alone, or exactly one Office Open XML
/// main part with its content-type list.
pub open spec fn decide(m: Markers) -> BinaryResult<BinaryFormat> {
    let ooxml = (if m.docx { 1int } else { 0int }) + (if m.xlsx { 1int } else { 0int }) + (if m.pptx {
        1int
    } else {
        0int
    });
    if m.odt && !m.content_types && ooxml == 0 {
        Ok(BinaryFormat::Odt)
    } else if m.content_types && !m.odt && ooxml == 1 {
        Ok(
            if m.docx {
                BinaryFormat::Docx
            } else if m.xlsx {
                BinaryFormat::Xlsx
            } else {
                BinaryFormat::Pptx
            },
        )
    } else {
        Err("ZIP container is not an unambiguous supported Office document.")
    }
}

/// The format of the document container `b`, or why it is refused.
pub open spec fn detection(b: Seq<u8>) -> BinaryResult<BinaryFormat> {
    match container_check(b) {
        Err(e) => Err(e),
        Ok(_) => match entries_check(b, zip_len(b) as int) {
            Err(e) => Err(e),
            Ok(_) => match markers(b, zip_len(b) as int) {
                Err(e) => Err(e),
                Ok(m) => decide(m),
            },
        },
    }
}

fn is_named(name: &[char], literal: &str) -> (r: bool)
    ensures
        r == (name@ == literal@),
{
    same_chars(name, chars_of(literal).as_slice())
}

/// Identifies a document container by its marker entries.
pub fn detect(bytes: &[u8]) -> (r: BinaryResult<BinaryFormat>)
    ensures
        r == detection(bytes@),
{
    let mut archive = open(bytes)?;
    let ghost b = bytes@;
    validate(&mut archive)?;
    let len = archive_len(&archive);
    let mut m = Markers { content_types: false, docx: false, xlsx: false, pptx: false, odt: false };
    let mut index: usize = 0;
    while index < len
        invariant
            index <= len == zip_len(b),
            b == bytes@,
            archive_source(archive) == b,
            container_check(b) is Ok,
            entries_check(b, zip_len(b) as int) is Ok,
            markers(b, index as int) == Ok::<Markers, &'static str>(m),
        decreases len - index,
    {
        proof {
            reveal_strlit("[Content_Types].xml");
            reveal_strlit("word/document.xml");
            reveal_strlit("xl/workbook.xml");
            reveal_strlit("ppt/presentation.xml");
            reveal_strlit("mimetype");
        }
        let step: BinaryResult<Markers> = match entry_name(&archive, index) {
            None => Err(NAME_ERROR),
            Some(name) => {
                let name = chars_of(name.as_str());
                if is_named(name.as_slice(), "[Content_Types].xml") {
                    Ok(Markers { content_types: true, ..m })
                } else if is_named(name.as_slice(), "word/document.xml") {
                    Ok(Markers { docx: true, ..m })
                } else if is_named(name.as_slice(), "xl/workbook.xml") {
                    Ok(Markers { xlsx: true, ..m })
                } else if is_named(name.as_slice(), "ppt/presentation.xml") {
                    Ok(Markers { pptx: true, ..m })
                } else if is_named(name.as_slice(), "mimetype") {
                    match entry_info(&mut archive, index) {
                        None => Err(ZIP_ERROR),
                        Some(info) => if index == 0 && info.compression == Compression::Stored {
                            match read_entry(&mut archive, index) {
                                Err(e) => Err(e),
                                Ok(data) => Ok(
                                    Markers {
                                        odt: crate::binary::bytes::same_bytes(
                                            data.as_slice(),
                                            ODT_MIMETYPE.as_bytes(),
                                        ),
                                        ..m
                                    },
                                ),
                            }
                        } else {
                            Ok(Markers { odt: false, ..m })
                        },
                    }
                } else {
                    Ok(m)
                }
            },
        };
        assert(step == marker_step(b, index as int, m));
        match step {
            Ok(next) => m = next,
            Err(e) => {
                proof {
                    assert(markers(b, index + 1) == step);
                    lemma_markers_stick(b, index + 1, len as int);
                    assert(markers(b, len as int) == Err::<Markers, &'static str>(e));
                    assert(detection(b) == Err::<BinaryFormat, &'static str>(e));
                }
                return Err(e);
            },
        }
        index = index + 1;
    }
    let ooxml: u8 = (if m.docx { 1u8 } else { 0u8 }) + (if m.xlsx { 1u8 } else { 0u8 }) + (if m.pptx {
        1u8
    } else {
        0u8
    });
    if m.odt && !m.content_types && ooxml == 0 {
        return Ok(BinaryFormat::Odt);
    }
    if m.content_types && !m.odt && ooxml == 1 {
        return Ok(
            if m.docx {
                BinaryFormat::Docx
            } else if m.xlsx {
                BinaryFormat::Xlsx
            } else {
                BinaryFormat::Pptx
            },
        );
    }
    Err("ZIP container is not an unambiguous supported Office document.")
}

/// Whether an attribute's local name records authorship or a revision time.
pub open spec fn is_private_name(local: Seq<char>) -> bool {
    local == "author"@ || local == "initials"@ || local == "date"@ || local == "creator"@ || local
        == "lastModifiedBy"@
}

/// Whether the attribute named `key` records authorship or a revision time.
pub fn is_private_attribute(key: &str) -> (r: bool)
    ensures
        r == is_private_name(local_part(key@)),
{
    let local = local_chars(key);
    let local = local.as_slice();
    is_named(local, "author") || is_named(local, "initials") || is_named(local, "date") || is_named(
        local,
        "creator",
    ) || is_named(local, "lastModifiedBy")
}

/// How many of `attributes` record authorship or a revision time.
pub open spec fn private_in(attributes: Seq<XmlAttribute>) -> nat
    decreases attributes.len(),
{
    if attributes.len() == 0 {
        0
    } else {
        private_in(attributes.drop_last()) + if is_private_name(local_part(attributes.last().key@)) {
            1nat
        } else {
            0nat
        }
    }
}

/// The private attributes of the events from `i` on, counted from `count`.
/// Running out of events means that the reader reported malformed XML.
pub open spec fn private_scan(items: Seq<XmlItem>, i: int, count: usize) -> BinaryResult<usize>
    decreases items.len() - i,
{
    if i < 0 || i >= items.len() {
        Err("Malformed document XML rejected.")
    } else {
        match items[i].kind {
            XmlKind::Start | XmlKind::Empty => match items[i].attributes {
                None => Err("Malformed XML attribute rejected."),
                Some(attributes) => private_scan(items, i + 1, sat(count, private_in(attributes@))),
            },
            XmlKind::Eof => Ok(count),
            _ => private_scan(items, i + 1, count),
        }
    }
}

pub open spec fn then_private(prefix: Seq<XmlItem>, count: usize) -> bool {
    forall|rest: Seq<XmlItem>|
        private_scan(#[trigger] (prefix + rest), 0, 0) == private_scan(
            prefix + rest,
            prefix.len() as int,
            count,
        )
}

fn count_private(attributes: &Vec<XmlAttribute>, count: usize) -> (r: usize)
    ensures
        r == sat(count, private_in(attributes@)),
{
    let mut n = count;
    let mut i: usize = 0;
    while i < attributes.len()
        invariant
            i <= attributes.len(),
            n == sat(count, private_in(attributes@.take(i as int))),
        decreases attributes.len() - i,
    {
        assert(attributes@.take(i + 1).drop_last() == attributes@.take(i as int));
        if is_private_attribute(attributes[i].key.as_str()) {
            n = n.saturating_add(1);
        }
        i = i + 1;
    }
    assert(attributes@.take(i as int) == attributes@);
    n
}

/// Checks the events `items` of an XML part: well-formed, with well-formed
/// attributes, up to the end of the document; and counts the attributes that
/// record authorship or revision times.
pub fn private_count_of(items: &Vec<XmlItem>) -> (r: BinaryResult<usize>)
    ensures
        r == private_scan(items@, 0, 0),
{
    let mut count: usize = 0;
    let mut i: usize = 0;
    while i < items.len()
        invariant
            i <= items@.len(),
            private_scan(items@, 0, 0) == private_scan(items@, i as int, count),
        decreases items.len() - i,
    {
        let item = &items[i];
        match item.kind {
            XmlKind::Start | XmlKind::Empty => match &item.attributes {
                None => return Err("Malformed XML attribute rejected."),
                Some(attributes) => count = count_private(attributes, count),
            },
            XmlKind::Eof => return Ok(count),
            _ => {},
        }
        i = i + 1;
    }
    Err("Malformed document XML rejected.")
}

/// Checks that `data` is well-formed XML with well-formed attributes and
/// counts the attributes that record authorship or revision times. The
/// events come from `quick_xml`; the result is that of the events it
/// produced.
pub fn private_attribute_count(data: &[u8]) -> (r: BinaryResult<usize>)
    ensures
        exists|items: Seq<XmlItem>| read_from(data@, items) && r == private_scan(items, 0, 0),
{
    let items = read_items(data);
    private_count_of(&items)
}

/// The canonical, empty package properties written in place of the
/// ones a document carries.
pub const DOCX_CORE: &'static str = "<?xml version=\"1.0\" encoding=\"UTF-8\" standalone=\"yes\"?><cp:coreProperties xmlns:cp=\"http://schemas.openxmlformats.org/package/2006/metadata/core-properties\"/>";

pub const DOCX_CUSTOM: &'static str = "<?xml version=\"1.0\" encoding=\"UTF-8\" standalone=\"yes\"?><Properties xmlns=\"http://schemas.openxmlformats.org/officeDocument/2006/custom-properties\"/>";

pub const DOCX_APP: &'static str = "<?xml version=\"1.0\" encoding=\"UTF-8\" standalone=\"yes\"?><Properties xmlns=\"http://schemas.openxmlformats.org/officeDocument/2006/extended-properties\"/>";

pub const ODT_META: &'static str = "<?xml version=\"1.0\" encoding=\"UTF-8\"?><office:document-meta xmlns:office=\"urn:oasis:names:tc:opendocument:xmlns:office:1.0\"><office:meta/></office:document-meta>";

pub const ODT_RDF: &'static str = "<?xml version=\"1.0\" encoding=\"UTF-8\"?><rdf:RDF xmlns:rdf=\"http://www.w3.org/1999/02/22-rdf-syntax-ns#\"/>";

pub open spec fn is_ooxml(format: BinaryFormat) -> bool {
    format == BinaryFormat::Docx || format == BinaryFormat::Xlsx || format == BinaryFormat::Pptx
}

/// The canonical content of a property entry of `format`, if `name` is one.
pub open spec fn canonical_for(format: BinaryFormat, name: Seq<char>) -> Option<&'static str> {
    if is_ooxml(format) && name == "docProps/core.xml"@ {
        Some(DOCX_CORE)
    } else if is_ooxml(format) && name == "docProps/custom.xml"@ {
        Some(DOCX_CUSTOM)
    } else if is_ooxml(format) && name == "docProps/app.xml"@ {
        Some(DOCX_APP)
    } else if format == BinaryFormat::Odt && name == "meta.xml"@ {
        Some(ODT_META)
    } else if format == BinaryFormat::Odt && name == "manifest.rdf"@ {
        Some(ODT_RDF)
    } else {
        None
    }
}

/// The canonical content of a property entry of `format`, if `name` is one.
pub fn canonical_metadata(format: BinaryFormat, name: &[char]) -> (r: Option<&'static str>)
    ensures
        r == canonical_for(format, name@),
{
    let ooxml = format == BinaryFormat::Docx || format == BinaryFormat::Xlsx || format
        == BinaryFormat::Pptx;
    if ooxml && is_named(name, "docProps/core.xml") {
        Some(DOCX_CORE)
    } else if ooxml && is_named(name, "docProps/custom.xml") {
        Some(DOCX_CUSTOM)
    } else if ooxml && is_named(name, "docProps/app.xml") {
        Some(DOCX_APP)
    } else if format == BinaryFormat::Odt && is_named(name, "meta.xml") {
        Some(ODT_META)
    } else if format == BinaryFormat::Odt && is_named(name, "manifest.rdf") {
        Some(ODT_RDF)
    } else {
        None
    }
}

/// Whether the private attributes of entry `name` are scrubbed: the main
/// document of DOCX, comments and persons of XLSX, comments and authors of
/// PPTX.
pub open spec fn scrubs_private(format: BinaryFormat, name: Seq<char>) -> bool {
    match format {
        BinaryFormat::Docx => starts_with(name, "word/"@),
        BinaryFormat::Xlsx => starts_with(name, "xl/comments"@) || starts_with(name, "xl/persons"@),
        BinaryFormat::Pptx => starts_with(name, "ppt/comments"@) || starts_with(
            name,
            "ppt/commentAuthors"@,
        ) || starts_with(name, "ppt/authors"@),
        _ => false,
    }
}

fn has_prefix(name: &[char], prefix: &str) -> (r: bool)
    ensures
        r == starts_with(name@, prefix@),
{
    starts_with_chars(name, chars_of(prefix).as_slice())
}

/// Whether the private attributes of entry `name` are scrubbed.
pub fn should_scrub_private_attributes(format: BinaryFormat, name: &[char]) -> (r: bool)
    ensures
        r == scrubs_private(format, name@),
{
    match format {
        BinaryFormat::Docx => has_prefix(name, "word/"),
        BinaryFormat::Xlsx => has_prefix(name, "xl/comments") || has_prefix(name, "xl/persons"),
        BinaryFormat::Pptx => has_prefix(name, "ppt/comments") || has_prefix(
            name,
            "ppt/commentAuthors",
        ) || has_prefix(name, "ppt/authors"),
        _ => false,
    }
}

/// The invisible payloads in `data` read as UTF-8; none where it is not.
pub open spec fn utf8_payloads(data: Seq<u8>) -> nat {
    if valid_utf8(data) {
        safe_payloads(decode_utf8(data))
    } else {
        0
    }
}

/// The number of invisible payload characters in `data`, read as UTF-8.
pub fn unicode_payload_count(data: &[u8]) -> (n: usize)
    ensures
        n == utf8_payloads(data@),
{
    match utf8_text(data) {
        Some(text) => unicode_count(text),
        None => 0,
    }
}

/// The counts analysis keeps while it reads the entries.
#[derive(Debug, Clone, Copy, PartialEq, Eq)]
pub struct Tally {
    pub properties: usize,
    pub authors: usize,
    pub unicode: usize,
    pub c2pa: usize,
}

pub open spec fn no_tally() -> Tally {
    Tally { properties: 0, authors: 0, unicode: 0, c2pa: 0 }
}

/// The counts after entry `i` of a container of `format`; `run` is what the
/// XML reader produced for that entry, when it is an XML part.
pub open spec fn tally_step(b: Seq<u8>, format: BinaryFormat, i: int, t: Tally, run: Seq<XmlItem>) -> BinaryResult<Tally> {
    match zip_name_for_index(b, i) {
        None => Err(NAME_ERROR),
        Some(name) => if ends_with(name, "/"@) {
            Ok(t)
        } else if name == C2PA_ENTRY@ {
            Ok(Tally { c2pa: sat(t.c2pa, 1), ..t })
        } else {
            match read_result(b, i) {
                Err(e) => Err(e),
                Ok(data) => {
                    let properties = if canonical_for(format, name) matches Some(c) && data
                        != encode_utf8(c@) {
                        sat(t.properties, 1)
                    } else {
                        t.properties
                    };
                    if ends_with(name, ".xml"@) {
                        match private_scan(run, 0, 0) {
                            Err(e) => Err(e),
                            Ok(n) => Ok(
                                Tally {
                                    properties,
                                    authors: if scrubs_private(format, name) {
                                        sat(t.authors, n as nat)
                                    } else {
                                        t.authors
                                    },
                                    unicode: sat(t.unicode, utf8_payloads(data)),
                                    c2pa: t.c2pa,
                                },
                            ),
                        }
                    } else {
                        Ok(Tally { properties, ..t })
                    }
                },
            }
        },
    }
}

/// The counts after the first `runs.len()` entries.
pub open spec fn tally(b: Seq<u8>, format: BinaryFormat, runs: Seq<Seq<XmlItem>>) -> BinaryResult<Tally>
    decreases runs.len(),
{
    if runs.len() == 0 {
        Ok(no_tally())
    } else {
        match tally(b, format, runs.drop_last()) {
            Err(e) => Err(e),
            Ok(t) => tally_step(b, format, runs.len() - 1, t, runs.last()),
        }
    }
}

/// The findings document analysis reports for its counts.
pub open spec fn document_findings(t: Tally) -> Seq<BinaryFinding> {
    finding_if("document-properties", t.properties as nat, "Document package properties")
        + finding_if("author-traces", t.authors as nat, "Author/date revision attributes")
        + finding_if("unicode", t.unicode as nat, "Invisible Unicode payloads in document XML")
        + finding_if("c2pa", t.c2pa as nat, "ZIP-based C2PA provenance manifest")
}

/// Whether `run` is what the XML reader produced for entry `i` of `b`, where
/// that entry is an XML part that is read.
pub open spec fn run_read(b: Seq<u8>, i: int, run: Seq<XmlItem>) -> bool {
    match (zip_name_for_index(b, i), read_result(b, i)) {
        (Some(name), Ok(data)) => ends_with(name, ".xml"@) ==> read_from(data, run),
        _ => true,
    }
}

proof fn lemma_not_xml(name: Seq<char>)
    requires
        ends_with(name, "/"@) || name == C2PA_ENTRY@,
    ensures
        !ends_with(name, ".xml"@),
{
    reveal_strlit("/");
    reveal_strlit(".xml");
    reveal_strlit("META-INF/content_credential.c2pa");
    if ends_with(name, ".xml"@) {
        let n = name.len() as int;
        assert(name[n - 1] == name.subrange(n - 4, n)[3]);
        if ends_with(name, "/"@) {
            assert(name[n - 1] == name.subrange(n - 1, n)[0]);
        }
    }
}

/// Whether each of `runs` is what the XML reader produced for its entry.
pub open spec fn runs_read(b: Seq<u8>, runs: Seq<Seq<XmlItem>>) -> bool {
    forall|i: int| 0 <= i < runs.len() ==> run_read(b, i, #[trigger] runs[i])
}

/// Whether `r` is what analysis reports for the container `b` when the XML
/// reader produced `runs` for its entries, in order.
pub open spec fn document_analysis(b: Seq<u8>, runs: Seq<Seq<XmlItem>>, r: BinaryResult<ParsedBinary>) -> bool {
    match detection(b) {
        Err(e) => r == Err::<ParsedBinary, &'static str>(e),
        Ok(format) => runs.len() <= zip_len(b) && match tally(b, format, runs) {
            Err(e) => r == Err::<ParsedBinary, &'static str>(e),
            Ok(t) => runs.len() == zip_len(b) && r is Ok && r->Ok_0.format == format
                && r->Ok_0.findings@ == document_findings(t) && r->Ok_0.c2pa_detected == (t.c2pa
                > 0),
        },
    }
}

fn findings_of(t: &Tally) -> (findings: Vec<BinaryFinding>)
    ensures
        findings@ == document_findings(*t),
{
    let mut findings: Vec<BinaryFinding> = Vec::new();
    push_finding(&mut findings, "document-properties", t.properties, "Document package properties");
    push_finding(&mut findings, "author-traces", t.authors, "Author/date revision attributes");
    push_finding(&mut findings, "unicode", t.unicode, "Invisible Unicode payloads in document XML");
    push_finding(&mut findings, "c2pa", t.c2pa, "ZIP-based C2PA provenance manifest");
    assert(findings@ =~= document_findings(*t));
    findings
}

/// Reports the package properties, revision authorship, invisible Unicode
/// and C2PA manifests of a document container. Each XML part is read once
/// by `quick_xml`, which both validates it and yields its attributes; the
/// result is that of the events it produced.
pub fn analyze(bytes: &[u8]) -> (r: BinaryResult<ParsedBinary>)
    ensures
        exists|runs: Seq<Seq<XmlItem>>| runs_read(bytes@, runs) && document_analysis(bytes@, runs, r),
{
    let ghost b = bytes@;
    let format = match detect(bytes) {
        Ok(format) => format,
        Err(e) => {
            assert(runs_read(b, Seq::empty()) && document_analysis(b, Seq::empty(), Err(e)));
            return Err(e);
        },
    };
    let mut archive = match open(bytes) {
        Ok(archive) => archive,
        Err(e) => return Err(e),
    };
    match validate(&mut archive) {
        Ok(()) => {},
        Err(e) => return Err(e),
    }
    let len = archive_len(&archive);
    let mut t = Tally { properties: 0, authors: 0, unicode: 0, c2pa: 0 };
    let ghost mut runs: Seq<Seq<XmlItem>> = Seq::empty();
    let mut index: usize = 0;
    while index < len
        invariant
            index <= len == zip_len(b),
            b == bytes@,
            archive_source(archive) == b,
            detection(b) == Ok::<BinaryFormat, &'static str>(format),
            runs.len() == index,
            tally(b, format, runs) == Ok::<Tally, &'static str>(t),
            runs_read(b, runs),
        decreases len - index,
    {
        proof {
            reveal_strlit("/");
            reveal_strlit(".xml");
            reveal_strlit("META-INF/content_credential.c2pa");
        }
        let ghost prev = runs;
        let ghost mut run: Seq<XmlItem> = Seq::empty();
        let name = match entry_name(&archive, index) {
            Some(name) => chars_of(name.as_str()),
            None => {
                proof {
                    runs = runs.push(run);
                    assert(runs.drop_last() == prev);
                    assert(runs_read(b, runs));
                    assert(document_analysis(b, runs, Err(NAME_ERROR)));
                }
                return Err(NAME_ERROR);
            },
        };
        if ends_with_chars(name.as_slice(), chars_of("/").as_slice()) {
            proof {
                lemma_not_xml(name@);
            }
        } else if is_named(name.as_slice(), C2PA_ENTRY) {
            proof {
                lemma_not_xml(name@);
            }
            t.c2pa = t.c2pa.saturating_add(1);
        } else {
            let data = match read_entry(&mut archive, index) {
                Ok(data) => data,
                Err(e) => {
                    proof {
                        runs = runs.push(run);
                        assert(runs.drop_last() == prev);
                        assert(runs_read(b, runs));
                        assert(document_analysis(b, runs, Err(e)));
                    }
                    return Err(e);
                },
            };
            let mut next = t;
            match canonical_metadata(format, name.as_slice()) {
                Some(canonical) => if !same_bytes(data.as_slice(), canonical.as_bytes()) {
                    next.properties = next.properties.saturating_add(1);
                },
                None => {},
            }
            if ends_with_chars(name.as_slice(), chars_of(".xml").as_slice()) {
                let result = private_attribute_count(data.as_slice());
                proof {
                    run = choose|items: Seq<XmlItem>|
                        read_from(data@, items) && result == private_scan(items, 0, 0);
                }
                match result {
                    Ok(n) => {
                        if should_scrub_private_attributes(format, name.as_slice()) {
                            next.authors = next.authors.saturating_add(n);
                        }
                        next.unicode = next.unicode.saturating_add(
                            unicode_payload_count(data.as_slice()),
                        );
                    },
                    Err(e) => {
                        proof {
                            runs = runs.push(run);
                            assert(runs.drop_last() == prev);
                            assert(runs_read(b, runs));
                        assert(document_analysis(b, runs, Err(e)));
                        }
                        return Err(e);
                    },
                }
            }
            t = next;
        }
        proof {
            assert(run_read(b, index as int, run));
            runs = runs.push(run);
            assert(runs.drop_last() == prev);
            assert forall|i: int| 0 <= i < runs.len() implies run_read(b, i, #[trigger] runs[i]) by {
                if i < prev.len() {
                    assert(runs[i] == prev[i]);
                }
            }
        }
        index = index + 1;
    }
    let r = Ok(ParsedBinary { format, findings: findings_of(&t), c2pa_detected: t.c2pa > 0 });
    assert(runs_read(b, runs));
    assert(document_analysis(b, runs, r));
    r
}

/// The attributes that scrubbing keeps: all but the private ones.
pub open spec fn public_in(attributes: Seq<XmlAttribute>) -> Seq<XmlAttribute>
    decreases attributes.len(),
{
    if attributes.len() == 0 {
        Seq::empty()
    } else {
        public_in(attributes.drop_last()) + if is_private_name(
            local_part(attributes.last().key@),
        ) {
            Seq::empty()
        } else {
            seq![attributes.last()]
        }
    }
}

/// The attributes of `attributes` that are not private, in order, by name
/// and value.
fn public_attributes(attributes: &Vec<XmlAttribute>) -> (kept: Vec<XmlAttribute>)
    ensures
        kept@.len() == public_in(attributes@).len(),
        forall|k: int|
            0 <= k < kept@.len() ==> (#[trigger] kept@[k]).key@ == public_in(attributes@)[k].key@
                && kept@[k].value@ == public_in(attributes@)[k].value@,
{
    let mut kept: Vec<XmlAttribute> = Vec::new();
    let mut i: usize = 0;
    while i < attributes.len()
        invariant
            i <= attributes.len(),
            kept@.len() == public_in(attributes@.take(i as int)).len(),
            forall|k: int|
                0 <= k < kept@.len() ==> (#[trigger] kept@[k]).key@ == public_in(
                    attributes@.take(i as int),
                )[k].key@ && kept@[k].value@ == public_in(attributes@.take(i as int))[k].value@,
        decreases attributes.len() - i,
    {
        assert(attributes@.take(i + 1).drop_last() == attributes@.take(i as int));
        let attribute = &attributes[i];
        if !is_private_attribute(attribute.key.as_str()) {
            let key = attribute.key.clone();
            let value = attribute.value.clone();
            kept.push(XmlAttribute { key, value });
        }
        i = i + 1;
    }
    assert(attributes@.take(i as int) == attributes@);
    kept
}

/// Whether `r` is what scrubbing gives when the reader produced `items`:
/// the error of the events, or rewritten XML, or a write failure.
pub open spec fn scrub_outcome(items: Seq<XmlItem>, r: BinaryResult<Vec<u8>>) -> bool {
    match private_scan(items, 0, 0) {
        Err(e) => r == Err::<Vec<u8>, &'static str>(e),
        Ok(_) => r is Ok,
    }
}

/// `public_in` over (key, raw value) pairs.
pub open spec fn public_pairs(attributes: Seq<(Seq<char>, Seq<char>)>) -> Seq<(Seq<char>, Seq<char>)>
    decreases attributes.len(),
{
    if attributes.len() == 0 {
        Seq::empty()
    } else {
        public_pairs(attributes.drop_last()) + if is_private_name(local_part(attributes.last().0)) {
            Seq::empty()
        } else {
            seq![attributes.last()]
        }
    }
}

proof fn lemma_public_pairs(attributes: Seq<XmlAttribute>)
    ensures
        pairs(public_in(attributes)) == public_pairs(pairs(attributes)),
    decreases attributes.len(),
{
    if attributes.len() > 0 {
        lemma_public_pairs(attributes.drop_last());
        assert(pairs(attributes).drop_last() =~= pairs(attributes.drop_last()));
        let last = attributes.last();
        let tail: Seq<XmlAttribute> = if is_private_name(local_part(last.key@)) {
            Seq::empty()
        } else {
            seq![last]
        };
        assert(pairs(public_in(attributes.drop_last()) + tail) =~= pairs(public_in(attributes.drop_last()))
            + pairs(tail));
    }
}

/// What scrubbing the events of `source` from the `index`-th on writes, with
/// at most `fuel` events left: every element with its private attributes
/// left out and every other event as read, up to the end of the document;
/// or the error that stops it.
pub open spec fn scrub_run(source: Seq<u8>, index: nat, fuel: nat) -> BinaryResult<Seq<XmlOut>>
    decreases fuel,
{
    if fuel == 0 {
        Err("Malformed document XML rejected.")
    } else {
        let next = (index + 1) as nat;
        let rest = (fuel - 1) as nat;
        match xml_event(source, index) {
            None => Err("Malformed document XML rejected."),
            Some(e) => match e.kind {
                XmlKind::Start | XmlKind::Empty => match e.attributes {
                    None => Err("Malformed XML attribute rejected."),
                    Some(attributes) => out_then(
                        XmlOut::Element(e.name, public_pairs(attributes), e.kind == XmlKind::Empty),
                        scrub_run(source, next, rest),
                    ),
                },
                XmlKind::Eof => Ok(Seq::empty()),
                _ => out_then(XmlOut::Raw(e.kind, e.text), scrub_run(source, next, rest)),
            },
        }
    }
}

/// Rewrites XML without its private attributes; every other event is written
/// as it was read. The events come from `quick_xml`, and the rewritten bytes
/// are the `quick_xml` serialization of the events `scrub_run` writes.
pub fn scrub_xml_attributes(data: &[u8]) -> (r: BinaryResult<Vec<u8>>)
    ensures
        match scrub_run(data@, 0, event_budget(data@)) {
            Ok(events) => r is Ok && r->Ok_0@ == xml_serialized(events),
            Err(e) => r == Err::<Vec<u8>, &'static str>(e),
        },
        exists|items: Seq<XmlItem>|
            items.map_values(|item: XmlItem| item@).is_prefix_of(xml_document(data@)) && scrub_outcome(
                items,
                r,
            ),
{
    let mut reader = xml_reader(data);
    let mut writer = xml_writer();
    let ghost mut count: usize = 0;
    let ghost mut items: Seq<XmlItem> = Seq::empty();
    let mut fuel = data.len().saturating_add(1);
    let ghost budget = fuel as nat;
    assert(budget == event_budget(data@));
    proof {
        assert forall|rest: Seq<XmlItem>| private_scan(#[trigger] (items + rest), 0, 0)
            == private_scan(items + rest, items.len() as int, count) by {}
    }
    while fuel > 0
        invariant
            then_private(items, count),
            reader.source() == data@,
            reader.position() == items.len(),
            items.len() + fuel == budget,
            budget == event_budget(data@),
            items.map_values(|item: XmlItem| item@) + events_from(data@, items.len() as nat, fuel as nat)
                == xml_document(data@),
            out_after(writer.events(), scrub_run(data@, reader.position(), fuel as nat)) == scrub_run(
                data@,
                0,
                budget,
            ),
        decreases fuel,
    {
        let ghost f = fuel as nat;
        let ghost written_before = writer.events();
        let ghost k = items.len() as nat;
        fuel = fuel - 1;
        let item = match next_item(&mut reader) {
            Some(item) => item,
            None => {
                let r = Err("Malformed document XML rejected.");
                proof {
                    assert(items + Seq::<XmlItem>::empty() == items);
                    assert(scrub_outcome(items, r));
                    assert(events_from(data@, k, f) =~= Seq::<XmlItemView>::empty());
                    assert(items.map_values(|item: XmlItem| item@) =~= items.map_values(|item: XmlItem| item@) + events_from(data@, k, f));
                    assert(items.map_values(|item: XmlItem| item@).is_prefix_of(xml_document(data@)));
                }
                return r;
            },
        };
        let ghost before_items = items;
        proof {
            items = items.push(item);
            assert(items.map_values(|item: XmlItem| item@) =~= before_items.map_values(|item: XmlItem| item@) + seq![item@]);
            let doc = xml_document(data@);
            let seen = items.map_values(|item: XmlItem| item@);
            if item.kind == XmlKind::Eof {
                assert(events_from(data@, k, f) == seq![item@]);
                assert(seen =~= doc);
            } else {
                assert(events_from(data@, k, f) == seq![item@] + events_from(data@, k + 1, fuel as nat));
                assert(before_items.map_values(|item: XmlItem| item@) + events_from(data@, k, f) =~= seen
                    + events_from(data@, k + 1, fuel as nat));
                assert(doc.subrange(0, seen.len() as int) =~= seen);
            }
            assert(seen.is_prefix_of(doc));
            assert forall|rest: Seq<XmlItem>| (#[trigger] (items + rest)) == before_items + (seq![item]
                + rest) by {
                assert(items + rest =~= before_items + (seq![item] + rest));
            }
        }
        match item.kind {
            XmlKind::Start | XmlKind::Empty => match &item.attributes {
                None => {
                    let r = Err("Malformed XML attribute rejected.");
                    proof {
                        assert(items + Seq::<XmlItem>::empty() == items);
                        assert(scrub_outcome(items, r));
                    }
                    return r;
                },
                Some(attributes) => {
                    proof {
                        count = sat(count, private_in(attributes@));
                    }
                    let kept = public_attributes(attributes);
                    if !write_element(
                        &mut writer,
                        item.name.as_str(),
                        kept.as_slice(),
                        item.kind == XmlKind::Empty,
                    ) {
                        let r = Err(IO_ERROR);
                        assert(scrub_outcome(items, r));
                        return r;
                    }
                    proof {
                        lemma_public_pairs(attributes@);
                        assert(pairs(kept@) =~= pairs(public_in(attributes@)));
                        assert(pairs(attributes@) =~= attributes@.map_values(|a: XmlAttribute| (a.key@, a.value@)));
                        lemma_out_after_push(written_before, writer.events().last(), scrub_run(data@, reader.position(), fuel as nat));
                        assert(writer.events() == written_before.push(writer.events().last()));
                    }
                },
            },
            XmlKind::Eof => {
                let ghost events = writer.events();
                assert(events + Seq::<XmlOut>::empty() =~= events);
                let r = Ok(written(writer));
                proof {
                    assert(items + Seq::<XmlItem>::empty() == items);
                    assert(scrub_outcome(items, r));
                }
                return r;
            },
            _ => {
                if !write_raw(&mut writer, item.kind, item.text.as_str()) {
                    let r = Err(IO_ERROR);
                    assert(scrub_outcome(items, r));
                    return r;
                }
                proof {
                    lemma_out_after_push(written_before, writer.events().last(), scrub_run(data@, reader.position(), fuel as nat));
                    assert(writer.events() == written_before.push(writer.events().last()));
                }
            },
        }
    }
    let r = Err("Malformed document XML rejected.");
    proof {
        assert(items + Seq::<XmlItem>::empty() == items);
        assert(scrub_outcome(items, r));
        assert(events_from(data@, items.len() as nat, 0) =~= Seq::<XmlItemView>::empty());
        assert(items.map_values(|item: XmlItem| item@) =~= xml_document(data@));
    }
    r
}

/// The cleaned form of entry `name` of a `format` container holding `data`:
/// canonical properties in place of the ones found, other non-XML data
/// unchanged, and XML parts (checked by scrubbing, and scrubbed of their
/// private attributes where `scrubs_private` says so) read as UTF-8 with
/// invisible payloads deleted; or why the entry is refused.
pub open spec fn cleaned_data(format: BinaryFormat, name: Seq<char>, data: Seq<u8>) -> BinaryResult<Seq<u8>> {
    if canonical_for(format, name) is Some {
        Ok(encode_utf8(canonical_for(format, name)->Some_0@))
    } else if !ends_with(name, ".xml"@) {
        Ok(data)
    } else {
        match scrub_run(data, 0, event_budget(data)) {
            Err(e) => Err(e),
            Ok(events) => {
                let scrubbed = if scrubs_private(format, name) {
                    xml_serialized(events)
                } else {
                    data
                };
                if valid_utf8(scrubbed) {
                    Ok(encode_utf8(sanitized(decode_utf8(scrubbed), Mode::Safe)))
                } else {
                    Err("Document XML must be UTF-8.")
                }
            },
        }
    }
}

/// The cleaned data of one entry.
fn clean_entry(format: BinaryFormat, name: &[char], data: &[u8]) -> (r: BinaryResult<Vec<u8>>)
    ensures
        match cleaned_data(format, name@, data@) {
            Ok(c) => r is Ok && r->Ok_0@ == c,
            Err(e) => r == Err::<Vec<u8>, &'static str>(e),
        },
{
    proof {
        reveal_strlit(".xml");
    }
    match canonical_metadata(format, name) {
        Some(canonical) => return Ok(vstd::slice::slice_to_vec(canonical.as_bytes())),
        None => {},
    }
    if !ends_with_chars(name, chars_of(".xml").as_slice()) {
        return Ok(vstd::slice::slice_to_vec(data));
    }
    let validated = scrub_xml_attributes(data)?;
    let scrubbed = if should_scrub_private_attributes(format, name) {
        validated
    } else {
        vstd::slice::slice_to_vec(data)
    };
    let text = match utf8_text(scrubbed.as_slice()) {
        Some(text) => text,
        None => return Err("Document XML must be UTF-8."),
    };
    let output = sanitize_text(text, Mode::Safe).output;
    let r = Ok(vstd::slice::slice_to_vec(output.as_str().as_bytes()));
    assert(valid_utf8(scrubbed@) && r->Ok_0@ == encode_utf8(
        sanitized(decode_utf8(scrubbed@), Mode::Safe),
    ));
    r
}

/// The permission bits of an entry: its Unix mode, else `0o700` for a
/// directory and `0o600` for a file.
pub open spec fn entry_mode(info: EntryInfo) -> u32 {
    match info.unix_mode {
        Some(mode) => mode,
        None => if info.directory {
            0o700u32
        } else {
            0o600u32
        },
    }
}

/// The calls that rebuilding the container `b` of `format` makes on the
/// writer for its entries from the `i`-th to the `n`-th, after `ops`: the C2PA
/// manifest is left out, a directory is added, and a file is started and
/// given its cleaned data, each with its name, compression and permission
/// bits; or the error that stops it (an entry that cannot be read or
/// cleaned, or a call the writer refuses).
pub open spec fn rebuild(b: Seq<u8>, format: BinaryFormat, i: nat, n: nat, ops: Seq<ZipOp>) -> BinaryResult<
    Seq<ZipOp>,
>
    decreases n - i,
{
    if i >= n {
        Ok(ops)
    } else {
        match zip_entry(b, i as int) {
            None => Err(ZIP_ERROR),
            Some(info) => match read_result(b, i as int) {
                Err(e) => Err(e),
                Ok(data) => {
                    let name = info.name@;
                    let stored = info.compression == Compression::Stored;
                    let permissions = entry_mode(info) & 0o777u32;
                    if name == C2PA_ENTRY@ {
                        rebuild(b, format, i + 1, n, ops)
                    } else if info.directory {
                        let next = ops.push(ZipOp::Directory(name, stored, permissions));
                        if !zip_accepts(next) {
                            Err(ZIP_ERROR)
                        } else {
                            rebuild(b, format, i + 1, n, next)
                        }
                    } else {
                        match cleaned_data(format, name, data) {
                            Err(e) => Err(e),
                            Ok(cleaned) => {
                                let started = ops.push(ZipOp::File(name, stored, permissions));
                                let filled = started.push(ZipOp::Data(cleaned));
                                if !zip_accepts(started) {
                                    Err(ZIP_ERROR)
                                } else if !zip_accepts(filled) {
                                    Err(IO_ERROR)
                                } else {
                                    rebuild(b, format, i + 1, n, filled)
                                }
                            },
                        }
                    }
                },
            },
        }
    }
}

/// Whether `r` is what sanitizing gives for the container `b`: the
/// detection error; else the analysis error; else the archive the writer
/// finishes after the calls `rebuild` makes for every entry, with the number
/// of items analysis found as `removed_items`, or the error that stops it.
pub open spec fn sanitization(b: Seq<u8>, r: BinaryResult<CleanedBinary>) -> bool {
    match detection(b) {
        Err(e) => r == Err::<CleanedBinary, &'static str>(e),
        Ok(format) => exists|runs: Seq<Seq<XmlItem>>, a: BinaryResult<ParsedBinary>|
            #[trigger] document_analysis(b, runs, a) && runs_read(b, runs) && match a {
                Err(e) => r == Err::<CleanedBinary, &'static str>(e),
                Ok(before) => match rebuild(b, format, 0, zip_len(b) as nat, Seq::empty()) {
                    Err(e) => r == Err::<CleanedBinary, &'static str>(e),
                    Ok(ops) => match zip_finished(ops) {
                        None => r == Err::<CleanedBinary, &'static str>(ZIP_ERROR),
                        Some(out) => r is Ok && r->Ok_0.bytes@ == out && r->Ok_0.removed_items
                            == capped_total(before.findings@),
                    },
                },
            },
    }
}

/// Rewrites a document container: the C2PA manifest is dropped, package
/// properties are replaced by empty canonical ones, private attributes of
/// the revision and comment parts are scrubbed, and invisible payloads are
/// deleted from every XML part. Entries keep their order, compression and
/// permissions and get a fixed timestamp. `removed_items` is the number of
/// items the analysis found; the rewritten archive is what the `zip` writer
/// produced.
pub fn sanitize(bytes: &[u8]) -> (r: BinaryResult<CleanedBinary>)
    ensures
        sanitization(bytes@, r),
{
    let ghost b = bytes@;
    let format = match detect(bytes) {
        Ok(format) => format,
        Err(e) => return Err(e),
    };
    let analysis = analyze(bytes);
    let ghost runs = choose|runs: Seq<Seq<XmlItem>>|
        runs_read(b, runs) && document_analysis(b, runs, analysis);
    let ghost a = analysis;
    let before = match analysis {
        Ok(before) => before,
        Err(e) => {
            assert(document_analysis(b, runs, a) && runs_read(b, runs));
            return Err(e);
        },
    };
    let removed_items = before.metadata_count();
    let mut archive = match open(bytes) {
        Ok(archive) => archive,
        Err(e) => return Err(e),
    };
    match validate(&mut archive) {
        Ok(()) => {},
        Err(e) => return Err(e),
    }
    let mut writer = new_writer();
    let len = archive_len(&archive);
    let ghost n = len as nat;
    let mut index: usize = 0;
    proof {
        reveal_strlit("META-INF/content_credential.c2pa");
    }
    while index < len
        invariant
            b == bytes@,
            index <= len,
            n == len,
            len == zip_len(b),
            archive_source(archive) == b,
            detection(b) == Ok::<BinaryFormat, &'static str>(format),
            zip_accepts(writer.log()),
            rebuild(b, format, index as nat, n, writer.log()) == rebuild(b, format, 0, n, Seq::empty()),
            document_analysis(b, runs, a),
            runs_read(b, runs),
            a == Ok::<ParsedBinary, &'static str>(before),
        decreases len - index,
    {
        let ghost i = index as nat;
        let ghost log = writer.log();
        let info = match entry_info(&mut archive, index) {
            Some(info) => info,
            None => {
                assert(document_analysis(b, runs, a) && runs_read(b, runs));
                return Err(ZIP_ERROR);
            },
        };
        let name = chars_of(info.name.as_str());
        let stored = info.compression == Compression::Stored;
        let mode = match info.unix_mode {
            Some(mode) => mode,
            None => if info.directory {
                0o700u32
            } else {
                0o600u32
            },
        };
        let permissions = mode & 0o777u32;
        assert(permissions == entry_mode(info) & 0o777u32);
        let data = match read_entry(&mut archive, index) {
            Ok(data) => data,
            Err(e) => {
                assert(document_analysis(b, runs, a) && runs_read(b, runs));
                return Err(e);
            },
        };
        index = index + 1;
        if is_named(name.as_slice(), C2PA_ENTRY) {
            continue ;
        }
        if info.directory {
            if !add_directory(&mut writer, info.name.as_str(), stored, permissions) {
                assert(document_analysis(b, runs, a) && runs_read(b, runs));
                return Err(ZIP_ERROR);
            }
        } else {
            let cleaned = match clean_entry(format, name.as_slice(), data.as_slice()) {
                Ok(cleaned) => cleaned,
                Err(e) => {
                    assert(document_analysis(b, runs, a) && runs_read(b, runs));
                    return Err(e);
                },
            };
            if !start_file(&mut writer, info.name.as_str(), stored, permissions) {
                assert(document_analysis(b, runs, a) && runs_read(b, runs));
                return Err(ZIP_ERROR);
            }
            if !write_data(&mut writer, cleaned.as_slice()) {
                assert(document_analysis(b, runs, a) && runs_read(b, runs));
                return Err(IO_ERROR);
            }
        }
    }
    assert(rebuild(b, format, n, n, writer.log()) == Ok::<Seq<ZipOp>, &'static str>(writer.log()));
    let ghost ops = writer.log();
    let r = match finish_writer(writer) {
        Some(output) => Ok(CleanedBinary { bytes: output, removed_items }),
        None => Err(ZIP_ERROR),
    };
    assert(document_analysis(b, runs, a) && runs_read(b, runs));
    r
}

/// In every OOXML container the custom-properties part
/// `docProps/custom.xml` is replaced by the canonical empty one, whatever it
/// held; and analysis counts such a part that differs from it as a
/// document-properties finding.
pub proof fn law_custom_properties_are_canonical(
    format: BinaryFormat,
    data: Seq<u8>,
    b: Seq<u8>,
    i: int,
    t: Tally,
    run: Seq<XmlItem>,
)
    requires
        is_ooxml(format),
    ensures
        cleaned_data(format, "docProps/custom.xml"@, data) == Ok::<Seq<u8>, &'static str>(
            encode_utf8(DOCX_CUSTOM@),
        ),
        zip_name_for_index(b, i) == Some("docProps/custom.xml"@) && read_result(b, i) == Ok::<
            Seq<u8>,
            &'static str,
        >(data) && data != encode_utf8(DOCX_CUSTOM@) ==> (tally_step(b, format, i, t, run) matches Ok(
            next,
        ) ==> next.properties == sat(t.properties, 1)),
{
    reveal_strlit("docProps/core.xml");
    reveal_strlit("docProps/custom.xml");
    reveal_strlit("/");
    reveal_strlit("META-INF/content_credential.c2pa");
    let name = "docProps/custom.xml"@;
    assert(name != "docProps/core.xml"@) by {
        assert(name[10] != "docProps/core.xml"@[10]);
    }
    assert(!ends_with(name, "/"@)) by {
        assert(name.subrange(name.len() - 1, name.len() as int)[0] == name[name.len() - 1]);
    }
    assert(name != C2PA_ENTRY@) by {
        assert(name[0] != C2PA_ENTRY@[0]);
    }
}

} // verus!
