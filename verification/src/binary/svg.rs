//! SVG: an XML document whose root is `svg`. Metadata, comments, scripts,
//! event handlers, external references and invisible Unicode are reported
//! and removed.
use vstd::prelude::*;

use super::markup::{
    ascii_lower, local_chars, local_part, safe_payloads, same_chars, starts_with_chars,
    to_ascii_lower, unicode_count,
};
use super::model::{
    finding_if, push_finding, BinaryFinding, BinaryFormat, BinaryResult, CleanedBinary, ParsedBinary,
};
use crate::engine::model::Mode;
use crate::engine::sanitizer::{sanitize as sanitize_text, sanitized};
use crate::text::chars_of;
use crate::xml::{
    next_item, read_items, write_cdata, write_element, write_raw, write_text, written, read_from, xml_event, xml_reader, xml_writer, out_after, out_then, pairs,
    lemma_out_after_push, xml_serialized, XmlOut,
    XmlAttribute, XmlItem, XmlKind,
};

verus! {

/// The largest SVG document accepted, in bytes.
pub const MAX_SVG_BYTES: usize = 33554432;

/// What an SVG document holds that sanitizing removes.
#[derive(Debug, Clone, Copy, PartialEq, Eq)]
pub struct SvgInventory {
    pub metadata: usize,
    pub comments: usize,
    pub active_content: usize,
    pub external_references: usize,
    pub unicode_payloads: usize,
    pub c2pa: usize,
}

pub open spec fn empty_inventory() -> SvgInventory {
    SvgInventory {
        metadata: 0,
        comments: 0,
        active_content: 0,
        external_references: 0,
        unicode_payloads: 0,
        c2pa: 0,
    }
}

/// `a + b`, or `usize::MAX` where that overflows.
pub open spec fn sat(a: usize, b: nat) -> usize {
    if a + b > usize::MAX {
        usize::MAX
    } else {
        (a + b) as usize
    }
}

/// Unicode `White_Space`, the whitespace that `str::trim` removes.
pub open spec fn is_space(c: char) -> bool {
    let v = c as u32;
    (0x09 <= v && v <= 0x0D) || v == 0x20 || v == 0x85 || v == 0xA0 || v == 0x1680 || (0x2000
        <= v && v <= 0x200A) || v == 0x2028 || v == 0x2029 || v == 0x202F || v == 0x205F || v
        == 0x3000
}

fn space(c: char) -> (r: bool)
    ensures
        r == is_space(c),
{
    let v = c as u32;
    (0x09 <= v && v <= 0x0D) || v == 0x20 || v == 0x85 || v == 0xA0 || v == 0x1680 || (0x2000
        <= v && v <= 0x200A) || v == 0x2028 || v == 0x2029 || v == 0x202F || v == 0x205F || v
        == 0x3000
}

/// The index of the first character of `s` that is not whitespace.
pub open spec fn trim_start(s: Seq<char>, i: int) -> int
    decreases s.len() - i,
{
    if 0 <= i < s.len() && is_space(s[i]) {
        trim_start(s, i + 1)
    } else {
        i
    }
}

/// Whether `s` begins with `prefix`, ignoring ASCII case; `prefix` is lower
/// case.
pub open spec fn starts_with_ignoring_case(s: Seq<char>, prefix: Seq<char>) -> bool {
    prefix.len() <= s.len() && forall|k: int| 0 <= k < prefix.len() ==> ascii_lower(s[k])
        == prefix[k]
}

/// Whether an attribute value points outside the document: a web, protocol
/// relative, data, script or file URL, leading whitespace ignored.
pub open spec fn external_reference(value: Seq<char>) -> bool {
    let t = value.subrange(trim_start(value, 0), value.len() as int);
    ||| starts_with_ignoring_case(t, "http:"@)
    ||| starts_with_ignoring_case(t, "https:"@)
    ||| starts_with_ignoring_case(t, "//"@)
    ||| starts_with_ignoring_case(t, "data:"@)
    ||| starts_with_ignoring_case(t, "javascript:"@)
    ||| starts_with_ignoring_case(t, "file:"@)
}

/// Whether an attribute's local name is an event handler: `on` and more.
pub open spec fn is_handler(local: Seq<char>) -> bool {
    local.len() > 2 && ascii_lower(local[0]) == 'o' && ascii_lower(local[1]) == 'n'
}

fn prefix_ignoring_case(s: &Vec<char>, start: usize, prefix: &str) -> (r: bool)
    requires
        start <= s@.len(),
    ensures
        r == starts_with_ignoring_case(s@.subrange(start as int, s@.len() as int), prefix@),
{
    let p = chars_of(prefix);
    let n = s.len();
    if p.len() > n - start {
        return false;
    }
    let mut k: usize = 0;
    while k < p.len()
        invariant
            start <= s@.len(),
            n == s@.len(),
            p@ == prefix@,
            k <= p.len() <= s@.len() - start,
            forall|j: int| 0 <= j < k ==> ascii_lower(s@[start + j]) == p@[j],
        decreases p.len() - k,
    {
        if to_ascii_lower(s[start + k]) != p[k] {
            assert(ascii_lower(s@.subrange(start as int, s@.len() as int)[k as int]) != prefix@[k as int]);
            return false;
        }
        k = k + 1;
    }
    true
}

/// Whether the raw attribute value points outside the document.
pub fn is_external_reference(value: &str) -> (r: bool)
    ensures
        r == external_reference(value@),
{
    let chars = chars_of(value);
    let mut start: usize = 0;
    while start < chars.len() && space(chars[start])
        invariant
            start <= chars.len(),
            chars@ == value@,
            trim_start(chars@, start as int) == trim_start(chars@, 0),
        decreases chars.len() - start,
    {
        start = start + 1;
    }
    prefix_ignoring_case(&chars, start, "http:") || prefix_ignoring_case(&chars, start, "https:")
        || prefix_ignoring_case(&chars, start, "//") || prefix_ignoring_case(&chars, start, "data:")
        || prefix_ignoring_case(&chars, start, "javascript:") || prefix_ignoring_case(
        &chars,
        start,
        "file:",
    )
}

fn is_event_handler(local: &Vec<char>) -> (r: bool)
    ensures
        r == is_handler(local@),
{
    local.len() > 2 && to_ascii_lower(local[0]) == 'o' && to_ascii_lower(local[1]) == 'n'
}

/// The inventory after the element `name` itself.
pub open spec fn count_element(inv: SvgInventory, name: Seq<char>) -> SvgInventory {
    let local = local_part(name);
    let inv1 = if local == "metadata"@ {
        SvgInventory { metadata: sat(inv.metadata, 1), ..inv }
    } else if local == "script"@ {
        SvgInventory { active_content: sat(inv.active_content, 1), ..inv }
    } else {
        inv
    };
    if local == "manifest"@ && "c2pa:"@.len() <= name.len() && name.subrange(0, 5) == "c2pa:"@ {
        SvgInventory { c2pa: sat(inv1.c2pa, 1), ..inv1 }
    } else {
        inv1
    }
}

/// The inventory after one attribute.
pub open spec fn count_attribute(inv: SvgInventory, a: XmlAttribute) -> SvgInventory {
    let local = local_part(a.key@);
    let inv1 = if is_handler(local) {
        SvgInventory { active_content: sat(inv.active_content, 1), ..inv }
    } else if local == "href"@ && external_reference(a.value@) {
        SvgInventory { external_references: sat(inv.external_references, 1), ..inv }
    } else {
        inv
    };
    SvgInventory { unicode_payloads: sat(inv1.unicode_payloads, safe_payloads(a.value@)), ..inv1 }
}

/// The inventory after a list of attributes.
pub open spec fn count_attributes(inv: SvgInventory, attributes: Seq<XmlAttribute>) -> SvgInventory
    decreases attributes.len(),
{
    if attributes.len() == 0 {
        inv
    } else {
        count_attribute(count_attributes(inv, attributes.drop_last()), attributes.last())
    }
}

/// The inventory of the events from `i` on, starting from `inv`; `root_seen`
/// says that the root element came before. Running out of events means that
/// the reader reported malformed XML.
pub open spec fn scan(items: Seq<XmlItem>, i: int, inv: SvgInventory, root_seen: bool) -> BinaryResult<
    SvgInventory,
>
    decreases items.len() - i,
{
    if i < 0 || i >= items.len() {
        Err("Malformed SVG XML rejected.")
    } else {
        let item = items[i];
        match item.kind {
            XmlKind::Start | XmlKind::Empty => if !root_seen && local_part(item.name@) != "svg"@ {
                Err("XML root is not SVG.")
            } else {
                match item.attributes {
                    None => Err("Malformed SVG attribute rejected."),
                    Some(attributes) => scan(
                        items,
                        i + 1,
                        count_attributes(count_element(inv, item.name@), attributes@),
                        true,
                    ),
                }
            },
            XmlKind::Text | XmlKind::CData => scan(
                items,
                i + 1,
                SvgInventory { unicode_payloads: sat(inv.unicode_payloads, safe_payloads(item.text@)), ..inv },
                root_seen,
            ),
            XmlKind::Comment => scan(
                items,
                i + 1,
                SvgInventory { comments: sat(inv.comments, 1), ..inv },
                root_seen,
            ),
            XmlKind::DocType => Err("SVG document type declarations are rejected."),
            XmlKind::Eof => if !root_seen {
                Err("SVG root element missing.")
            } else {
                Ok(inv)
            },
            _ => scan(items, i + 1, inv, root_seen),
        }
    }
}

/// The inventory of an SVG document whose reader produced `items`.
pub open spec fn svg_inventory(bytes: Seq<u8>, items: Seq<XmlItem>) -> BinaryResult<SvgInventory> {
    if bytes.len() == 0 || bytes.len() > MAX_SVG_BYTES {
        Err("SVG size boundary rejected.")
    } else {
        scan(items, 0, empty_inventory(), false)
    }
}

fn count_element_exec(inv: &mut SvgInventory, name: &str)
    ensures
        *final(inv) == count_element(*old(inv), name@),
{
    let local = local_chars(name);
    let chars = chars_of(name);
    if same_chars(local.as_slice(), chars_of("metadata").as_slice()) {
        inv.metadata = inv.metadata.saturating_add(1);
    } else if same_chars(local.as_slice(), chars_of("script").as_slice()) {
        inv.active_content = inv.active_content.saturating_add(1);
    }
    if same_chars(local.as_slice(), chars_of("manifest").as_slice()) && starts_with_chars(
        chars.as_slice(),
        chars_of("c2pa:").as_slice(),
    ) {
        proof {
            reveal_strlit("c2pa:");
        }
        inv.c2pa = inv.c2pa.saturating_add(1);
    }
    proof {
        reveal_strlit("c2pa:");
    }
}

fn count_attributes_exec(inv: &mut SvgInventory, attributes: &Vec<XmlAttribute>)
    ensures
        *final(inv) == count_attributes(*old(inv), attributes@),
{
    let ghost start = *inv;
    let mut i: usize = 0;
    while i < attributes.len()
        invariant
            i <= attributes.len(),
            *inv == count_attributes(start, attributes@.take(i as int)),
        decreases attributes.len() - i,
    {
        assert(attributes@.take(i + 1).drop_last() == attributes@.take(i as int));
        let attribute = &attributes[i];
        let local = local_chars(attribute.key.as_str());
        if is_event_handler(&local) {
            inv.active_content = inv.active_content.saturating_add(1);
        } else if same_chars(local.as_slice(), chars_of("href").as_slice()) && is_external_reference(
            attribute.value.as_str(),
        ) {
            inv.external_references = inv.external_references.saturating_add(1);
        }
        let payloads = unicode_count(attribute.value.as_str());
        inv.unicode_payloads = inv.unicode_payloads.saturating_add(payloads);
        i = i + 1;
    }
    assert(attributes@.take(i as int) == attributes@);
}

/// The inventory of an SVG document of `bytes` whose reader produced
/// `items`.
pub fn inventory_of(bytes: &[u8], items: &Vec<XmlItem>) -> (r: BinaryResult<SvgInventory>)
    ensures
        r == svg_inventory(bytes@, items@),
{
    if bytes.len() == 0 || bytes.len() > MAX_SVG_BYTES {
        return Err("SVG size boundary rejected.");
    }
    let mut inv = SvgInventory {
        metadata: 0,
        comments: 0,
        active_content: 0,
        external_references: 0,
        unicode_payloads: 0,
        c2pa: 0,
    };
    let mut root_seen = false;
    let mut i: usize = 0;
    while i < items.len()
        invariant
            0 < bytes@.len() <= MAX_SVG_BYTES,
            i <= items@.len(),
            svg_inventory(bytes@, items@) == scan(items@, i as int, inv, root_seen),
        decreases items.len() - i,
    {
        let item = &items[i];
        match item.kind {
            XmlKind::Start | XmlKind::Empty => {
                if !root_seen {
                    let local = local_chars(item.name.as_str());
                    if !same_chars(local.as_slice(), chars_of("svg").as_slice()) {
                        return Err("XML root is not SVG.");
                    }
                    root_seen = true;
                }
                count_element_exec(&mut inv, item.name.as_str());
                match &item.attributes {
                    None => return Err("Malformed SVG attribute rejected."),
                    Some(attributes) => count_attributes_exec(&mut inv, attributes),
                }
            },
            XmlKind::Text | XmlKind::CData => {
                let payloads = unicode_count(item.text.as_str());
                inv.unicode_payloads = inv.unicode_payloads.saturating_add(payloads);
            },
            XmlKind::Comment => {
                inv.comments = inv.comments.saturating_add(1);
            },
            XmlKind::DocType => return Err("SVG document type declarations are rejected."),
            XmlKind::Eof => {
                return if !root_seen {
                    Err("SVG root element missing.")
                } else {
                    Ok(inv)
                };
            },
            _ => {},
        }
        i = i + 1;
    }
    Err("Malformed SVG XML rejected.")
}

/// Whether `items` are the events of an SVG document of `bytes` that is
/// read: those `quick_xml` reads from it, where its size is accepted.
pub open spec fn svg_events(bytes: Seq<u8>, items: Seq<XmlItem>) -> bool {
    bytes.len() == 0 || bytes.len() > MAX_SVG_BYTES || read_from(bytes, items)
}

/// Reads an SVG document and takes its inventory. The events come from
/// `quick_xml`; the result is the inventory of the events it produced.
pub fn inventory(bytes: &[u8]) -> (r: BinaryResult<SvgInventory>)
    ensures
        exists|items: Seq<XmlItem>| svg_events(bytes@, items) && r == svg_inventory(bytes@, items),
{
    if bytes.len() == 0 || bytes.len() > MAX_SVG_BYTES {
        let r = Err("SVG size boundary rejected.");
        assert(svg_events(bytes@, Seq::empty()) && r == svg_inventory(bytes@, Seq::empty()));
        return r;
    }
    let items = read_items(bytes);
    let r = inventory_of(bytes, &items);
    assert(svg_events(bytes@, items@) && r == svg_inventory(bytes@, items@));
    r
}

/// The ASCII whitespace that `u8::is_ascii_whitespace` accepts.
pub open spec fn is_ascii_space(b: u8) -> bool {
    b == 0x20 || b == 0x09 || b == 0x0A || b == 0x0C || b == 0x0D
}

/// The index of the first byte from `i` on that is not ASCII whitespace.
pub open spec fn skip_ascii_space(b: Seq<u8>, i: int) -> int
    decreases b.len() - i,
{
    if 0 <= i < b.len() && is_ascii_space(b[i]) {
        skip_ascii_space(b, i + 1)
    } else {
        i
    }
}

/// Whether `bytes` may be XML: after an optional UTF-8 byte order mark, the
/// first byte that is not whitespace is `<`.
pub open spec fn svg_candidate(bytes: Seq<u8>) -> bool {
    let start = if bytes.len() >= 3 && bytes[0] == 0xEF && bytes[1] == 0xBB && bytes[2] == 0xBF {
        3int
    } else {
        0int
    };
    let k = skip_ascii_space(bytes, start);
    0 <= k < bytes.len() && bytes[k] == 0x3C
}

pub fn is_candidate(bytes: &[u8]) -> (r: bool)
    ensures
        r == svg_candidate(bytes@),
{
    let start: usize = if bytes.len() >= 3 && bytes[0] == 0xEF && bytes[1] == 0xBB && bytes[2] == 0xBF {
        3
    } else {
        0
    };
    let mut k = start;
    while k < bytes.len() && (bytes[k] == 0x20 || bytes[k] == 0x09 || bytes[k] == 0x0A || bytes[k]
        == 0x0C || bytes[k] == 0x0D)
        invariant
            start <= k <= bytes@.len(),
            skip_ascii_space(bytes@, k as int) == skip_ascii_space(bytes@, start as int),
        decreases bytes.len() - k,
    {
        k = k + 1;
    }
    k < bytes.len() && bytes[k] == 0x3C
}

/// The findings SVG analysis reports for an inventory.
pub open spec fn svg_findings(inv: SvgInventory) -> Seq<BinaryFinding> {
    finding_if("svg-metadata", inv.metadata as nat, "SVG metadata elements") + finding_if(
        "svg-comments",
        inv.comments as nat,
        "SVG comments",
    ) + finding_if("active-content", inv.active_content as nat, "SVG scripts and event handlers")
        + finding_if("external-references", inv.external_references as nat, "External SVG references")
        + finding_if("unicode", inv.unicode_payloads as nat, "Invisible Unicode payloads in SVG")
        + finding_if("c2pa", inv.c2pa as nat, "SVG C2PA provenance manifest")
}

/// The findings of an inventory, in report order.
pub fn findings_of(inv: &SvgInventory) -> (findings: Vec<BinaryFinding>)
    ensures
        findings@ == svg_findings(*inv),
{
    let mut findings: Vec<BinaryFinding> = Vec::new();
    push_finding(&mut findings, "svg-metadata", inv.metadata, "SVG metadata elements");
    push_finding(&mut findings, "svg-comments", inv.comments, "SVG comments");
    push_finding(&mut findings, "active-content", inv.active_content, "SVG scripts and event handlers");
    push_finding(&mut findings, "external-references", inv.external_references, "External SVG references");
    push_finding(&mut findings, "unicode", inv.unicode_payloads, "Invisible Unicode payloads in SVG");
    push_finding(&mut findings, "c2pa", inv.c2pa, "SVG C2PA provenance manifest");
    assert(findings@ =~= svg_findings(*inv));
    findings
}

/// Whether `r` is what analysis reports for an SVG document whose reader
/// produced `items`.
pub open spec fn svg_analysis(bytes: Seq<u8>, items: Seq<XmlItem>, r: BinaryResult<ParsedBinary>) -> bool {
    match svg_inventory(bytes, items) {
        Ok(inv) => r is Ok && r->Ok_0.format == BinaryFormat::Svg && r->Ok_0.findings@ == svg_findings(inv)
            && r->Ok_0.c2pa_detected == (inv.c2pa > 0),
        Err(e) => r == Err::<ParsedBinary, &'static str>(e),
    }
}

/// Reports the metadata, comments, active content, external references,
/// invisible Unicode and C2PA manifests of an SVG document of `bytes` whose
/// reader produced `items`.
pub fn analysis_of(bytes: &[u8], items: &Vec<XmlItem>) -> (r: BinaryResult<ParsedBinary>)
    ensures
        svg_analysis(bytes@, items@, r),
{
    match inventory_of(bytes, items) {
        Ok(inv) => Ok(
            ParsedBinary {
                format: BinaryFormat::Svg,
                findings: findings_of(&inv),
                c2pa_detected: inv.c2pa > 0,
            },
        ),
        Err(e) => Err(e),
    }
}

/// Reports the metadata, comments, active content, external references,
/// invisible Unicode and C2PA manifests of an SVG document. The events come
/// from `quick_xml`; the result is that of the events it produced.
pub fn analyze(bytes: &[u8]) -> (r: BinaryResult<ParsedBinary>)
    ensures
        exists|items: Seq<XmlItem>| svg_events(bytes@, items) && svg_analysis(bytes@, items, r),
{
    let items = if bytes.len() == 0 || bytes.len() > MAX_SVG_BYTES {
        Vec::new()
    } else {
        read_items(bytes)
    };
    let r = analysis_of(bytes, &items);
    assert(svg_events(bytes@, items@) && svg_analysis(bytes@, items@, r));
    r
}

/// Whether `r` is what detection reports for a document whose reader
/// produced `items`.
pub open spec fn svg_detection(bytes: Seq<u8>, items: Seq<XmlItem>, r: BinaryResult<BinaryFormat>) -> bool {
    match svg_inventory(bytes, items) {
        Ok(_) => r == Ok::<BinaryFormat, &'static str>(BinaryFormat::Svg),
        Err(e) => r == Err::<BinaryFormat, &'static str>(e),
    }
}

/// Confirms that `bytes` is an SVG document.
pub fn detect(bytes: &[u8]) -> (r: BinaryResult<BinaryFormat>)
    ensures
        exists|items: Seq<XmlItem>| svg_events(bytes@, items) && svg_detection(bytes@, items, r),
{
    let result = inventory(bytes);
    let ghost items = choose|items: Seq<XmlItem>|
        svg_events(bytes@, items) && result == svg_inventory(bytes@, items);
    let r = match result {
        Ok(_) => Ok(BinaryFormat::Svg),
        Err(e) => Err(e),
    };
    assert(svg_detection(bytes@, items, r));
    r
}

/// The attributes that sanitizing keeps, as (name, value) pairs: event
/// handlers and external references are dropped, and invisible payloads are
/// deleted from the values that remain.
pub open spec fn cleaned_attributes(attributes: Seq<XmlAttribute>) -> Seq<(Seq<char>, Seq<char>)>
    decreases attributes.len(),
{
    if attributes.len() == 0 {
        Seq::empty()
    } else {
        let a = attributes.last();
        let local = local_part(a.key@);
        cleaned_attributes(attributes.drop_last()) + if is_handler(local) || (local == "href"@
            && external_reference(a.value@)) {
            Seq::empty()
        } else {
            seq![(a.key@, sanitized(a.value@, Mode::Safe))]
        }
    }
}

/// Drops event handlers and external references and cleans the remaining
/// attribute values.
pub fn clean_attributes(attributes: &Vec<XmlAttribute>) -> (cleaned: Vec<XmlAttribute>)
    ensures
        cleaned@.len() == cleaned_attributes(attributes@).len(),
        forall|k: int|
            0 <= k < cleaned@.len() ==> (#[trigger] cleaned@[k]).key@ == cleaned_attributes(
                attributes@,
            )[k].0 && cleaned@[k].value@ == cleaned_attributes(attributes@)[k].1,
{
    let mut cleaned: Vec<XmlAttribute> = Vec::new();
    let mut i: usize = 0;
    while i < attributes.len()
        invariant
            i <= attributes.len(),
            cleaned@.len() == cleaned_attributes(attributes@.take(i as int)).len(),
            forall|k: int|
                0 <= k < cleaned@.len() ==> (#[trigger] cleaned@[k]).key@ == cleaned_attributes(
                    attributes@.take(i as int),
                )[k].0 && cleaned@[k].value@ == cleaned_attributes(attributes@.take(i as int))[k].1,
        decreases attributes.len() - i,
    {
        assert(attributes@.take(i + 1).drop_last() == attributes@.take(i as int));
        let attribute = &attributes[i];
        let local = local_chars(attribute.key.as_str());
        let dropped = is_event_handler(&local) || (same_chars(local.as_slice(), chars_of("href").as_slice())
            && is_external_reference(attribute.value.as_str()));
        if !dropped {
            let value = sanitize_text(attribute.value.as_str(), Mode::Safe).output;
            let key = attribute.key.clone();
            cleaned.push(XmlAttribute { key, value });
        }
        i = i + 1;
    }
    assert(attributes@.take(i as int) == attributes@);
    cleaned
}

/// `cleaned_attributes` over (key, raw value) pairs.
pub open spec fn cleaned_pairs(attributes: Seq<(Seq<char>, Seq<char>)>) -> Seq<(Seq<char>, Seq<char>)>
    decreases attributes.len(),
{
    if attributes.len() == 0 {
        Seq::empty()
    } else {
        let a = attributes.last();
        let local = local_part(a.0);
        cleaned_pairs(attributes.drop_last()) + if is_handler(local) || (local == "href"@
            && external_reference(a.1)) {
            Seq::empty()
        } else {
            seq![(a.0, sanitized(a.1, Mode::Safe))]
        }
    }
}

proof fn lemma_cleaned_pairs(attributes: Seq<XmlAttribute>)
    ensures
        cleaned_attributes(attributes) == cleaned_pairs(pairs(attributes)),
    decreases attributes.len(),
{
    if attributes.len() > 0 {
        lemma_cleaned_pairs(attributes.drop_last());
        assert(pairs(attributes).drop_last() =~= pairs(attributes.drop_last()));
    }
}

/// The sum of the counts of an inventory, `usize::MAX` where it overflows.
pub open spec fn inventory_total(inv: SvgInventory) -> usize {
    sat(sat(sat(sat(sat(inv.metadata, inv.comments as nat), inv.active_content as nat), inv.external_references as nat), inv.unicode_payloads as nat), inv.c2pa as nat)
}

fn total_of(inv: &SvgInventory) -> (n: usize)
    ensures
        n == inventory_total(*inv),
{
    inv.metadata.saturating_add(inv.comments).saturating_add(inv.active_content).saturating_add(
        inv.external_references,
    ).saturating_add(inv.unicode_payloads).saturating_add(inv.c2pa)
}

/// Whether `r` is what sanitizing gives for an SVG document whose reader
/// produced `items`: the analysis error; else success exactly where the
/// rewrite reaches the end of the document, with the number of items the
/// analysis found as `removed_items`, or the error that stops the rewrite.
pub open spec fn sanitization(b: Seq<u8>, items: Seq<XmlItem>, r: BinaryResult<CleanedBinary>) -> bool {
    match svg_inventory(b, items) {
        Err(e) => r == Err::<CleanedBinary, &'static str>(e),
        Ok(inv) => {
            rewritten(b, inventory_total(inv), r)
        },
    }
}

/// Rewrites an SVG document without metadata, comments, scripts, event
/// handlers, external references and invisible Unicode. `removed_items` is the
/// number of items the analysis found; the rewritten document is what the
/// `quick_xml` writer produced.
pub fn sanitize(bytes: &[u8]) -> (r: BinaryResult<CleanedBinary>)
    ensures
        exists|items: Seq<XmlItem>| svg_events(bytes@, items) && sanitization(bytes@, items, r),
{
    let before_result = inventory(bytes);
    let ghost witness = choose|items: Seq<XmlItem>|
        svg_events(bytes@, items) && before_result == svg_inventory(bytes@, items);
    match before_result {
        Ok(inv) => {
            let r = rewrite(bytes, total_of(&inv));
            assert(sanitization(bytes@, witness, r));
            r
        },
        Err(e) => {
            assert(sanitization(bytes@, witness, Err(e)));
            Err(e)
        },
    }
}

/// Whether an element named `name` is dropped with everything inside it.
pub open spec fn is_dropped_element(name: Seq<char>) -> bool {
    local_part(name) == "metadata"@ || local_part(name) == "script"@
}

/// What rewriting the events of `source` from the `index`-th on writes, with
/// at most `fuel` events left and inside `depth` dropped elements: the
/// events written up to the end of the document, or the error that stops
/// the rewrite.
pub open spec fn rewrite_run(source: Seq<u8>, index: nat, fuel: nat, depth: nat) -> BinaryResult<
    Seq<XmlOut>,
>
    decreases fuel,
{
    if fuel == 0 {
        Err("Malformed SVG XML rejected.")
    } else {
        let next = (index + 1) as nat;
        let rest = (fuel - 1) as nat;
        match xml_event(source, index) {
            None => Err("Malformed SVG XML rejected."),
            Some(e) => if depth > 0 {
                match e.kind {
                    XmlKind::Start => rewrite_run(source, next, rest, depth + 1),
                    XmlKind::End => rewrite_run(source, next, rest, (depth - 1) as nat),
                    XmlKind::DocType => Err("SVG document type declarations are rejected."),
                    XmlKind::Eof => Err("Truncated private SVG subtree rejected."),
                    _ => rewrite_run(source, next, rest, depth),
                }
            } else {
                match e.kind {
                    XmlKind::Start | XmlKind::Empty => if is_dropped_element(e.name) {
                        rewrite_run(source, next, rest, if e.kind == XmlKind::Start { 1 } else { 0 })
                    } else {
                        match e.attributes {
                            None => Err("Malformed SVG attribute rejected."),
                            Some(attributes) => out_then(
                                XmlOut::Element(e.name, cleaned_pairs(attributes), e.kind == XmlKind::Empty),
                                rewrite_run(source, next, rest, 0),
                            ),
                        }
                    },
                    XmlKind::Text => out_then(
                        XmlOut::Text(sanitized(e.text, Mode::Safe)),
                        rewrite_run(source, next, rest, 0),
                    ),
                    XmlKind::CData => out_then(
                        XmlOut::CData(sanitized(e.text, Mode::Safe)),
                        rewrite_run(source, next, rest, 0),
                    ),
                    XmlKind::Comment => rewrite_run(source, next, rest, 0),
                    XmlKind::DocType => Err("SVG document type declarations are rejected."),
                    XmlKind::Eof => Ok(Seq::empty()),
                    _ => out_then(XmlOut::Raw(e.kind, e.text), rewrite_run(source, next, rest, 0)),
                }
            },
        }
    }
}

/// The cleaned document `rewrite` owes for `bytes` and `removed_items`: the
/// `quick_xml` serialization of the events the rewrite writes, or the error
/// that stops it.
pub open spec fn rewritten(bytes: Seq<u8>, removed_items: usize, r: BinaryResult<CleanedBinary>) -> bool {
    match rewrite_run(bytes, 0, (bytes.len() + 1) as nat, 0) {
        Ok(events) => r is Ok && r->Ok_0.bytes@ == xml_serialized(events) && r->Ok_0.removed_items
            == removed_items,
        Err(e) => r == Err::<CleanedBinary, &'static str>(e),
    }
}

/// Rewrites the document event by event: dropped elements are skipped with
/// their content, other elements are written with their attributes cleaned,
/// text and CDATA without invisible Unicode, comments are left out and the
/// remaining events are written as read, up to the end of the document.
fn rewrite(bytes: &[u8], removed_items: usize) -> (r: BinaryResult<CleanedBinary>)
    requires
        bytes@.len() <= MAX_SVG_BYTES,
    ensures
        rewritten(bytes@, removed_items, r),
{
    let mut reader = xml_reader(bytes);
    let mut writer = xml_writer();
    let mut skip_depth: usize = 0;
    let mut fuel = bytes.len() + 1;
    let ghost start = (bytes@.len() + 1) as nat;
    while fuel > 0
        invariant
            skip_depth < usize::MAX - fuel,
            bytes@.len() <= MAX_SVG_BYTES,
            reader.source() == bytes@,
            reader.position() + fuel == start,
            start == bytes@.len() + 1,
            out_after(writer.events(), rewrite_run(bytes@, reader.position(), fuel as nat, skip_depth as nat))
                == rewrite_run(bytes@, 0, start, 0),
        decreases fuel,
    {
        let ghost before = writer.events();
        fuel = fuel - 1;
        let item = match next_item(&mut reader) {
            Some(item) => item,
            None => return Err("Malformed SVG XML rejected."),
        };
        if skip_depth > 0 {
            match item.kind {
                XmlKind::Start => skip_depth = skip_depth + 1,
                XmlKind::End => skip_depth = skip_depth - 1,
                XmlKind::DocType => return Err("SVG document type declarations are rejected."),
                XmlKind::Eof => return Err("Truncated private SVG subtree rejected."),
                _ => {},
            }
            continue ;
        }
        match item.kind {
            XmlKind::Start | XmlKind::Empty => {
                let local = local_chars(item.name.as_str());
                let removed = same_chars(local.as_slice(), chars_of("metadata").as_slice()) || same_chars(
                    local.as_slice(),
                    chars_of("script").as_slice(),
                );
                if removed {
                    if item.kind == XmlKind::Start {
                        skip_depth = 1;
                    }
                } else {
                    let attributes = match &item.attributes {
                        Some(attributes) => {
                            let cleaned = clean_attributes(attributes);
                            proof {
                                lemma_cleaned_pairs(attributes@);
                                assert(pairs(cleaned@) =~= cleaned_attributes(attributes@));
                            }
                            cleaned
                        },
                        None => return Err("Malformed SVG attribute rejected."),
                    };
                    if !write_element(
                        &mut writer,
                        item.name.as_str(),
                        attributes.as_slice(),
                        item.kind == XmlKind::Empty,
                    ) {
                        return Err("SVG output write failed.");
                    }
                    proof {
                        lemma_out_after_push(before, writer.events().last(), rewrite_run(bytes@, reader.position(), fuel as nat, 0));
                        assert(writer.events() == before.push(writer.events().last()));
                    }
                }
            },
            XmlKind::Text => {
                let text = sanitize_text(item.text.as_str(), Mode::Safe).output;
                if !write_text(&mut writer, text.as_str()) {
                    return Err("SVG output write failed.");
                }
                proof {
                    lemma_out_after_push(before, writer.events().last(), rewrite_run(bytes@, reader.position(), fuel as nat, 0));
                    assert(writer.events() == before.push(writer.events().last()));
                }
            },
            XmlKind::CData => {
                let text = sanitize_text(item.text.as_str(), Mode::Safe).output;
                if !write_cdata(&mut writer, text.as_str()) {
                    return Err("SVG output write failed.");
                }
                proof {
                    lemma_out_after_push(before, writer.events().last(), rewrite_run(bytes@, reader.position(), fuel as nat, 0));
                    assert(writer.events() == before.push(writer.events().last()));
                }
            },
            XmlKind::Comment => {},
            XmlKind::DocType => return Err("SVG document type declarations are rejected."),
            XmlKind::Eof => {
                let ghost events = writer.events();
                assert(events + Seq::<XmlOut>::empty() =~= events);
                return Ok(CleanedBinary { bytes: written(writer), removed_items });
            },
            _ => {
                if !write_raw(&mut writer, item.kind, item.text.as_str()) {
                    return Err("SVG output write failed.");
                }
                proof {
                    lemma_out_after_push(before, writer.events().last(), rewrite_run(bytes@, reader.position(), fuel as nat, 0));
                    assert(writer.events() == before.push(writer.events().last()));
                }
            },
        }
    }
    Err("Malformed SVG XML rejected.")
}

proof fn lemma_trim_start_at(v: Seq<char>, i: int, k: int)
    requires
        0 <= i <= k < v.len(),
        forall|j: int| i <= j < k ==> is_space(#[trigger] v[j]),
        !is_space(v[k]),
    ensures
        trim_start(v, i) == k,
    decreases k - i,
{
    if i < k {
        lemma_trim_start_at(v, i + 1, k);
    }
}

/// An attribute value that, after leading whitespace, begins with `http:`
/// in any ASCII case is an external reference: an `href` holding it is
/// counted as one and dropped by sanitizing.
pub proof fn law_http_is_external_reference(
    inv: SvgInventory,
    attribute: XmlAttribute,
    key: Seq<char>,
    value: Seq<char>,
    k: int,
)
    requires
        attribute.key@ == key,
        attribute.value@ == value,
        0 <= k,
        k + 5 <= value.len(),
        forall|j: int| 0 <= j < k ==> is_space(#[trigger] value[j]),
        value[k] == 'h' || value[k] == 'H',
        value[k + 1] == 't' || value[k + 1] == 'T',
        value[k + 2] == 't' || value[k + 2] == 'T',
        value[k + 3] == 'p' || value[k + 3] == 'P',
        value[k + 4] == ':',
        local_part(key) == seq!['h', 'r', 'e', 'f'],
    ensures
        external_reference(value),
        cleaned_pairs(seq![(key, value)]) == Seq::<(Seq<char>, Seq<char>)>::empty(),
        count_attributes(inv, seq![attribute]).external_references == sat(inv.external_references, 1),
{
    reveal_strlit("http:");
    reveal_strlit("href");
    lemma_trim_start_at(value, 0, k);
    let t = value.subrange(k, value.len() as int);
    assert(starts_with_ignoring_case(t, "http:"@));
    assert(seq!['h', 'r', 'e', 'f'] == "href"@);
    assert(!is_handler(local_part(key)));
    assert(external_reference(value));
    assert(local_part(key) == "href"@);
    assert(seq![(key, value)].drop_last() =~= Seq::<(Seq<char>, Seq<char>)>::empty());
    assert(seq![(key, value)].last() == (key, value));
    assert(cleaned_pairs(Seq::<(Seq<char>, Seq<char>)>::empty()) =~= Seq::<(Seq<char>, Seq<char>)>::empty());
    assert(seq![attribute].drop_last() =~= Seq::<XmlAttribute>::empty());
    assert(seq![attribute].last() == attribute);
    assert(count_attributes(inv, Seq::<XmlAttribute>::empty()) == inv);
    assert(local_part(attribute.key@) == "href"@);
}

} // verus!
