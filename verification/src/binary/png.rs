//! PNG: a signature followed by CRC-protected chunks, from `IHDR` to `IEND`.
use vstd::prelude::*;

use super::bytes::{append_range, be32, has_prefix, read_be32, starts_with};
use super::model::{
    findings_total, lemma_total_concat, lemma_total_finding_if, finding_if, push_finding, BinaryFinding, BinaryFormat, BinaryResult, CleanedBinary, ParsedBinary,
};

verus! {

/// The eight bytes every PNG file begins with.
pub open spec fn png_signature() -> Seq<u8> {
    seq![0x89u8, 0x50, 0x4E, 0x47, 0x0D, 0x0A, 0x1A, 0x0A]
}

pub fn signature() -> (s: Vec<u8>)
    ensures
        s@ == png_signature(),
{
    let s = vec![0x89u8, 0x50, 0x4E, 0x47, 0x0D, 0x0A, 0x1A, 0x0A];
    assert(s@ =~= png_signature());
    s
}

/// The CRC-32 (ISO-HDLC polynomial, as PNG uses it) of a byte sequence.
pub uninterp spec fn crc32_of(data: Seq<u8>) -> u32;

/// `crc32fast::hash`: the CRC-32 of `data`.
#[verifier::external_body]
fn crc32(data: &[u8]) -> (crc: u32)
    ensures
        crc == crc32_of(data@),
{
    crc32fast::hash(data)
}

pub const IHDR: u32 = 0x49484452;
pub const IDAT: u32 = 0x49444154;
pub const IEND: u32 = 0x49454E44;
pub const EXIF: u32 = 0x65584966;
pub const TEXT: u32 = 0x74455874;
pub const ZTXT: u32 = 0x7A545874;
pub const ITXT: u32 = 0x69545874;
pub const TIME: u32 = 0x74494D45;
pub const CABX: u32 = 0x63614258;

/// One chunk: its four-letter type read as a big-endian number, and the byte
/// range from its length field to the end of its CRC.
#[derive(Debug, Clone, Copy, PartialEq, Eq)]
pub struct Chunk {
    pub kind: u32,
    pub start: usize,
    pub end: usize,
}

pub open spec fn is_ascii_alpha(b: u8) -> bool {
    (0x41 <= b && b <= 0x5A) || (0x61 <= b && b <= 0x7A)
}

/// The chunks from `offset` on. `first` says that no chunk came before;
/// `seen_data` and `seen_end` that an `IDAT` or `IEND` chunk did.
pub open spec fn walk(b: Seq<u8>, offset: int, first: bool, seen_data: bool, seen_end: bool)
    -> BinaryResult<Seq<Chunk>>
    decreases b.len() - offset,
{
    if offset < b.len() {
        if seen_end || b.len() - offset < 12 {
            Err("Malformed PNG chunk boundary.")
        } else {
            let length = be32(b, offset);
            let data_start = offset + 8;
            let data_end = data_start + length;
            let end = data_end + 4;
            if data_start > usize::MAX {
                Err("PNG offset overflow.")
            } else if data_end > usize::MAX {
                Err("PNG chunk length overflow.")
            } else if end > usize::MAX {
                Err("PNG CRC boundary overflow.")
            } else if end > b.len() {
                Err("Truncated PNG chunk.")
            } else if !(is_ascii_alpha(b[offset + 4]) && is_ascii_alpha(b[offset + 5])
                && is_ascii_alpha(b[offset + 6]) && is_ascii_alpha(b[offset + 7])) {
                Err("Invalid PNG chunk type bytes.")
            } else if crc32_of(b.subrange(offset + 4, data_end)) != be32(b, data_end) {
                Err("PNG CRC validation failed.")
            } else {
                let kind = be32(b, offset + 4);
                if first && (kind != IHDR || length != 13) {
                    Err("PNG must begin with a 13-byte IHDR chunk.")
                } else if !first && kind == IHDR {
                    Err("Duplicate PNG IHDR chunk.")
                } else if kind == IEND && (length != 0 || end != b.len()) {
                    Err("PNG IEND or trailing-data validation failed.")
                } else {
                    match walk(b, end, false, seen_data || kind == IDAT, seen_end || kind == IEND) {
                        Ok(rest) => Ok(
                            seq![Chunk { kind: kind as u32, start: offset as usize, end: end as usize }]
                                + rest,
                        ),
                        Err(e) => Err(e),
                    }
                }
            }
        }
    } else if first || !seen_data || !seen_end {
        Err("PNG structural validation failed.")
    } else {
        Ok(Seq::empty())
    }
}

/// The chunk list of a well-formed PNG file, or why the file is rejected.
pub open spec fn png_chunks(b: Seq<u8>) -> BinaryResult<Seq<Chunk>> {
    if !has_prefix(b, png_signature()) {
        Err("PNG signature validation failed.")
    } else {
        walk(b, 8, true, false, false)
    }
}

pub open spec fn after(prefix: Seq<Chunk>, r: BinaryResult<Seq<Chunk>>) -> BinaryResult<Seq<Chunk>> {
    match r {
        Ok(rest) => Ok(prefix + rest),
        Err(e) => Err(e),
    }
}

fn is_alpha(b: u8) -> (r: bool)
    ensures
        r == is_ascii_alpha(b),
{
    (0x41 <= b && b <= 0x5A) || (0x61 <= b && b <= 0x7A)
}

fn parse(bytes: &[u8]) -> (r: BinaryResult<Vec<Chunk>>)
    ensures
        match r {
            Ok(chunks) => png_chunks(bytes@) == Ok::<Seq<Chunk>, &'static str>(chunks@),
            Err(e) => png_chunks(bytes@) == Err::<Seq<Chunk>, &'static str>(e),
        },
{
    let sig = signature();
    if !starts_with(bytes, sig.as_slice()) {
        return Err("PNG signature validation failed.");
    }
    let mut chunks: Vec<Chunk> = Vec::new();
    let mut offset: usize = 8;
    let mut seen_header = false;
    let mut seen_data = false;
    let mut seen_end = false;
    while offset < bytes.len()
        invariant
            8 <= offset <= bytes@.len(),
            has_prefix(bytes@, png_signature()),
            seen_header == (chunks@.len() > 0),
            png_chunks(bytes@) == after(
                chunks@,
                walk(bytes@, offset as int, chunks@.len() == 0, seen_data, seen_end),
            ),
        decreases bytes.len() - offset,
    {
        let ghost prior = chunks@;
        if seen_end || bytes.len() - offset < 12 {
            return Err("Malformed PNG chunk boundary.");
        }
        let length = read_be32(bytes, offset) as usize;
        let data_start = match offset.checked_add(8) {
            Some(v) => v,
            None => return Err("PNG offset overflow."),
        };
        let data_end = match data_start.checked_add(length) {
            Some(v) => v,
            None => return Err("PNG chunk length overflow."),
        };
        let end = match data_end.checked_add(4) {
            Some(v) => v,
            None => return Err("PNG CRC boundary overflow."),
        };
        if end > bytes.len() {
            return Err("Truncated PNG chunk.");
        }
        if !(is_alpha(bytes[offset + 4]) && is_alpha(bytes[offset + 5]) && is_alpha(
            bytes[offset + 6],
        ) && is_alpha(bytes[offset + 7])) {
            return Err("Invalid PNG chunk type bytes.");
        }
        let stored_crc = read_be32(bytes, data_end);
        if crc32(&bytes[offset + 4..data_end]) != stored_crc {
            return Err("PNG CRC validation failed.");
        }
        let kind = read_be32(bytes, offset + 4);
        if chunks.len() == 0 {
            if kind != IHDR || length != 13 {
                return Err("PNG must begin with a 13-byte IHDR chunk.");
            }
            seen_header = true;
        } else if kind == IHDR {
            return Err("Duplicate PNG IHDR chunk.");
        }
        if kind == IDAT {
            seen_data = true;
        }
        if kind == IEND {
            if length != 0 || end != bytes.len() {
                return Err("PNG IEND or trailing-data validation failed.");
            }
            seen_end = true;
        }
        chunks.push(Chunk { kind, start: offset, end });
        assert(chunks@ == prior + seq![Chunk { kind, start: offset, end }]);
        assert forall|rest: Seq<Chunk>| prior + (seq![Chunk { kind, start: offset, end }] + rest)
            == chunks@ + rest by {
            assert(prior + (seq![Chunk { kind, start: offset, end }] + rest) =~= chunks@ + rest);
        }
        offset = end;
    }
    if !seen_header || !seen_data || !seen_end {
        return Err("PNG structural validation failed.");
    }
    assert(chunks@ + Seq::<Chunk>::empty() =~= chunks@);
    Ok(chunks)
}

/// The metadata categories of PNG, in report order.
#[derive(Clone, Copy, PartialEq, Eq, Structural)]
pub enum Category {
    Exif,
    Text,
    Timestamp,
    C2pa,
}

/// Which metadata category a chunk type belongs to, if any.
pub open spec fn category_of(kind: u32) -> Option<Category> {
    if kind == EXIF {
        Some(Category::Exif)
    } else if kind == TEXT || kind == ZTXT || kind == ITXT {
        Some(Category::Text)
    } else if kind == TIME {
        Some(Category::Timestamp)
    } else if kind == CABX {
        Some(Category::C2pa)
    } else {
        None
    }
}

fn metadata_kind(kind: u32) -> (r: Option<Category>)
    ensures
        r == category_of(kind),
{
    if kind == EXIF {
        Some(Category::Exif)
    } else if kind == TEXT || kind == ZTXT || kind == ITXT {
        Some(Category::Text)
    } else if kind == TIME {
        Some(Category::Timestamp)
    } else if kind == CABX {
        Some(Category::C2pa)
    } else {
        None
    }
}

/// How many chunks of `chunks` fall in `category`.
pub open spec fn count_in(chunks: Seq<Chunk>, category: Category) -> nat
    decreases chunks.len(),
{
    if chunks.len() == 0 {
        0
    } else {
        count_in(chunks.drop_last(), category) + if category_of(chunks.last().kind) == Some(
            category,
        ) {
            1nat
        } else {
            0nat
        }
    }
}

/// How many chunks of `chunks` are metadata of any category.
pub open spec fn metadata_in(chunks: Seq<Chunk>) -> nat
    decreases chunks.len(),
{
    if chunks.len() == 0 {
        0
    } else {
        metadata_in(chunks.drop_last()) + if category_of(chunks.last().kind) is Some {
            1nat
        } else {
            0nat
        }
    }
}

/// The findings PNG analysis reports for a chunk list.
pub open spec fn png_findings(chunks: Seq<Chunk>) -> Seq<BinaryFinding> {
    finding_if("exif", count_in(chunks, Category::Exif), "EXIF image metadata") + finding_if(
        "text",
        count_in(chunks, Category::Text),
        "PNG textual metadata",
    ) + finding_if("timestamp", count_in(chunks, Category::Timestamp), "PNG modification timestamp")
        + finding_if("c2pa", count_in(chunks, Category::C2pa), "C2PA provenance manifest")
}

proof fn lemma_counts_bounded(chunks: Seq<Chunk>)
    ensures
        count_in(chunks, Category::Exif) + count_in(chunks, Category::Text) + count_in(
            chunks,
            Category::Timestamp,
        ) + count_in(chunks, Category::C2pa) == metadata_in(chunks),
        metadata_in(chunks) <= chunks.len(),
    decreases chunks.len(),
{
    if chunks.len() > 0 {
        lemma_counts_bounded(chunks.drop_last());
    }
}

fn count_category(chunks: &Vec<Chunk>, category: Category) -> (n: usize)
    ensures
        n == count_in(chunks@, category),
{
    let mut n: usize = 0;
    let mut i: usize = 0;
    while i < chunks.len()
        invariant
            i <= chunks.len(),
            n == count_in(chunks@.take(i as int), category),
            n <= i,
        decreases chunks.len() - i,
    {
        assert(chunks@.take(i + 1).drop_last() == chunks@.take(i as int));
        if metadata_kind(chunks[i].kind) == Some(category) {
            n = n + 1;
        }
        i = i + 1;
    }
    assert(chunks@.take(i as int) == chunks@);
    n
}

/// Whether `r` is what analysis gives for the bytes `b`.
pub open spec fn analysis(b: Seq<u8>, r: BinaryResult<ParsedBinary>) -> bool {
    match png_chunks(b) {
        Ok(chunks) => r == Ok::<ParsedBinary, &'static str>(r->Ok_0) && r->Ok_0.format
            == BinaryFormat::Png && r->Ok_0.findings@ == png_findings(chunks)
            && r->Ok_0.c2pa_detected == (count_in(chunks, Category::C2pa) > 0),
        Err(e) => r == Err::<ParsedBinary, &'static str>(e),
    }
}

/// Reports the metadata chunks of a PNG file by category.
pub fn analyze(bytes: &[u8]) -> (r: BinaryResult<ParsedBinary>)
    ensures
        analysis(bytes@, r),
{
    let chunks = parse(bytes)?;
    let mut findings: Vec<BinaryFinding> = Vec::new();
    let exif = count_category(&chunks, Category::Exif);
    push_finding(&mut findings, "exif", exif, "EXIF image metadata");
    let text = count_category(&chunks, Category::Text);
    push_finding(&mut findings, "text", text, "PNG textual metadata");
    let timestamp = count_category(&chunks, Category::Timestamp);
    push_finding(&mut findings, "timestamp", timestamp, "PNG modification timestamp");
    let c2pa = count_category(&chunks, Category::C2pa);
    push_finding(&mut findings, "c2pa", c2pa, "C2PA provenance manifest");
    assert(findings@ =~= png_findings(chunks@));
    Ok(ParsedBinary { format: BinaryFormat::Png, findings, c2pa_detected: c2pa > 0 })
}

/// The bytes of the chunks of `chunks` that are not metadata, in order.
pub open spec fn kept_bytes(b: Seq<u8>, chunks: Seq<Chunk>) -> Seq<u8>
    decreases chunks.len(),
{
    if chunks.len() == 0 {
        Seq::empty()
    } else {
        kept_bytes(b, chunks.drop_last()) + if category_of(chunks.last().kind) is Some {
            Seq::empty()
        } else {
            b.subrange(chunks.last().start as int, chunks.last().end as int)
        }
    }
}

/// Whether `r` is what sanitizing gives for the bytes `b`.
pub open spec fn sanitization(b: Seq<u8>, r: BinaryResult<CleanedBinary>) -> bool {
    match png_chunks(b) {
        Ok(chunks) => r == Ok::<CleanedBinary, &'static str>(r->Ok_0) && r->Ok_0.bytes@
            == png_signature() + kept_bytes(b, chunks) && r->Ok_0.removed_items
            == metadata_in(chunks),
        Err(e) => r == Err::<CleanedBinary, &'static str>(e),
    }
}

/// Drops every metadata chunk of a PNG file and keeps the rest byte for byte.
pub fn sanitize(bytes: &[u8]) -> (r: BinaryResult<CleanedBinary>)
    ensures
        sanitization(bytes@, r),
{
    let chunks = parse(bytes)?;
    proof {
        lemma_chunks_in_bounds(bytes@, chunks@);
    }
    let mut output = signature();
    let mut removed_items: usize = 0;
    let mut i: usize = 0;
    while i < chunks.len()
        invariant
            i <= chunks.len(),
            forall|j: int|
                0 <= j < chunks@.len() ==> #[trigger] chunks@[j].start <= chunks@[j].end
                    <= bytes@.len(),
            output@ == png_signature() + kept_bytes(bytes@, chunks@.take(i as int)),
            removed_items == metadata_in(chunks@.take(i as int)),
            removed_items <= i,
        decreases chunks.len() - i,
    {
        assert(chunks@.take(i + 1).drop_last() == chunks@.take(i as int));
        assert(chunks@[i as int].start <= chunks@[i as int].end <= bytes@.len());
        let chunk = chunks[i];
        if metadata_kind(chunk.kind).is_some() {
            removed_items = removed_items + 1;
        } else {
            append_range(&mut output, bytes, chunk.start, chunk.end);
        }
        i = i + 1;
        assert(output@ =~= png_signature() + kept_bytes(bytes@, chunks@.take(i as int)));
    }
    assert(chunks@.take(i as int) == chunks@);
    Ok(CleanedBinary { bytes: output, removed_items })
}

#[verifier::spinoff_prover]
#[verifier::rlimit(40)]
proof fn lemma_walk_in_bounds(
    b: Seq<u8>,
    offset: int,
    first: bool,
    seen_data: bool,
    seen_end: bool,
    chunks: Seq<Chunk>,
)
    requires
        0 <= offset,
        walk(b, offset, first, seen_data, seen_end) == Ok::<Seq<Chunk>, &'static str>(chunks),
    ensures
        forall|j: int|
            0 <= j < chunks.len() ==> offset <= #[trigger] chunks[j].start <= chunks[j].end
                <= b.len(),
    decreases b.len() - offset,
{
    if offset < b.len() {
        let length = be32(b, offset);
        let end = offset + 8 + length + 4;
        let kind = be32(b, offset + 4);
        let rest = walk(b, end, false, seen_data || kind == IDAT, seen_end || kind == IEND)->Ok_0;
        lemma_walk_in_bounds(b, end, false, seen_data || kind == IDAT, seen_end || kind == IEND, rest);
        assert(end <= b.len() && end <= usize::MAX);
        assert(chunks == seq![Chunk { kind: kind as u32, start: offset as usize, end: end as usize }]
            + rest);
        assert forall|j: int| 0 <= j < chunks.len() implies offset <= #[trigger] chunks[j].start
            <= chunks[j].end <= b.len() by {
            if j > 0 {
                assert(chunks[j] == rest[j - 1]);
            }
        }
    }
}

proof fn lemma_chunks_in_bounds(b: Seq<u8>, chunks: Seq<Chunk>)
    requires
        png_chunks(b) == Ok::<Seq<Chunk>, &'static str>(chunks),
    ensures
        forall|j: int|
            0 <= j < chunks.len() ==> #[trigger] chunks[j].start <= chunks[j].end <= b.len(),
{
    assert(has_prefix(b, png_signature()));
    assert(walk(b, 8, true, false, false) == Ok::<Seq<Chunk>, &'static str>(chunks));
    lemma_walk_in_bounds(b, 8, true, false, false, chunks);
}

/// What sanitizing keeps of one chunk: nothing for metadata, else its
/// bytes.
pub open spec fn kept_part(b: Seq<u8>, c: Chunk) -> Seq<u8> {
    if category_of(c.kind) is Some {
        Seq::empty()
    } else {
        b.subrange(c.start as int, c.end as int)
    }
}

proof fn lemma_kept_cons(b: Seq<u8>, x: Chunk, t: Seq<Chunk>)
    ensures
        kept_bytes(b, seq![x] + t) == kept_part(b, x) + kept_bytes(b, t),
    decreases t.len(),
{
    let s = seq![x] + t;
    assert(kept_bytes(b, s) == kept_bytes(b, s.drop_last()) + kept_part(b, s.last()));
    if t.len() == 0 {
        assert(s.drop_last() =~= Seq::<Chunk>::empty());
        assert(s.last() == x);
        assert(kept_bytes(b, s) =~= kept_part(b, x) + kept_bytes(b, t));
    } else {
        assert(s.drop_last() =~= seq![x] + t.drop_last());
        assert(s.last() == t.last());
        lemma_kept_cons(b, x, t.drop_last());
        assert(kept_bytes(b, t) == kept_bytes(b, t.drop_last()) + kept_part(b, t.last()));
        assert(kept_bytes(b, s) =~= kept_part(b, x) + kept_bytes(b, t));
    }
}

/// The bytes sanitizing keeps from the chunks of a walk fit in what the walk
/// read.
proof fn lemma_kept_len(b: Seq<u8>, o: int, f: bool, d: bool, e: bool, chunks: Seq<Chunk>)
    requires
        0 <= o,
        walk(b, o, f, d, e) == Ok::<Seq<Chunk>, &'static str>(chunks),
    ensures
        o + kept_bytes(b, chunks).len() <= b.len() || (o >= b.len() && chunks.len() == 0),
    decreases b.len() - o,
{
    if o < b.len() {
        let length = be32(b, o);
        let end = o + 8 + length + 4;
        let k = be32(b, o + 4);
        let rest = walk(b, end, false, d || k == IDAT, e || k == IEND)->Ok_0;
        let c = Chunk { kind: k as u32, start: o as usize, end: end as usize };
        assert(chunks == seq![c] + rest);
        lemma_kept_cons(b, c, rest);
        lemma_kept_len(b, end, false, d || k == IDAT, e || k == IEND, rest);
    } else {
        assert(chunks =~= Seq::<Chunk>::empty());
    }
}

/// Walking the kept bytes from `p` gives the kept chunks of a walk of `b`
/// from `o`, and none of them is metadata.
#[verifier::spinoff_prover]
#[verifier::rlimit(60)]
proof fn lemma_kept_walk(
    b: Seq<u8>,
    o: int,
    f: bool,
    d: bool,
    e: bool,
    chunks: Seq<Chunk>,
    out: Seq<u8>,
    p: int,
)
    requires
        0 <= o,
        0 <= p,
        walk(b, o, f, d, e) == Ok::<Seq<Chunk>, &'static str>(chunks),
        out.len() <= usize::MAX,
        p + kept_bytes(b, chunks).len() == out.len(),
        out.subrange(p, out.len() as int) == kept_bytes(b, chunks),
    ensures
        walk(out, p, f, d, e) matches Ok(cs) && forall|i: int|
            0 <= i < cs.len() ==> category_of(#[trigger] cs[i].kind) is None,
    decreases b.len() - o,
{
    if o < b.len() {
        let length = be32(b, o);
        let end = o + 8 + length + 4;
        let k = be32(b, o + 4);
        let d2 = d || k == IDAT;
        let e2 = e || k == IEND;
        let rest = walk(b, end, false, d2, e2)->Ok_0;
        let c = Chunk { kind: k as u32, start: o as usize, end: end as usize };
        assert(chunks == seq![c] + rest);
        lemma_kept_cons(b, c, rest);
        if category_of(k as u32) is Some {
            assert(kept_part(b, c) =~= Seq::<u8>::empty());
            assert(kept_bytes(b, chunks) =~= kept_bytes(b, rest));
            assert(!f);
            lemma_kept_walk(b, end, false, d, e, rest, out, p);
        } else {
            let len = end - o;
            assert(kept_part(b, c) == b.subrange(o, end));
            assert(out.subrange(p, out.len() as int) =~= b.subrange(o, end) + kept_bytes(b, rest));
            assert forall|i: int| p <= i < p + len implies #[trigger] out[i] == b[o + (i - p)] by {
                let j = i - p;
                assert(out.subrange(p, out.len() as int)[j] == out[p + j]);
                assert((b.subrange(o, end) + kept_bytes(b, rest))[j] == b.subrange(o, end)[j]);
            }
            assert(out.subrange(p + len, out.len() as int) =~= kept_bytes(b, rest)) by {
                assert forall|j: int| 0 <= j < out.len() - (p + len) implies out.subrange(
                    p + len,
                    out.len() as int,
                )[j] == kept_bytes(b, rest)[j] by {
                    assert(out.subrange(p, out.len() as int)[len + j] == out[p + len + j]);
                }
            }
            assert(out[p] == b[o] && out[p + 1] == b[o + 1] && out[p + 2] == b[o + 2] && out[p
                + 3] == b[o + 3]);
            assert(be32(out, p) == length);
            assert(out[p + 4] == b[o + 4] && out[p + 5] == b[o + 5] && out[p + 6] == b[o + 6]
                && out[p + 7] == b[o + 7]);
            assert(be32(out, p + 4) == k);
            let data_end = o + 8 + length;
            let q = p + 8 + length;
            assert(out[q] == b[data_end] && out[q + 1] == b[data_end + 1] && out[q + 2]
                == b[data_end + 2] && out[q + 3] == b[data_end + 3]);
            assert(be32(out, q) == be32(b, data_end));
            assert(out.subrange(p + 4, q) =~= b.subrange(o + 4, data_end));
            if k == IEND {
                assert(end == b.len());
                assert(rest =~= Seq::<Chunk>::empty());
                assert(p + len == out.len());
            }
            lemma_kept_walk(b, end, false, d2, e2, rest, out, p + len);
            let tail = walk(out, p + len, false, d2, e2)->Ok_0;
            let c2 = Chunk { kind: k as u32, start: p as usize, end: (p + len) as usize };
            assert(walk(out, p, f, d, e) == Ok::<Seq<Chunk>, &'static str>(seq![c2] + tail));
            assert forall|i: int| 0 <= i < (seq![c2] + tail).len() implies category_of(
                #[trigger] (seq![c2] + tail)[i].kind,
            ) is None by {
                if i > 0 {
                    assert((seq![c2] + tail)[i] == tail[i - 1]);
                }
            }
        }
    } else {
        assert(chunks =~= Seq::<Chunk>::empty());
        assert(kept_bytes(b, chunks) =~= Seq::<u8>::empty());
    }
}

proof fn lemma_clean_counts(cs: Seq<Chunk>)
    requires
        forall|i: int| 0 <= i < cs.len() ==> category_of(#[trigger] cs[i].kind) is None,
    ensures
        metadata_in(cs) == 0,
        count_in(cs, Category::Exif) == 0,
        count_in(cs, Category::Text) == 0,
        count_in(cs, Category::Timestamp) == 0,
        count_in(cs, Category::C2pa) == 0,
    decreases cs.len(),
{
    if cs.len() > 0 {
        assert(category_of(cs[cs.len() - 1].kind) is None);
        lemma_clean_counts(cs.drop_last());
    }
}

/// Sanitizing a PNG file leaves nothing for analysis to report: the
/// rewritten file parses, and none of its chunks is metadata.
pub proof fn law_png_sanitized_is_clean(b: Seq<u8>)
    requires
        png_chunks(b) is Ok,
        b.len() <= usize::MAX,
    ensures
        png_chunks(png_signature() + kept_bytes(b, png_chunks(b)->Ok_0)) matches Ok(cs)
            && png_findings(cs) == Seq::<BinaryFinding>::empty() && metadata_in(cs) == 0
            && count_in(cs, Category::C2pa) == 0,
{
    let chunks = png_chunks(b)->Ok_0;
    let out = png_signature() + kept_bytes(b, chunks);
    assert(walk(b, 8, true, false, false) == Ok::<Seq<Chunk>, &'static str>(chunks));
    lemma_kept_len(b, 8, true, false, false, chunks);
    assert(out.subrange(0, 8) =~= png_signature());
    assert(out.subrange(8, out.len() as int) =~= kept_bytes(b, chunks));
    lemma_kept_walk(b, 8, true, false, false, chunks, out, 8);
    let cs = walk(out, 8, true, false, false)->Ok_0;
    lemma_clean_counts(cs);
    assert(png_findings(cs) =~= Seq::<BinaryFinding>::empty());
}

/// The findings analysis reports total the metadata chunks.
pub proof fn lemma_findings_total(chunks: Seq<Chunk>)
    requires
        metadata_in(chunks) <= usize::MAX,
    ensures
        findings_total(png_findings(chunks)) == metadata_in(chunks),
{
    lemma_counts_bounded(chunks);
    let e = finding_if("exif", count_in(chunks, Category::Exif), "EXIF image metadata");
    let t = finding_if("text", count_in(chunks, Category::Text), "PNG textual metadata");
    let m = finding_if("timestamp", count_in(chunks, Category::Timestamp), "PNG modification timestamp");
    let c = finding_if("c2pa", count_in(chunks, Category::C2pa), "C2PA provenance manifest");
    lemma_total_finding_if("exif", count_in(chunks, Category::Exif), "EXIF image metadata");
    lemma_total_finding_if("text", count_in(chunks, Category::Text), "PNG textual metadata");
    lemma_total_finding_if("timestamp", count_in(chunks, Category::Timestamp), "PNG modification timestamp");
    lemma_total_finding_if("c2pa", count_in(chunks, Category::C2pa), "C2PA provenance manifest");
    lemma_total_concat(e, t);
    lemma_total_concat(e + t, m);
    lemma_total_concat(e + t + m, c);
}

/// An `iTXt` chunk (type bytes `i`, `T`, `X`, `t`) is textual metadata,
/// whatever its content: appended to any chunk list, it adds one text
/// finding and one removed item, and sanitizing keeps none of its bytes.
pub proof fn law_itxt_is_text_metadata(b: Seq<u8>, chunks: Seq<Chunk>)
    requires
        chunks.len() > 0,
        chunks.last().kind == 0x69545874u32,
    ensures
        count_in(chunks, Category::Text) == count_in(chunks.drop_last(), Category::Text) + 1,
        metadata_in(chunks) == metadata_in(chunks.drop_last()) + 1,
        kept_bytes(b, chunks) == kept_bytes(b, chunks.drop_last()),
{
    assert(kept_bytes(b, chunks.drop_last()) + Seq::<u8>::empty() =~= kept_bytes(b, chunks.drop_last()));
}

} // verus!
