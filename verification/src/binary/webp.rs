//! WebP: a RIFF container of FourCC-tagged chunks.
use vstd::prelude::*;

use super::bytes::{append_range, be32, le32, read_be32, read_le32};
use super::model::{
    findings_total, lemma_total_concat, lemma_total_finding_if, finding_if, push_finding, BinaryFinding, BinaryFormat, BinaryResult, CleanedBinary, ParsedBinary,
};

verus! {

pub const RIFF: u32 = 0x52494646;
pub const WEBP: u32 = 0x57454250;
pub const VP8: u32 = 0x56503820;
pub const VP8L: u32 = 0x5650384C;
pub const ANMF: u32 = 0x414E4D46;
pub const VP8X: u32 = 0x56503858;
pub const EXIF: u32 = 0x45584946;
pub const XMP: u32 = 0x584D5020;
pub const C2PA: u32 = 0x43325041;

/// One chunk: its FourCC read as a big-endian number, where it starts, where
/// its payload lies, and where it ends after the padding byte.
#[derive(Debug, Clone, Copy, PartialEq, Eq)]
pub struct Chunk {
    pub kind: u32,
    pub start: usize,
    pub data_start: usize,
    pub data_end: usize,
    pub end: usize,
}

pub open spec fn is_fourcc_byte(b: u8) -> bool {
    0x20 <= b && b <= 0x7E
}

/// The chunks from `offset` on; `has_image` says that an image chunk came
/// before.
pub open spec fn walk(b: Seq<u8>, offset: int, has_image: bool) -> BinaryResult<(Seq<Chunk>, bool)>
    decreases b.len() - offset,
{
    if offset < b.len() {
        if b.len() - offset < 8 {
            Err("Truncated WebP chunk header.")
        } else if !(is_fourcc_byte(b[offset]) && is_fourcc_byte(b[offset + 1]) && is_fourcc_byte(
            b[offset + 2],
        ) && is_fourcc_byte(b[offset + 3])) {
            Err("Invalid WebP FourCC bytes.")
        } else {
            let kind = be32(b, offset);
            let length = le32(b, offset + 4);
            let data_start = offset + 8;
            let data_end = data_start + length;
            let end = data_end + length % 2;
            if data_end > usize::MAX {
                Err("WebP chunk length overflow.")
            } else if end > usize::MAX {
                Err("WebP padding overflow.")
            } else if end > b.len() {
                Err("Truncated WebP chunk.")
            } else if length % 2 == 1 && b[data_end] != 0 {
                Err("Invalid WebP RIFF padding byte.")
            } else if kind == VP8X && length != 10 {
                Err("Invalid WebP VP8X chunk length.")
            } else {
                let chunk = Chunk {
                    kind: kind as u32,
                    start: offset as usize,
                    data_start: data_start as usize,
                    data_end: data_end as usize,
                    end: end as usize,
                };
                match walk(b, end, has_image || kind == VP8 || kind == VP8L || kind == ANMF) {
                    Ok((rest, image)) => Ok((seq![chunk] + rest, image)),
                    Err(e) => Err(e),
                }
            }
        }
    } else {
        Ok((Seq::empty(), has_image))
    }
}

/// How many chunks of `chunks` have FourCC `kind`.
pub open spec fn count_kind(chunks: Seq<Chunk>, kind: u32) -> nat
    decreases chunks.len(),
{
    if chunks.len() == 0 {
        0
    } else {
        count_kind(chunks.drop_last(), kind) + if chunks.last().kind == kind {
            1nat
        } else {
            0nat
        }
    }
}

/// The chunk list of a well-formed WebP file, or why the file is rejected. A
/// C2PA chunk, if any, must be the only one and the last chunk.
pub open spec fn webp_chunks(b: Seq<u8>) -> BinaryResult<Seq<Chunk>> {
    if b.len() < 20 || be32(b, 0) != RIFF || be32(b, 8) != WEBP {
        Err("WebP RIFF signature validation failed.")
    } else if le32(b, 4) + 8 != b.len() {
        Err("WebP RIFF size or trailing-data validation failed.")
    } else {
        match walk(b, 12, false) {
            Err(e) => Err(e),
            Ok((chunks, has_image)) => if !has_image {
                Err("WebP image payload missing.")
            } else if count_kind(chunks, C2PA) > 1 || (count_kind(chunks, C2PA) == 1
                && chunks.last().kind != C2PA) {
                Err("WebP C2PA chunk placement rejected.")
            } else {
                Ok(chunks)
            },
        }
    }
}

pub open spec fn after(prefix: Seq<Chunk>, r: BinaryResult<(Seq<Chunk>, bool)>) -> BinaryResult<
    (Seq<Chunk>, bool),
> {
    match r {
        Ok((rest, image)) => Ok((prefix + rest, image)),
        Err(e) => Err(e),
    }
}

/// Whether `b` opens with a RIFF/WEBP header whose size covers the file.
pub open spec fn riff_header_ok(b: Seq<u8>) -> bool {
    b.len() >= 20 && be32(b, 0) == RIFF && be32(b, 8) == WEBP && le32(b, 4) + 8 == b.len()
}

fn is_fourcc(b: u8) -> (r: bool)
    ensures
        r == is_fourcc_byte(b),
{
    0x20 <= b && b <= 0x7E
}

fn count_of_kind(chunks: &Vec<Chunk>, kind: u32) -> (n: usize)
    ensures
        n == count_kind(chunks@, kind),
{
    let mut n: usize = 0;
    let mut i: usize = 0;
    while i < chunks.len()
        invariant
            i <= chunks.len(),
            n == count_kind(chunks@.take(i as int), kind),
            n <= i,
        decreases chunks.len() - i,
    {
        assert(chunks@.take(i + 1).drop_last() == chunks@.take(i as int));
        if chunks[i].kind == kind {
            n = n + 1;
        }
        i = i + 1;
    }
    assert(chunks@.take(i as int) == chunks@);
    n
}

proof fn lemma_after_push(prefix: Seq<Chunk>, c: Chunk, r: BinaryResult<(Seq<Chunk>, bool)>)
    ensures
        after(prefix, match r {
            Ok((rest, image)) => Ok((seq![c] + rest, image)),
            Err(e) => Err(e),
        }) == after(prefix.push(c), r),
{
    if let Ok((rest, image)) = r {
        assert(prefix + (seq![c] + rest) =~= prefix.push(c) + rest);
    }
}

fn parse(bytes: &[u8]) -> (r: BinaryResult<Vec<Chunk>>)
    ensures
        match r {
            Ok(chunks) => webp_chunks(bytes@) == Ok::<Seq<Chunk>, &'static str>(chunks@),
            Err(e) => webp_chunks(bytes@) == Err::<Seq<Chunk>, &'static str>(e),
        },
{
    if bytes.len() < 20 || read_be32(bytes, 0) != RIFF || read_be32(bytes, 8) != WEBP {
        return Err("WebP RIFF signature validation failed.");
    }
    let declared = read_le32(bytes, 4) as usize;
    if declared.checked_add(8) != Some(bytes.len()) {
        return Err("WebP RIFF size or trailing-data validation failed.");
    }
    let mut chunks: Vec<Chunk> = Vec::new();
    let mut offset: usize = 12;
    let mut has_image = false;
    while offset < bytes.len()
        invariant
            12 <= offset <= bytes@.len(),
            riff_header_ok(bytes@),
            walk(bytes@, 12, false) == after(chunks@, walk(bytes@, offset as int, has_image)),
        decreases bytes.len() - offset,
    {
        if bytes.len() - offset < 8 {
            return Err("Truncated WebP chunk header.");
        }
        if !(is_fourcc(bytes[offset]) && is_fourcc(bytes[offset + 1]) && is_fourcc(bytes[offset + 2])
            && is_fourcc(bytes[offset + 3])) {
            return Err("Invalid WebP FourCC bytes.");
        }
        let kind = read_be32(bytes, offset);
        let length = read_le32(bytes, offset + 4) as usize;
        let data_start = offset + 8;
        let data_end = match data_start.checked_add(length) {
            Some(v) => v,
            None => return Err("WebP chunk length overflow."),
        };
        let end = match data_end.checked_add(length % 2) {
            Some(v) => v,
            None => return Err("WebP padding overflow."),
        };
        if end > bytes.len() {
            return Err("Truncated WebP chunk.");
        }
        if length % 2 == 1 && bytes[data_end] != 0 {
            return Err("Invalid WebP RIFF padding byte.");
        }
        if kind == VP8 || kind == VP8L || kind == ANMF {
            has_image = true;
        }
        if kind == VP8X && length != 10 {
            return Err("Invalid WebP VP8X chunk length.");
        }
        let chunk = Chunk { kind, start: offset, data_start, data_end, end };
        proof {
            lemma_after_push(chunks@, chunk, walk(bytes@, end as int, has_image));
        }
        chunks.push(chunk);
        offset = end;
    }
    assert(chunks@ + Seq::<Chunk>::empty() =~= chunks@);
    assert(riff_header_ok(bytes@));
    if !has_image {
        return Err("WebP image payload missing.");
    }
    let c2pa = count_of_kind(&chunks, C2PA);
    if c2pa > 1 || (c2pa == 1 && chunks[chunks.len() - 1].kind != C2PA) {
        return Err("WebP C2PA chunk placement rejected.");
    }
    Ok(chunks)
}

/// The findings WebP analysis reports for a chunk list.
pub open spec fn webp_findings(chunks: Seq<Chunk>) -> Seq<BinaryFinding> {
    finding_if("exif", count_kind(chunks, EXIF), "WebP EXIF metadata") + finding_if(
        "xmp",
        count_kind(chunks, XMP),
        "WebP XMP metadata",
    ) + finding_if("c2pa", count_kind(chunks, C2PA), "WebP C2PA provenance manifest")
}

/// Whether `r` is what analysis gives for the bytes `b`.
pub open spec fn analysis(b: Seq<u8>, r: BinaryResult<ParsedBinary>) -> bool {
    match webp_chunks(b) {
        Ok(chunks) => r == Ok::<ParsedBinary, &'static str>(r->Ok_0) && r->Ok_0.format
            == BinaryFormat::WebP && r->Ok_0.findings@ == webp_findings(chunks)
            && r->Ok_0.c2pa_detected == (count_kind(chunks, C2PA) > 0),
        Err(e) => r == Err::<ParsedBinary, &'static str>(e),
    }
}

/// Reports the EXIF, XMP and C2PA chunks of a WebP file.
pub fn analyze(bytes: &[u8]) -> (r: BinaryResult<ParsedBinary>)
    ensures
        analysis(bytes@, r),
{
    let chunks = parse(bytes)?;
    let mut findings: Vec<BinaryFinding> = Vec::new();
    let exif = count_of_kind(&chunks, EXIF);
    push_finding(&mut findings, "exif", exif, "WebP EXIF metadata");
    let xmp = count_of_kind(&chunks, XMP);
    push_finding(&mut findings, "xmp", xmp, "WebP XMP metadata");
    let c2pa = count_of_kind(&chunks, C2PA);
    push_finding(&mut findings, "c2pa", c2pa, "WebP C2PA provenance manifest");
    assert(findings@ =~= webp_findings(chunks@));
    Ok(ParsedBinary { format: BinaryFormat::WebP, findings, c2pa_detected: c2pa > 0 })
}

/// Whether a chunk kind is metadata that sanitizing removes.
pub open spec fn is_metadata(kind: u32) -> bool {
    kind == EXIF || kind == XMP || kind == C2PA
}

/// The bytes of a kept chunk; in `VP8X` the EXIF and XMP presence flags
/// (bits 2 and 3 of the first payload byte) are cleared.
pub open spec fn kept_chunk(b: Seq<u8>, c: Chunk) -> Seq<u8> {
    let raw = b.subrange(c.start as int, c.end as int);
    if c.kind == VP8X {
        raw.update(8, raw[8] & 0xF3)
    } else {
        raw
    }
}

/// The bytes of the non-metadata chunks, in order.
pub open spec fn kept_bytes(b: Seq<u8>, chunks: Seq<Chunk>) -> Seq<u8>
    decreases chunks.len(),
{
    if chunks.len() == 0 {
        Seq::empty()
    } else {
        kept_bytes(b, chunks.drop_last()) + if is_metadata(chunks.last().kind) {
            Seq::empty()
        } else {
            kept_chunk(b, chunks.last())
        }
    }
}

/// How many chunks are metadata.
pub open spec fn metadata_in(chunks: Seq<Chunk>) -> nat
    decreases chunks.len(),
{
    if chunks.len() == 0 {
        0
    } else {
        metadata_in(chunks.drop_last()) + if is_metadata(chunks.last().kind) {
            1nat
        } else {
            0nat
        }
    }
}

/// The little-endian bytes of `v`.
pub open spec fn le_bytes(v: int) -> Seq<u8> {
    seq![(v % 0x100) as u8, ((v / 0x100) % 0x100) as u8, ((v / 0x10000) % 0x100) as u8, ((v / 0x1000000) % 0x100) as u8]
}

/// `o` with its RIFF size field rewritten to cover the rest of `o`.
pub open spec fn with_riff_size(o: Seq<u8>) -> Seq<u8> {
    o.subrange(0, 4) + le_bytes(o.len() - 8) + o.subrange(8, o.len() as int)
}

proof fn lemma_walk_in_bounds(b: Seq<u8>, offset: int, has_image: bool, chunks: Seq<Chunk>)
    requires
        0 <= offset,
        walk(b, offset, has_image) matches Ok((cs, _)) && cs == chunks,
    ensures
        forall|j: int|
            0 <= j < chunks.len() ==> offset <= #[trigger] chunks[j].start && chunks[j].start + 8
                <= chunks[j].end <= b.len() && chunks[j].start + 8 == chunks[j].data_start
                && chunks[j].data_start <= chunks[j].data_end <= chunks[j].end && (chunks[j].kind
                == VP8X ==> chunks[j].data_end == chunks[j].data_start + 10),
    decreases b.len() - offset,
{
    if offset < b.len() {
        let kind = be32(b, offset);
        let length = le32(b, offset + 4);
        let end = offset + 8 + length + length % 2;
        let (rest, _) = walk(b, end, has_image || kind == VP8 || kind == VP8L || kind == ANMF)->Ok_0;
        lemma_walk_in_bounds(b, end, has_image || kind == VP8 || kind == VP8L || kind == ANMF, rest);
        assert forall|j: int| 0 <= j < chunks.len() implies offset <= #[trigger] chunks[j].start
            && chunks[j].start + 8 <= chunks[j].end <= b.len() && chunks[j].start + 8
            == chunks[j].data_start && chunks[j].data_start <= chunks[j].data_end <= chunks[j].end
            && (chunks[j].kind == VP8X ==> chunks[j].data_end == chunks[j].data_start + 10) by {
            if j > 0 {
                assert(chunks[j] == rest[j - 1]);
            }
        }
    }
}

/// Whether `r` is what sanitizing gives for the bytes `b`.
pub open spec fn sanitization(b: Seq<u8>, r: BinaryResult<CleanedBinary>) -> bool {
    match webp_chunks(b) {
        Ok(chunks) => {
            let o = b.subrange(0, 12) + kept_bytes(b, chunks);
            if o.len() - 8 > u32::MAX {
                r == Err::<CleanedBinary, &'static str>("WebP output exceeds RIFF size limit.")
            } else {
                r == Ok::<CleanedBinary, &'static str>(r->Ok_0) && r->Ok_0.bytes@
                    == with_riff_size(o) && r->Ok_0.removed_items == metadata_in(chunks)
            }
        },
        Err(e) => r == Err::<CleanedBinary, &'static str>(e),
    }
}

/// Drops the EXIF, XMP and C2PA chunks of a WebP file, clears the matching
/// `VP8X` flags and rewrites the RIFF size.
pub fn sanitize(bytes: &[u8]) -> (r: BinaryResult<CleanedBinary>)
    ensures
        sanitization(bytes@, r),
{
    let chunks = parse(bytes)?;
    proof {
        let (cs, _) = walk(bytes@, 12, false)->Ok_0;
        assert(cs == chunks@);
        lemma_walk_in_bounds(bytes@, 12, false, chunks@);
    }
    let mut output: Vec<u8> = Vec::new();
    append_range(&mut output, bytes, 0, 12);
    let mut removed_items: usize = 0;
    let mut i: usize = 0;
    while i < chunks.len()
        invariant
            i <= chunks.len(),
            bytes@.len() >= 20,
            forall|j: int|
                0 <= j < chunks@.len() ==> #[trigger] chunks@[j].start + 8 <= chunks@[j].end
                    <= bytes@.len() && (chunks@[j].kind == VP8X ==> chunks@[j].data_end
                    == chunks@[j].data_start + 10) && chunks@[j].start + 8 == chunks@[j].data_start
                    && chunks@[j].data_start <= chunks@[j].data_end <= chunks@[j].end,
            output@ == bytes@.subrange(0, 12) + kept_bytes(bytes@, chunks@.take(i as int)),
            removed_items == metadata_in(chunks@.take(i as int)),
            removed_items <= i,
        decreases chunks.len() - i,
    {
        assert(chunks@.take(i + 1).drop_last() == chunks@.take(i as int));
        assert(chunks@[i as int].start + 8 <= chunks@[i as int].end <= bytes@.len());
        let chunk = chunks[i];
        if chunk.kind == EXIF || chunk.kind == XMP || chunk.kind == C2PA {
            removed_items = removed_items + 1;
        } else {
            let output_start = output.len();
            let ghost before = output@;
            append_range(&mut output, bytes, chunk.start, chunk.end);
            let out_len = output.len();
            assert(out_len == output_start + chunk.end - chunk.start);
            if chunk.kind == VP8X {
                let flags = output[output_start + 8];
                output.set(output_start + 8, flags & 0xF3);
            }
            assert(output@ =~= before + kept_chunk(bytes@, chunk));
        }
        i = i + 1;
        assert(output@ =~= bytes@.subrange(0, 12) + kept_bytes(bytes@, chunks@.take(i as int)));
    }
    assert(chunks@.take(i as int) == chunks@);
    let size = output.len() - 8;
    if size > 0xFFFF_FFFF {
        return Err("WebP output exceeds RIFF size limit.");
    }
    let ghost o = output@;
    output.set(4, (size % 0x100) as u8);
    output.set(5, ((size / 0x100) % 0x100) as u8);
    output.set(6, ((size / 0x10000) % 0x100) as u8);
    output.set(7, ((size / 0x1000000) % 0x100) as u8);
    assert(output@ =~= with_riff_size(o));
    Ok(CleanedBinary { bytes: output, removed_items })
}

/// What sanitizing keeps of one chunk: nothing for metadata, else its
/// bytes with the `VP8X` metadata flags cleared.
pub open spec fn kept_part(b: Seq<u8>, c: Chunk) -> Seq<u8> {
    if is_metadata(c.kind) {
        Seq::empty()
    } else {
        kept_chunk(b, c)
    }
}

proof fn lemma_kept_cons(b: Seq<u8>, x: Chunk, t: Seq<Chunk>)
    ensures
        kept_bytes(b, seq![x] + t) == kept_part(b, x) + kept_bytes(b, t),
    decreases t.len(),
{
    let s = seq![x] + t;
    assert(kept_bytes(b, s) == kept_bytes(b, s.drop_last()) + kept_part(b, s.last()));
    if t.len() == 0 {
        assert(s.drop_last() =~= Seq::<Chunk>::empty());
        assert(s.last() == x);
        assert(kept_bytes(b, s) =~= kept_part(b, x) + kept_bytes(b, t));
    } else {
        assert(s.drop_last() =~= seq![x] + t.drop_last());
        assert(s.last() == t.last());
        lemma_kept_cons(b, x, t.drop_last());
        assert(kept_bytes(b, t) == kept_bytes(b, t.drop_last()) + kept_part(b, t.last()));
        assert(kept_bytes(b, s) =~= kept_part(b, x) + kept_bytes(b, t));
    }
}

/// Walking the kept bytes from `p` gives the kept chunks of a walk of `b`
/// from `o`, with the same image verdict, and none of them is metadata.
#[verifier::spinoff_prover]
#[verifier::rlimit(60)]
proof fn lemma_kept_walk(b: Seq<u8>, o: int, h: bool, chunks: Seq<Chunk>, image: bool, out: Seq<u8>, p: int)
    requires
        0 <= o,
        0 <= p,
        walk(b, o, h) == Ok::<(Seq<Chunk>, bool), &'static str>((chunks, image)),
        out.len() <= usize::MAX,
        p + kept_bytes(b, chunks).len() == out.len(),
        out.subrange(p, out.len() as int) == kept_bytes(b, chunks),
    ensures
        walk(out, p, h) matches Ok((cs, image2)) && image2 == image && forall|i: int|
            0 <= i < cs.len() ==> !is_metadata(#[trigger] cs[i].kind),
    decreases b.len() - o,
{
    if o < b.len() {
        let kind = be32(b, o);
        let length = le32(b, o + 4);
        let data_end = o + 8 + length;
        let end = data_end + length % 2;
        let h2 = h || kind == VP8 || kind == VP8L || kind == ANMF;
        let rest = walk(b, end, h2)->Ok_0.0;
        let c = Chunk {
            kind: kind as u32,
            start: o as usize,
            data_start: (o + 8) as usize,
            data_end: data_end as usize,
            end: end as usize,
        };
        assert(chunks == seq![c] + rest);
        lemma_kept_cons(b, c, rest);
        if is_metadata(kind as u32) {
            assert(kept_part(b, c) =~= Seq::<u8>::empty());
            assert(kept_bytes(b, chunks) =~= kept_bytes(b, rest));
            assert(h2 == h);
            lemma_kept_walk(b, end, h, rest, image, out, p);
        } else {
            let len = end - o;
            let raw = b.subrange(o, end);
            assert(kept_part(b, c).len() == len);
            assert(out.subrange(p, out.len() as int) =~= kept_part(b, c) + kept_bytes(b, rest));
            assert forall|i: int| p <= i < p + len && (kind != VP8X || i != p + 8) implies #[trigger] out[i]
                == b[o + (i - p)] by {
                let j = i - p;
                assert(out.subrange(p, out.len() as int)[j] == out[p + j]);
                assert((kept_part(b, c) + kept_bytes(b, rest))[j] == kept_part(b, c)[j]);
                assert(raw[j] == b[o + j]);
            }
            assert(out.subrange(p + len, out.len() as int) =~= kept_bytes(b, rest)) by {
                assert forall|j: int| 0 <= j < out.len() - (p + len) implies out.subrange(
                    p + len,
                    out.len() as int,
                )[j] == kept_bytes(b, rest)[j] by {
                    assert(out.subrange(p, out.len() as int)[len + j] == out[p + len + j]);
                }
            }
            assert(out[p] == b[o] && out[p + 1] == b[o + 1] && out[p + 2] == b[o + 2] && out[p
                + 3] == b[o + 3]);
            assert(out[p + 4] == b[o + 4] && out[p + 5] == b[o + 5] && out[p + 6] == b[o + 6]
                && out[p + 7] == b[o + 7]);
            assert(be32(out, p) == kind);
            assert(le32(out, p + 4) == length);
            if length % 2 == 1 {
                assert(kind != VP8X);
                assert(out[p + (data_end - o)] == b[data_end]);
            }
            lemma_kept_walk(b, end, h2, rest, image, out, p + len);
            let tail = walk(out, p + len, h2)->Ok_0.0;
            let c2 = Chunk {
                kind: kind as u32,
                start: p as usize,
                data_start: (p + 8) as usize,
                data_end: (p + 8 + length) as usize,
                end: (p + len) as usize,
            };
            assert(walk(out, p, h) == Ok::<(Seq<Chunk>, bool), &'static str>((seq![c2] + tail, image)));
            assert forall|i: int| 0 <= i < (seq![c2] + tail).len() implies !is_metadata(
                #[trigger] (seq![c2] + tail)[i].kind,
            ) by {
                if i > 0 {
                    assert((seq![c2] + tail)[i] == tail[i - 1]);
                }
            }
        }
    } else {
        assert(chunks =~= Seq::<Chunk>::empty());
        assert(kept_bytes(b, chunks) =~= Seq::<u8>::empty());
    }
}

proof fn lemma_clean_counts(cs: Seq<Chunk>)
    requires
        forall|i: int| 0 <= i < cs.len() ==> !is_metadata(#[trigger] cs[i].kind),
    ensures
        metadata_in(cs) == 0,
        count_kind(cs, EXIF) == 0,
        count_kind(cs, XMP) == 0,
        count_kind(cs, C2PA) == 0,
    decreases cs.len(),
{
    if cs.len() > 0 {
        assert(!is_metadata(cs[cs.len() - 1].kind));
        lemma_clean_counts(cs.drop_last());
    }
}

proof fn lemma_le_bytes(v: int)
    requires
        0 <= v <= u32::MAX,
    ensures
        le32(le_bytes(v), 0) == v,
{
    let x = v as u32;
    assert((x % 0x100) + ((x / 0x100) % 0x100) * 0x100 + ((x / 0x10000) % 0x100) * 0x10000 + ((x
        / 0x1000000) % 0x100) * 0x1000000 == x) by (bit_vector);
}

/// Sanitizing a WebP file leaves nothing for analysis to report: the
/// rewritten file parses, with a RIFF size that covers it, and none of its
/// chunks is EXIF, XMP or C2PA.
pub proof fn law_webp_sanitized_is_clean(b: Seq<u8>)
    requires
        webp_chunks(b) is Ok,
        b.len() <= usize::MAX,
        (b.subrange(0, 12) + kept_bytes(b, webp_chunks(b)->Ok_0)).len() - 8 <= u32::MAX,
    ensures
        webp_chunks(with_riff_size(b.subrange(0, 12) + kept_bytes(b, webp_chunks(b)->Ok_0))) matches Ok(cs)
            && webp_findings(cs) == Seq::<BinaryFinding>::empty() && metadata_in(cs) == 0
            && count_kind(cs, C2PA) == 0 && with_riff_size(b.subrange(0, 12) + kept_bytes(
            b,
            webp_chunks(b)->Ok_0,
        )).len() >= 20,
{
    let chunks = webp_chunks(b)->Ok_0;
    let o = b.subrange(0, 12) + kept_bytes(b, chunks);
    let out = with_riff_size(o);
    let (cs0, image) = walk(b, 12, false)->Ok_0;
    assert(cs0 == chunks && image);
    lemma_walk_in_bounds(b, 12, false, chunks);
    assert(o.len() <= b.len()) by {
        lemma_kept_len(b, 12, false, chunks);
    }
    assert(out.len() == o.len());
    assert(out.subrange(12, out.len() as int) =~= kept_bytes(b, chunks));
    lemma_kept_walk(b, 12, false, chunks, true, out, 12);
    let cs = walk(out, 12, false)->Ok_0.0;
    assert(out.len() >= 20);
    assert(out[0] == b[0] && out[1] == b[1] && out[2] == b[2] && out[3] == b[3]);
    assert(out[8] == b[8] && out[9] == b[9] && out[10] == b[10] && out[11] == b[11]);
    lemma_le_bytes(o.len() - 8);
    assert(out.subrange(4, 8) =~= le_bytes(o.len() - 8));
    assert(out[4] == le_bytes(o.len() - 8)[0] && out[5] == le_bytes(o.len() - 8)[1] && out[6]
        == le_bytes(o.len() - 8)[2] && out[7] == le_bytes(o.len() - 8)[3]);
    assert(le32(out, 4) == o.len() - 8);
    lemma_clean_counts(cs);
    assert(webp_findings(cs) =~= Seq::<BinaryFinding>::empty());
}

/// The bytes sanitizing keeps fit in what the walk read.
proof fn lemma_kept_len(b: Seq<u8>, o: int, h: bool, chunks: Seq<Chunk>)
    requires
        0 <= o <= b.len(),
        walk(b, o, h) matches Ok((cs, _)) && cs == chunks,
    ensures
        o + kept_bytes(b, chunks).len() <= b.len(),
    decreases b.len() - o,
{
    if o < b.len() {
        let kind = be32(b, o);
        let length = le32(b, o + 4);
        let end = o + 8 + length + length % 2;
        let h2 = h || kind == VP8 || kind == VP8L || kind == ANMF;
        let rest = walk(b, end, h2)->Ok_0.0;
        let c = Chunk {
            kind: kind as u32,
            start: o as usize,
            data_start: (o + 8) as usize,
            data_end: (o + 8 + length) as usize,
            end: end as usize,
        };
        assert(chunks == seq![c] + rest);
        lemma_kept_cons(b, c, rest);
        lemma_kept_len(b, end, h2, rest);
    } else {
        assert(chunks =~= Seq::<Chunk>::empty());
        assert(kept_bytes(b, chunks) =~= Seq::<u8>::empty());
    }
}

proof fn lemma_counts_sum(chunks: Seq<Chunk>)
    ensures
        count_kind(chunks, EXIF) + count_kind(chunks, XMP) + count_kind(chunks, C2PA) == metadata_in(
            chunks,
        ),
    decreases chunks.len(),
{
    if chunks.len() > 0 {
        lemma_counts_sum(chunks.drop_last());
    }
}

/// The findings analysis reports total the metadata chunks.
pub proof fn lemma_findings_total(chunks: Seq<Chunk>)
    requires
        metadata_in(chunks) <= usize::MAX,
    ensures
        findings_total(webp_findings(chunks)) == metadata_in(chunks),
{
    lemma_counts_sum(chunks);
    let e = finding_if("exif", count_kind(chunks, EXIF), "WebP EXIF metadata");
    let x = finding_if("xmp", count_kind(chunks, XMP), "WebP XMP metadata");
    let c = finding_if("c2pa", count_kind(chunks, C2PA), "WebP C2PA provenance manifest");
    lemma_total_finding_if("exif", count_kind(chunks, EXIF), "WebP EXIF metadata");
    lemma_total_finding_if("xmp", count_kind(chunks, XMP), "WebP XMP metadata");
    lemma_total_finding_if("c2pa", count_kind(chunks, C2PA), "WebP C2PA provenance manifest");
    lemma_total_concat(e, x);
    lemma_total_concat(e + x, c);
}

} // verus!
