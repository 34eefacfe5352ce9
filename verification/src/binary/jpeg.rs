//! JPEG: marker segments, with entropy-coded scan data after each start of
//! scan, ending at the end-of-image marker.
use vstd::prelude::*;

use super::bytes::{append_range, be16, read_be16};
use super::model::{
    findings_total, lemma_total_concat, lemma_total_finding_if, finding_if, push_finding, BinaryFinding, BinaryFormat, BinaryResult, CleanedBinary, ParsedBinary,
};

verus! {

/// The metadata categories of JPEG, in report order.
#[derive(Debug, Clone, Copy, PartialEq, Eq, Structural)]
pub enum Category {
    Exif,
    Xmp,
    Application,
    Iptc,
    Comment,
    C2pa,
}

/// One marker or marker segment: the marker byte, the byte range from its
/// first `0xFF` to its end, and its metadata category, if any.
#[derive(Debug, Clone, Copy, PartialEq, Eq)]
pub struct Segment {
    pub marker: u8,
    pub start: usize,
    pub end: usize,
    pub metadata: Option<Category>,
}

/// Whether `needle` occurs in `haystack`; an empty needle never does.
pub open spec fn occurs_in(haystack: Seq<u8>, needle: Seq<u8>) -> bool {
    needle.len() > 0 && exists|i: int|
        0 <= i <= haystack.len() - needle.len() && #[trigger] haystack.subrange(
            i,
            i + needle.len(),
        ) == needle
}

fn contains(haystack: &[u8], needle: &[u8]) -> (r: bool)
    ensures
        r == occurs_in(haystack@, needle@),
{
    if needle.len() == 0 || needle.len() > haystack.len() {
        return false;
    }
    let mut i: usize = 0;
    while i <= haystack.len() - needle.len()
        invariant
            0 < needle.len() <= haystack.len(),
            i <= haystack.len() - needle.len() + 1,
            forall|k: int|
                0 <= k < i ==> #[trigger] haystack@.subrange(k, k + needle@.len()) != needle@,
        decreases haystack.len() - i,
    {
        let mut j: usize = 0;
        let mut same = true;
        while j < needle.len()
            invariant
                i + needle.len() <= haystack.len(),
                j <= needle.len(),
                same == (forall|m: int| 0 <= m < j ==> haystack@[i + m] == needle@[m]),
            decreases needle.len() - j,
        {
            if haystack[i + j] != needle[j] {
                same = false;
            }
            j = j + 1;
        }
        if same {
            assert(haystack@.subrange(i as int, i + needle@.len()) =~= needle@);
            return true;
        }
        assert(!same);
        let ghost m = choose|m: int| 0 <= m < needle.len() && haystack@[i + m] != needle@[m];
        assert(haystack@.subrange(i as int, i + needle@.len())[m] != needle@[m]);
        i = i + 1;
    }
    proof {
        assert forall|k: int|
            0 <= k <= haystack@.len() - needle@.len() implies #[trigger] haystack@.subrange(
            k,
            k + needle@.len(),
        ) != needle@ by {}
    }
    false
}

/// The identifier that opens an EXIF APP1 payload: `Exif\0\0`.
pub open spec fn exif_header() -> Seq<u8> {
    seq![0x45u8, 0x78, 0x69, 0x66, 0x00, 0x00]
}

/// The XMP namespace `http://ns.adobe.com/xap/1.0/`.
pub open spec fn xmp_namespace() -> Seq<u8> {
    seq![
        0x68u8, 0x74, 0x74, 0x70, 0x3A, 0x2F, 0x2F, 0x6E, 0x73, 0x2E, 0x61, 0x64, 0x6F, 0x62,
        0x65, 0x2E, 0x63, 0x6F, 0x6D, 0x2F, 0x78, 0x61, 0x70, 0x2F, 0x31, 0x2E, 0x30, 0x2F,
    ]
}

/// The JUMBF box type `c2pa`.
pub open spec fn c2pa_label() -> Seq<u8> {
    seq![0x63u8, 0x32, 0x70, 0x61]
}

/// The C2PA JUMBF UUID: `c2pa` followed by the ISO suffix.
pub open spec fn c2pa_uuid() -> Seq<u8> {
    seq![
        0x63u8, 0x32, 0x70, 0x61, 0x00, 0x11, 0x00, 0x10, 0x80, 0x00, 0x00, 0xAA, 0x00, 0x38,
        0x9B, 0x71,
    ]
}

/// The metadata category of a segment, from its marker and payload.
pub open spec fn segment_category(marker: u8, payload: Seq<u8>) -> Option<Category> {
    if marker == 0xE1 && payload.len() >= 6 && payload.subrange(0, 6) == exif_header() {
        Some(Category::Exif)
    } else if marker == 0xE1 && occurs_in(payload, xmp_namespace()) {
        Some(Category::Xmp)
    } else if marker == 0xEC {
        Some(Category::Application)
    } else if marker == 0xED {
        Some(Category::Iptc)
    } else if marker == 0xFE {
        Some(Category::Comment)
    } else if marker == 0xEB && (occurs_in(payload, c2pa_label()) || occurs_in(
        payload,
        c2pa_uuid(),
    )) {
        Some(Category::C2pa)
    } else {
        None
    }
}

fn classify_segment(marker: u8, payload: &[u8]) -> (r: Option<Category>)
    ensures
        r == segment_category(marker, payload@),
{
    if marker == 0xE1 {
        let exif = vec![0x45u8, 0x78, 0x69, 0x66, 0x00, 0x00];
        assert(exif@ =~= exif_header());
        if payload.len() >= 6 && super::bytes::starts_with(payload, exif.as_slice()) {
            return Some(Category::Exif);
        }
        let xmp = vec![
            0x68u8, 0x74, 0x74, 0x70, 0x3A, 0x2F, 0x2F, 0x6E, 0x73, 0x2E, 0x61, 0x64, 0x6F, 0x62,
            0x65, 0x2E, 0x63, 0x6F, 0x6D, 0x2F, 0x78, 0x61, 0x70, 0x2F, 0x31, 0x2E, 0x30, 0x2F,
        ];
        assert(xmp@ =~= xmp_namespace());
        if contains(payload, xmp.as_slice()) {
            return Some(Category::Xmp);
        }
        None
    } else if marker == 0xEC {
        Some(Category::Application)
    } else if marker == 0xED {
        Some(Category::Iptc)
    } else if marker == 0xFE {
        Some(Category::Comment)
    } else if marker == 0xEB {
        let label = vec![0x63u8, 0x32, 0x70, 0x61];
        assert(label@ =~= c2pa_label());
        let uuid = vec![
            0x63u8, 0x32, 0x70, 0x61, 0x00, 0x11, 0x00, 0x10, 0x80, 0x00, 0x00, 0xAA, 0x00, 0x38,
            0x9B, 0x71,
        ];
        assert(uuid@ =~= c2pa_uuid());
        if contains(payload, label.as_slice()) || contains(payload, uuid.as_slice()) {
            Some(Category::C2pa)
        } else {
            None
        }
    } else {
        None
    }
}

/// The first index at or after `i` that does not hold a `0xFF` fill byte.
pub open spec fn skip_fill(b: Seq<u8>, i: int) -> int
    decreases b.len() - i,
{
    if 0 <= i < b.len() && b[i] == 0xFF {
        skip_fill(b, i + 1)
    } else {
        i
    }
}

/// `skip_fill` moves forward and stays within the bytes.
pub proof fn lemma_skip_fill(b: Seq<u8>, i: int)
    ensures
        skip_fill(b, i) >= i,
        0 <= i <= b.len() ==> skip_fill(b, i) <= b.len(),
    decreases b.len() - i,
{
    if 0 <= i < b.len() && b[i] == 0xFF {
        lemma_skip_fill(b, i + 1);
    }
}

fn skip_fill_bytes(b: &[u8], i: usize) -> (r: usize)
    requires
        i <= b@.len(),
    ensures
        r == skip_fill(b@, i as int),
        i <= r <= b@.len(),
{
    let mut offset = i;
    while offset < b.len() && b[offset] == 0xFF
        invariant
            i <= offset <= b@.len(),
            skip_fill(b@, offset as int) == skip_fill(b@, i as int),
        decreases b.len() - offset,
    {
        offset = offset + 1;
    }
    offset
}

pub open spec fn is_restart(m: u8) -> bool {
    0xD0 <= m && m <= 0xD7
}

pub open spec fn prepend(s: Segment, r: BinaryResult<Seq<Segment>>) -> BinaryResult<Seq<Segment>> {
    match r {
        Ok(rest) => Ok(seq![s] + rest),
        Err(e) => Err(e),
    }
}

/// The segments from `offset` on; `entropy` says that the bytes there are
/// scan data, in which `0xFF 0x00` and restart markers do not end the scan.
pub open spec fn walk(b: Seq<u8>, offset: int, entropy: bool) -> BinaryResult<Seq<Segment>>
    decreases b.len() - offset, if entropy {
        1int
    } else {
        0int
    },
{
    if 0 <= offset < b.len() {
        let o = skip_fill(b, offset);
        proof {
            lemma_skip_fill(b, offset);
        }
        if entropy {
            if b[offset] != 0xFF {
                walk(b, offset + 1, true)
            } else if o >= b.len() {
                Err("Truncated JPEG entropy marker.")
            } else if b[o] == 0 || is_restart(b[o]) {
                walk(b, o + 1, true)
            } else {
                walk(b, offset, false)
            }
        } else if b[offset] != 0xFF {
            Err("Malformed JPEG marker boundary.")
        } else if o >= b.len() {
            Err("Truncated JPEG marker.")
        } else {
            let m = b[o];
            if m == 0 || m == 0xD8 {
                Err("Invalid JPEG structural marker.")
            } else if m == 0xD9 {
                if o + 1 != b.len() {
                    Err("JPEG trailing data rejected.")
                } else {
                    Ok(
                        seq![Segment { marker: m, start: offset as usize, end: (o + 1) as usize, metadata: None }],
                    )
                }
            } else if m == 0x01 || is_restart(m) {
                prepend(
                    Segment { marker: m, start: offset as usize, end: (o + 1) as usize, metadata: None },
                    walk(b, o + 1, false),
                )
            } else if b.len() - o < 3 {
                Err("Truncated JPEG segment length.")
            } else {
                let length = be16(b, o + 1);
                let end = o + 1 + length;
                if length < 2 {
                    Err("Invalid JPEG segment length.")
                } else if end > usize::MAX {
                    Err("JPEG segment length overflow.")
                } else if end > b.len() {
                    Err("Truncated JPEG segment.")
                } else {
                    prepend(
                        Segment {
                            marker: m,
                            start: offset as usize,
                            end: end as usize,
                            metadata: segment_category(m, b.subrange(o + 3, end)),
                        },
                        walk(b, end, m == 0xDA),
                    )
                }
            }
        }
    } else {
        Err("JPEG EOI marker missing.")
    }
}

/// Whether `s` was classified as C2PA from its own payload.
pub open spec fn is_seed(s: Segment) -> bool {
    s.metadata == Some(Category::C2pa)
}

/// Whether segment `j` lies in the run of adjacent `0xEB` segments around
/// segment `s`: a C2PA manifest split over several APP11 fragments.
pub open spec fn in_run(segs: Seq<Segment>, s: int, j: int) -> bool {
    if j <= s {
        forall|k: int|
            j <= k < s ==> (#[trigger] segs[k]).marker == 0xEB && segs[k].end == segs[k + 1].start
    } else {
        forall|k: int|
            s < k <= j ==> (#[trigger] segs[k]).marker == 0xEB && segs[k - 1].end == segs[k].start
    }
}

/// Whether segment `j` belongs to a run around some C2PA seed.
pub open spec fn reached(segs: Seq<Segment>, j: int) -> bool {
    exists|s: int| 0 <= s < segs.len() && #[trigger] is_seed(segs[s]) && in_run(segs, s, j)
}

/// The segments with every fragment of a C2PA run marked as C2PA.
pub open spec fn expanded(segs: Seq<Segment>) -> Seq<Segment> {
    Seq::new(
        segs.len(),
        |j: int|
            if reached(segs, j) {
                Segment { metadata: Some(Category::C2pa), ..segs[j] }
            } else {
                segs[j]
            },
    )
}

/// The segment list of a well-formed JPEG file, or why the file is rejected.
pub open spec fn jpeg_segments(b: Seq<u8>) -> BinaryResult<Seq<Segment>> {
    if !(b.len() >= 2 && b[0] == 0xFF && b[1] == 0xD8) {
        Err("JPEG SOI validation failed.")
    } else {
        match walk(b, 2, false) {
            Ok(segs) => Ok(expanded(segs)),
            Err(e) => Err(e),
        }
    }
}

pub open spec fn after(prefix: Seq<Segment>, r: BinaryResult<Seq<Segment>>) -> BinaryResult<
    Seq<Segment>,
> {
    match r {
        Ok(rest) => Ok(prefix + rest),
        Err(e) => Err(e),
    }
}

proof fn lemma_after_push(prefix: Seq<Segment>, s: Segment, r: BinaryResult<Seq<Segment>>)
    ensures
        after(prefix, prepend(s, r)) == after(prefix.push(s), r),
{
    if let Ok(rest) = r {
        assert(prefix + (seq![s] + rest) =~= prefix.push(s) + rest);
    }
}

/// Whether two segment lists agree on everything but metadata.
pub open spec fn same_layout(a: Seq<Segment>, b: Seq<Segment>) -> bool {
    &&& a.len() == b.len()
    &&& forall|j: int|
        0 <= j < a.len() ==> (#[trigger] a[j]).marker == b[j].marker && a[j].start == b[j].start
            && a[j].end == b[j].end
}

proof fn lemma_in_run_layout(a: Seq<Segment>, b: Seq<Segment>, s: int, j: int)
    requires
        same_layout(a, b),
        0 <= s < a.len(),
        0 <= j < a.len(),
    ensures
        in_run(a, s, j) == in_run(b, s, j),
{
    if j <= s {
        if in_run(a, s, j) {
            assert forall|k: int| j <= k < s implies (#[trigger] b[k]).marker == 0xEB && b[k].end
                == b[k + 1].start by {
                assert(a[k].marker == 0xEB && a[k].end == a[k + 1].start);
                assert(a[k + 1].start == b[k + 1].start);
            }
        }
        if in_run(b, s, j) {
            assert forall|k: int| j <= k < s implies (#[trigger] a[k]).marker == 0xEB && a[k].end
                == a[k + 1].start by {
                assert(b[k].marker == 0xEB && b[k].end == b[k + 1].start);
                assert(a[k + 1].start == b[k + 1].start);
            }
        }
    } else {
        if in_run(a, s, j) {
            assert forall|k: int| s < k <= j implies (#[trigger] b[k]).marker == 0xEB && b[k - 1].end
                == b[k].start by {
                assert(a[k].marker == 0xEB && a[k - 1].end == a[k].start);
                assert(a[k - 1].end == b[k - 1].end);
            }
        }
        if in_run(b, s, j) {
            assert forall|k: int| s < k <= j implies (#[trigger] a[k]).marker == 0xEB && a[k - 1].end
                == a[k].start by {
                assert(b[k].marker == 0xEB && b[k - 1].end == b[k].start);
                assert(a[k - 1].end == b[k - 1].end);
            }
        }
    }
}

/// The extent of the run of adjacent APP11 fragments around `seed`.
fn run_bounds(segments: &Vec<Segment>, seed: usize) -> (bounds: (usize, usize))
    requires
        seed < segments.len(),
    ensures
        bounds.0 <= seed <= bounds.1 < segments.len(),
        forall|j: int|
            0 <= j < segments.len() ==> (in_run(segments@, seed as int, j) <==> bounds.0 <= j
                <= bounds.1),
{
    let ghost segs = segments@;
    let n = segments.len();
    let mut left = seed;
    while left > 0 && segments[left - 1].marker == 0xEB && segments[left - 1].end
        == segments[left].start
        invariant
            left <= seed < n == segs.len(),
            segs == segments@,
            in_run(segs, seed as int, left as int),
        decreases left,
    {
        left = left - 1;
        assert forall|k: int| left <= k < seed implies (#[trigger] segs[k]).marker == 0xEB
            && segs[k].end == segs[k + 1].start by {
            if k > left {
                assert(in_run(segs, seed as int, left + 1));
            }
        }
    }
    let mut right = seed;
    while right + 1 < n && segments[right + 1].marker == 0xEB && segments[right].end
        == segments[right + 1].start
        invariant
            seed <= right < n == segs.len(),
            segs == segments@,
            in_run(segs, seed as int, right as int),
        decreases n - right,
    {
        right = right + 1;
        assert forall|k: int| seed < k <= right implies (#[trigger] segs[k]).marker == 0xEB
            && segs[k - 1].end == segs[k].start by {
            if k < right {
                assert(in_run(segs, seed as int, right - 1));
            }
        }
    }
    assert forall|j: int| 0 <= j < n implies (in_run(segs, seed as int, j) <==> left <= j
        <= right) by {
        if j < left {
            if in_run(segs, seed as int, j) {
                assert(segs[left - 1].marker == 0xEB && segs[left - 1].end == segs[left as int].start);
            }
        } else if j > right {
            if in_run(segs, seed as int, j) {
                assert(segs[right + 1].marker == 0xEB && segs[right as int].end == segs[right
                    + 1].start);
            }
        } else if j <= seed {
            assert forall|k: int| j <= k < seed implies (#[trigger] segs[k]).marker == 0xEB
                && segs[k].end == segs[k + 1].start by {
                assert(in_run(segs, seed as int, left as int));
            }
        } else {
            assert forall|k: int| seed < k <= j implies (#[trigger] segs[k]).marker == 0xEB
                && segs[k - 1].end == segs[k].start by {
                assert(in_run(segs, seed as int, right as int));
            }
        }
    }
    (left, right)
}

/// Marks segments `left..=right` as C2PA.
fn mark_range(segments: &mut Vec<Segment>, left: usize, right: usize)
    requires
        left <= right < old(segments).len(),
    ensures
        final(segments)@.len() == old(segments)@.len(),
        forall|j: int|
            0 <= j < old(segments)@.len() ==> #[trigger] final(segments)@[j] == if left <= j
                <= right {
                Segment { metadata: Some(Category::C2pa), ..old(segments)@[j] }
            } else {
                old(segments)@[j]
            },
{
    let ghost start = segments@;
    let mut k = left;
    while k <= right
        invariant
            left <= k <= right + 1,
            right < usize::MAX,
            right < start.len() == segments@.len(),
            forall|j: int|
                0 <= j < start.len() ==> #[trigger] segments@[j] == if left <= j < k {
                    Segment { metadata: Some(Category::C2pa), ..start[j] }
                } else {
                    start[j]
                },
        decreases right + 1 - k,
    {
        let s = segments[k];
        segments.set(
            k,
            Segment { marker: s.marker, start: s.start, end: s.end, metadata: Some(Category::C2pa) },
        );
        k = k + 1;
    }
}

/// What `segs` looks like once the runs of the first `t` seeds are marked.
pub open spec fn marked_by(orig: Seq<Segment>, seeds: Seq<usize>, t: int, j: int) -> Segment {
    if exists|u: int| 0 <= u < t && in_run(orig, #[trigger] seeds[u] as int, j) {
        Segment { metadata: Some(Category::C2pa), ..orig[j] }
    } else {
        orig[j]
    }
}

/// Marks as C2PA every APP11 fragment that is chained, marker to marker,
/// to a fragment whose payload names C2PA.
fn expand_c2pa_fragments(segments: &mut Vec<Segment>)
    ensures
        final(segments)@ == expanded(old(segments)@),
{
    let ghost orig = segments@;
    let n = segments.len();
    let mut seeds: Vec<usize> = Vec::new();
    let mut i: usize = 0;
    while i < n
        invariant
            i <= n == orig.len(),
            segments@ == orig,
            forall|t: int|
                0 <= t < seeds.len() ==> #[trigger] seeds@[t] < i && is_seed(orig[seeds@[t] as int]),
            forall|s: int|
                0 <= s < i && is_seed(orig[s]) ==> exists|t: int|
                    0 <= t < seeds.len() && #[trigger] seeds@[t] == s,
        decreases n - i,
    {
        let ghost old_seeds = seeds@;
        if segments[i].metadata == Some(Category::C2pa) {
            seeds.push(i);
            assert(seeds@[seeds.len() - 1] == i);
        }
        assert forall|s: int| 0 <= s < i + 1 && is_seed(orig[s]) implies exists|t: int|
            0 <= t < seeds.len() && #[trigger] seeds@[t] == s by {
            if s < i {
                let t = choose|t: int| 0 <= t < old_seeds.len() && #[trigger] old_seeds[t] == s;
                assert(seeds@[t] == s);
            } else {
                assert(seeds@[seeds.len() - 1] == s);
            }
        }
        i = i + 1;
    }
    let mut t: usize = 0;
    while t < seeds.len()
        invariant
            t <= seeds.len(),
            n == orig.len() == segments@.len(),
            forall|u: int|
                0 <= u < seeds.len() ==> #[trigger] seeds@[u] < n && is_seed(orig[seeds@[u] as int]),
            same_layout(segments@, orig),
            forall|j: int| 0 <= j < n ==> #[trigger] segments@[j] == marked_by(orig, seeds@, t as int, j),
        decreases seeds.len() - t,
    {
        let seed = seeds[t];
        let bounds = run_bounds(segments, seed);
        let ghost before = segments@;
        mark_range(segments, bounds.0, bounds.1);
        proof {
            assert forall|j: int| 0 <= j < n implies #[trigger] segments@[j] == marked_by(
                orig,
                seeds@,
                t + 1,
                j,
            ) by {
                lemma_in_run_layout(before, orig, seed as int, j);
                assert(seeds@[t as int] == seed);
                if bounds.0 <= j <= bounds.1 {
                    assert(in_run(orig, seeds@[t as int] as int, j));
                } else {
                    assert(!in_run(orig, seeds@[t as int] as int, j));
                    if exists|u: int| 0 <= u < t + 1 && in_run(orig, #[trigger] seeds@[u] as int, j) {
                        let u = choose|u: int|
                            0 <= u < t + 1 && in_run(orig, #[trigger] seeds@[u] as int, j);
                        assert(u < t);
                    }
                }
            }
            assert(same_layout(segments@, orig));
        }
        t = t + 1;
    }
    proof {
        assert forall|j: int| 0 <= j < n implies #[trigger] segments@[j] == expanded(orig)[j] by {
            assert(segments@[j] == marked_by(orig, seeds@, seeds@.len() as int, j));
            if reached(orig, j) {
                let s = choose|s: int|
                    0 <= s < orig.len() && #[trigger] is_seed(orig[s]) && in_run(orig, s, j);
                assert(exists|u: int| 0 <= u < seeds.len() && #[trigger] seeds@[u] == s);
                let u = choose|u: int| 0 <= u < seeds.len() && #[trigger] seeds@[u] == s;
                assert(in_run(orig, seeds@[u] as int, j));
            } else {
                if exists|u: int|
                    0 <= u < seeds.len() && in_run(orig, #[trigger] seeds@[u] as int, j) {
                    let u = choose|u: int|
                        0 <= u < seeds.len() && in_run(orig, #[trigger] seeds@[u] as int, j);
                    assert(is_seed(orig[seeds@[u] as int]));
                }
            }
        }
        assert(segments@ =~= expanded(orig));
    }
}

fn is_restart_marker(m: u8) -> (r: bool)
    ensures
        r == is_restart(m),
{
    0xD0 <= m && m <= 0xD7
}

fn parse(bytes: &[u8]) -> (r: BinaryResult<Vec<Segment>>)
    ensures
        match r {
            Ok(segments) => jpeg_segments(bytes@) == Ok::<Seq<Segment>, &'static str>(segments@),
            Err(e) => jpeg_segments(bytes@) == Err::<Seq<Segment>, &'static str>(e),
        },
{
    if !(bytes.len() >= 2 && bytes[0] == 0xFF && bytes[1] == 0xD8) {
        return Err("JPEG SOI validation failed.");
    }
    let mut offset: usize = 2;
    let mut entropy = false;
    let mut segments: Vec<Segment> = Vec::new();
    while offset < bytes.len()
        invariant
            2 <= offset <= bytes@.len(),
            bytes@.len() >= 2 && bytes@[0] == 0xFF && bytes@[1] == 0xD8,
            walk(bytes@, 2, false) == after(segments@, walk(bytes@, offset as int, entropy)),
        decreases bytes.len() - offset, if entropy {
            1int
        } else {
            0int
        },
    {
        if entropy {
            if bytes[offset] != 0xFF {
                offset = offset + 1;
                continue ;
            }
            let o = skip_fill_bytes(bytes, offset);
            if o >= bytes.len() {
                return Err("Truncated JPEG entropy marker.");
            }
            let marker = bytes[o];
            if marker == 0x00 || is_restart_marker(marker) {
                offset = o + 1;
                continue ;
            }
            entropy = false;
            continue ;
        }
        let start = offset;
        if bytes[offset] != 0xFF {
            return Err("Malformed JPEG marker boundary.");
        }
        let o = skip_fill_bytes(bytes, offset);
        if o >= bytes.len() {
            return Err("Truncated JPEG marker.");
        }
        let marker = bytes[o];
        if marker == 0x00 || marker == 0xD8 {
            return Err("Invalid JPEG structural marker.");
        }
        if marker == 0xD9 {
            let end = o + 1;
            if end != bytes.len() {
                return Err("JPEG trailing data rejected.");
            }
            let segment = Segment { marker, start, end, metadata: None };
            proof {
                lemma_after_push(segments@, segment, Ok(Seq::empty()));
                assert(segments@.push(segment) + Seq::<Segment>::empty() =~= segments@.push(segment));
            }
            segments.push(segment);
            expand_c2pa_fragments(&mut segments);
            return Ok(segments);
        }
        if marker == 0x01 || is_restart_marker(marker) {
            let segment = Segment { marker, start, end: o + 1, metadata: None };
            proof {
                lemma_after_push(segments@, segment, walk(bytes@, o + 1, false));
            }
            segments.push(segment);
            offset = o + 1;
            continue ;
        }
        if bytes.len() - o < 3 {
            return Err("Truncated JPEG segment length.");
        }
        let length = read_be16(bytes, o + 1) as usize;
        if length < 2 {
            return Err("Invalid JPEG segment length.");
        }
        let end = match (o + 1).checked_add(length) {
            Some(v) => v,
            None => return Err("JPEG segment length overflow."),
        };
        if end > bytes.len() {
            return Err("Truncated JPEG segment.");
        }
        let metadata = classify_segment(marker, &bytes[o + 3..end]);
        let segment = Segment { marker, start, end, metadata };
        proof {
            lemma_after_push(segments@, segment, walk(bytes@, end as int, marker == 0xDA));
        }
        segments.push(segment);
        offset = end;
        entropy = marker == 0xDA;
    }
    Err("JPEG EOI marker missing.")
}

/// How many segments of `segs` fall in `category`.
pub open spec fn count_in(segs: Seq<Segment>, category: Category) -> nat
    decreases segs.len(),
{
    if segs.len() == 0 {
        0
    } else {
        count_in(segs.drop_last(), category) + if segs.last().metadata == Some(category) {
            1nat
        } else {
            0nat
        }
    }
}

/// How many segments of `segs` are metadata of any category.
pub open spec fn metadata_in(segs: Seq<Segment>) -> nat
    decreases segs.len(),
{
    if segs.len() == 0 {
        0
    } else {
        metadata_in(segs.drop_last()) + if segs.last().metadata is Some {
            1nat
        } else {
            0nat
        }
    }
}

/// The findings JPEG analysis reports for a segment list.
pub open spec fn jpeg_findings(segs: Seq<Segment>) -> Seq<BinaryFinding> {
    finding_if("exif", count_in(segs, Category::Exif), "JPEG EXIF metadata") + finding_if(
        "xmp",
        count_in(segs, Category::Xmp),
        "JPEG XMP metadata",
    ) + finding_if("application", count_in(segs, Category::Application), "JPEG application metadata")
        + finding_if("iptc", count_in(segs, Category::Iptc), "JPEG IPTC/Photoshop metadata")
        + finding_if("comment", count_in(segs, Category::Comment), "JPEG comment metadata")
        + finding_if("c2pa", count_in(segs, Category::C2pa), "C2PA provenance manifest")
}

fn count_category(segments: &Vec<Segment>, category: Category) -> (n: usize)
    ensures
        n == count_in(segments@, category),
{
    let mut n: usize = 0;
    let mut i: usize = 0;
    while i < segments.len()
        invariant
            i <= segments.len(),
            n == count_in(segments@.take(i as int), category),
            n <= i,
        decreases segments.len() - i,
    {
        assert(segments@.take(i + 1).drop_last() == segments@.take(i as int));
        if segments[i].metadata == Some(category) {
            n = n + 1;
        }
        i = i + 1;
    }
    assert(segments@.take(i as int) == segments@);
    n
}

/// Whether `r` is what analysis gives for the bytes `b`.
pub open spec fn analysis(b: Seq<u8>, r: BinaryResult<ParsedBinary>) -> bool {
    match jpeg_segments(b) {
        Ok(segs) => r == Ok::<ParsedBinary, &'static str>(r->Ok_0) && r->Ok_0.format
            == BinaryFormat::Jpeg && r->Ok_0.findings@ == jpeg_findings(segs)
            && r->Ok_0.c2pa_detected == (count_in(segs, Category::C2pa) > 0),
        Err(e) => r == Err::<ParsedBinary, &'static str>(e),
    }
}

/// Reports the metadata segments of a JPEG file by category.
pub fn analyze(bytes: &[u8]) -> (r: BinaryResult<ParsedBinary>)
    ensures
        analysis(bytes@, r),
{
    let segments = parse(bytes)?;
    let mut findings: Vec<BinaryFinding> = Vec::new();
    let exif = count_category(&segments, Category::Exif);
    push_finding(&mut findings, "exif", exif, "JPEG EXIF metadata");
    let xmp = count_category(&segments, Category::Xmp);
    push_finding(&mut findings, "xmp", xmp, "JPEG XMP metadata");
    let application = count_category(&segments, Category::Application);
    push_finding(&mut findings, "application", application, "JPEG application metadata");
    let iptc = count_category(&segments, Category::Iptc);
    push_finding(&mut findings, "iptc", iptc, "JPEG IPTC/Photoshop metadata");
    let comment = count_category(&segments, Category::Comment);
    push_finding(&mut findings, "comment", comment, "JPEG comment metadata");
    let c2pa = count_category(&segments, Category::C2pa);
    push_finding(&mut findings, "c2pa", c2pa, "C2PA provenance manifest");
    assert(findings@ =~= jpeg_findings(segments@));
    Ok(ParsedBinary { format: BinaryFormat::Jpeg, findings, c2pa_detected: c2pa > 0 })
}

/// Whether the segments lie in order inside `b`, from `from` on, none
/// overlapping the next.
pub open spec fn ordered_within(segs: Seq<Segment>, from: int, len: int) -> bool {
    &&& forall|j: int| 0 <= j < segs.len() ==> from <= #[trigger] segs[j].start <= segs[j].end <= len
    &&& forall|j: int| 0 <= j < segs.len() - 1 ==> #[trigger] segs[j].end <= segs[j + 1].start
}

#[verifier::spinoff_prover]
#[verifier::rlimit(40)]
proof fn lemma_walk_ordered(b: Seq<u8>, offset: int, entropy: bool, segs: Seq<Segment>)
    requires
        0 <= offset,
        b.len() <= usize::MAX,
        walk(b, offset, entropy) == Ok::<Seq<Segment>, &'static str>(segs),
    ensures
        ordered_within(segs, offset, b.len() as int),
    decreases b.len() - offset, if entropy {
        1int
    } else {
        0int
    },
{
    if 0 <= offset < b.len() {
        let o = skip_fill(b, offset);
        lemma_skip_fill(b, offset);
        if entropy {
            if b[offset] != 0xFF {
                lemma_walk_ordered(b, offset + 1, true, segs);
            } else if b[o] == 0 || is_restart(b[o]) {
                lemma_walk_ordered(b, o + 1, true, segs);
            } else {
                lemma_walk_ordered(b, offset, false, segs);
            }
        } else {
            let m = b[o];
            if m == 0xD9 {
                assert(segs == seq![Segment { marker: m, start: offset as usize, end: (o + 1) as usize, metadata: None }]);
            } else if m == 0x01 || is_restart(m) {
                let rest = walk(b, o + 1, false)->Ok_0;
                lemma_walk_ordered(b, o + 1, false, rest);
                assert(segs == seq![Segment { marker: m, start: offset as usize, end: (o + 1) as usize, metadata: None }] + rest);
                assert forall|j: int| 0 <= j < segs.len() - 1 implies #[trigger] segs[j].end <= segs[j + 1].start by {
                    if j > 0 {
                        assert(segs[j] == rest[j - 1]);
                    }
                    assert(segs[j + 1] == rest[j]);
                }
                assert forall|j: int| 0 <= j < segs.len() implies offset <= #[trigger] segs[j].start <= segs[j].end <= b.len() by {
                    if j > 0 {
                        assert(segs[j] == rest[j - 1]);
                    }
                }
            } else {
                let length = be16(b, o + 1);
                let end = o + 1 + length;
                let rest = walk(b, end, m == 0xDA)->Ok_0;
                lemma_walk_ordered(b, end, m == 0xDA, rest);
                assert(segs == seq![Segment { marker: m, start: offset as usize, end: end as usize, metadata: segment_category(m, b.subrange(o + 3, end)) }] + rest);
                assert forall|j: int| 0 <= j < segs.len() - 1 implies #[trigger] segs[j].end <= segs[j + 1].start by {
                    if j > 0 {
                        assert(segs[j] == rest[j - 1]);
                    }
                    assert(segs[j + 1] == rest[j]);
                }
                assert forall|j: int| 0 <= j < segs.len() implies offset <= #[trigger] segs[j].start <= segs[j].end <= b.len() by {
                    if j > 0 {
                        assert(segs[j] == rest[j - 1]);
                    }
                }
            }
        }
    }
}

proof fn lemma_segments_ordered(b: Seq<u8>, segs: Seq<Segment>)
    requires
        b.len() <= usize::MAX,
        jpeg_segments(b) == Ok::<Seq<Segment>, &'static str>(segs),
    ensures
        ordered_within(segs, 0, b.len() as int),
{
    let raw = walk(b, 2, false)->Ok_0;
    lemma_walk_ordered(b, 2, false, raw);
    assert(segs == expanded(raw));
    assert forall|j: int| 0 <= j < segs.len() implies 0 <= #[trigger] segs[j].start <= segs[j].end <= b.len() by {
        assert(segs[j].start == raw[j].start && segs[j].end == raw[j].end);
    }
    assert forall|j: int| 0 <= j < segs.len() - 1 implies #[trigger] segs[j].end <= segs[j + 1].start by {
        assert(segs[j].end == raw[j].end && segs[j + 1].start == raw[j + 1].start);
    }
}

/// The bytes of `b` from `cursor` on, with the byte ranges of the metadata
/// segments from index `i` on cut out.
pub open spec fn cut(b: Seq<u8>, segs: Seq<Segment>, i: int, cursor: int) -> Seq<u8>
    decreases segs.len() - i,
{
    if i >= segs.len() || i < 0 {
        b.subrange(cursor, b.len() as int)
    } else if segs[i].metadata is Some {
        b.subrange(cursor, segs[i].start as int) + cut(b, segs, i + 1, segs[i].end as int)
    } else {
        cut(b, segs, i + 1, cursor)
    }
}

/// Whether `r` is what sanitizing gives for the bytes `b`.
pub open spec fn sanitization(b: Seq<u8>, r: BinaryResult<CleanedBinary>) -> bool {
    match jpeg_segments(b) {
        Ok(segs) => r == Ok::<CleanedBinary, &'static str>(r->Ok_0) && r->Ok_0.bytes@
            == cut(b, segs, 0, 0) && r->Ok_0.removed_items == metadata_in(segs),
        Err(e) => r == Err::<CleanedBinary, &'static str>(e),
    }
}

/// Cuts every metadata segment out of a JPEG file, scan data included, and
/// keeps every other byte.
pub fn sanitize(bytes: &[u8]) -> (r: BinaryResult<CleanedBinary>)
    ensures
        sanitization(bytes@, r),
{
    let segments = parse(bytes)?;
    let total = bytes.len();
    proof {
        assert(bytes@.len() == total);
        lemma_segments_ordered(bytes@, segments@);
    }
    let mut output: Vec<u8> = Vec::new();
    let mut cursor: usize = 0;
    let mut removed_items: usize = 0;
    let mut i: usize = 0;
    while i < segments.len()
        invariant
            i <= segments.len(),
            ordered_within(segments@, 0, bytes@.len() as int),
            cursor <= bytes@.len(),
            i < segments.len() ==> cursor <= segments@[i as int].start,
            output@ + cut(bytes@, segments@, i as int, cursor as int) == cut(bytes@, segments@, 0, 0),
            removed_items == metadata_in(segments@.take(i as int)),
            removed_items <= i,
        decreases segments.len() - i,
    {
        assert(segments@.take(i + 1).drop_last() == segments@.take(i as int));
        let segment = segments[i];
        assert(segments@[i as int].start <= segments@[i as int].end <= bytes@.len());
        if i + 1 < segments.len() {
            assert(segments@[i as int].end <= segments@[i + 1].start);
        }
        if segment.metadata.is_some() {
            let ghost out_before = output@;
            append_range(&mut output, bytes, cursor, segment.start);
            assert(output@ + cut(bytes@, segments@, i + 1, segment.end as int) =~= out_before + cut(
                bytes@,
                segments@,
                i as int,
                cursor as int,
            ));
            cursor = segment.end;
            removed_items = removed_items + 1;
        } else {
            if i + 1 < segments.len() {
                assert(segments@[i as int].start <= segments@[i + 1].start);
            }
        }
        i = i + 1;
    }
    let ghost out_before = output@;
    append_range(&mut output, bytes, cursor, bytes.len());
    assert(output@ =~= out_before + cut(bytes@, segments@, i as int, cursor as int));
    assert(segments@.take(i as int) == segments@);
    Ok(CleanedBinary { bytes: output, removed_items })
}

/// The segments from index `k` on start no earlier than `e`, when the first
/// of them does.
pub open spec fn next_start(b: Seq<u8>, ex: Seq<Segment>, k: int) -> int {
    if 0 <= k < ex.len() {
        ex[k].start as int
    } else {
        b.len() as int
    }
}

/// Cutting from cursor `c` copies the bytes up to any `e` before the next
/// segment, then cuts from `e`.
proof fn lemma_cut_prefix(b: Seq<u8>, ex: Seq<Segment>, k: int, c: int, e: int)
    requires
        0 <= k <= ex.len(),
        ordered_within(ex, 0, b.len() as int),
        0 <= c <= e <= next_start(b, ex, k),
        e <= b.len(),
    ensures
        cut(b, ex, k, c) == b.subrange(c, e) + cut(b, ex, k, e),
    decreases ex.len() - k,
{
    if k >= ex.len() {
        assert(b.subrange(c, b.len() as int) =~= b.subrange(c, e) + b.subrange(e, b.len() as int));
    } else if ex[k].metadata is Some {
        let st = ex[k].start as int;
        assert(b.subrange(c, st) =~= b.subrange(c, e) + b.subrange(e, st));
        assert(cut(b, ex, k, c) =~= b.subrange(c, e) + cut(b, ex, k, e));
    } else {
        assert(ex[k].start <= ex[k].end);
        if k + 1 < ex.len() {
            assert(ex[k].end <= ex[k + 1].start);
        }
        lemma_cut_prefix(b, ex, k + 1, c, e);
    }
}

/// What cutting from cursor `c` gives is no longer than what lies after `c`.
proof fn lemma_cut_len(b: Seq<u8>, ex: Seq<Segment>, k: int, c: int)
    requires
        0 <= k <= ex.len(),
        ordered_within(ex, 0, b.len() as int),
        0 <= c <= next_start(b, ex, k),
        c <= b.len(),
    ensures
        cut(b, ex, k, c).len() <= b.len() - c,
    decreases ex.len() - k,
{
    if k < ex.len() {
        assert(ex[k].start <= ex[k].end <= b.len());
        if k + 1 < ex.len() {
            assert(ex[k].end <= ex[k + 1].start);
        }
        if ex[k].metadata is Some {
            lemma_cut_len(b, ex, k + 1, ex[k].end as int);
        } else {
            lemma_cut_len(b, ex, k + 1, c);
        }
    }
}

/// Equal bytes give equal runs of fill bytes.
proof fn lemma_skip_same(b: Seq<u8>, o: int, out: Seq<u8>, p: int, n: int)
    requires
        0 <= o,
        0 <= p,
        o + n <= b.len(),
        p + n <= out.len(),
        skip_fill(b, o) < o + n,
        forall|i: int| p <= i < p + n ==> #[trigger] out[i] == b[o + (i - p)],
    ensures
        skip_fill(out, p) == p + (skip_fill(b, o) - o),
    decreases n,
{
    lemma_skip_fill(b, o);
    assert(n > 0);
    if b[o] == 0xFF {
        assert(out[p] == b[o]);
        lemma_skip_same(b, o + 1, out, p + 1, n - 1);
    } else {
        assert(out[p] == b[o]);
    }
}

/// A segment list whose segments all lack a category is its own expansion.
proof fn lemma_plain_expanded(cs: Seq<Segment>)
    requires
        forall|i: int| 0 <= i < cs.len() ==> (#[trigger] cs[i]).metadata is None,
    ensures
        expanded(cs) == cs,
        metadata_in(cs) == 0,
        count_in(cs, Category::Exif) == 0,
        count_in(cs, Category::Xmp) == 0,
        count_in(cs, Category::Application) == 0,
        count_in(cs, Category::Iptc) == 0,
        count_in(cs, Category::Comment) == 0,
        count_in(cs, Category::C2pa) == 0,
    decreases cs.len(),
{
    assert forall|j: int| 0 <= j < cs.len() implies !reached(cs, j) by {
        if reached(cs, j) {
            let s = choose|s: int| 0 <= s < cs.len() && #[trigger] is_seed(cs[s]) && in_run(cs, s, j);
            assert(cs[s].metadata is None);
        }
    }
    assert(expanded(cs) =~= cs);
    if cs.len() > 0 {
        assert(cs[cs.len() - 1].metadata is None);
        lemma_plain_expanded(cs.drop_last());
    }
}

/// How expansion relates each segment to its raw form: same marker and
/// range; a segment without a category had none before; one that gained a
/// category is an APP11 fragment.
proof fn lemma_expanded_facts(all: Seq<Segment>)
    ensures
        expanded(all).len() == all.len(),
        forall|j: int|
            0 <= j < all.len() ==> (#[trigger] expanded(all)[j]).marker == all[j].marker
                && expanded(all)[j].start == all[j].start && expanded(all)[j].end == all[j].end
                && (expanded(all)[j].metadata is None ==> all[j].metadata is None) && (
            expanded(all)[j].metadata is Some && all[j].metadata is None ==> all[j].marker
                == 0xEB),
{
    let ex = expanded(all);
    assert forall|j: int| 0 <= j < all.len() implies (#[trigger] ex[j]).marker == all[j].marker
        && ex[j].start == all[j].start && ex[j].end == all[j].end && (ex[j].metadata is None
        ==> all[j].metadata is None) && (ex[j].metadata is Some && all[j].metadata is None
        ==> all[j].marker == 0xEB) by {
        if reached(all, j) {
            let s = choose|s: int|
                0 <= s < all.len() && #[trigger] is_seed(all[s]) && in_run(all, s, j);
            if j < s {
                assert(all[j].marker == 0xEB && all[j].end == all[j + 1].start);
            } else if j > s {
                assert(all[j].marker == 0xEB && all[j - 1].end == all[j].start);
            }
        }
    }
}

/// The output starts with a copy of `b[o..e]`, followed by `tail`.
proof fn lemma_copied(b: Seq<u8>, o: int, e: int, out: Seq<u8>, p: int, tail: Seq<u8>)
    requires
        0 <= o <= e <= b.len(),
        0 <= p <= out.len(),
        out.subrange(p, out.len() as int) == b.subrange(o, e) + tail,
    ensures
        p + (e - o) <= out.len(),
        forall|i: int| p <= i < p + (e - o) ==> #[trigger] out[i] == b[o + (i - p)],
        out.subrange(p + (e - o), out.len() as int) == tail,
{
    let whole = out.subrange(p, out.len() as int);
    assert(whole.len() == (e - o) + tail.len());
    assert forall|i: int| p <= i < p + (e - o) implies #[trigger] out[i] == b[o + (i - p)] by {
        assert(whole[i - p] == out[i]);
        assert((b.subrange(o, e) + tail)[i - p] == b.subrange(o, e)[i - p]);
    }
    assert(out.subrange(p + (e - o), out.len() as int) =~= tail) by {
        assert forall|j: int| 0 <= j < tail.len() implies out.subrange(
            p + (e - o),
            out.len() as int,
        )[j] == tail[j] by {
            assert(whole[(e - o) + j] == out[p + (e - o) + j]);
            assert((b.subrange(o, e) + tail)[(e - o) + j] == tail[j]);
        }
    }
}

/// The state of walking `b` from `o` beside its cut form from `p`: the rest
/// of the walk gives `all[k..]`, and the cut bytes from `p` are what cutting
/// `all`'s expansion from segment `k` and cursor `o` gives.
pub open spec fn cut_state(
    b: Seq<u8>,
    all: Seq<Segment>,
    o: int,
    entropy: bool,
    k: int,
    out: Seq<u8>,
    p: int,
) -> bool {
    &&& b.len() <= usize::MAX
    &&& out.len() <= usize::MAX
    &&& 0 <= o
    &&& 0 <= p <= out.len()
    &&& 0 <= k <= all.len()
    &&& ordered_within(expanded(all), 0, b.len() as int)
    &&& walk(b, o, entropy) == Ok::<Seq<Segment>, &'static str>(all.subrange(k, all.len() as int))
    &&& out.subrange(p, out.len() as int) == cut(b, expanded(all), k, o)
}

/// Facts every state has: the walk is inside `b`, and the next segment
/// starts at or after `o`.
proof fn lemma_state_facts(
    b: Seq<u8>,
    all: Seq<Segment>,
    o: int,
    entropy: bool,
    k: int,
    out: Seq<u8>,
    p: int,
)
    requires
        cut_state(b, all, o, entropy, k, out, p),
    ensures
        o < b.len(),
        next_start(b, expanded(all), k) >= o,
        expanded(all).len() == all.len(),
{
    lemma_expanded_facts(all);
    let rest = all.subrange(k, all.len() as int);
    lemma_walk_ordered(b, o, entropy, rest);
    if k < all.len() {
        assert(rest[0] == all[k]);
    }
}

/// In scan data, a data byte or a stuffed or restart marker is copied and
/// consumed alike in `b` and in the cut bytes.
#[verifier::spinoff_prover]
proof fn lemma_scan_step(b: Seq<u8>, all: Seq<Segment>, o: int, k: int, out: Seq<u8>, p: int) -> (n: int)
    requires
        cut_state(b, all, o, true, k, out, p),
        b[o] != 0xFF || b[skip_fill(b, o)] == 0 || is_restart(b[skip_fill(b, o)]),
    ensures
        n > 0,
        cut_state(b, all, o + n, true, k, out, p + n),
        walk(out, p, true) == walk(out, p + n, true),
{
    lemma_state_facts(b, all, o, true, k, out, p);
    let ex = expanded(all);
    let rest = all.subrange(k, all.len() as int);
    let o2 = skip_fill(b, o);
    lemma_skip_fill(b, o);
    let n = if b[o] != 0xFF {
        1
    } else {
        o2 + 1 - o
    };
    lemma_walk_ordered(b, o + n, true, rest);
    if k < all.len() {
        assert(rest[0] == all[k]);
    }
    lemma_cut_prefix(b, ex, k, o, o + n);
    lemma_copied(b, o, o + n, out, p, cut(b, ex, k, o + n));
    assert(out[p] == b[o]);
    if b[o] == 0xFF {
        lemma_skip_same(b, o, out, p, n);
        assert(out[p + (o2 - o)] == b[o2]);
    }
    n
}

/// At a marker outside scan data, scan data running on in the cut bytes
/// ends there too unless the marker is a restart marker.
proof fn lemma_marker_ends_scan(b: Seq<u8>, all: Seq<Segment>, o: int, k: int, out: Seq<u8>, p: int)
    requires
        cut_state(b, all, o, false, k, out, p),
        k < all.len(),
        expanded(all)[k].metadata is None,
        !is_restart(b[skip_fill(b, o)]),
    ensures
        walk(out, p, true) == walk(out, p, false),
{
    lemma_state_facts(b, all, o, false, k, out, p);
    let ex = expanded(all);
    let o2 = skip_fill(b, o);
    lemma_skip_fill(b, o);
    let e = ex[k].end as int;
    lemma_expanded_facts(all);
    let rest = all.subrange(k, all.len() as int);
    assert(rest[0] == all[k]);
    assert(ex[k].start == o);
    assert(e >= o2 + 1);
    if k + 1 < all.len() {
        assert(ex[k].end <= ex[k + 1].start);
    }
    lemma_cut_prefix(b, ex, k + 1, o, e);
    assert(cut(b, ex, k, o) == cut(b, ex, k + 1, o));
    lemma_copied(b, o, e, out, p, cut(b, ex, k + 1, e));
    lemma_skip_same(b, o, out, p, e - o);
    assert(out[p] == b[o]);
    assert(out[p + (o2 - o)] == b[o2]);
}

/// The end-of-image marker is copied and ends both walks.
#[verifier::spinoff_prover]
proof fn lemma_eoi_step(b: Seq<u8>, all: Seq<Segment>, o: int, k: int, out: Seq<u8>, p: int)
    requires
        cut_state(b, all, o, false, k, out, p),
        b[skip_fill(b, o)] == 0xD9,
    ensures
        walk(out, p, false) matches Ok(cs) && forall|i: int|
            0 <= i < cs.len() ==> (#[trigger] cs[i]).metadata is None,
{
    lemma_state_facts(b, all, o, false, k, out, p);
    lemma_expanded_facts(all);
    let ex = expanded(all);
    let rest = all.subrange(k, all.len() as int);
    let o2 = skip_fill(b, o);
    lemma_skip_fill(b, o);
    let m = b[o2];
    let seg = Segment { marker: m, start: o as usize, end: (o2 + 1) as usize, metadata: None };
    assert(rest == seq![seg]);
    assert(all.len() == k + 1);
    assert(rest[0] == all[k]);
    assert(ex[k].metadata is None);
    assert(cut(b, ex, k, o) == cut(b, ex, k + 1, o));
    assert(o2 + 1 == b.len());
    lemma_copied(b, o, o2 + 1, out, p, Seq::<u8>::empty());
    lemma_skip_same(b, o, out, p, o2 + 1 - o);
    let q2 = p + (o2 - o);
    assert(out[p] == b[o]);
    assert(out[q2] == b[o2]);
    assert(q2 + 1 == out.len()) by {
        assert(out.subrange(q2 + 1, out.len() as int).len() == 0);
    }
    let seg2 = Segment { marker: m, start: p as usize, end: (q2 + 1) as usize, metadata: None };
    assert(walk(out, p, false) == Ok::<Seq<Segment>, &'static str>(seq![seg2]));
}

/// A standalone marker is copied; a restart marker is consumed as scan data
/// where scan data runs on in the cut bytes.
#[verifier::spinoff_prover]
proof fn lemma_standalone_step(b: Seq<u8>, all: Seq<Segment>, o: int, k: int, out: Seq<u8>, p: int) -> (r: (int, Segment))
    requires
        cut_state(b, all, o, false, k, out, p),
        b[skip_fill(b, o)] == 0x01 || is_restart(b[skip_fill(b, o)]),
    ensures
        r.0 > 0,
        r.1.metadata is None,
        cut_state(b, all, o + r.0, false, k + 1, out, p + r.0),
        walk(out, p, false) == prepend(r.1, walk(out, p + r.0, false)),
        is_restart(b[skip_fill(b, o)]) ==> walk(out, p, true) == walk(out, p + r.0, true),
{
    lemma_state_facts(b, all, o, false, k, out, p);
    lemma_expanded_facts(all);
    let ex = expanded(all);
    let rest = all.subrange(k, all.len() as int);
    let o2 = skip_fill(b, o);
    lemma_skip_fill(b, o);
    let m = b[o2];
    let seg = Segment { marker: m, start: o as usize, end: (o2 + 1) as usize, metadata: None };
    let tail_in = walk(b, o2 + 1, false)->Ok_0;
    assert(rest == seq![seg] + tail_in);
    assert(tail_in =~= rest.subrange(1, rest.len() as int));
    assert(all.subrange(k + 1, all.len() as int) =~= rest.subrange(1, rest.len() as int));
    assert(rest[0] == all[k]);
    assert(ex[k].metadata is None);
    if k + 1 < all.len() {
        assert(ex[k].end <= ex[k + 1].start);
    }
    lemma_cut_prefix(b, ex, k + 1, o, o2 + 1);
    assert(cut(b, ex, k, o) == cut(b, ex, k + 1, o));
    let n = o2 + 1 - o;
    lemma_copied(b, o, o2 + 1, out, p, cut(b, ex, k + 1, o2 + 1));
    lemma_skip_same(b, o, out, p, n);
    let q2 = p + (o2 - o);
    assert(out[p] == b[o]);
    assert(out[q2] == b[o2]);
    let seg2 = Segment { marker: m, start: p as usize, end: (q2 + 1) as usize, metadata: None };
    (n, seg2)
}

/// A metadata segment is cut: the cut bytes stay where they are while `b`
/// moves past the segment.
#[verifier::spinoff_prover]
proof fn lemma_cut_step(b: Seq<u8>, all: Seq<Segment>, o: int, k: int, out: Seq<u8>, p: int) -> (end: int)
    requires
        cut_state(b, all, o, false, k, out, p),
        k < all.len(),
        expanded(all)[k].metadata is Some,
    ensures
        end > o,
        cut_state(b, all, end, false, k + 1, out, p),
{
    lemma_state_facts(b, all, o, false, k, out, p);
    lemma_expanded_facts(all);
    let ex = expanded(all);
    let rest = all.subrange(k, all.len() as int);
    let o2 = skip_fill(b, o);
    lemma_skip_fill(b, o);
    let m = b[o2];
    assert(rest[0] == all[k]);
    assert(m != 0xD9 && m != 0x01 && !is_restart(m));
    let length = be16(b, o2 + 1);
    let end = o2 + 1 + length;
    let seg = Segment {
        marker: m,
        start: o as usize,
        end: end as usize,
        metadata: segment_category(m, b.subrange(o2 + 3, end)),
    };
    let tail_in = walk(b, end, m == 0xDA)->Ok_0;
    assert(rest == seq![seg] + tail_in);
    assert(tail_in =~= rest.subrange(1, rest.len() as int));
    assert(all.subrange(k + 1, all.len() as int) =~= rest.subrange(1, rest.len() as int));
    assert(m != 0xDA);
    assert(cut(b, ex, k, o) =~= cut(b, ex, k + 1, end));
    end
}

/// A kept segment with a length is copied whole and read alike in `b` and in
/// the cut bytes.
#[verifier::spinoff_prover]
proof fn lemma_kept_step(b: Seq<u8>, all: Seq<Segment>, o: int, k: int, out: Seq<u8>, p: int) -> (r: (int, Segment))
    requires
        cut_state(b, all, o, false, k, out, p),
        k < all.len(),
        expanded(all)[k].metadata is None,
        b[skip_fill(b, o)] != 0xD9,
        b[skip_fill(b, o)] != 0x01,
        !is_restart(b[skip_fill(b, o)]),
    ensures
        r.0 > 0,
        r.1.metadata is None,
        cut_state(b, all, o + r.0, b[skip_fill(b, o)] == 0xDA, k + 1, out, p + r.0),
        walk(out, p, false) == prepend(r.1, walk(out, p + r.0, b[skip_fill(b, o)] == 0xDA)),
{
    lemma_state_facts(b, all, o, false, k, out, p);
    lemma_expanded_facts(all);
    let ex = expanded(all);
    let rest = all.subrange(k, all.len() as int);
    let o2 = skip_fill(b, o);
    lemma_skip_fill(b, o);
    let m = b[o2];
    assert(rest[0] == all[k]);
    let length = be16(b, o2 + 1);
    let end = o2 + 1 + length;
    let payload = b.subrange(o2 + 3, end);
    let seg = Segment { marker: m, start: o as usize, end: end as usize, metadata: segment_category(m, payload) };
    let tail_in = walk(b, end, m == 0xDA)->Ok_0;
    assert(rest == seq![seg] + tail_in);
    assert(tail_in =~= rest.subrange(1, rest.len() as int));
    assert(all.subrange(k + 1, all.len() as int) =~= rest.subrange(1, rest.len() as int));
    assert(segment_category(m, payload) is None);
    if k + 1 < all.len() {
        assert(ex[k].end <= ex[k + 1].start);
    }
    lemma_cut_prefix(b, ex, k + 1, o, end);
    assert(cut(b, ex, k, o) == cut(b, ex, k + 1, o));
    let n = end - o;
    lemma_copied(b, o, end, out, p, cut(b, ex, k + 1, end));
    lemma_skip_same(b, o, out, p, n);
    let q2 = p + (o2 - o);
    assert(out[p] == b[o]);
    assert(out[q2] == b[o2]);
    assert(out[q2 + 1] == b[o2 + 1] && out[q2 + 2] == b[o2 + 2]);
    assert(be16(out, q2 + 1) == length);
    assert(out.subrange(q2 + 3, p + n) =~= payload);
    let seg2 = Segment { marker: m, start: p as usize, end: (p + n) as usize, metadata: segment_category(m, out.subrange(q2 + 3, p + n)) };
    (n, seg2)
}

/// Outside scan data, a successful walk finds at least one segment.
proof fn lemma_marker_walk_nonempty(b: Seq<u8>, o: int, segs: Seq<Segment>)
    requires
        walk(b, o, false) == Ok::<Seq<Segment>, &'static str>(segs),
    ensures
        segs.len() > 0,
{
    if 0 <= o < b.len() {
        let o2 = skip_fill(b, o);
        lemma_skip_fill(b, o);
        let m = b[o2];
        if m == 0xD9 {
        } else if m == 0x01 || is_restart(m) {
            let seg = Segment { marker: m, start: o as usize, end: (o2 + 1) as usize, metadata: None };
            assert(walk(b, o, false) == prepend(seg, walk(b, o2 + 1, false)));
            assert(segs[0] == seg);
        } else {
            let length = be16(b, o2 + 1);
            let end = o2 + 1 + length;
            let seg = Segment {
                marker: m,
                start: o as usize,
                end: end as usize,
                metadata: segment_category(m, b.subrange(o2 + 3, end)),
            };
            assert(walk(b, o, false) == prepend(seg, walk(b, end, m == 0xDA)));
            assert(segs[0] == seg);
        }
    }
}

/// Walking the cut bytes from `p` succeeds wherever walking `b` from `o`
/// does, and finds no metadata. Scan data may run on in the cut bytes where
/// a cut segment ended it in `b` (`out_entropy`).
proof fn lemma_cut_walk(
    b: Seq<u8>,
    all: Seq<Segment>,
    o: int,
    entropy: bool,
    k: int,
    out: Seq<u8>,
    p: int,
    out_entropy: bool,
)
    requires
        cut_state(b, all, o, entropy, k, out, p),
        entropy ==> out_entropy,
    ensures
        walk(out, p, out_entropy) matches Ok(cs) && forall|i: int|
            0 <= i < cs.len() ==> (#[trigger] cs[i]).metadata is None,
    decreases b.len() - o, if entropy {
        1int
    } else {
        0int
    },
{
    lemma_state_facts(b, all, o, entropy, k, out, p);
    let o2 = skip_fill(b, o);
    lemma_skip_fill(b, o);
    if entropy {
        if b[o] != 0xFF || b[o2] == 0 || is_restart(b[o2]) {
            let n = lemma_scan_step(b, all, o, k, out, p);
            lemma_cut_walk(b, all, o + n, true, k, out, p + n, true);
        } else {
            assert(walk(b, o, true) == walk(b, o, false));
            lemma_cut_walk(b, all, o, false, k, out, p, true);
        }
    } else {
        let m = b[o2];
        let rest = all.subrange(k, all.len() as int);
        lemma_marker_walk_nonempty(b, o, rest);
        assert(k < all.len());
        if m == 0xD9 {
            lemma_eoi_step(b, all, o, k, out, p);
            if out_entropy {
                lemma_expanded_facts(all);
                assert(rest[0] == all[k]);
                lemma_marker_ends_scan(b, all, o, k, out, p);
            }
        } else if m == 0x01 || is_restart(m) {
            let (n, seg2) = lemma_standalone_step(b, all, o, k, out, p);
            if out_entropy && is_restart(m) {
                lemma_cut_walk(b, all, o + n, false, k + 1, out, p + n, true);
            } else {
                lemma_cut_walk(b, all, o + n, false, k + 1, out, p + n, false);
                let tail = walk(out, p + n, false)->Ok_0;
                assert(walk(out, p, false) == Ok::<Seq<Segment>, &'static str>(seq![seg2] + tail));
                assert forall|i: int| 0 <= i < (seq![seg2] + tail).len() implies (#[trigger] (seq![seg2]
                    + tail)[i]).metadata is None by {
                    if i > 0 {
                        assert((seq![seg2] + tail)[i] == tail[i - 1]);
                    }
                }
                if out_entropy {
                    lemma_expanded_facts(all);
                    assert(rest[0] == all[k]);
                    lemma_marker_ends_scan(b, all, o, k, out, p);
                }
            }
        } else if expanded(all)[k].metadata is Some {
            let end = lemma_cut_step(b, all, o, k, out, p);
            lemma_cut_walk(b, all, end, false, k + 1, out, p, out_entropy);
        } else {
            let (n, seg2) = lemma_kept_step(b, all, o, k, out, p);
            lemma_cut_walk(b, all, o + n, m == 0xDA, k + 1, out, p + n, m == 0xDA);
            let tail = walk(out, p + n, m == 0xDA)->Ok_0;
            assert(walk(out, p, false) == Ok::<Seq<Segment>, &'static str>(seq![seg2] + tail));
            assert forall|i: int| 0 <= i < (seq![seg2] + tail).len() implies (#[trigger] (seq![seg2]
                + tail)[i]).metadata is None by {
                if i > 0 {
                    assert((seq![seg2] + tail)[i] == tail[i - 1]);
                }
            }
            if out_entropy {
                lemma_marker_ends_scan(b, all, o, k, out, p);
            }
        }
    }
}

/// Sanitizing a JPEG file leaves nothing for analysis to report: the file
/// with its metadata segments cut out parses, and none of its segments is
/// metadata.
pub proof fn law_jpeg_sanitized_is_clean(b: Seq<u8>)
    requires
        jpeg_segments(b) is Ok,
        b.len() <= usize::MAX,
    ensures
        jpeg_segments(cut(b, jpeg_segments(b)->Ok_0, 0, 0)) matches Ok(cs) && jpeg_findings(cs)
            == Seq::<BinaryFinding>::empty() && metadata_in(cs) == 0 && count_in(
            cs,
            Category::C2pa,
        ) == 0,
{
    let all = walk(b, 2, false)->Ok_0;
    let ex = expanded(all);
    assert(jpeg_segments(b) == Ok::<Seq<Segment>, &'static str>(ex));
    lemma_segments_ordered(b, ex);
    lemma_walk_ordered(b, 2, false, all);
    lemma_expanded_facts(all);
    lemma_marker_walk_nonempty(b, 2, all);
    assert(next_start(b, ex, 0) >= 2);
    lemma_cut_prefix(b, ex, 0, 0, 2);
    let out = cut(b, ex, 0, 0);
    lemma_cut_len(b, ex, 0, 0);
    assert(out.subrange(0, out.len() as int) =~= out);
    lemma_copied(b, 0, 2, out, 0, cut(b, ex, 0, 2));
    assert(out[0] == b[0] && out[1] == b[1]);
    assert(all.subrange(0, all.len() as int) =~= all);
    lemma_cut_walk(b, all, 2, false, 0, out, 2, false);
    let cs = walk(out, 2, false)->Ok_0;
    lemma_plain_expanded(cs);
    assert(jpeg_segments(out) == Ok::<Seq<Segment>, &'static str>(cs));
    assert(jpeg_findings(cs) =~= Seq::<BinaryFinding>::empty());
}

proof fn lemma_counts_sum(segs: Seq<Segment>)
    ensures
        count_in(segs, Category::Exif) + count_in(segs, Category::Xmp) + count_in(
            segs,
            Category::Application,
        ) + count_in(segs, Category::Iptc) + count_in(segs, Category::Comment) + count_in(
            segs,
            Category::C2pa,
        ) == metadata_in(segs),
    decreases segs.len(),
{
    if segs.len() > 0 {
        lemma_counts_sum(segs.drop_last());
        match segs.last().metadata {
            Some(Category::Exif) => {},
            Some(Category::Xmp) => {},
            Some(Category::Application) => {},
            Some(Category::Iptc) => {},
            Some(Category::Comment) => {},
            Some(Category::C2pa) => {},
            None => {},
        }
    }
}

/// The findings analysis reports total the metadata segments.
pub proof fn lemma_findings_total(segs: Seq<Segment>)
    requires
        metadata_in(segs) <= usize::MAX,
    ensures
        findings_total(jpeg_findings(segs)) == metadata_in(segs),
{
    lemma_counts_sum(segs);
    let a = finding_if("exif", count_in(segs, Category::Exif), "JPEG EXIF metadata");
    let b = finding_if("xmp", count_in(segs, Category::Xmp), "JPEG XMP metadata");
    let c = finding_if("application", count_in(segs, Category::Application), "JPEG application metadata");
    let d = finding_if("iptc", count_in(segs, Category::Iptc), "JPEG IPTC/Photoshop metadata");
    let e = finding_if("comment", count_in(segs, Category::Comment), "JPEG comment metadata");
    let f = finding_if("c2pa", count_in(segs, Category::C2pa), "C2PA provenance manifest");
    lemma_total_finding_if("exif", count_in(segs, Category::Exif), "JPEG EXIF metadata");
    lemma_total_finding_if("xmp", count_in(segs, Category::Xmp), "JPEG XMP metadata");
    lemma_total_finding_if("application", count_in(segs, Category::Application), "JPEG application metadata");
    lemma_total_finding_if("iptc", count_in(segs, Category::Iptc), "JPEG IPTC/Photoshop metadata");
    lemma_total_finding_if("comment", count_in(segs, Category::Comment), "JPEG comment metadata");
    lemma_total_finding_if("c2pa", count_in(segs, Category::C2pa), "C2PA provenance manifest");
    lemma_total_concat(a, b);
    lemma_total_concat(a + b, c);
    lemma_total_concat(a + b + c, d);
    lemma_total_concat(a + b + c + d, e);
    lemma_total_concat(a + b + c + d + e, f);
}

/// An APP1 segment whose payload does not begin with the EXIF header
/// `Exif\0\0` but holds the XMP namespace `http://ns.adobe.com/xap/1.0/`
/// anywhere is XMP metadata.
pub proof fn law_app1_with_xmp_namespace_is_xmp(payload: Seq<u8>, at: int)
    requires
        !(payload.len() >= 6 && payload.subrange(0, 6) == seq![0x45u8, 0x78, 0x69, 0x66, 0x00, 0x00]),
        0 <= at,
        at + 28 <= payload.len(),
        payload.subrange(at, at + 28) == seq![
            0x68u8, 0x74, 0x74, 0x70, 0x3A, 0x2F, 0x2F, 0x6E, 0x73, 0x2E, 0x61, 0x64, 0x6F, 0x62,
            0x65, 0x2E, 0x63, 0x6F, 0x6D, 0x2F, 0x78, 0x61, 0x70, 0x2F, 0x31, 0x2E, 0x30, 0x2F,
        ],
    ensures
        segment_category(0xE1, payload) == Some(Category::Xmp),
{
    assert(xmp_namespace().len() == 28);
    assert(payload.subrange(at, at + xmp_namespace().len()) == xmp_namespace());
    assert(occurs_in(payload, xmp_namespace()));
}

} // verus!
