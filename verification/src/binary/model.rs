use vstd::prelude::*;

verus! {

/// The container formats the binary sanitizer understands.
#[derive(Debug, Clone, Copy, PartialEq, Eq, Structural)]
pub enum BinaryFormat {
    Png,
    Jpeg,
    WebP,
    Docx,
    Xlsx,
    Pptx,
    Odt,
    Svg,
    Pdf,
}

impl BinaryFormat {
    /// The short name of the format.
    pub open spec fn spec_label(self) -> &'static str {
        match self {
            BinaryFormat::Png => "png",
            BinaryFormat::Jpeg => "jpeg",
            BinaryFormat::WebP => "webp",
            BinaryFormat::Docx => "docx",
            BinaryFormat::Xlsx => "xlsx",
            BinaryFormat::Pptx => "pptx",
            BinaryFormat::Odt => "odt",
            BinaryFormat::Svg => "svg",
            BinaryFormat::Pdf => "pdf",
        }
    }

    /// The media type of the format.
    pub open spec fn spec_mime(self) -> &'static str {
        match self {
            BinaryFormat::Png => "image/png",
            BinaryFormat::Jpeg => "image/jpeg",
            BinaryFormat::WebP => "image/webp",
            BinaryFormat::Docx => "application/vnd.openxmlformats-officedocument.wordprocessingml.document",
            BinaryFormat::Xlsx => "application/vnd.openxmlformats-officedocument.spreadsheetml.sheet",
            BinaryFormat::Pptx => "application/vnd.openxmlformats-officedocument.presentationml.presentation",
            BinaryFormat::Odt => "application/vnd.oasis.opendocument.text",
            BinaryFormat::Svg => "image/svg+xml",
            BinaryFormat::Pdf => "application/pdf",
        }
    }

    pub fn label(self) -> (r: &'static str)
        ensures
            r == self.spec_label(),
    {
        match self {
            BinaryFormat::Png => "png",
            BinaryFormat::Jpeg => "jpeg",
            BinaryFormat::WebP => "webp",
            BinaryFormat::Docx => "docx",
            BinaryFormat::Xlsx => "xlsx",
            BinaryFormat::Pptx => "pptx",
            BinaryFormat::Odt => "odt",
            BinaryFormat::Svg => "svg",
            BinaryFormat::Pdf => "pdf",
        }
    }

    pub fn mime(self) -> (r: &'static str)
        ensures
            r == self.spec_mime(),
    {
        match self {
            BinaryFormat::Png => "image/png",
            BinaryFormat::Jpeg => "image/jpeg",
            BinaryFormat::WebP => "image/webp",
            BinaryFormat::Docx => "application/vnd.openxmlformats-officedocument.wordprocessingml.document",
            BinaryFormat::Xlsx => "application/vnd.openxmlformats-officedocument.spreadsheetml.sheet",
            BinaryFormat::Pptx => "application/vnd.openxmlformats-officedocument.presentationml.presentation",
            BinaryFormat::Odt => "application/vnd.oasis.opendocument.text",
            BinaryFormat::Svg => "image/svg+xml",
            BinaryFormat::Pdf => "application/pdf",
        }
    }
}

/// One category of metadata found in a file, with how many items it holds.
#[derive(Debug, Clone, PartialEq, Eq)]
pub struct BinaryFinding {
    pub kind: &'static str,
    pub count: usize,
    pub description: &'static str,
}

/// What analysis found in a file.
#[derive(Debug, Clone, PartialEq, Eq)]
pub struct ParsedBinary {
    pub format: BinaryFormat,
    pub findings: Vec<BinaryFinding>,
    pub c2pa_detected: bool,
}

/// The sum of the counts of `findings`.
pub open spec fn findings_total(findings: Seq<BinaryFinding>) -> nat
    decreases findings.len(),
{
    if findings.len() == 0 {
        0
    } else {
        findings_total(findings.drop_last()) + findings.last().count as nat
    }
}

/// The sum of the counts of `findings`, or `usize::MAX` where it is larger.
pub open spec fn capped_total(findings: Seq<BinaryFinding>) -> usize {
    if findings_total(findings) <= usize::MAX {
        findings_total(findings) as usize
    } else {
        usize::MAX
    }
}

impl ParsedBinary {
    /// The number of metadata items over all findings (at most `usize::MAX`).
    pub fn metadata_count(&self) -> (total: usize)
        ensures
            total == capped_total(self.findings@),
    {
        let mut total: usize = 0;
        let mut i: usize = 0;
        while i < self.findings.len()
            invariant
                i <= self.findings.len(),
                total == capped_total(self.findings@.take(i as int)),
            decreases self.findings.len() - i,
        {
            assert(self.findings@.take(i + 1).drop_last() == self.findings@.take(i as int));
            total = total.saturating_add(self.findings[i].count);
            i = i + 1;
        }
        assert(self.findings@.take(i as int) == self.findings@);
        total
    }
}

/// A one-element finding list when `count` is positive, else nothing.
pub open spec fn finding_if(kind: &'static str, count: nat, description: &'static str) -> Seq<
    BinaryFinding,
> {
    if count > 0 {
        seq![BinaryFinding { kind, count: count as usize, description }]
    } else {
        Seq::empty()
    }
}

/// Appends the finding for `count` items of `kind`, when there are any.
pub fn push_finding(
    findings: &mut Vec<BinaryFinding>,
    kind: &'static str,
    count: usize,
    description: &'static str,
)
    ensures
        final(findings)@ == old(findings)@ + finding_if(kind, count as nat, description),
{
    if count > 0 {
        findings.push(BinaryFinding { kind, count, description });
    }
    assert(final(findings)@ =~= old(findings)@ + finding_if(kind, count as nat, description));
}

/// The total of two finding lists is the sum of their totals.
pub proof fn lemma_total_concat(a: Seq<BinaryFinding>, b: Seq<BinaryFinding>)
    ensures
        findings_total(a + b) == findings_total(a) + findings_total(b),
    decreases b.len(),
{
    if b.len() == 0 {
        assert(a + b =~= a);
    } else {
        assert((a + b).drop_last() =~= a + b.drop_last());
        assert((a + b).last() == b.last());
        lemma_total_concat(a, b.drop_last());
    }
}

/// The total of a conditional finding is its count.
pub proof fn lemma_total_finding_if(kind: &'static str, count: nat, description: &'static str)
    requires
        count <= usize::MAX,
    ensures
        findings_total(finding_if(kind, count, description)) == count,
{
    if count > 0 {
        let f = finding_if(kind, count, description);
        assert(f.drop_last() =~= Seq::<BinaryFinding>::empty());
        assert(f.last().count == count as usize);
        assert(findings_total(f) == findings_total(f.drop_last()) + f.last().count as nat);
    }
}

/// A sanitized file and how many metadata items were taken out of it.
#[derive(Debug, Clone, PartialEq, Eq)]
pub struct CleanedBinary {
    pub bytes: Vec<u8>,
    pub removed_items: usize,
}

/// The result of a binary operation; the error says what was rejected.
pub type BinaryResult<T> = Result<T, &'static str>;

} // verus!
