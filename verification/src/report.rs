//! The reports that the text and binary commands hand back: input limits,
//! finding aggregation, fingerprints and post-sanitization verification.
use base64::Engine;
use sha2::Digest;
use vstd::prelude::*;
use vstd::string::StringSliceAdditionalSpecFns;

use crate::binary::model::capped_total;
use crate::binary::{
    law_sanitized_pdf_is_clean, law_sanitized_raster_is_clean, signature_of, Signature,
    analysis as binary_analysis, analyze as analyze_file, sanitization as binary_sanitization,
    sanitize as sanitize_file, BinaryFinding, BinaryResult, CleanedBinary, ParsedBinary,
};
use crate::engine::model::{Action, EngineChange, Mode, Rule, Severity};
use crate::engine::rules::{classify, rule_for};
use crate::engine::sanitizer::{canonical_projection, clean_for, is_clean_for_mode, sanitize, sanitized};
use crate::text::{chars_of, string_from_chars};

verus! {

/// The largest text input accepted, in bytes.
pub const MAX_INPUT_BYTES: usize = 8388608;

/// The largest binary input or output accepted, in bytes.
pub const MAX_BINARY_BYTES: usize = 33554432;

/// The largest Base64 payload accepted: the encoding of `MAX_BINARY_BYTES`.
pub const MAX_BINARY_BASE64_BYTES: usize = 44739244;

/// How many positions each finding group reports.
pub const MAX_POSITIONS_PER_GROUP: usize = 8;

/// The version of the rule set that produced a report.
pub const RULE_SET_VERSION: &'static str = "nullmark-unicode-1.0.0";

/// The label of a severity in reports.
pub open spec fn severity_text(value: Severity) -> &'static str {
    match value {
        Severity::Info => "info",
        Severity::Low => "low",
        Severity::Medium => "medium",
        Severity::High => "high",
    }
}

/// The label of an action in reports.
pub open spec fn action_text(value: Action) -> &'static str {
    match value {
        Action::RemoveSafe => "remove_safe",
        Action::RemoveStrict => "remove_strict",
        Action::RemoveMaximum => "remove_maximum",
        Action::NormalizeStrict => "normalize_strict",
        Action::NormalizeMaximum => "normalize_maximum",
        Action::ReportOnly => "report_only",
    }
}

pub fn severity_label(value: Severity) -> (r: &'static str)
    ensures
        r == severity_text(value),
{
    match value {
        Severity::Info => "info",
        Severity::Low => "low",
        Severity::Medium => "medium",
        Severity::High => "high",
    }
}

pub fn action_label(value: Action) -> (r: &'static str)
    ensures
        r == action_text(value),
{
    match value {
        Action::RemoveSafe => "remove_safe",
        Action::RemoveStrict => "remove_strict",
        Action::RemoveMaximum => "remove_maximum",
        Action::NormalizeStrict => "normalize_strict",
        Action::NormalizeMaximum => "normalize_maximum",
        Action::ReportOnly => "report_only",
    }
}

/// An owned copy of a message.
fn message(text: &str) -> (r: String)
    ensures
        r@ == text@,
{
    text.to_owned()
}

/// The hexadecimal digit of `v`, lower case when `upper` is false.
pub open spec fn hex_digit(v: int, upper: bool) -> char {
    if v < 10 {
        (48 + v) as char
    } else if upper {
        (55 + v) as char
    } else {
        (87 + v) as char
    }
}

fn hex_char(v: u8, upper: bool) -> (c: char)
    requires
        v < 16,
    ensures
        c == hex_digit(v as int, upper),
{
    if v < 10 {
        (48 + v) as char
    } else if upper {
        (55 + v) as char
    } else {
        (87 + v) as char
    }
}

/// Two lower-case hexadecimal digits per byte, most significant first.
pub open spec fn hex_lower(bytes: Seq<u8>) -> Seq<char>
    decreases bytes.len(),
{
    if bytes.len() == 0 {
        Seq::empty()
    } else {
        hex_lower(bytes.drop_last()) + seq![
            hex_digit(bytes.last() as int / 16, false),
            hex_digit(bytes.last() as int % 16, false),
        ]
    }
}

/// The SHA-256 digest of a byte sequence.
pub uninterp spec fn sha256_of(data: Seq<u8>) -> Seq<u8>;

/// `sha2::Sha256::digest`: the SHA-256 digest of `data`, 32 bytes long.
#[verifier::external_body]
fn sha256_digest(data: &[u8]) -> (digest: Vec<u8>)
    ensures
        digest@ == sha256_of(data@),
        digest@.len() == 32,
{
    sha2::Sha256::digest(data).to_vec()
}

/// The lower-case hexadecimal SHA-256 fingerprint of `value`.
pub fn sha256_hex_bytes(value: &[u8]) -> (hex: String)
    ensures
        hex@ == hex_lower(sha256_of(value@)),
{
    let digest = sha256_digest(value);
    let mut out: Vec<char> = Vec::new();
    let mut i: usize = 0;
    while i < digest.len()
        invariant
            i <= digest.len(),
            out@ == hex_lower(digest@.take(i as int)),
        decreases digest.len() - i,
    {
        assert(digest@.take(i + 1).drop_last() == digest@.take(i as int));
        let byte = digest[i];
        out.push(hex_char(byte / 16, false));
        out.push(hex_char(byte % 16, false));
        i = i + 1;
    }
    assert(digest@.take(i as int) == digest@);
    string_from_chars(out.as_slice())
}

/// The lower-case hexadecimal SHA-256 fingerprint of the UTF-8 bytes of
/// `value`.
pub fn sha256_hex(value: &str) -> (hex: String)
    ensures
        hex@ == hex_lower(sha256_of(value.spec_bytes())),
{
    sha256_hex_bytes(value.as_bytes())
}

/// The digits of `v` in upper-case hexadecimal, without leading zeros.
pub open spec fn hex_upper(v: nat) -> Seq<char>
    decreases v,
{
    if v < 16 {
        seq![hex_digit(v as int, true)]
    } else {
        hex_upper(v / 16) + seq![hex_digit((v % 16) as int, true)]
    }
}

/// `U+` and the code point in upper-case hexadecimal, at least four digits.
pub open spec fn codepoint_text(cp: u32) -> Seq<char> {
    let digits = hex_upper(cp as nat);
    seq!['U', '+'] + Seq::new(if digits.len() < 4 {
        (4 - digits.len()) as nat
    } else {
        0
    }, |i: int| '0') + digits
}

/// The report label of a code point, such as `U+200B`.
pub fn codepoint_label(cp: u32) -> (label: String)
    ensures
        label@ == codepoint_text(cp),
{
    let mut digits: Vec<char> = Vec::new();
    let mut v = cp;
    let mut done = false;
    while !done
        invariant
            !done ==> hex_upper(cp as nat) == hex_upper(v as nat) + digits@,
            done ==> hex_upper(cp as nat) == digits@,
        decreases v, if done {
            0int
        } else {
            1int
        },
    {
        let ghost before = digits@;
        digits.insert(0, hex_char((v % 16) as u8, true));
        assert(digits@ == seq![hex_digit((v % 16) as int, true)] + before);
        if v < 16 {
            done = true;
            assert(hex_upper(v as nat) == seq![hex_digit((v % 16) as int, true)]);
        } else {
            assert(hex_upper(v as nat) == hex_upper((v / 16) as nat) + seq![hex_digit((v % 16) as int, true)]);
            v = v / 16;
        }
    }
    let mut out: Vec<char> = Vec::new();
    out.push('U');
    out.push('+');
    let mut pad = digits.len();
    while pad < 4
        invariant
            digits@.len() <= pad <= 4 || (pad == digits@.len() && pad >= 4),
            out@ == seq!['U', '+'] + Seq::new((pad - digits@.len()) as nat, |i: int| '0'),
        decreases 4 - pad,
    {
        out.push('0');
        pad = pad + 1;
        assert(out@ =~= seq!['U', '+'] + Seq::new((pad - digits@.len()) as nat, |i: int| '0'));
    }
    let ghost prefix = out@;
    let mut k: usize = 0;
    while k < digits.len()
        invariant
            k <= digits.len(),
            out@ == prefix + digits@.take(k as int),
        decreases digits.len() - k,
    {
        out.push(digits[k]);
        k = k + 1;
        assert(out@ =~= prefix + digits@.take(k as int));
    }
    assert(digits@.take(k as int) == digits@);
    assert(out@ =~= codepoint_text(cp));
    string_from_chars(out.as_slice())
}

/// The digit of the standard Base64 alphabet for the six-bit value `v`.
pub open spec fn base64_digit(v: int) -> char {
    if v < 26 {
        (65 + v) as char
    } else if v < 52 {
        (71 + v) as char
    } else if v < 62 {
        (v - 4) as char
    } else if v == 62 {
        '+'
    } else {
        '/'
    }
}

/// The standard Base64 encoding of `data` (RFC 4648, alphabet `A-Z a-z 0-9
/// + /`, padded with `=` to a multiple of four characters).
pub open spec fn base64_text(data: Seq<u8>) -> Seq<char>
    decreases data.len(),
{
    let b0 = data[0] as int;
    let b1 = data[1] as int;
    let b2 = data[2] as int;
    if data.len() == 0 {
        Seq::empty()
    } else if data.len() == 1 {
        seq![base64_digit(b0 / 4), base64_digit((b0 % 4) * 16), '=', '=']
    } else if data.len() == 2 {
        seq![
            base64_digit(b0 / 4),
            base64_digit((b0 % 4) * 16 + b1 / 16),
            base64_digit((b1 % 16) * 4),
            '=',
        ]
    } else {
        seq![
            base64_digit(b0 / 4),
            base64_digit((b0 % 4) * 16 + b1 / 16),
            base64_digit((b1 % 16) * 4 + b2 / 64),
            base64_digit(b2 % 64),
        ] + base64_text(data.subrange(3, data.len() as int))
    }
}

proof fn lemma_digit_injective(a: int, b: int)
    requires
        0 <= a < 64,
        0 <= b < 64,
        base64_digit(a) == base64_digit(b),
    ensures
        a == b,
{
}

proof fn lemma_digit_not_pad(a: int)
    requires
        0 <= a < 64,
    ensures
        base64_digit(a) != '=',
{
}

/// Distinct byte sequences have distinct Base64 encodings.
pub proof fn lemma_base64_injective(d1: Seq<u8>, d2: Seq<u8>)
    requires
        base64_text(d1) == base64_text(d2),
    ensures
        d1 == d2,
    decreases d1.len(),
{
    let t = base64_text(d1);
    if d1.len() == 0 || d2.len() == 0 {
        if d1.len() != 0 || d2.len() != 0 {
            assert(base64_text(d1).len() != base64_text(d2).len());
        }
        assert(d1 =~= d2);
    } else {
        let (a0, a1) = (d1[0], if d1.len() > 1 { d1[1] } else { 0u8 });
        let (c0, c1) = (d2[0], if d2.len() > 1 { d2[1] } else { 0u8 });
        let u = base64_text(d2);
        assert(t[0] == base64_digit(a0 as int / 4));
        assert(u[0] == base64_digit(c0 as int / 4));
        lemma_digit_injective(a0 as int / 4, c0 as int / 4);
        if d1.len() >= 3 && d2.len() >= 3 {
            let (a2, c2) = (d1[2], d2[2]);
            assert(t[1] == base64_digit((a0 as int % 4) * 16 + a1 as int / 16));
            assert(u[1] == base64_digit((c0 as int % 4) * 16 + c1 as int / 16));
            assert(t[2] == base64_digit((a1 as int % 16) * 4 + a2 as int / 64));
            assert(u[2] == base64_digit((c1 as int % 16) * 4 + c2 as int / 64));
            assert(t[3] == base64_digit(a2 as int % 64));
            assert(u[3] == base64_digit(c2 as int % 64));
            lemma_digit_injective(
                (a0 as int % 4) * 16 + a1 as int / 16,
                (c0 as int % 4) * 16 + c1 as int / 16,
            );
            lemma_digit_injective(
                (a1 as int % 16) * 4 + a2 as int / 64,
                (c1 as int % 16) * 4 + c2 as int / 64,
            );
            lemma_digit_injective(a2 as int % 64, c2 as int % 64);
            assert(a0 == c0 && a1 == c1 && a2 == c2) by (bit_vector)
                requires
                    a0 / 4 == c0 / 4,
                    (a0 % 4) * 16 + a1 / 16 == (c0 % 4) * 16 + c1 / 16,
                    (a1 % 16) * 4 + a2 / 64 == (c1 % 16) * 4 + c2 / 64,
                    a2 % 64 == c2 % 64,
            ;
            let r1 = d1.subrange(3, d1.len() as int);
            let r2 = d2.subrange(3, d2.len() as int);
            assert(base64_text(r1) =~= t.subrange(4, t.len() as int));
            assert(base64_text(r2) =~= base64_text(d2).subrange(4, t.len() as int));
            lemma_base64_injective(r1, r2);
            assert(d1.len() == d2.len());
            assert forall|i: int| 0 <= i < d1.len() implies d1[i] == d2[i] by {
                if i >= 3 {
                    assert(d1[i] == r1[i - 3]);
                    assert(d2[i] == r2[i - 3]);
                }
            }
            assert(d1 =~= d2);
        } else if d1.len() >= 3 || d2.len() >= 3 {
            if d1.len() >= 3 {
                lemma_digit_not_pad(d1[2] as int % 64);
                assert(t[3] != '=');
            } else {
                lemma_digit_not_pad(d2[2] as int % 64);
                assert(base64_text(d2)[3] != '=');
            }
        } else if d1.len() != d2.len() {
            if d1.len() == 2 {
                lemma_digit_not_pad((a1 as int % 16) * 4);
            } else {
                lemma_digit_not_pad((c1 as int % 16) * 4);
            }
        } else if d1.len() == 1 {
            lemma_digit_injective((a0 as int % 4) * 16, (c0 as int % 4) * 16);
            assert(a0 == c0) by (bit_vector)
                requires
                    a0 / 4 == c0 / 4,
                    (a0 % 4) * 16 == (c0 % 4) * 16,
            ;
            assert(d1 =~= d2);
        } else {
            lemma_digit_injective(
                (a0 as int % 4) * 16 + a1 as int / 16,
                (c0 as int % 4) * 16 + c1 as int / 16,
            );
            lemma_digit_injective((a1 as int % 16) * 4, (c1 as int % 16) * 4);
            assert(a0 == c0 && a1 == c1) by (bit_vector)
                requires
                    a0 / 4 == c0 / 4,
                    (a0 % 4) * 16 + a1 / 16 == (c0 % 4) * 16 + c1 / 16,
                    (a1 % 16) * 4 == (c1 % 16) * 4,
            ;
            assert(d1 =~= d2);
        }
    }
}

/// A Base64 encoding is ASCII text of four characters for every started
/// group of three bytes.
pub proof fn lemma_base64_shape(data: Seq<u8>)
    ensures
        base64_text(data).len() == 4 * ((data.len() + 2) / 3),
        vstd::utf8::is_ascii_chars(base64_text(data)),
    decreases data.len(),
{
    let t = base64_text(data);
    if data.len() >= 3 {
        let rest = data.subrange(3, data.len() as int);
        lemma_base64_shape(rest);
        assert forall|i: int| 0 <= i < t.len() implies '\0' <= #[trigger] t[i] <= '\u{7f}' by {
            if i >= 4 {
                assert(t[i] == base64_text(rest)[i - 4]);
            }
        }
    } else {
        assert forall|i: int| 0 <= i < t.len() implies '\0' <= #[trigger] t[i] <= '\u{7f}' by {}
    }
}

/// `base64::engine::general_purpose::STANDARD.decode`: the bytes whose
/// standard, padded Base64 encoding `text` is. The engine requires canonical
/// padding and zero trailing bits, so it accepts exactly the encodings of
/// byte sequences, and `None` means that `text` encodes none.
#[verifier::external_body]
fn base64_decode(text: &str) -> (r: Option<Vec<u8>>)
    ensures
        r matches Some(data) ==> base64_text(data@) == text@,
        r is None ==> forall|data: Seq<u8>| base64_text(data) != text@,
{
    base64::engine::general_purpose::STANDARD.decode(text).ok()
}

/// `base64::engine::general_purpose::STANDARD.encode`: the standard, padded
/// Base64 encoding of `data`.
#[verifier::external_body]
fn base64_encode(data: &[u8]) -> (text: String)
    ensures
        text@ == base64_text(data@),
{
    base64::engine::general_purpose::STANDARD.encode(data)
}

/// Rejects text over the input ceiling.
pub fn validate_input(text: &str) -> (r: Result<(), String>)
    ensures
        match r {
            Ok(()) => text.len() <= MAX_INPUT_BYTES,
            Err(e) => text.len() > MAX_INPUT_BYTES && e@
                == "Input exceeds the 8 MiB beta safety limit."@,
        },
{
    if text.len() > MAX_INPUT_BYTES {
        return Err(message("Input exceeds the 8 MiB beta safety limit."));
    }
    Ok(())
}

/// What decoding a Base64 payload gives: the file, or the message that
/// refuses it.
pub open spec fn payload_decoding(payload: &str) -> Result<Seq<u8>, Seq<char>> {
    if payload.len() > MAX_BINARY_BASE64_BYTES {
        Err("Encoded file exceeds the 32 MiB safety limit."@)
    } else {
        if !exists|data: Seq<u8>| base64_text(data) == payload@ {
            Err("Binary payload encoding rejected."@)
        } else {
            let data = choose|data: Seq<u8>| base64_text(data) == payload@;
            if data.len() == 0 || data.len() > MAX_BINARY_BYTES {
                Err("File size boundary violation."@)
            } else {
                Ok(data)
            }
        }
    }
}

/// Decodes a Base64 file payload within the size ceilings.
pub fn decode_binary(payload_base64: &str) -> (r: Result<Vec<u8>, String>)
    ensures
        match payload_decoding(payload_base64) {
            Ok(data) => r is Ok && r->Ok_0@ == data,
            Err(m) => r is Err && r->Err_0@ == m,
        },
{
    if payload_base64.len() > MAX_BINARY_BASE64_BYTES {
        return Err(message("Encoded file exceeds the 32 MiB safety limit."));
    }
    let bytes = match base64_decode(payload_base64) {
        Some(bytes) => bytes,
        None => return Err(message("Binary payload encoding rejected.")),
    };
    proof {
        let data = choose|data: Seq<u8>| base64_text(data) == payload_base64@;
        lemma_base64_injective(data, bytes@);
    }
    if bytes.len() == 0 || bytes.len() > MAX_BINARY_BYTES {
        return Err(message("File size boundary violation."));
    }
    Ok(bytes)
}

/// How many findings of each severity a text holds.
#[derive(Debug, Clone, Copy, PartialEq, Eq)]
pub struct RiskCounts {
    pub info: usize,
    pub low: usize,
    pub medium: usize,
    pub high: usize,
}

/// All occurrences of one code point in a text.
#[derive(Debug, Clone, PartialEq, Eq)]
pub struct FindingGroup {
    pub codepoint: String,
    pub name: &'static str,
    pub category: &'static str,
    pub severity: &'static str,
    pub action: &'static str,
    pub count: usize,
    pub first_positions: Vec<usize>,
}

/// The analysis of one text.
#[derive(Debug, Clone, PartialEq, Eq)]
pub struct AnalysisReport {
    pub rule_set_version: &'static str,
    pub bytes: usize,
    pub characters: usize,
    pub finding_count: usize,
    pub sha256: String,
    pub risk_counts: RiskCounts,
    pub findings: Vec<FindingGroup>,
}

/// The character indices at which `c` occurs in `s`, in order.
pub open spec fn positions_of(s: Seq<char>, c: char) -> Seq<int>
    decreases s.len(),
{
    if s.len() == 0 {
        Seq::empty()
    } else {
        positions_of(s.drop_last(), c) + if s.last() == c {
            seq![s.len() - 1]
        } else {
            Seq::empty()
        }
    }
}

/// How many characters of `s` the rule table classifies.
pub open spec fn finding_total(s: Seq<char>) -> nat
    decreases s.len(),
{
    if s.len() == 0 {
        0
    } else {
        finding_total(s.drop_last()) + if rule_for(s.last()) is Some {
            1nat
        } else {
            0nat
        }
    }
}

/// How many characters of `s` are findings of severity `severity`.
pub open spec fn severity_total(s: Seq<char>, severity: Severity) -> nat
    decreases s.len(),
{
    if s.len() == 0 {
        0
    } else {
        severity_total(s.drop_last(), severity) + if rule_for(s.last()) matches Some(r) && r.severity
            == severity {
            1nat
        } else {
            0nat
        }
    }
}

/// How many positions a group of `count` occurrences reports.
pub open spec fn reported(count: nat) -> nat {
    if count < MAX_POSITIONS_PER_GROUP {
        count
    } else {
        MAX_POSITIONS_PER_GROUP as nat
    }
}

/// Whether `g` is the report of the classified character `c` in `s`: its
/// label, rule, number of occurrences and first positions.
pub open spec fn describes(g: FindingGroup, s: Seq<char>, c: char) -> bool {
    let rule = rule_for(c)->Some_0;
    let positions = positions_of(s, c);
    &&& rule_for(c) is Some
    &&& positions.len() > 0
    &&& g.codepoint@ == codepoint_text(c as u32)
    &&& g.name == rule.name
    &&& g.category == rule.category
    &&& g.severity == severity_text(rule.severity)
    &&& g.action == action_text(rule.action)
    &&& g.count == positions.len()
    &&& g.first_positions@.len() == reported(positions.len())
    &&& forall|k: int| 0 <= k < g.first_positions@.len() ==> #[trigger] g.first_positions@[k] == positions[k]
}

/// Whether `groups` report the classified characters of `s`, one group per
/// distinct character, in ascending code point order; `keys` are those
/// characters.
pub open spec fn groups_report(s: Seq<char>, groups: Seq<FindingGroup>, keys: Seq<char>) -> bool {
    &&& keys.len() == groups.len()
    &&& forall|i: int, j: int| 0 <= i < j < keys.len() ==> (keys[i] as u32) < (keys[j] as u32)
    &&& forall|i: int| 0 <= i < keys.len() ==> #[trigger] describes(groups[i], s, keys[i])
    &&& forall|j: int| 0 <= j < s.len() && (rule_for(s[j]) is Some) ==> keys.contains(#[trigger] s[j])
}

proof fn lemma_positions_step(s: Seq<char>, n: int, c: char, d: char)
    requires
        0 <= n < s.len(),
    ensures
        positions_of(s.take(n + 1), d) == positions_of(s.take(n), d) + if s[n] == d {
            seq![n]
        } else {
            Seq::<int>::empty()
        },
{
    assert(s.take(n + 1).drop_last() == s.take(n));
}

proof fn lemma_positions_absent(s: Seq<char>, c: char)
    requires
        forall|j: int| 0 <= j < s.len() ==> s[j] != c,
    ensures
        positions_of(s, c).len() == 0,
    decreases s.len(),
{
    if s.len() > 0 {
        lemma_positions_absent(s.drop_last(), c);
    }
}

proof fn lemma_positions_bounded(s: Seq<char>, c: char)
    ensures
        positions_of(s, c).len() <= s.len(),
        forall|k: int| 0 <= k < positions_of(s, c).len() ==> 0 <= #[trigger] positions_of(s, c)[k] < s.len(),
    decreases s.len(),
{
    if s.len() > 0 {
        lemma_positions_bounded(s.drop_last(), c);
        let p = positions_of(s.drop_last(), c);
        assert forall|k: int| 0 <= k < positions_of(s, c).len() implies 0 <= #[trigger] positions_of(s, c)[k] < s.len() by {
            if k < p.len() {
                assert(positions_of(s, c)[k] == p[k]);
            }
        }
    }
}

proof fn lemma_totals_bounded(s: Seq<char>)
    ensures
        finding_total(s) <= s.len(),
        severity_total(s, Severity::Info) + severity_total(s, Severity::Low) + severity_total(s, Severity::Medium) + severity_total(s, Severity::High) == finding_total(s),
    decreases s.len(),
{
    if s.len() > 0 {
        lemma_totals_bounded(s.drop_last());
    }
}

/// The first index at which `keys` holds a code point at or above `c`.
fn lower_bound(keys: &Vec<char>, c: char) -> (p: usize)
    requires
        forall|i: int, j: int| 0 <= i < j < keys.len() ==> (keys@[i] as u32) < (keys@[j] as u32),
    ensures
        p <= keys.len(),
        forall|q: int| 0 <= q < p ==> (keys@[q] as u32) < (c as u32),
        p < keys.len() ==> (c as u32) <= (keys@[p as int] as u32),
{
    let mut p: usize = 0;
    while p < keys.len() && (keys[p] as u32) < (c as u32)
        invariant
            p <= keys.len(),
            forall|q: int| 0 <= q < p ==> (keys@[q] as u32) < (c as u32),
        decreases keys.len() - p,
    {
        p = p + 1;
    }
    p
}

/// A new group for the first occurrence of `c`, at index `index`.
fn new_group(c: char, rule: Rule, index: usize) -> (g: FindingGroup)
    ensures
        g.codepoint@ == codepoint_text(c as u32),
        g.name == rule.name,
        g.category == rule.category,
        g.severity == severity_text(rule.severity),
        g.action == action_text(rule.action),
        g.count == 1,
        g.first_positions@ == seq![index],
{
    let mut first_positions: Vec<usize> = Vec::new();
    first_positions.push(index);
    FindingGroup {
        codepoint: codepoint_label(c as u32),
        name: rule.name,
        category: rule.category,
        severity: severity_label(rule.severity),
        action: action_label(rule.action),
        count: 1,
        first_positions,
    }
}

/// Aggregates the findings of `text` by code point, in ascending code point
/// order, with at most `MAX_POSITIONS_PER_GROUP` positions per group. The
/// groups are kept in a list ordered by code point, which gives what a map
/// ordered by key gives and whose order the contract states.
pub fn group_findings(text: &str) -> (r: (Vec<FindingGroup>, RiskCounts, usize))
    ensures
        exists|keys: Seq<char>| groups_report(text@, r.0@, keys),
        r.1.info == severity_total(text@, Severity::Info),
        r.1.low == severity_total(text@, Severity::Low),
        r.1.medium == severity_total(text@, Severity::Medium),
        r.1.high == severity_total(text@, Severity::High),
        r.2 == finding_total(text@),
{
    let chars = chars_of(text);
    let mut groups: Vec<FindingGroup> = Vec::new();
    let mut keys: Vec<char> = Vec::new();
    let mut risk = RiskCounts { info: 0, low: 0, medium: 0, high: 0 };
    let mut finding_count: usize = 0;
    let mut i: usize = 0;
    while i < chars.len()
        invariant
            i <= chars.len(),
            chars@ == text@,
            groups_report(chars@.take(i as int), groups@, keys@),
            finding_count == finding_total(chars@.take(i as int)),
            risk.info == severity_total(chars@.take(i as int), Severity::Info),
            risk.low == severity_total(chars@.take(i as int), Severity::Low),
            risk.medium == severity_total(chars@.take(i as int), Severity::Medium),
            risk.high == severity_total(chars@.take(i as int), Severity::High),
            finding_count <= i,
        decreases chars.len() - i,
    {
        let ghost prefix = chars@.take(i as int);
        let ghost next = chars@.take(i + 1);
        assert(next.drop_last() == prefix);
        proof {
            lemma_totals_bounded(prefix);
        }
        let c = chars[i];
        match classify(c) {
            None => {
                proof {
                    assert forall|k: int| 0 <= k < keys@.len() implies #[trigger] describes(groups@[k], next, keys@[k]) by {
                        lemma_positions_step(chars@, i as int, c, keys@[k]);
                        assert(describes(groups@[k], prefix, keys@[k]));
                        assert(keys@[k] != c);
                    }
                    assert forall|j: int| 0 <= j < next.len() && (rule_for(next[j]) is Some) implies keys@.contains(#[trigger] next[j]) by {
                        if j < i {
                            assert(next[j] == prefix[j]);
                        }
                    }
                }
            },
            Some(rule) => {
                finding_count = finding_count + 1;
                match rule.severity {
                    Severity::Info => risk.info = risk.info + 1,
                    Severity::Low => risk.low = risk.low + 1,
                    Severity::Medium => risk.medium = risk.medium + 1,
                    Severity::High => risk.high = risk.high + 1,
                }
                let p = lower_bound(&keys, c);
                if p < keys.len() && keys[p] == c {
                    let old_group = groups.remove(p);
                    let ghost old_positions = positions_of(prefix, c);
                    proof {
                        assert(describes(old_group, prefix, c));
                        lemma_positions_step(chars@, i as int, c, c);
                        lemma_positions_bounded(prefix, c);
                    }
                    let mut first_positions = old_group.first_positions;
                    if first_positions.len() < MAX_POSITIONS_PER_GROUP {
                        first_positions.push(i);
                    }
                    let group = FindingGroup {
                        codepoint: old_group.codepoint,
                        name: old_group.name,
                        category: old_group.category,
                        severity: old_group.severity,
                        action: old_group.action,
                        count: old_group.count + 1,
                        first_positions,
                    };
                    assert(describes(group, next, c));
                    groups.insert(p, group);
                    proof {
                        assert forall|k: int| 0 <= k < keys@.len() implies #[trigger] describes(groups@[k], next, keys@[k]) by {
                            if k != p {
                                lemma_positions_step(chars@, i as int, c, keys@[k]);
                                assert(describes(groups@[k], prefix, keys@[k]));
                                assert(keys@[k] != c);
                            }
                        }
                        assert forall|j: int| 0 <= j < next.len() && (rule_for(next[j]) is Some) implies keys@.contains(#[trigger] next[j]) by {
                            if j < i {
                                assert(next[j] == prefix[j]);
                            } else {
                                assert(keys@[p as int] == c);
                            }
                        }
                    }
                } else {
                    proof {
                        assert forall|j: int| 0 <= j < prefix.len() implies prefix[j] != c by {
                            if prefix[j] == c {
                                assert(keys@.contains(prefix[j]));
                                let q = choose|q: int| 0 <= q < keys@.len() && keys@[q] == prefix[j];
                                if q < p {
                                } else if q > p {
                                    assert((keys@[p as int] as u32) < (keys@[q] as u32));
                                }
                            }
                        }
                        lemma_positions_absent(prefix, c);
                        lemma_positions_step(chars@, i as int, c, c);
                    }
                    let group = new_group(c, rule, i);
                    assert(describes(group, next, c));
                    let ghost old_keys = keys@;
                    let ghost old_groups = groups@;
                    proof {
                        if p < old_keys.len() {
                            let d = old_keys[p as int];
                            assert(d != c);
                            if (c as u32) == (d as u32) {
                                vstd::utf8::char_u32_cast(c, c as u32);
                                vstd::utf8::char_u32_cast(d, d as u32);
                            }
                            assert((c as u32) < (d as u32));
                        }
                    }
                    keys.insert(p, c);
                    groups.insert(p, group);
                    proof {
                        assert forall|k: int| 0 <= k < keys@.len() implies #[trigger] describes(groups@[k], next, keys@[k]) by {
                            if k != p {
                                let o = if k < p { k } else { k - 1 };
                                assert(keys@[k] == old_keys[o] && groups@[k] == old_groups[o]);
                                lemma_positions_step(chars@, i as int, c, keys@[k]);
                                assert(describes(old_groups[o], prefix, old_keys[o]));
                                assert(keys@[k] != c);
                            }
                        }
                        assert forall|a: int, b: int| 0 <= a < b < keys@.len() implies (keys@[a] as u32) < (keys@[b] as u32) by {
                            if a < p && b > p {
                                assert(keys@[b] == old_keys[b - 1]);
                            } else if a > p {
                                assert(keys@[a] == old_keys[a - 1] && keys@[b] == old_keys[b - 1]);
                            } else if b < p {
                                assert(keys@[a] == old_keys[a] && keys@[b] == old_keys[b]);
                            } else if a == p {
                                assert(keys@[b] == old_keys[b - 1]);
                                assert(b - 1 >= p);
                                assert((old_keys[p as int] as u32) <= (old_keys[b - 1] as u32));
                            } else {
                                assert(keys@[a] == old_keys[a]);
                            }
                        }
                        assert forall|j: int| 0 <= j < next.len() && (rule_for(next[j]) is Some) implies keys@.contains(#[trigger] next[j]) by {
                            if j < i {
                                assert(next[j] == prefix[j]);
                                assert(old_keys.contains(prefix[j]));
                                let q = choose|q: int| 0 <= q < old_keys.len() && old_keys[q] == prefix[j];
                                if q < p {
                                    assert(keys@[q] == old_keys[q]);
                                } else {
                                    assert(keys@[q + 1] == old_keys[q]);
                                }
                            } else {
                                assert(keys@[p as int] == c);
                            }
                        }
                    }
                }
            },
        }
        i = i + 1;
    }
    assert(chars@.take(i as int) == chars@);
    let ghost key_seq = keys@;
    let r = (groups, risk, finding_count);
    assert(groups_report(text@, r.0@, key_seq));
    r
}

/// Analyzes `text`: its size, its fingerprint, and its findings grouped by
/// code point and counted by severity.
pub fn build_analysis(text: &str) -> (r: AnalysisReport)
    ensures
        r.rule_set_version == RULE_SET_VERSION,
        r.bytes == text.len(),
        r.characters == text@.len(),
        r.finding_count == finding_total(text@),
        r.sha256@ == hex_lower(sha256_of(text.spec_bytes())),
        r.risk_counts.info == severity_total(text@, Severity::Info),
        r.risk_counts.low == severity_total(text@, Severity::Low),
        r.risk_counts.medium == severity_total(text@, Severity::Medium),
        r.risk_counts.high == severity_total(text@, Severity::High),
        exists|keys: Seq<char>| groups_report(text@, r.findings@, keys),
{
    let (findings, risk_counts, finding_count) = group_findings(text);
    let ghost keys = choose|keys: Seq<char>| groups_report(text@, findings@, keys);
    let characters = chars_of(text).len();
    let report = AnalysisReport {
        rule_set_version: RULE_SET_VERSION,
        bytes: text.len(),
        characters,
        finding_count,
        sha256: sha256_hex(text),
        risk_counts,
        findings,
    };
    assert(groups_report(text@, report.findings@, keys));
    report
}

/// Analyzes text within the input ceiling.
pub fn analyze_text(text: &str) -> (r: Result<AnalysisReport, String>)
    ensures
        text.len() > MAX_INPUT_BYTES ==> r is Err && r->Err_0@
            == "Input exceeds the 8 MiB beta safety limit."@,
        text.len() <= MAX_INPUT_BYTES ==> r is Ok && r->Ok_0.characters == text@.len()
            && r->Ok_0.bytes == text.len() && r->Ok_0.finding_count == finding_total(text@)
            && r->Ok_0.sha256@ == hex_lower(sha256_of(text.spec_bytes()))
            && r->Ok_0.rule_set_version == RULE_SET_VERSION && r->Ok_0.risk_counts.info
            == severity_total(text@, Severity::Info) && r->Ok_0.risk_counts.low == severity_total(
            text@,
            Severity::Low,
        ) && r->Ok_0.risk_counts.medium == severity_total(text@, Severity::Medium)
            && r->Ok_0.risk_counts.high == severity_total(text@, Severity::High) && exists|
            keys: Seq<char>,
        | groups_report(text@, r->Ok_0.findings@, keys),
{
    validate_input(text)?;
    Ok(build_analysis(text))
}

/// Whether two strings hold the same characters.
fn same_text(a: &str, b: &str) -> (r: bool)
    ensures
        r == (a@ == b@),
{
    let x = chars_of(a);
    let y = chars_of(b);
    if x.len() != y.len() {
        assert(x@.len() != y@.len());
        return false;
    }
    let mut i: usize = 0;
    while i < x.len()
        invariant
            i <= x.len() == y.len(),
            x@ == a@,
            y@ == b@,
            forall|j: int| 0 <= j < i ==> x@[j] == y@[j],
        decreases x.len() - i,
    {
        if x[i] != y[i] {
            assert(x@[i as int] != y@[i as int]);
            assert(a@[i as int] != b@[i as int]);
            return false;
        }
        i = i + 1;
    }
    assert(x@ =~= y@);
    true
}

/// The mode a command names: `safe`, `strict` or `maximum`.
pub open spec fn mode_named(name: Seq<char>) -> Option<Mode> {
    if name == "safe"@ {
        Some(Mode::Safe)
    } else if name == "strict"@ {
        Some(Mode::Strict)
    } else if name == "maximum"@ {
        Some(Mode::Maximum)
    } else {
        None
    }
}

/// The name of a mode in reports.
pub open spec fn mode_text(mode: Mode) -> &'static str {
    match mode {
        Mode::Safe => "safe",
        Mode::Strict => "strict",
        Mode::Maximum => "maximum",
    }
}

/// What a mode's verification covers.
pub open spec fn scope_text(mode: Mode) -> &'static str {
    match mode {
        Mode::Safe => "deterministic-safe-unicode",
        Mode::Strict => "deterministic-strict-unicode",
        Mode::Maximum => "deterministic-unicode-and-token-surface",
    }
}

/// The status reported for statistical token watermarks, which no
/// deterministic rule can verify.
pub const PROBABILISTIC_WATERMARK_STATUS: &'static str = "not-verifiable-without-vendor-detector";

/// One entry of the change ledger, as reported.
#[derive(Debug, Clone, PartialEq, Eq)]
pub struct TextChange {
    pub source_index: usize,
    pub output_index: usize,
    pub before: String,
    pub after: String,
    pub kind: &'static str,
}

impl TextChange {
    /// The report entry of a ledger entry, field for field.
    pub open spec fn of(change: EngineChange) -> TextChange {
        TextChange {
            source_index: change.source_index,
            output_index: change.output_index,
            before: change.before,
            after: change.after,
            kind: change.kind,
        }
    }

    pub fn from_change(change: EngineChange) -> (r: TextChange)
        ensures
            r == TextChange::of(change),
    {
        TextChange {
            source_index: change.source_index,
            output_index: change.output_index,
            before: change.before,
            after: change.after,
            kind: change.kind,
        }
    }
}

/// The report of one text sanitization.
#[derive(Debug)]
pub struct SanitizeReport {
    pub output: String,
    pub mode: &'static str,
    pub removed_count: usize,
    pub normalized_count: usize,
    pub verification_passed: bool,
    pub canonical_projection_unchanged: bool,
    pub verification_scope: &'static str,
    pub probabilistic_watermark_status: &'static str,
    pub change_count: usize,
    pub changes_truncated: bool,
    pub changes: Vec<TextChange>,
    pub before: AnalysisReport,
    pub after: AnalysisReport,
}

fn parse_mode(name: &str) -> (r: Option<Mode>)
    ensures
        r == mode_named(name@),
{
    if same_text(name, "safe") {
        Some(Mode::Safe)
    } else if same_text(name, "strict") {
        Some(Mode::Strict)
    } else if same_text(name, "maximum") {
        Some(Mode::Maximum)
    } else {
        None
    }
}

fn mode_label(mode: Mode) -> (r: &'static str)
    ensures
        r == mode_text(mode),
{
    match mode {
        Mode::Safe => "safe",
        Mode::Strict => "strict",
        Mode::Maximum => "maximum",
    }
}

fn scope_label(mode: Mode) -> (r: &'static str)
    ensures
        r == scope_text(mode),
{
    match mode {
        Mode::Safe => "deterministic-safe-unicode",
        Mode::Strict => "deterministic-strict-unicode",
        Mode::Maximum => "deterministic-unicode-and-token-surface",
    }
}

/// Sanitizes text within the input ceiling under the named mode, re-analyzes
/// the output, and reports both analyses, the ledger and the verification.
pub fn sanitize_text(text: &str, mode: &str) -> (r: Result<SanitizeReport, String>)
    ensures
        text.len() > MAX_INPUT_BYTES ==> r is Err && r->Err_0@
            == "Input exceeds the 8 MiB beta safety limit."@,
        text.len() <= MAX_INPUT_BYTES && mode_named(mode@) is None ==> r is Err
            && r->Err_0@ == "Unsupported sanitization mode."@,
        text.len() <= MAX_INPUT_BYTES && mode_named(mode@) is Some ==> r is Ok && {
            let m = mode_named(mode@)->Some_0;
            let report = r->Ok_0;
            let ledger = crate::engine::sanitizer::ledger(text@, m);
            &&& report.output@ == sanitized(text@, m)
            &&& report.mode == mode_text(m)
            &&& report.removed_count == crate::engine::sanitizer::removed_in(text@, m)
            &&& report.normalized_count == crate::engine::sanitizer::normalized_in(text@, m)
            &&& report.change_count == ledger.len()
            &&& report.verification_passed
            &&& report.canonical_projection_unchanged
            &&& report.verification_scope == scope_text(m)
            &&& report.probabilistic_watermark_status == PROBABILISTIC_WATERMARK_STATUS
            &&& report.changes_truncated == (report.changes@.len() < ledger.len())
            &&& report.changes@.len() == if ledger.len()
                < crate::engine::sanitizer::MAX_REPORTED_CHANGES {
                ledger.len()
            } else {
                crate::engine::sanitizer::MAX_REPORTED_CHANGES as nat
            }
            &&& forall|j: int|
                0 <= j < report.changes@.len() ==> {
                    let e = #[trigger] ledger[j];
                    let c = report.changes@[j];
                    &&& c.source_index == e.source_index
                    &&& c.output_index == e.output_index
                    &&& c.before@ == e.before
                    &&& c.after@ == e.after
                    &&& c.kind == (if e.removed {
                        crate::engine::model::KIND_REMOVED
                    } else {
                        crate::engine::model::KIND_NORMALIZED
                    })
                }
            &&& report.before.characters == text@.len()
            &&& report.before.finding_count == finding_total(text@)
            &&& report.after.characters == report.output@.len()
            &&& report.after.finding_count == finding_total(report.output@)
        },
{
    validate_input(text)?;
    let selected_mode = match parse_mode(mode) {
        Some(m) => m,
        None => return Err(message("Unsupported sanitization mode.")),
    };
    let before = build_analysis(text);
    let projection_before = canonical_projection(text);
    let sanitized_result = sanitize(text, selected_mode);
    let projection_after = canonical_projection(sanitized_result.output.as_str());
    let after = build_analysis(sanitized_result.output.as_str());
    let verification_passed = is_clean_for_mode(sanitized_result.output.as_str(), selected_mode);
    proof {
        crate::engine::sanitizer::law_output_is_clean(text@, selected_mode);
        crate::engine::sanitizer::law_projection_unchanged(text@, selected_mode);
    }
    let canonical_projection_unchanged = projection_before == projection_after;
    let ghost engine_changes = sanitized_result.changes@;
    let mut pending = sanitized_result.changes;
    let mut changes: Vec<TextChange> = Vec::new();
    while pending.len() > 0
        invariant
            changes@.len() + pending@.len() == engine_changes.len(),
            forall|j: int| 0 <= j < changes@.len() ==> #[trigger] changes@[j] == TextChange::of(engine_changes[j]),
            forall|j: int| 0 <= j < pending@.len() ==> #[trigger] pending@[j] == engine_changes[changes@.len() + j],
        decreases pending.len(),
    {
        let change = pending.remove(0);
        changes.push(TextChange::from_change(change));
    }
    let change_count = sanitized_result.change_count;
    proof {
        let ledger = crate::engine::sanitizer::ledger(text@, selected_mode);
        assert forall|j: int| 0 <= j < changes@.len() implies {
            let e = #[trigger] ledger[j];
            let c = changes@[j];
            &&& c.source_index == e.source_index
            &&& c.output_index == e.output_index
            &&& c.before@ == e.before
            &&& c.after@ == e.after
            &&& c.kind == (if e.removed {
                crate::engine::model::KIND_REMOVED
            } else {
                crate::engine::model::KIND_NORMALIZED
            })
        } by {
            assert(changes@[j] == TextChange::of(engine_changes[j]));
            assert(engine_changes[j].records(ledger[j]));
        }
    }
    Ok(SanitizeReport {
        output: sanitized_result.output,
        mode: mode_label(selected_mode),
        removed_count: sanitized_result.removed_count,
        normalized_count: sanitized_result.normalized_count,
        verification_passed,
        canonical_projection_unchanged,
        verification_scope: scope_label(selected_mode),
        probabilistic_watermark_status: PROBABILISTIC_WATERMARK_STATUS,
        change_count,
        changes_truncated: changes.len() < change_count,
        changes,
        before,
        after,
    })
}

/// The analysis of one binary file.
#[derive(Debug, Clone, PartialEq, Eq)]
pub struct BinaryAnalysisReport {
    pub format: &'static str,
    pub mime: &'static str,
    pub bytes: usize,
    pub sha256: String,
    pub metadata_count: usize,
    pub c2pa_detected: bool,
    pub findings: Vec<BinaryFinding>,
}

/// A sanitized binary file, Base64-encoded, with the analyses before and
/// after.
#[derive(Debug, Clone, PartialEq, Eq)]
pub struct BinarySanitizeReport {
    pub output_base64: String,
    pub removed_items: usize,
    pub verification_passed: bool,
    pub before: BinaryAnalysisReport,
    pub after: BinaryAnalysisReport,
}

/// Whether `report` describes the file `bytes` that analysis parsed into
/// `parsed`.
pub open spec fn describes_binary(bytes: Seq<u8>, parsed: ParsedBinary, report: BinaryAnalysisReport) -> bool {
    &&& report.format == parsed.format.spec_label()
    &&& report.mime == parsed.format.spec_mime()
    &&& report.bytes == bytes.len()
    &&& report.sha256@ == hex_lower(sha256_of(bytes))
    &&& report.metadata_count == capped_total(parsed.findings@)
    &&& report.c2pa_detected == parsed.c2pa_detected
    &&& report.findings@ == parsed.findings@
}

/// Whether `r` is the report on the file `bytes`: its analysis, or the
/// validation error where analysis refuses it.
pub open spec fn binary_report(bytes: Seq<u8>, r: Result<BinaryAnalysisReport, String>) -> bool {
    exists|a: BinaryResult<ParsedBinary>|
        #[trigger] binary_analysis(bytes, a) && match a {
            Err(_) => r is Err && r->Err_0@ == "Binary file validation failed."@,
            Ok(parsed) => r is Ok && describes_binary(bytes, parsed, r->Ok_0),
        }
}

/// Analyses a binary file for the report.
pub fn build_binary_analysis(bytes: &[u8]) -> (r: Result<BinaryAnalysisReport, String>)
    ensures
        binary_report(bytes@, r),
{
    let analysis = analyze_file(bytes);
    let ghost a = analysis;
    let r = match analysis {
        Err(_) => Err(message("Binary file validation failed.")),
        Ok(parsed) => {
            let metadata_count = parsed.metadata_count();
            Ok(
                BinaryAnalysisReport {
                    format: parsed.format.label(),
                    mime: parsed.format.mime(),
                    bytes: bytes.len(),
                    sha256: sha256_hex_bytes(bytes),
                    metadata_count,
                    c2pa_detected: parsed.c2pa_detected,
                    findings: parsed.findings,
                },
            )
        },
    };
    assert(binary_analysis(bytes@, a));
    r
}

/// Decodes a Base64 payload and analyses the file it holds.
pub fn analyze_binary(payload_base64: &str) -> (r: Result<BinaryAnalysisReport, String>)
    ensures
        match payload_decoding(payload_base64) {
            Err(m) => r is Err && r->Err_0@ == m,
            Ok(data) => binary_report(data, r),
        },
{
    let bytes = decode_binary(payload_base64)?;
    build_binary_analysis(bytes.as_slice())
}

/// Whether `report` is the sanitization report for the file `bytes`: the
/// file was cleaned into `cleaned`, its output is within the size ceiling and
/// Base64-encoded, both files are analysed, and verification passes exactly
/// when the cleaned file reports no metadata and no C2PA manifest.
pub open spec fn sanitize_report(bytes: Seq<u8>, cleaned: CleanedBinary, report: BinarySanitizeReport) -> bool {
    &&& binary_sanitization(bytes, Ok(cleaned))
    &&& 0 < cleaned.bytes@.len() <= MAX_BINARY_BYTES
    &&& report.output_base64@ == base64_text(cleaned.bytes@)
    &&& report.removed_items == cleaned.removed_items
    &&& binary_report(bytes, Ok(report.before))
    &&& binary_report(cleaned.bytes@, Ok(report.after))
    &&& report.verification_passed == (report.after.metadata_count == 0 && !report.after.c2pa_detected)
}

/// Whether `report` is the sanitization report for the file `bytes`, for
/// some cleaned file.
pub open spec fn reports_sanitizing(bytes: Seq<u8>, report: BinarySanitizeReport) -> bool {
    exists|cleaned: CleanedBinary| #[trigger] sanitize_report(bytes, cleaned, report)
}

/// The messages with which sanitizing a binary file is refused.
pub open spec fn binary_refusal(m: Seq<char>) -> bool {
    m == "Binary file validation failed."@ || m == "Binary sanitation failed."@ || m
        == "Sanitized file exceeds the 32 MiB output safety limit."@
}

/// Whether `r` follows from the analysis `a` and the sanitization `s` of the
/// file `data`: a failed analysis refuses the file as invalid, a failed
/// sanitization as not sanitized, an empty or oversized output by its size;
/// otherwise the report is owed exactly where the output analyses again.
pub open spec fn binary_outcome(
    data: Seq<u8>,
    a: BinaryResult<ParsedBinary>,
    s: BinaryResult<CleanedBinary>,
    r: Result<BinarySanitizeReport, String>,
) -> bool {
    match a {
        Err(_) => r is Err && r->Err_0@ == "Binary file validation failed."@,
        Ok(_) => match s {
            Err(_) => r is Err && r->Err_0@ == "Binary sanitation failed."@,
            Ok(cleaned) => if cleaned.bytes@.len() == 0 || cleaned.bytes@.len() > MAX_BINARY_BYTES {
                r is Err && r->Err_0@ == "Sanitized file exceeds the 32 MiB output safety limit."@
            } else {
                exists|after: BinaryResult<ParsedBinary>|
                    #[trigger] binary_analysis(cleaned.bytes@, after) && match after {
                        Err(_) => r is Err && r->Err_0@ == "Binary file validation failed."@,
                        Ok(_) => r is Ok && sanitize_report(data, cleaned, r->Ok_0),
                    }
            },
        },
    }
}

/// Decodes a Base64 payload, sanitizes the file it holds and analyses the
/// result again.
pub fn sanitize_binary(payload_base64: &str) -> (r: Result<BinarySanitizeReport, String>)
    ensures
        match payload_decoding(payload_base64) {
            Err(m) => r is Err && r->Err_0@ == m,
            Ok(data) => (exists|a: BinaryResult<ParsedBinary>, s: BinaryResult<CleanedBinary>|
                #[trigger] binary_analysis(data, a) && #[trigger] binary_sanitization(data, s)
                    && binary_outcome(data, a, s, r)) && match r {
                Ok(report) => reports_sanitizing(data, report),
                Err(m) => binary_refusal(m@),
            },
        },
{
    let bytes = decode_binary(payload_base64)?;
    let ghost data = bytes@;
    let before_result = build_binary_analysis(bytes.as_slice());
    let ghost a = choose|a: BinaryResult<ParsedBinary>|
        #[trigger] binary_analysis(data, a) && match a {
            Err(_) => before_result is Err && before_result->Err_0@ == "Binary file validation failed."@,
            Ok(parsed) => before_result is Ok && describes_binary(data, parsed, before_result->Ok_0),
        };
    let result = sanitize_file(bytes.as_slice());
    let ghost s = result;
    let before = match before_result {
        Ok(before) => before,
        Err(e) => {
            assert(binary_outcome(data, a, s, Err(e)));
            return Err(e);
        },
    };
    let cleaned = match result {
        Ok(cleaned) => cleaned,
        Err(_) => {
            let r = Err(message("Binary sanitation failed."));
            assert(binary_outcome(data, a, s, r));
            return r;
        },
    };
    if cleaned.bytes.len() == 0 || cleaned.bytes.len() > MAX_BINARY_BYTES {
        let r = Err(message("Sanitized file exceeds the 32 MiB output safety limit."));
        assert(binary_outcome(data, a, s, r));
        return r;
    }
    let after_result = build_binary_analysis(cleaned.bytes.as_slice());
    let ghost c = cleaned;
    let ghost a2 = choose|a2: BinaryResult<ParsedBinary>|
        #[trigger] binary_analysis(c.bytes@, a2) && match a2 {
            Err(_) => after_result is Err && after_result->Err_0@ == "Binary file validation failed."@,
            Ok(parsed) => after_result is Ok && describes_binary(c.bytes@, parsed, after_result->Ok_0),
        };
    let after = match after_result {
        Ok(after) => after,
        Err(e) => {
            assert(binary_outcome(data, a, s, Err(e)));
            return Err(e);
        },
    };
    let verification_passed = after.metadata_count == 0 && !after.c2pa_detected;
    let report = BinarySanitizeReport {
        output_base64: base64_encode(cleaned.bytes.as_slice()),
        removed_items: cleaned.removed_items,
        verification_passed,
        before,
        after,
    };
    assert(sanitize_report(bytes@, cleaned, report));
    assert(reports_sanitizing(bytes@, report));
    assert(binary_outcome(data, a, s, Ok(report)));
    Ok(report)
}

/// A PDF file that sanitizing accepts always passes the verification that
/// follows: the report of a successful sanitization of such a file has
/// `verification_passed` set.
pub proof fn law_pdf_sanitization_verifies(data: Seq<u8>, report: BinarySanitizeReport)
    requires
        signature_of(data) == Signature::Pdf,
        reports_sanitizing(data, report),
    ensures
        report.verification_passed,
{
    let cleaned = choose|cleaned: CleanedBinary| #[trigger] sanitize_report(data, cleaned, report);
    let a = choose|a: BinaryResult<ParsedBinary>|
        #[trigger] binary_analysis(cleaned.bytes@, a) && match a {
            Err(_) => false,
            Ok(parsed) => describes_binary(cleaned.bytes@, parsed, report.after),
        };
    law_sanitized_pdf_is_clean(data, cleaned, a);
    let parsed = a->Ok_0;
    assert(capped_total(parsed.findings@) == 0);
}

/// A PNG, JPEG or WebP file that sanitizing accepts always passes the
/// verification that follows: the report of a successful sanitization of
/// such a file has `verification_passed` set.
pub proof fn law_raster_sanitization_verifies(data: Seq<u8>, report: BinarySanitizeReport)
    requires
        data.len() <= usize::MAX,
        signature_of(data) == Signature::Png || signature_of(data) == Signature::Jpeg
            || signature_of(data) == Signature::WebP,
        reports_sanitizing(data, report),
    ensures
        report.verification_passed,
{
    let cleaned = choose|cleaned: CleanedBinary| #[trigger] sanitize_report(data, cleaned, report);
    let a = choose|a: BinaryResult<ParsedBinary>|
        #[trigger] binary_analysis(cleaned.bytes@, a) && match a {
            Err(_) => false,
            Ok(parsed) => describes_binary(cleaned.bytes@, parsed, report.after),
        };
    law_sanitized_raster_is_clean(data, cleaned, a);
    let parsed = a->Ok_0;
    assert(capped_total(parsed.findings@) == 0);
}

/// What a sanitization hands back can be sent in again: its Base64 output is
/// an accepted payload that decodes to the cleaned file, and the report's
/// `after` analysis is the report on that file.
pub proof fn law_sanitized_output_decodes(data: Seq<u8>, report: BinarySanitizeReport, payload: &str)
    requires
        reports_sanitizing(data, report),
        payload@ == report.output_base64@,
    ensures
        payload_decoding(payload) matches Ok(out) && binary_report(out, Ok(report.after)),
{
    let cleaned = choose|cleaned: CleanedBinary| #[trigger] sanitize_report(data, cleaned, report);
    let out = cleaned.bytes@;
    lemma_base64_shape(out);
    vstd::utf8::is_ascii_chars_encode_utf8(payload@);
    assert(4 * ((out.len() + 2) / 3) <= MAX_BINARY_BASE64_BYTES) by (nonlinear_arith)
        requires
            out.len() <= 33554432,
            MAX_BINARY_BASE64_BYTES == 44739244,
    ;
    assert(base64_text(out) == payload@);
    let chosen = choose|d: Seq<u8>| base64_text(d) == payload@;
    lemma_base64_injective(chosen, out);
}

} // verus!
