use vstd::prelude::*;

use super::model::{Action, Rule, Severity};

verus! {

/// The rule table: which code points are findings, under which rule.
/// Code points that no arm names are ordinary text.
pub open spec fn rule_for(c: char) -> Option<Rule> {
    let cp = c as u32;
    if (0x0000 <= cp <= 0x0008) || (0x000B <= cp <= 0x000C) || (0x000E <= cp <= 0x001F) || (0x007F <= cp <= 0x009F) {
        Some(Rule { name: "CONTROL CHARACTER", category: "Control", severity: Severity::High, action: Action::RemoveStrict })
    } else if cp == 0x00AD {
        Some(Rule { name: "SOFT HYPHEN", category: "Invisible format", severity: Severity::Medium, action: Action::RemoveSafe })
    } else if cp == 0x034F {
        Some(Rule { name: "COMBINING GRAPHEME JOINER", category: "Invisible format", severity: Severity::Low, action: Action::RemoveStrict })
    } else if cp == 0x061C {
        Some(Rule { name: "ARABIC LETTER MARK", category: "Bidirectional control", severity: Severity::Medium, action: Action::RemoveStrict })
    } else if cp == 0x070F {
        Some(Rule { name: "SYRIAC ABBREVIATION MARK", category: "Invisible format", severity: Severity::Low, action: Action::RemoveStrict })
    } else if (0x0890 <= cp <= 0x0891) || cp == 0x08E2 {
        Some(Rule { name: "ARABIC FORMAT MARK", category: "Invisible format", severity: Severity::Low, action: Action::RemoveStrict })
    } else if (0x115F <= cp <= 0x1160) {
        Some(Rule { name: "HANGUL FILLER", category: "Invisible filler", severity: Severity::Low, action: Action::RemoveStrict })
    } else if (0x17B4 <= cp <= 0x17B5) {
        Some(Rule { name: "KHMER INHERENT VOWEL", category: "Invisible format", severity: Severity::Low, action: Action::RemoveStrict })
    } else if (0x180B <= cp <= 0x180D) || cp == 0x180F {
        Some(Rule { name: "MONGOLIAN VARIATION SELECTOR", category: "Variation selector", severity: Severity::Low, action: Action::RemoveStrict })
    } else if cp == 0x180E {
        Some(Rule { name: "MONGOLIAN VOWEL SEPARATOR", category: "Invisible format", severity: Severity::Medium, action: Action::RemoveStrict })
    } else if cp == 0x200B {
        Some(Rule { name: "ZERO WIDTH SPACE", category: "Zero-width", severity: Severity::High, action: Action::RemoveSafe })
    } else if cp == 0x200C {
        Some(Rule { name: "ZERO WIDTH NON-JOINER", category: "Zero-width", severity: Severity::Medium, action: Action::RemoveStrict })
    } else if cp == 0x200D {
        Some(Rule { name: "ZERO WIDTH JOINER", category: "Zero-width", severity: Severity::Medium, action: Action::RemoveStrict })
    } else if (0x200E <= cp <= 0x200F) {
        Some(Rule { name: "DIRECTIONAL MARK", category: "Bidirectional control", severity: Severity::Medium, action: Action::RemoveStrict })
    } else if (0x202A <= cp <= 0x202C) || (0x2066 <= cp <= 0x2069) {
        Some(Rule { name: "BIDI EMBEDDING OR ISOLATE", category: "Bidirectional control", severity: Severity::High, action: Action::RemoveStrict })
    } else if (0x202D <= cp <= 0x202E) {
        Some(Rule { name: "BIDI OVERRIDE", category: "Bidirectional override", severity: Severity::High, action: Action::RemoveStrict })
    } else if cp == 0x2060 {
        Some(Rule { name: "WORD JOINER", category: "Zero-width", severity: Severity::Medium, action: Action::RemoveSafe })
    } else if (0x2061 <= cp <= 0x2064) {
        Some(Rule { name: "INVISIBLE OPERATOR", category: "Invisible operator", severity: Severity::Medium, action: Action::RemoveStrict })
    } else if (0x206A <= cp <= 0x206F) {
        Some(Rule { name: "DEPRECATED BIDI CONTROL", category: "Bidirectional control", severity: Severity::Medium, action: Action::RemoveStrict })
    } else if cp == 0xFEFF {
        Some(Rule { name: "ZERO WIDTH NO-BREAK SPACE / BOM", category: "Zero-width", severity: Severity::High, action: Action::RemoveSafe })
    } else if (0xFFF9 <= cp <= 0xFFFB) {
        Some(Rule { name: "INTERLINEAR ANNOTATION CONTROL", category: "Annotation control", severity: Severity::Low, action: Action::RemoveStrict })
    } else if (0x1BCA0 <= cp <= 0x1BCAF) {
        Some(Rule { name: "SHORTHAND FORMAT CONTROL", category: "Invisible format", severity: Severity::Medium, action: Action::RemoveStrict })
    } else if (0x1D173 <= cp <= 0x1D17A) {
        Some(Rule { name: "MUSICAL SYMBOL CONTROL", category: "Invisible format", severity: Severity::Low, action: Action::RemoveStrict })
    } else if (0xE0000 <= cp <= 0xE007F) {
        Some(Rule { name: "UNICODE TAG CHARACTER", category: "Tag character", severity: Severity::High, action: Action::RemoveSafe })
    } else if (0xFE00 <= cp <= 0xFE0F) || (0xE0100 <= cp <= 0xE01EF) {
        Some(Rule { name: "VARIATION SELECTOR", category: "Variation selector", severity: Severity::Low, action: Action::RemoveStrict })
    } else if cp == 0x00A0 || cp == 0x1680 || (0x2000 <= cp <= 0x200A) || cp == 0x202F || cp == 0x205F || cp == 0x3000 {
        Some(Rule { name: "NON-STANDARD SPACE", category: "Suspicious spacing", severity: Severity::Info, action: Action::NormalizeStrict })
    } else if (0x2018 <= cp <= 0x201B) {
        Some(Rule { name: "TYPOGRAPHIC SINGLE QUOTE", category: "Surface typography", severity: Severity::Info, action: Action::NormalizeMaximum })
    } else if (0x201C <= cp <= 0x201F) {
        Some(Rule { name: "TYPOGRAPHIC DOUBLE QUOTE", category: "Surface typography", severity: Severity::Info, action: Action::NormalizeMaximum })
    } else if (0x2010 <= cp <= 0x2015) || cp == 0x2212 {
        Some(Rule { name: "DASH VARIANT", category: "Surface typography", severity: Severity::Info, action: Action::NormalizeMaximum })
    } else if cp == 0x2026 {
        Some(Rule { name: "HORIZONTAL ELLIPSIS", category: "Surface typography", severity: Severity::Info, action: Action::NormalizeMaximum })
    } else if (0xFF01 <= cp <= 0xFF5E) {
        Some(Rule { name: "FULLWIDTH ASCII VARIANT", category: "Compatibility character", severity: Severity::Low, action: Action::NormalizeMaximum })
    } else if (0xE000 <= cp <= 0xF8FF) || (0xF0000 <= cp <= 0xFFFFD) || (0x100000 <= cp <= 0x10FFFD) {
        Some(Rule { name: "PRIVATE USE CHARACTER", category: "Private-use payload", severity: Severity::High, action: Action::RemoveMaximum })
    } else {
        None
    }
}

/// The action the table assigns to `c`, `ReportOnly` for ordinary text.
pub open spec fn action_for(c: char) -> Action {
    match rule_for(c) {
        Some(r) => r.action,
        None => Action::ReportOnly,
    }
}

fn rule(name: &'static str, category: &'static str, severity: Severity, action: Action) -> (r: Rule)
    ensures
        r == (Rule { name, category, severity, action }),
{
    Rule { name, category, severity, action }
}

/// Looks `c` up in the rule table.
pub fn classify(c: char) -> (r: Option<Rule>)
    ensures
        r == rule_for(c),
{
    let matched = match c as u32 {
        0x0000..=0x0008 | 0x000B..=0x000C | 0x000E..=0x001F | 0x007F..=0x009F => rule(
            "CONTROL CHARACTER",
            "Control",
            Severity::High,
            Action::RemoveStrict,
        ),
        0x00AD => rule(
            "SOFT HYPHEN",
            "Invisible format",
            Severity::Medium,
            Action::RemoveSafe,
        ),
        0x034F => rule(
            "COMBINING GRAPHEME JOINER",
            "Invisible format",
            Severity::Low,
            Action::RemoveStrict,
        ),
        0x061C => rule(
            "ARABIC LETTER MARK",
            "Bidirectional control",
            Severity::Medium,
            Action::RemoveStrict,
        ),
        0x070F => rule(
            "SYRIAC ABBREVIATION MARK",
            "Invisible format",
            Severity::Low,
            Action::RemoveStrict,
        ),
        0x0890..=0x0891 | 0x08E2 => rule(
            "ARABIC FORMAT MARK",
            "Invisible format",
            Severity::Low,
            Action::RemoveStrict,
        ),
        0x115F..=0x1160 => rule(
            "HANGUL FILLER",
            "Invisible filler",
            Severity::Low,
            Action::RemoveStrict,
        ),
        0x17B4..=0x17B5 => rule(
            "KHMER INHERENT VOWEL",
            "Invisible format",
            Severity::Low,
            Action::RemoveStrict,
        ),
        0x180B..=0x180D | 0x180F => rule(
            "MONGOLIAN VARIATION SELECTOR",
            "Variation selector",
            Severity::Low,
            Action::RemoveStrict,
        ),
        0x180E => rule(
            "MONGOLIAN VOWEL SEPARATOR",
            "Invisible format",
            Severity::Medium,
            Action::RemoveStrict,
        ),
        0x200B => rule(
            "ZERO WIDTH SPACE",
            "Zero-width",
            Severity::High,
            Action::RemoveSafe,
        ),
        0x200C => rule(
            "ZERO WIDTH NON-JOINER",
            "Zero-width",
            Severity::Medium,
            Action::RemoveStrict,
        ),
        0x200D => rule(
            "ZERO WIDTH JOINER",
            "Zero-width",
            Severity::Medium,
            Action::RemoveStrict,
        ),
        0x200E..=0x200F => rule(
            "DIRECTIONAL MARK",
            "Bidirectional control",
            Severity::Medium,
            Action::RemoveStrict,
        ),
        0x202A..=0x202C | 0x2066..=0x2069 => rule(
            "BIDI EMBEDDING OR ISOLATE",
            "Bidirectional control",
            Severity::High,
            Action::RemoveStrict,
        ),
        0x202D..=0x202E => rule(
            "BIDI OVERRIDE",
            "Bidirectional override",
            Severity::High,
            Action::RemoveStrict,
        ),
        0x2060 => rule(
            "WORD JOINER",
            "Zero-width",
            Severity::Medium,
            Action::RemoveSafe,
        ),
        0x2061..=0x2064 => rule(
            "INVISIBLE OPERATOR",
            "Invisible operator",
            Severity::Medium,
            Action::RemoveStrict,
        ),
        0x206A..=0x206F => rule(
            "DEPRECATED BIDI CONTROL",
            "Bidirectional control",
            Severity::Medium,
            Action::RemoveStrict,
        ),
        0xFEFF => rule(
            "ZERO WIDTH NO-BREAK SPACE / BOM",
            "Zero-width",
            Severity::High,
            Action::RemoveSafe,
        ),
        0xFFF9..=0xFFFB => rule(
            "INTERLINEAR ANNOTATION CONTROL",
            "Annotation control",
            Severity::Low,
            Action::RemoveStrict,
        ),
        0x1BCA0..=0x1BCAF => rule(
            "SHORTHAND FORMAT CONTROL",
            "Invisible format",
            Severity::Medium,
            Action::RemoveStrict,
        ),
        0x1D173..=0x1D17A => rule(
            "MUSICAL SYMBOL CONTROL",
            "Invisible format",
            Severity::Low,
            Action::RemoveStrict,
        ),
        0xE0000..=0xE007F => rule(
            "UNICODE TAG CHARACTER",
            "Tag character",
            Severity::High,
            Action::RemoveSafe,
        ),
        0xFE00..=0xFE0F | 0xE0100..=0xE01EF => rule(
            "VARIATION SELECTOR",
            "Variation selector",
            Severity::Low,
            Action::RemoveStrict,
        ),
        0x00A0 | 0x1680 | 0x2000..=0x200A | 0x202F | 0x205F | 0x3000 => rule(
            "NON-STANDARD SPACE",
            "Suspicious spacing",
            Severity::Info,
            Action::NormalizeStrict,
        ),
        0x2018..=0x201B => rule(
            "TYPOGRAPHIC SINGLE QUOTE",
            "Surface typography",
            Severity::Info,
            Action::NormalizeMaximum,
        ),
        0x201C..=0x201F => rule(
            "TYPOGRAPHIC DOUBLE QUOTE",
            "Surface typography",
            Severity::Info,
            Action::NormalizeMaximum,
        ),
        0x2010..=0x2015 | 0x2212 => rule(
            "DASH VARIANT",
            "Surface typography",
            Severity::Info,
            Action::NormalizeMaximum,
        ),
        0x2026 => rule(
            "HORIZONTAL ELLIPSIS",
            "Surface typography",
            Severity::Info,
            Action::NormalizeMaximum,
        ),
        0xFF01..=0xFF5E => rule(
            "FULLWIDTH ASCII VARIANT",
            "Compatibility character",
            Severity::Low,
            Action::NormalizeMaximum,
        ),
        0xE000..=0xF8FF | 0xF0000..=0xFFFFD | 0x100000..=0x10FFFD => rule(
            "PRIVATE USE CHARACTER",
            "Private-use payload",
            Severity::High,
            Action::RemoveMaximum,
        ),
        _ => return None,
    };
    Some(matched)
}

/// The ASCII spelling that Maximum mode gives to typographic quotes, dashes
/// and the ellipsis.
pub open spec fn maximum_replacement_for(c: char) -> Option<&'static str> {
    let cp = c as u32;
    if 0x2018 <= cp <= 0x201B {
        Some("'")
    } else if 0x201C <= cp <= 0x201F {
        Some("\"")
    } else if (0x2010 <= cp <= 0x2015) || cp == 0x2212 {
        Some("-")
    } else if cp == 0x2026 {
        Some("...")
    } else {
        None
    }
}

/// The ASCII spelling of a typographic quote, dash or ellipsis.
pub fn maximum_replacement(c: char) -> (r: Option<&'static str>)
    ensures
        r == maximum_replacement_for(c),
{
    match c as u32 {
        0x2018..=0x201B => Some("'"),
        0x201C..=0x201F => Some("\""),
        0x2010..=0x2015 | 0x2212 => Some("-"),
        0x2026 => Some("..."),
        _ => None,
    }
}

} // verus!
