use vstd::prelude::*;

use super::model::{
    Action, ChangeEntry, EngineChange, EngineResult, Mode, KIND_NORMALIZED, KIND_REMOVED,
};
use super::rules::{action_for, classify, maximum_replacement, maximum_replacement_for, rule_for};
use crate::text::{chars_of, string_from_chars};

verus! {

/// Whether `mode` deletes characters whose rule says `action`.
pub open spec fn removes(mode: Mode, action: Action) -> bool {
    ||| action == Action::RemoveSafe
    ||| (mode == Mode::Strict || mode == Mode::Maximum) && action == Action::RemoveStrict
    ||| mode == Mode::Maximum && action == Action::RemoveMaximum
}

/// Whether `mode` rewrites characters whose rule says `action`.
pub open spec fn normalizes(mode: Mode, action: Action) -> bool {
    ||| (mode == Mode::Strict || mode == Mode::Maximum) && action == Action::NormalizeStrict
    ||| mode == Mode::Maximum && action == Action::NormalizeMaximum
}

/// What a normalized character becomes: an ASCII space for unusual spaces,
/// the ASCII twin of a fullwidth character, the ASCII spelling of a
/// typographic quote, dash or ellipsis.
pub open spec fn replacement(c: char, action: Action) -> Seq<char> {
    match action {
        Action::NormalizeStrict => seq![' '],
        Action::NormalizeMaximum => if 0xFF01 <= c as u32 && c as u32 <= 0xFF5E {
            seq![((c as u32) - 0xFEE0) as char]
        } else {
            match maximum_replacement_for(c) {
                Some(s) => s@,
                None => Seq::empty(),
            }
        },
        _ => seq![c],
    }
}

/// What `mode` turns the single character `c` into.
pub open spec fn rewrite(c: char, mode: Mode) -> Seq<char> {
    let action = action_for(c);
    if removes(mode, action) {
        Seq::empty()
    } else if normalizes(mode, action) {
        replacement(c, action)
    } else {
        seq![c]
    }
}

/// The sanitized text: every character rewritten, in order.
pub open spec fn sanitized(s: Seq<char>, mode: Mode) -> Seq<char>
    decreases s.len(),
{
    if s.len() == 0 {
        Seq::empty()
    } else {
        sanitized(s.drop_last(), mode) + rewrite(s.last(), mode)
    }
}

/// How many characters of `s` the mode deletes.
pub open spec fn removed_in(s: Seq<char>, mode: Mode) -> nat
    decreases s.len(),
{
    if s.len() == 0 {
        0
    } else {
        removed_in(s.drop_last(), mode) + if removes(mode, action_for(s.last())) {
            1nat
        } else {
            0nat
        }
    }
}

/// How many characters of `s` the mode rewrites.
pub open spec fn normalized_in(s: Seq<char>, mode: Mode) -> nat
    decreases s.len(),
{
    if s.len() == 0 {
        0
    } else {
        normalized_in(s.drop_last(), mode) + if !removes(mode, action_for(s.last()))
            && normalizes(mode, action_for(s.last())) {
            1nat
        } else {
            0nat
        }
    }
}

/// Whether `mode` leaves `c` exactly as it is.
pub open spec fn untouched(c: char, mode: Mode) -> bool {
    !removes(mode, action_for(c)) && !normalizes(mode, action_for(c))
}

/// Whether no character of `s` is acted on by `mode`.
pub open spec fn clean_for(s: Seq<char>, mode: Mode) -> bool {
    forall|i: int| 0 <= i < s.len() ==> #[trigger] untouched(s[i], mode)
}

/// The full change ledger of sanitizing `s`: one entry for each deleted or
/// rewritten character, in source order, with its index in the source and
/// the index in the output where its replacement begins.
pub open spec fn ledger(s: Seq<char>, mode: Mode) -> Seq<ChangeEntry>
    decreases s.len(),
{
    if s.len() == 0 {
        Seq::empty()
    } else {
        let prefix = s.drop_last();
        let c = s.last();
        let entry = ChangeEntry {
            source_index: prefix.len() as int,
            output_index: sanitized(prefix, mode).len() as int,
            before: seq![c],
            after: rewrite(c, mode),
            removed: removes(mode, action_for(c)),
        };
        if untouched(c, mode) {
            ledger(prefix, mode)
        } else {
            ledger(prefix, mode).push(entry)
        }
    }
}

/// At most this many ledger entries are reported.
pub const MAX_REPORTED_CHANGES: usize = 4096;

fn should_remove(mode: Mode, action: Action) -> (r: bool)
    ensures
        r == removes(mode, action),
{
    matches!(action, Action::RemoveSafe) || matches!(mode, Mode::Strict | Mode::Maximum)
        && matches!(action, Action::RemoveStrict) || matches!(mode, Mode::Maximum) && matches!(
        action,
        Action::RemoveMaximum
    )
}

fn should_normalize(mode: Mode, action: Action) -> (r: bool)
    ensures
        r == normalizes(mode, action),
{
    matches!(mode, Mode::Strict | Mode::Maximum) && matches!(action, Action::NormalizeStrict)
        || matches!(mode, Mode::Maximum) && matches!(action, Action::NormalizeMaximum)
}

fn action_of(c: char) -> (a: Action)
    ensures
        a == action_for(c),
{
    match classify(c) {
        Some(rule) => rule.action,
        None => Action::ReportOnly,
    }
}

/// Appends the normalized form of `c` to `output` and returns it.
fn append_normalized(output: &mut Vec<char>, c: char, action: Action) -> (added: Vec<char>)
    ensures
        added@ == replacement(c, action),
        final(output)@ == old(output)@ + added@,
{
    let mut added: Vec<char> = Vec::new();
    match action {
        Action::NormalizeStrict => added.push(' '),
        Action::NormalizeMaximum => {
            let cp = c as u32;
            if 0xFF01 <= cp && cp <= 0xFF5E {
                let ascii = (cp - 0xFEE0) as u8 as char;
                added.push(ascii);
            } else {
                match maximum_replacement(c) {
                    Some(s) => {
                        added = chars_of(s);
                    },
                    None => {},
                }
            }
        },
        _ => added.push(c),
    }
    let mut k: usize = 0;
    let ghost before = output@;
    while k < added.len()
        invariant
            k <= added.len(),
            output@ == before + added@.take(k as int),
        decreases added.len() - k,
    {
        output.push(added[k]);
        k = k + 1;
        assert(added@.take(k as int) == added@.take(k - 1) + seq![added@[k - 1]]);
    }
    assert(added@.take(added.len() as int) == added@);
    added
}

proof fn lemma_counts_match_ledger(s: Seq<char>, mode: Mode)
    ensures
        removed_in(s, mode) + normalized_in(s, mode) == ledger(s, mode).len(),
        removed_in(s, mode) + normalized_in(s, mode) <= s.len(),
    decreases s.len(),
{
    if s.len() > 0 {
        lemma_counts_match_ledger(s.drop_last(), mode);
    }
}

/// Sanitizes `text` under `mode`. The output is the text with every character
/// rewritten as `mode` says; the ledger holds the first
/// `MAX_REPORTED_CHANGES` entries of the full change ledger.
pub fn sanitize(text: &str, mode: Mode) -> (result: EngineResult)
    ensures
        result.output@ == sanitized(text@, mode),
        result.removed_count == removed_in(text@, mode),
        result.normalized_count == normalized_in(text@, mode),
        result.change_count == removed_in(text@, mode) + normalized_in(text@, mode),
        result.change_count == ledger(text@, mode).len(),
        result.changes.len() == if ledger(text@, mode).len() < MAX_REPORTED_CHANGES {
            ledger(text@, mode).len()
        } else {
            MAX_REPORTED_CHANGES as nat
        },
        forall|j: int|
            0 <= j < result.changes.len() ==> #[trigger] result.changes[j].records(
                ledger(text@, mode)[j],
            ),
{
    let chars = chars_of(text);
    let mut output: Vec<char> = Vec::new();
    let mut removed_count: usize = 0;
    let mut normalized_count: usize = 0;
    let mut changes: Vec<EngineChange> = Vec::new();
    let mut i: usize = 0;
    while i < chars.len()
        invariant
            i <= chars.len(),
            chars@ == text@,
            output@ == sanitized(chars@.take(i as int), mode),
            removed_count == removed_in(chars@.take(i as int), mode),
            normalized_count == normalized_in(chars@.take(i as int), mode),
            removed_count + normalized_count == ledger(chars@.take(i as int), mode).len(),
            removed_count + normalized_count <= i,
            changes.len() == if ledger(chars@.take(i as int), mode).len() < MAX_REPORTED_CHANGES {
                ledger(chars@.take(i as int), mode).len()
            } else {
                MAX_REPORTED_CHANGES as nat
            },
            forall|j: int|
                0 <= j < changes.len() ==> #[trigger] changes[j].records(
                    ledger(chars@.take(i as int), mode)[j],
                ),
        decreases chars.len() - i,
    {
        let ghost prefix = chars@.take(i as int);
        let ghost next = chars@.take(i + 1);
        assert(next.drop_last() == prefix);
        assert(next.last() == chars@[i as int]);
        proof {
            lemma_counts_match_ledger(prefix, mode);
        }
        let c = chars[i];
        let action = action_of(c);
        let ghost entry = ChangeEntry {
            source_index: i as int,
            output_index: output@.len() as int,
            before: seq![c],
            after: rewrite(c, mode),
            removed: removes(mode, action),
        };
        assert(!untouched(c, mode) ==> ledger(next, mode) == ledger(prefix, mode).push(entry));
        assert(untouched(c, mode) ==> ledger(next, mode) == ledger(prefix, mode));
        if should_remove(mode, action) {
            removed_count = removed_count + 1;
            if changes.len() < MAX_REPORTED_CHANGES {
                let before = string_from_chars(vec![c].as_slice());
                let change = EngineChange {
                    source_index: i,
                    output_index: output.len(),
                    before,
                    after: String::new(),
                    kind: KIND_REMOVED,
                };
                assert(change.before@ =~= entry.before);
                assert(change.records(entry));
                changes.push(change);
            }
        } else if should_normalize(mode, action) {
            let output_index = output.len();
            let added = append_normalized(&mut output, c, action);
            if changes.len() < MAX_REPORTED_CHANGES {
                let before = string_from_chars(vec![c].as_slice());
                let after = string_from_chars(added.as_slice());
                let change = EngineChange {
                    source_index: i,
                    output_index,
                    before,
                    after,
                    kind: KIND_NORMALIZED,
                };
                assert(change.before@ =~= entry.before);
                assert(change.records(entry));
                changes.push(change);
            }
            normalized_count = normalized_count + 1;
        } else {
            output.push(c);
        }
        i = i + 1;
    }
    assert(chars@.take(chars.len() as int) == chars@);
    EngineResult {
        output: string_from_chars(output.as_slice()),
        removed_count,
        normalized_count,
        change_count: removed_count + normalized_count,
        changes,
    }
}

/// The Maximum-mode form of `text`: the text as a reader of its tokens sees
/// it, with every invisible payload gone and every surface variant spelled
/// the ASCII way.
pub fn canonical_projection(text: &str) -> (projection: String)
    ensures
        projection@ == sanitized(text@, Mode::Maximum),
{
    sanitize(text, Mode::Maximum).output
}

/// Whether `mode` would leave `text` exactly as it is.
pub fn is_clean_for_mode(text: &str, mode: Mode) -> (clean: bool)
    ensures
        clean == clean_for(text@, mode),
{
    let chars = chars_of(text);
    let mut i: usize = 0;
    while i < chars.len()
        invariant
            i <= chars.len(),
            chars@ == text@,
            forall|j: int| 0 <= j < i ==> #[trigger] untouched(chars@[j], mode),
        decreases chars.len() - i,
    {
        let action = action_of(chars[i]);
        if should_remove(mode, action) || should_normalize(mode, action) {
            assert(!untouched(chars@[i as int], mode));
            return false;
        }
        i = i + 1;
    }
    true
}

/// Every character that a rewrite produces is one that `mode` leaves alone.
proof fn lemma_rewrite_is_clean(c: char, mode: Mode)
    ensures
        clean_for(rewrite(c, mode), mode),
{
    reveal_strlit("'");
    reveal_strlit("\"");
    reveal_strlit("-");
    reveal_strlit("...");
    let r = rewrite(c, mode);
    assert forall|i: int| 0 <= i < r.len() implies #[trigger] untouched(r[i], mode) by {
        let action = action_for(c);
        if !removes(mode, action) && normalizes(mode, action) {
            let d = r[i];
            assert(0x20 <= d as u32 && d as u32 <= 0x7E);
            assert(rule_for(d) is None);
        }
    }
}

proof fn lemma_sanitized_concat(a: Seq<char>, b: Seq<char>, mode: Mode)
    ensures
        sanitized(a + b, mode) == sanitized(a, mode) + sanitized(b, mode),
    decreases b.len(),
{
    if b.len() == 0 {
        assert(a + b =~= a);
        assert(sanitized(a, mode) + sanitized(b, mode) =~= sanitized(a, mode));
    } else {
        lemma_sanitized_concat(a, b.drop_last(), mode);
        assert((a + b).drop_last() =~= a + b.drop_last());
        assert((a + b).last() == b.last());
        assert(sanitized(a, mode) + sanitized(b, mode) =~= sanitized(a, mode) + sanitized(
            b.drop_last(),
            mode,
        ) + rewrite(b.last(), mode));
    }
}

proof fn lemma_sanitized_clean(s: Seq<char>, mode: Mode)
    ensures
        clean_for(sanitized(s, mode), mode),
    decreases s.len(),
{
    if s.len() > 0 {
        lemma_sanitized_clean(s.drop_last(), mode);
        lemma_rewrite_is_clean(s.last(), mode);
        let a = sanitized(s.drop_last(), mode);
        let b = rewrite(s.last(), mode);
        assert forall|i: int| 0 <= i < (a + b).len() implies #[trigger] untouched(
            (a + b)[i],
            mode,
        ) by {
            if i < a.len() {
                assert(untouched(a[i], mode));
            } else {
                assert(untouched(b[i - a.len()], mode));
            }
        }
    }
}

proof fn lemma_clean_is_fixed(s: Seq<char>, mode: Mode)
    requires
        clean_for(s, mode),
    ensures
        sanitized(s, mode) == s,
        removed_in(s, mode) == 0,
        normalized_in(s, mode) == 0,
        ledger(s, mode).len() == 0,
    decreases s.len(),
{
    if s.len() > 0 {
        let p = s.drop_last();
        assert(clean_for(p, mode)) by {
            assert forall|i: int| 0 <= i < p.len() implies #[trigger] untouched(p[i], mode) by {
                assert(untouched(s[i], mode));
            }
        }
        lemma_clean_is_fixed(p, mode);
        assert(untouched(s[s.len() - 1], mode));
        assert(s =~= p + seq![s.last()]);
    }
}

/// Sanitizing removes or rewrites every character that `mode` acts on: the
/// output is clean for the same mode.
pub proof fn law_output_is_clean(s: Seq<char>, mode: Mode)
    ensures
        clean_for(sanitized(s, mode), mode),
{
    lemma_sanitized_clean(s, mode);
}

/// Text is clean for a mode exactly when sanitizing it makes no change:
/// exactly when the output is the input, and exactly when the change ledger
/// is empty.
pub proof fn law_clean_iff_unchanged(s: Seq<char>, mode: Mode)
    ensures
        clean_for(s, mode) == (sanitized(s, mode) == s),
        clean_for(s, mode) == (ledger(s, mode).len() == 0),
    decreases s.len(),
{
    lemma_sanitized_clean(s, mode);
    if clean_for(s, mode) {
        lemma_clean_is_fixed(s, mode);
    }
    if s.len() > 0 {
        let p = s.drop_last();
        law_clean_iff_unchanged(p, mode);
        if ledger(s, mode).len() == 0 {
            assert(untouched(s.last(), mode));
            assert(clean_for(p, mode));
            assert forall|i: int| 0 <= i < s.len() implies #[trigger] untouched(s[i], mode) by {
                if i < p.len() {
                    assert(s[i] == p[i]);
                    assert(untouched(p[i], mode));
                }
            }
        }
    }
}

/// Sanitizing twice under one mode gives the result of sanitizing once, and
/// the second pass changes nothing.
pub proof fn law_sanitize_idempotent(s: Seq<char>, mode: Mode)
    ensures
        sanitized(sanitized(s, mode), mode) == sanitized(s, mode),
        removed_in(sanitized(s, mode), mode) == 0,
        normalized_in(sanitized(s, mode), mode) == 0,
        ledger(sanitized(s, mode), mode).len() == 0,
{
    lemma_sanitized_clean(s, mode);
    lemma_clean_is_fixed(sanitized(s, mode), mode);
}

proof fn lemma_rewrite_projection(c: char, mode: Mode)
    ensures
        sanitized(rewrite(c, mode), Mode::Maximum) == rewrite(c, Mode::Maximum),
{
    reveal_strlit("'");
    reveal_strlit("\"");
    reveal_strlit("-");
    reveal_strlit("...");
    let action = action_for(c);
    let r = rewrite(c, mode);
    if removes(mode, action) {
        assert(r.len() == 0);
    } else if normalizes(mode, action) {
        lemma_rewrite_is_clean(c, mode);
        assert(clean_for(r, Mode::Maximum)) by {
            assert forall|i: int| 0 <= i < r.len() implies #[trigger] untouched(
                r[i],
                Mode::Maximum,
            ) by {
                let d = r[i];
                assert(0x20 <= d as u32 && d as u32 <= 0x7E);
                assert(rule_for(d) is None);
            }
        }
        lemma_clean_is_fixed(r, Mode::Maximum);
    } else {
        assert(r =~= seq![c]);
        assert(seq![c].drop_last() =~= Seq::<char>::empty());
        assert(sanitized(seq![c], Mode::Maximum) =~= sanitized(Seq::<char>::empty(), Mode::Maximum)
            + rewrite(c, Mode::Maximum));
    }
}

/// The canonical projection is stable under sanitizing: whatever the mode,
/// the projection of the output equals the projection of the input.
pub proof fn law_projection_unchanged(s: Seq<char>, mode: Mode)
    ensures
        sanitized(sanitized(s, mode), Mode::Maximum) == sanitized(s, Mode::Maximum),
    decreases s.len(),
{
    if s.len() > 0 {
        let p = s.drop_last();
        law_projection_unchanged(p, mode);
        lemma_sanitized_concat(sanitized(p, mode), rewrite(s.last(), mode), Mode::Maximum);
        lemma_rewrite_projection(s.last(), mode);
    }
}

/// The modes are nested: text that Maximum leaves alone Strict leaves alone,
/// and text that Strict leaves alone Safe leaves alone.
pub proof fn law_modes_nested(s: Seq<char>)
    ensures
        clean_for(s, Mode::Maximum) ==> clean_for(s, Mode::Strict),
        clean_for(s, Mode::Strict) ==> clean_for(s, Mode::Safe),
{
    if clean_for(s, Mode::Maximum) {
        assert forall|i: int| 0 <= i < s.len() implies #[trigger] untouched(s[i], Mode::Strict) by {
            assert(untouched(s[i], Mode::Maximum));
        }
    }
    if clean_for(s, Mode::Strict) {
        assert forall|i: int| 0 <= i < s.len() implies #[trigger] untouched(s[i], Mode::Safe) by {
            assert(untouched(s[i], Mode::Strict));
        }
    }
}

/// In Maximum mode every typographic single quote (U+2018 to U+201B)
/// becomes one ASCII apostrophe, wherever it stands: sanitizing text that
/// ends with one gives the sanitized rest followed by `'`.
pub proof fn law_single_quotes_become_apostrophes(s: Seq<char>, c: char)
    requires
        0x2018 <= c as u32 <= 0x201B,
    ensures
        sanitized(s.push(c), Mode::Maximum) == sanitized(s, Mode::Maximum) + seq!['\''],
{
    reveal_strlit("'");
    assert(s.push(c).drop_last() =~= s);
    assert(rewrite(c, Mode::Maximum) =~= seq!['\'']);
}

} // verus!
