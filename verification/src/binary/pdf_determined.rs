//! What PDF analysis reports is determined by the file: every model that
//! matches what `lopdf` loads gives the same report, whatever the order of
//! the entries inside its dictionaries.
use vstd::prelude::*;

use super::model::{capped_total, BinaryFormat, BinaryResult, CleanedBinary, ParsedBinary};
use super::pdf::{
    annotation_fields, bytes_of, counts, deref, find, find_from, has_key, has_name,
    has_type, is_active, load_result, lookup, lookup_from, model_check, model_matches, object_counts,
    object_matches, pdf_report, reports_nothing, root_of, sanitization, stream_total, value_matches,
    values_match, PdfModel,
    PdfObject, PdfValue, DEREF_LIMIT,
};
use crate::pdf_file::{id_before, pdf_loaded, referred, PdfSlot};

verus! {

proof fn lemma_lookup_from(d: Seq<(Vec<u8>, PdfValue)>, key: Seq<u8>, i: int)
    requires
        0 <= i,
    ensures
        lookup_from(d, key, i) matches Some(v) ==> exists|j: int|
            i <= j < d.len() && (#[trigger] d[j]).0@ == key && d[j].1 == v,
        lookup_from(d, key, i) is None ==> forall|j: int| i <= j < d.len() ==> (#[trigger] d[j]).0@ != key,
    decreases d.len() - i,
{
    if i < d.len() && d[i].0@ != key {
        lemma_lookup_from(d, key, i + 1);
    }
}

/// In a dictionary whose entries are `m`, entry `key` is there exactly when
/// `m` holds it, and its value matches `m`'s.
proof fn lemma_lookup_slot(d: Seq<(Vec<u8>, PdfValue)>, m: Map<Seq<u8>, PdfSlot>, key: Seq<u8>)
    requires
        values_match(d, m),
    ensures
        lookup(d, key) is Some <==> m.dom().contains(key),
        lookup(d, key) matches Some(v) ==> value_matches(v, m[key]),
{
    lemma_lookup_from(d, key, 0);
    if m.dom().contains(key) {
        let j = choose|j: int| 0 <= j < d.len() && d[j].0@ == key;
        assert(d[j].0@ == key);
    }
    if let Some(v) = lookup(d, key) {
        let j = choose|j: int| 0 <= j < d.len() && (#[trigger] d[j]).0@ == key && d[j].1 == v;
        assert(m.dom().contains(d[j].0@));
    }
}

/// What a dictionary says through `has_key`, `has_name` and `root_of` is
/// what its entries `m` say.
proof fn lemma_dict_facts(d: Seq<(Vec<u8>, PdfValue)>, m: Map<Seq<u8>, PdfSlot>, key: Seq<u8>, name: Seq<u8>)
    requires
        values_match(d, m),
    ensures
        has_key(d, key) == m.dom().contains(key),
        has_name(d, key, name) == (m.dom().contains(key) && m[key] == PdfSlot::Name(name)),
        root_of(d) == referred(m, bytes_of("Root")),
{
    lemma_lookup_slot(d, m, key);
    lemma_lookup_slot(d, m, bytes_of("Root"));
}

/// Two dictionaries with the same entries agree on every key and name.
proof fn lemma_dicts_agree(d1: Seq<(Vec<u8>, PdfValue)>, d2: Seq<(Vec<u8>, PdfValue)>, m: Map<Seq<u8>, PdfSlot>)
    requires
        values_match(d1, m),
        values_match(d2, m),
    ensures
        forall|key: Seq<u8>| #[trigger] has_key(d1, key) == has_key(d2, key),
        forall|key: Seq<u8>, name: Seq<u8>| #[trigger] has_name(d1, key, name) == has_name(d2, key, name),
        root_of(d1) == root_of(d2),
        annotation_fields(d1) == annotation_fields(d2),
        is_active(d1) == is_active(d2),
{
    assert forall|key: Seq<u8>| #[trigger] has_key(d1, key) == has_key(d2, key) by {
        lemma_dict_facts(d1, m, key, key);
        lemma_dict_facts(d2, m, key, key);
    }
    assert forall|key: Seq<u8>, name: Seq<u8>| #[trigger] has_name(d1, key, name) == has_name(d2, key, name) by {
        lemma_dict_facts(d1, m, key, name);
        lemma_dict_facts(d2, m, key, name);
    }
    lemma_dict_facts(d1, m, bytes_of("Root"), bytes_of("Root"));
    lemma_dict_facts(d2, m, bytes_of("Root"), bytes_of("Root"));
    assert(has_type(d1, bytes_of("Annot")) == has_type(d2, bytes_of("Annot")));
    assert(has_name(d1, bytes_of("S"), bytes_of("JavaScript")) == has_name(d2, bytes_of("S"), bytes_of("JavaScript")));
    assert(has_name(d1, bytes_of("S"), bytes_of("Launch")) == has_name(d2, bytes_of("S"), bytes_of("Launch")));
    assert(has_key(d1, bytes_of("T")) == has_key(d2, bytes_of("T")));
    assert(has_key(d1, bytes_of("M")) == has_key(d2, bytes_of("M")));
    assert(has_key(d1, bytes_of("CreationDate")) == has_key(d2, bytes_of("CreationDate")));
    assert(has_key(d1, bytes_of("NM")) == has_key(d2, bytes_of("NM")));
}

/// Two objects that model the same object count the same and are the same
/// kind; references and stream lengths are equal.
proof fn lemma_objects_agree(o1: PdfObject, o2: PdfObject, slot: PdfSlot)
    requires
        object_matches(o1, slot),
        object_matches(o2, slot),
    ensures
        object_counts(o1) == object_counts(o2),
        o1 is Reference ==> o1 == o2,
        o1 is Dictionary <==> o2 is Dictionary,
        o1 is Stream <==> o2 is Stream,
        o1 matches PdfObject::Stream(_, l1) ==> o2 matches PdfObject::Stream(_, l2) && l1 == l2,
        o1 matches PdfObject::Dictionary(d1) ==> o2 matches PdfObject::Dictionary(d2) && has_type(
            d1@,
            bytes_of("Catalog"),
        ) == has_type(d2@, bytes_of("Catalog")),
{
    match slot {
        PdfSlot::Dictionary(m) => {
            let d1 = o1->Dictionary_0;
            let d2 = o2->Dictionary_0;
            lemma_dicts_agree(d1@, d2@, m);
            assert(has_key(d1@, bytes_of("JS")) == has_key(d2@, bytes_of("JS")));
            assert(has_key(d1@, bytes_of("OpenAction")) == has_key(d2@, bytes_of("OpenAction")));
            assert(has_key(d1@, bytes_of("AA")) == has_key(d2@, bytes_of("AA")));
            assert(has_name(d1@, bytes_of("AFRelationship"), bytes_of("C2PA_Manifest")) == has_name(
                d2@,
                bytes_of("AFRelationship"),
                bytes_of("C2PA_Manifest"),
            ));
            assert(has_type(d1@, bytes_of("Catalog")) == has_type(d2@, bytes_of("Catalog")));
        },
        PdfSlot::Stream(m, _) => {
            let d1 = o1->Stream_0;
            let d2 = o2->Stream_0;
            lemma_dicts_agree(d1@, d2@, m);
            assert(has_key(d1@, bytes_of("JS")) == has_key(d2@, bytes_of("JS")));
            assert(has_key(d1@, bytes_of("OpenAction")) == has_key(d2@, bytes_of("OpenAction")));
            assert(has_key(d1@, bytes_of("AA")) == has_key(d2@, bytes_of("AA")));
            assert(has_type(d1@, bytes_of("Metadata")) == has_type(d2@, bytes_of("Metadata")));
        },
        _ => {},
    }
}

/// The objects of a model, by the map `objects` they match.
pub open spec fn objects_cover(s: Seq<((u32, u16), PdfObject)>, objects: Map<(u32, u16), PdfSlot>) -> bool {
    &&& forall|i: int|
        0 <= i < s.len() ==> objects.dom().contains((#[trigger] s[i]).0) && object_matches(
            s[i].1,
            objects[s[i].0],
        )
    &&& forall|id: (u32, u16)|
        #[trigger] objects.dom().contains(id) ==> exists|i: int| 0 <= i < s.len() && s[i].0 == id
}

proof fn lemma_find_from(s: Seq<((u32, u16), PdfObject)>, id: (u32, u16), i: int)
    requires
        0 <= i,
    ensures
        find_from(s, id, i) matches Some(o) ==> exists|j: int|
            i <= j < s.len() && (#[trigger] s[j]).0 == id && s[j].1 == o,
        find_from(s, id, i) is None ==> forall|j: int| i <= j < s.len() ==> (#[trigger] s[j]).0 != id,
    decreases s.len() - i,
{
    if i < s.len() && s[i].0 != id {
        lemma_find_from(s, id, i + 1);
    }
}

/// `find` gives the object of id `id`, which matches the map's.
proof fn lemma_find(s: Seq<((u32, u16), PdfObject)>, objects: Map<(u32, u16), PdfSlot>, id: (u32, u16))
    requires
        objects_cover(s, objects),
    ensures
        find(s, id) is Some <==> objects.dom().contains(id),
        find(s, id) matches Some(o) ==> object_matches(o, objects[id]),
{
    lemma_find_from(s, id, 0);
    if objects.dom().contains(id) {
        let j = choose|j: int| 0 <= j < s.len() && s[j].0 == id;
        assert(s[j].0 == id);
    }
    if let Some(o) = find(s, id) {
        let j = choose|j: int| 0 <= j < s.len() && (#[trigger] s[j]).0 == id && s[j].1 == o;
        assert(objects.dom().contains(s[j].0));
    }
}

/// Following references in two models of the same objects ends at the same
/// kind of object, and at dictionaries that agree on being a catalog.
proof fn lemma_deref_agree(
    s1: Seq<((u32, u16), PdfObject)>,
    s2: Seq<((u32, u16), PdfObject)>,
    objects: Map<(u32, u16), PdfSlot>,
    o1: PdfObject,
    o2: PdfObject,
    slot: PdfSlot,
    fuel: nat,
)
    requires
        objects_cover(s1, objects),
        objects_cover(s2, objects),
        object_matches(o1, slot),
        object_matches(o2, slot),
    ensures
        (deref(s1, o1, fuel) matches Some(PdfObject::Dictionary(_))) == (deref(s2, o2, fuel) matches Some(
            PdfObject::Dictionary(_),
        )),
        deref(s1, o1, fuel) matches Some(PdfObject::Dictionary(d1)) ==> deref(s2, o2, fuel) matches Some(
            PdfObject::Dictionary(d2),
        ) && has_type(d1@, bytes_of("Catalog")) == has_type(d2@, bytes_of("Catalog")),
    decreases fuel,
{
    lemma_objects_agree(o1, o2, slot);
    if let PdfObject::Reference(number, generation) = o1 {
        let id = (number, generation);
        lemma_find(s1, objects, id);
        lemma_find(s2, objects, id);
        if objects.dom().contains(id) && fuel > 0 {
            lemma_deref_agree(
                s1,
                s2,
                objects,
                find(s1, id)->Some_0,
                find(s2, id)->Some_0,
                objects[id],
                (fuel - 1) as nat,
            );
        }
    }
}

/// Ids in ascending order, each once, are determined by their set.
proof fn lemma_same_ids(s1: Seq<((u32, u16), PdfObject)>, s2: Seq<((u32, u16), PdfObject)>, ids: Set<(u32, u16)>)
    requires
        forall|i: int, j: int| 0 <= i < j < s1.len() ==> id_before((#[trigger] s1[i]).0, (#[trigger] s1[j]).0),
        forall|i: int, j: int| 0 <= i < j < s2.len() ==> id_before((#[trigger] s2[i]).0, (#[trigger] s2[j]).0),
        forall|i: int| 0 <= i < s1.len() ==> ids.contains((#[trigger] s1[i]).0),
        forall|i: int| 0 <= i < s2.len() ==> ids.contains((#[trigger] s2[i]).0),
        forall|id: (u32, u16)| #[trigger] ids.contains(id) ==> exists|i: int| 0 <= i < s1.len() && s1[i].0 == id,
        forall|id: (u32, u16)| #[trigger] ids.contains(id) ==> exists|i: int| 0 <= i < s2.len() && s2[i].0 == id,
    ensures
        s1.len() == s2.len(),
        forall|i: int| 0 <= i < s1.len() ==> (#[trigger] s1[i]).0 == s2[i].0,
    decreases s1.len() + s2.len(),
{
    if s1.len() == 0 || s2.len() == 0 {
        if s1.len() > 0 {
            assert(ids.contains(s1[0].0));
            let i = choose|i: int| 0 <= i < s2.len() && s2[i].0 == s1[0].0;
        }
        if s2.len() > 0 {
            assert(ids.contains(s2[0].0));
            let i = choose|i: int| 0 <= i < s1.len() && s1[i].0 == s2[0].0;
        }
    } else {
        let n1 = s1.len() - 1;
        let n2 = s2.len() - 1;
        let top1 = s1[n1].0;
        let top2 = s2[n2].0;
        assert(ids.contains(top1));
        assert(ids.contains(top2));
        let i2 = choose|i: int| 0 <= i < s2.len() && s2[i].0 == top1;
        let i1 = choose|i: int| 0 <= i < s1.len() && s1[i].0 == top2;
        if top1 != top2 {
            assert(i2 < n2);
            assert(i1 < n1);
            assert(id_before(s2[i2].0, s2[n2].0));
            assert(id_before(s1[i1].0, s1[n1].0));
            assert(false);
        }
        let r1 = s1.drop_last();
        let r2 = s2.drop_last();
        let rest = ids.remove(top1);
        assert forall|i: int| 0 <= i < r1.len() implies rest.contains((#[trigger] r1[i]).0) by {
            assert(id_before(s1[i].0, s1[n1].0));
        }
        assert forall|i: int| 0 <= i < r2.len() implies rest.contains((#[trigger] r2[i]).0) by {
            assert(id_before(s2[i].0, s2[n2].0));
        }
        assert forall|id: (u32, u16)| #[trigger] rest.contains(id) implies exists|i: int|
            0 <= i < r1.len() && r1[i].0 == id by {
            let i = choose|i: int| 0 <= i < s1.len() && s1[i].0 == id;
            assert(r1[i].0 == id);
        }
        assert forall|id: (u32, u16)| #[trigger] rest.contains(id) implies exists|i: int|
            0 <= i < r2.len() && r2[i].0 == id by {
            let i = choose|i: int| 0 <= i < s2.len() && s2[i].0 == id;
            assert(r2[i].0 == id);
        }
        lemma_same_ids(r1, r2, rest);
        assert forall|i: int| 0 <= i < s1.len() implies (#[trigger] s1[i]).0 == s2[i].0 by {
            if i < n1 {
                assert(r1[i].0 == r2[i].0);
            }
        }
    }
}

/// Two object lists with the same ids, position by position, whose objects
/// match the same map, give the same counts and stream total.
proof fn lemma_counts_agree(s1: Seq<((u32, u16), PdfObject)>, s2: Seq<((u32, u16), PdfObject)>, objects: Map<(u32, u16), PdfSlot>)
    requires
        s1.len() == s2.len(),
        forall|i: int| 0 <= i < s1.len() ==> (#[trigger] s1[i]).0 == s2[i].0,
        forall|i: int|
            0 <= i < s1.len() ==> objects.dom().contains((#[trigger] s1[i]).0) && object_matches(
                s1[i].1,
                objects[s1[i].0],
            ),
        forall|i: int|
            0 <= i < s2.len() ==> objects.dom().contains((#[trigger] s2[i]).0) && object_matches(
                s2[i].1,
                objects[s2[i].0],
            ),
    ensures
        counts(s1) == counts(s2),
        stream_total(s1) == stream_total(s2),
    decreases s1.len(),
{
    if s1.len() > 0 {
        let n = s1.len() - 1;
        assert(s1[n].0 == s2[n].0);
        lemma_objects_agree(s1[n].1, s2[n].1, objects[s1[n].0]);
        let r1 = s1.drop_last();
        let r2 = s2.drop_last();
        assert forall|i: int| 0 <= i < r1.len() implies (#[trigger] r1[i]).0 == r2[i].0 by {
            assert(s1[i].0 == s2[i].0);
        }
        assert forall|i: int| 0 <= i < r1.len() implies objects.dom().contains((#[trigger] r1[i]).0)
            && object_matches(r1[i].1, objects[r1[i].0]) by {
            assert(r1[i] == s1[i]);
        }
        assert forall|i: int| 0 <= i < r2.len() implies objects.dom().contains((#[trigger] r2[i]).0)
            && object_matches(r2[i].1, objects[r2[i].0]) by {
            assert(r2[i] == s2[i]);
        }
        lemma_counts_agree(r1, r2, objects);
    }
}

/// Two models of one document are checked alike and report the same
/// findings.
pub proof fn lemma_models_agree(
    m1: PdfModel,
    m2: PdfModel,
    objects: Map<(u32, u16), PdfSlot>,
    trailer: Map<Seq<u8>, PdfSlot>,
    encrypted: bool,
)
    requires
        model_matches(m1, objects, trailer, encrypted),
        model_matches(m2, objects, trailer, encrypted),
    ensures
        model_check(m1) == model_check(m2),
        counts(m1.objects@) == counts(m2.objects@),
        has_key(m1.trailer@, bytes_of("Info")) == has_key(m2.trailer@, bytes_of("Info")),
{
    let s1 = m1.objects@;
    let s2 = m2.objects@;
    assert(objects_cover(s1, objects));
    assert(objects_cover(s2, objects));
    lemma_same_ids(s1, s2, objects.dom());
    lemma_counts_agree(s1, s2, objects);
    lemma_dicts_agree(m1.trailer@, m2.trailer@, trailer);
    assert(has_key(m1.trailer@, bytes_of("Encrypt")) == has_key(m2.trailer@, bytes_of("Encrypt")));
    assert(has_key(m1.trailer@, bytes_of("Info")) == has_key(m2.trailer@, bytes_of("Info")));
    if let Some(root) = root_of(m1.trailer@) {
        lemma_find(s1, objects, root);
        lemma_find(s2, objects, root);
        if objects.dom().contains(root) {
            lemma_deref_agree(
                s1,
                s2,
                objects,
                find(s1, root)->Some_0,
                find(s2, root)->Some_0,
                objects[root],
                DEREF_LIMIT as nat,
            );
        }
    }
}

/// What analysis reports for a PDF file is determined by the file: any two
/// reports for the same bytes agree, the error or the format, the findings
/// and the C2PA flag.
pub proof fn law_pdf_report_unique(
    b: Seq<u8>,
    m1: PdfModel,
    r1: BinaryResult<ParsedBinary>,
    m2: PdfModel,
    r2: BinaryResult<ParsedBinary>,
)
    requires
        pdf_report(b, m1, r1),
        pdf_report(b, m2, r2),
    ensures
        r1 is Err ==> r1 == r2,
        r1 is Ok ==> r2 is Ok && r2->Ok_0.format == r1->Ok_0.format && r2->Ok_0.findings@
            == r1->Ok_0.findings@ && r2->Ok_0.c2pa_detected == r1->Ok_0.c2pa_detected,
{
    if load_result(b, m1) != load_result(b, m2) {
        let loaded = pdf_loaded(b);
        lemma_models_agree(m1, m2, loaded.0, loaded.1, loaded.2);
    }
    if load_result(b, m1) is Ok {
        let loaded = pdf_loaded(b);
        lemma_models_agree(m1, m2, loaded.0, loaded.1, loaded.2);
    }
}

/// A PDF file that sanitizing accepts is rewritten into one that analysis
/// accepts as PDF and in which it finds no metadata item and no C2PA
/// manifest: whatever report analysis gives for the rewritten file.
pub proof fn law_sanitized_pdf_analyses_clean(
    b: Seq<u8>,
    cleaned: CleanedBinary,
    m: PdfModel,
    r: BinaryResult<ParsedBinary>,
)
    requires
        sanitization(b, Ok(cleaned)),
        pdf_report(cleaned.bytes@, m, r),
    ensures
        r is Ok,
        r->Ok_0.format == BinaryFormat::Pdf,
        capped_total(r->Ok_0.findings@) == 0,
        !r->Ok_0.c2pa_detected,
{
    let out = cleaned.bytes@;
    assert(reports_nothing(out));
    let (m2, after) = choose|m2: PdfModel, after: ParsedBinary|
        #[trigger] pdf_report(out, m2, Ok(after)) && capped_total(after.findings@) == 0
            && !after.c2pa_detected;
    law_pdf_report_unique(out, m2, Ok(after), m, r);
}

} // verus!
