//! PDF: the document information dictionary, XMP metadata streams, C2PA
//! associated-file manifests, annotation authorship and active content
//! (JavaScript, launch and automatic actions). `lopdf` parses and writes the
//! file; the library reads its object graph through `PdfModel`, which holds
//! as plain values what the analysis looks at.
use lopdf::Dictionary;
use vstd::prelude::*;
use vstd::utf8::encode_utf8;

use super::bytes::{has_prefix, same_bytes, starts_with};
use super::model::{
    capped_total, finding_if, push_finding, BinaryFinding, BinaryFormat, BinaryResult, CleanedBinary,
    ParsedBinary,
};
use crate::pdf_file::{
    dictionary_contents, entries_of, encryption_state_set, id_before, load_document, nulled,
    followed, null_object, objects_of, pdf_loaded, pdf_loads, pdf_saved, referred, PdfDocument, PdfEdit,
    remove_dictionary_entry, remove_object_entry, remove_trailer_entry, save_document, trailer_of,
    view_matches, without_entry, ObjectView, PdfSlot,
};

verus! {

/// The most objects a document may hold.
pub const MAX_OBJECTS: usize = 100000;

/// The most stream content a document may hold, in bytes.
pub const MAX_STREAM_BYTES: usize = 134217728;

pub const STRUCTURE_ERROR: &'static str = "PDF structural validation failed.";

/// The UTF-8 bytes of a text.
pub open spec fn bytes_of(s: &str) -> Seq<u8> {
    encode_utf8(s@)
}

/// A value inside a nested dictionary.
#[derive(Debug, Clone, PartialEq, Eq)]
pub enum PdfLeaf {
    Name(Vec<u8>),
    Reference(u32, u16),
    Other,
}

/// A value of a dictionary entry.
#[derive(Debug, Clone, PartialEq, Eq)]
pub enum PdfValue {
    Name(Vec<u8>),
    Reference(u32, u16),
    Dictionary(Vec<(Vec<u8>, PdfLeaf)>),
    Other,
}

/// A top-level object: its dictionary, if it has one, or what it refers to.
#[derive(Debug, Clone, PartialEq, Eq)]
pub enum PdfObject {
    Dictionary(Vec<(Vec<u8>, PdfValue)>),
    /// A stream's dictionary and the length of its content.
    Stream(Vec<(Vec<u8>, PdfValue)>, usize),
    Reference(u32, u16),
    Other,
}

/// What the analysis reads of a document: its objects in the order of their
/// ids, its trailer, and whether it was decrypted on loading.
#[derive(Debug, Clone, PartialEq, Eq)]
pub struct PdfModel {
    pub objects: Vec<((u32, u16), PdfObject)>,
    pub trailer: Vec<(Vec<u8>, PdfValue)>,
    pub encrypted: bool,
}

/// Whether `leaf` models a nested entry whose value is `slot`: names and
/// references are kept, everything else is `Other`.
pub open spec fn leaf_matches(leaf: PdfLeaf, slot: PdfSlot) -> bool {
    match slot {
        PdfSlot::Name(n) => leaf matches PdfLeaf::Name(v) && v@ == n,
        PdfSlot::Reference(number, generation) => leaf == PdfLeaf::Reference(number, generation),
        _ => leaf is Other,
    }
}

/// Whether `leaves` model the entries `m` of a nested dictionary: each key
/// once, in some order.
pub open spec fn leaves_match(leaves: Seq<(Vec<u8>, PdfLeaf)>, m: Map<Seq<u8>, PdfSlot>) -> bool {
    &&& forall|i: int, j: int|
        0 <= i < j < leaves.len() ==> (#[trigger] leaves[i]).0@ != (#[trigger] leaves[j]).0@
    &&& forall|i: int|
        0 <= i < leaves.len() ==> m.dom().contains((#[trigger] leaves[i]).0@) && leaf_matches(
            leaves[i].1,
            m[leaves[i].0@],
        )
    &&& forall|key: Seq<u8>|
        #[trigger] m.dom().contains(key) ==> exists|i: int| 0 <= i < leaves.len() && leaves[i].0@ == key
}

/// Whether `value` models an entry whose value is `slot`: names, references
/// and dictionaries (one level down) are kept, everything else is `Other`.
pub open spec fn value_matches(value: PdfValue, slot: PdfSlot) -> bool {
    match slot {
        PdfSlot::Name(n) => value matches PdfValue::Name(v) && v@ == n,
        PdfSlot::Reference(number, generation) => value == PdfValue::Reference(number, generation),
        PdfSlot::Dictionary(m) => value matches PdfValue::Dictionary(leaves) && leaves_match(leaves@, m),
        _ => value is Other,
    }
}

/// Whether `values` model the entries `m` of a dictionary: each key once, in
/// some order.
pub open spec fn values_match(values: Seq<(Vec<u8>, PdfValue)>, m: Map<Seq<u8>, PdfSlot>) -> bool {
    &&& forall|i: int, j: int|
        0 <= i < j < values.len() ==> (#[trigger] values[i]).0@ != (#[trigger] values[j]).0@
    &&& forall|i: int|
        0 <= i < values.len() ==> m.dom().contains((#[trigger] values[i]).0@) && value_matches(
            values[i].1,
            m[values[i].0@],
        )
    &&& forall|key: Seq<u8>|
        #[trigger] m.dom().contains(key) ==> exists|i: int| 0 <= i < values.len() && values[i].0@ == key
}

/// Whether `object` models a top-level object whose value is `slot`.
pub open spec fn object_matches(object: PdfObject, slot: PdfSlot) -> bool {
    match slot {
        PdfSlot::Dictionary(m) => object matches PdfObject::Dictionary(d) && values_match(d@, m),
        PdfSlot::Stream(m, length) => object matches PdfObject::Stream(d, n) && n == length
            && values_match(d@, m),
        PdfSlot::Reference(number, generation) => object == PdfObject::Reference(number, generation),
        _ => object is Other,
    }
}

/// Whether `model` is the model of a document with these objects, trailer
/// and encryption state: its objects in ascending order of id, each id once.
pub open spec fn model_matches(
    model: PdfModel,
    objects: Map<(u32, u16), PdfSlot>,
    trailer: Map<Seq<u8>, PdfSlot>,
    encrypted: bool,
) -> bool {
    &&& forall|i: int, j: int|
        0 <= i < j < model.objects@.len() ==> id_before(
            (#[trigger] model.objects@[i]).0,
            (#[trigger] model.objects@[j]).0,
        )
    &&& forall|i: int|
        0 <= i < model.objects@.len() ==> objects.dom().contains((#[trigger] model.objects@[i]).0)
            && object_matches(model.objects@[i].1, objects[model.objects@[i].0])
    &&& forall|id: (u32, u16)|
        #[trigger] objects.dom().contains(id) ==> exists|i: int|
            0 <= i < model.objects@.len() && model.objects@[i].0 == id
    &&& values_match(model.trailer@, trailer)
    &&& model.encrypted == encrypted
}

/// The model of a nested entry's value.
fn leaf_of(view: ObjectView) -> (r: PdfLeaf)
    ensures
        forall|slot: PdfSlot| #[trigger] view_matches(view, slot) ==> leaf_matches(r, slot),
{
    match view {
        ObjectView::Name(name) => PdfLeaf::Name(vstd::slice::slice_to_vec(name)),
        ObjectView::Reference(number, generation) => PdfLeaf::Reference(number, generation),
        _ => PdfLeaf::Other,
    }
}

/// The model of an entry's value.
fn value_of(view: ObjectView) -> (r: PdfValue)
    ensures
        forall|slot: PdfSlot| #[trigger] view_matches(view, slot) ==> value_matches(r, slot),
{
    match view {
        ObjectView::Name(name) => PdfValue::Name(vstd::slice::slice_to_vec(name)),
        ObjectView::Reference(number, generation) => PdfValue::Reference(number, generation),
        ObjectView::Dictionary(dictionary) => {
            let entries = entries_of(dictionary);
            let ghost m = dictionary_contents(*dictionary);
            let mut leaves: Vec<(Vec<u8>, PdfLeaf)> = Vec::new();
            let mut i: usize = 0;
            while i < entries.len()
                invariant
                    i <= entries@.len(),
                    leaves@.len() == i,
                    m == dictionary_contents(*dictionary),
                    forall|j: int| 0 <= j < i ==> (#[trigger] leaves@[j]).0@ == entries@[j].0@,
                    forall|j: int|
                        0 <= j < i ==> leaf_matches((#[trigger] leaves@[j]).1, m[entries@[j].0@]),
                    forall|a: int, b: int|
                        0 <= a < b < entries@.len() ==> (#[trigger] entries@[a].0)@ != (
                        #[trigger] entries@[b].0)@,
                    forall|j: int|
                        0 <= j < entries@.len() ==> m.dom().contains((#[trigger] entries@[j].0)@)
                            && view_matches(entries@[j].1, m[entries@[j].0@]),
                    forall|key: Seq<u8>|
                        #[trigger] m.dom().contains(key) ==> exists|j: int|
                            0 <= j < entries@.len() && entries@[j].0@ == key,
                decreases entries.len() - i,
            {
                let (key, value) = entries[i];
                let leaf = leaf_of(value);
                assert(view_matches(value, m[key@]));
                leaves.push((vstd::slice::slice_to_vec(key), leaf));
                i = i + 1;
            }
            proof {
                assert forall|key: Seq<u8>| #[trigger] m.dom().contains(key) implies exists|j: int|
                    0 <= j < leaves@.len() && leaves@[j].0@ == key by {
                    let j = choose|j: int| 0 <= j < entries@.len() && entries@[j].0@ == key;
                    assert(leaves@[j].0@ == key);
                }
                assert forall|a: int, b: int| 0 <= a < b < leaves@.len() implies (
                #[trigger] leaves@[a]).0@ != (#[trigger] leaves@[b]).0@ by {
                    assert(entries@[a].0@ != entries@[b].0@);
                }
                assert(leaves_match(leaves@, m));
            }
            PdfValue::Dictionary(leaves)
        },
        _ => PdfValue::Other,
    }
}

/// The model of a dictionary's entries.
fn dictionary_of(dictionary: &Dictionary) -> (r: Vec<(Vec<u8>, PdfValue)>)
    ensures
        values_match(r@, dictionary_contents(*dictionary)),
{
    let entries = entries_of(dictionary);
    let ghost m = dictionary_contents(*dictionary);
    let mut values: Vec<(Vec<u8>, PdfValue)> = Vec::new();
    let mut i: usize = 0;
    while i < entries.len()
        invariant
            i <= entries@.len(),
            values@.len() == i,
            m == dictionary_contents(*dictionary),
            forall|j: int| 0 <= j < i ==> (#[trigger] values@[j]).0@ == entries@[j].0@,
            forall|j: int| 0 <= j < i ==> value_matches((#[trigger] values@[j]).1, m[entries@[j].0@]),
            forall|a: int, b: int|
                0 <= a < b < entries@.len() ==> (#[trigger] entries@[a].0)@ != (
                #[trigger] entries@[b].0)@,
            forall|j: int|
                0 <= j < entries@.len() ==> m.dom().contains((#[trigger] entries@[j].0)@)
                    && view_matches(entries@[j].1, m[entries@[j].0@]),
            forall|key: Seq<u8>|
                #[trigger] m.dom().contains(key) ==> exists|j: int|
                    0 <= j < entries@.len() && entries@[j].0@ == key,
        decreases entries.len() - i,
    {
        let (key, value) = entries[i];
        let modelled = value_of(value);
        assert(view_matches(value, m[key@]));
        values.push((vstd::slice::slice_to_vec(key), modelled));
        i = i + 1;
    }
    proof {
        assert forall|key: Seq<u8>| #[trigger] m.dom().contains(key) implies exists|j: int|
            0 <= j < values@.len() && values@[j].0@ == key by {
            let j = choose|j: int| 0 <= j < entries@.len() && entries@[j].0@ == key;
            assert(values@[j].0@ == key);
        }
        assert forall|a: int, b: int| 0 <= a < b < values@.len() implies (
        #[trigger] values@[a]).0@ != (#[trigger] values@[b]).0@ by {
            assert(entries@[a].0@ != entries@[b].0@);
        }
    }
    values
}

/// The model of a loaded document: its objects, in ascending order of id,
/// its trailer and its encryption state.
fn model_of(document: &PdfDocument) -> (r: PdfModel)
    ensures
        model_matches(r, document.objects(), document.trailer(), document.encrypted()),
{
    let objects = objects_of(document);
    let ghost slots = document.objects();
    let mut model_objects: Vec<((u32, u16), PdfObject)> = Vec::new();
    let mut i: usize = 0;
    while i < objects.len()
        invariant
            i <= objects@.len(),
            model_objects@.len() == i,
            slots == document.objects(),
            forall|j: int| 0 <= j < i ==> (#[trigger] model_objects@[j]).0 == objects@[j].0,
            forall|j: int|
                0 <= j < i ==> object_matches((#[trigger] model_objects@[j]).1, slots[objects@[j].0]),
            forall|a: int, b: int|
                0 <= a < b < objects@.len() ==> id_before(
                    (#[trigger] objects@[a]).0,
                    (#[trigger] objects@[b]).0,
                ),
            forall|j: int|
                0 <= j < objects@.len() ==> slots.dom().contains((#[trigger] objects@[j]).0)
                    && view_matches(objects@[j].1, slots[objects@[j].0]),
            forall|id: (u32, u16)|
                #[trigger] slots.dom().contains(id) ==> exists|j: int|
                    0 <= j < objects@.len() && objects@[j].0 == id,
        decreases objects.len() - i,
    {
        let (id, view) = objects[i];
        assert(view_matches(view, slots[id]));
        let modelled = match view {
            ObjectView::Dictionary(dictionary) => PdfObject::Dictionary(dictionary_of(dictionary)),
            ObjectView::Stream(dictionary, length) => PdfObject::Stream(
                dictionary_of(dictionary),
                length,
            ),
            ObjectView::Reference(number, generation) => PdfObject::Reference(number, generation),
            _ => PdfObject::Other,
        };
        model_objects.push((id, modelled));
        i = i + 1;
    }
    let trailer = dictionary_of(trailer_of(document));
    let encrypted = encryption_state_set(document);
    let r = PdfModel { objects: model_objects, trailer, encrypted };
    proof {
        assert forall|id: (u32, u16)| #[trigger] slots.dom().contains(id) implies exists|j: int|
            0 <= j < r.objects@.len() && r.objects@[j].0 == id by {
            let j = choose|j: int| 0 <= j < objects@.len() && objects@[j].0 == id;
            assert(r.objects@[j].0 == id);
        }
        assert forall|a: int, b: int| 0 <= a < b < r.objects@.len() implies id_before(
            (#[trigger] r.objects@[a]).0,
            (#[trigger] r.objects@[b]).0,
        ) by {
            assert(id_before(objects@[a].0, objects@[b].0));
        }
    }
    r
}

/// The value of the first entry of `d` from `i` on whose key is `key`.
pub open spec fn lookup_from(d: Seq<(Vec<u8>, PdfValue)>, key: Seq<u8>, i: int) -> Option<PdfValue>
    decreases d.len() - i,
{
    if i < 0 || i >= d.len() {
        None
    } else if d[i].0@ == key {
        Some(d[i].1)
    } else {
        lookup_from(d, key, i + 1)
    }
}

/// The value of entry `key` of a dictionary.
pub open spec fn lookup(d: Seq<(Vec<u8>, PdfValue)>, key: Seq<u8>) -> Option<PdfValue> {
    lookup_from(d, key, 0)
}

/// Whether a dictionary has entry `key`.
pub open spec fn has_key(d: Seq<(Vec<u8>, PdfValue)>, key: Seq<u8>) -> bool {
    lookup(d, key) is Some
}

/// Whether entry `key` of a dictionary is the name `name`.
pub open spec fn has_name(d: Seq<(Vec<u8>, PdfValue)>, key: Seq<u8>, name: Seq<u8>) -> bool {
    lookup(d, key) matches Some(PdfValue::Name(n)) && n@ == name
}

/// Whether a dictionary's `Type` is `name`.
pub open spec fn has_type(d: Seq<(Vec<u8>, PdfValue)>, name: Seq<u8>) -> bool {
    has_name(d, bytes_of("Type"), name)
}

/// The value of entry `key` of a dictionary.
pub fn get<'a>(d: &'a Vec<(Vec<u8>, PdfValue)>, key: &[u8]) -> (r: Option<&'a PdfValue>)
    ensures
        r matches Some(v) ==> lookup(d@, key@) == Some(*v),
        r is None ==> lookup(d@, key@) is None,
{
    let mut i: usize = 0;
    while i < d.len()
        invariant
            i <= d.len(),
            lookup(d@, key@) == lookup_from(d@, key@, i as int),
        decreases d.len() - i,
    {
        if same_bytes(d[i].0.as_slice(), key) {
            return Some(&d[i].1);
        }
        i = i + 1;
    }
    None
}

/// Whether a dictionary has entry `key`.
pub fn has(d: &Vec<(Vec<u8>, PdfValue)>, key: &[u8]) -> (r: bool)
    ensures
        r == has_key(d@, key@),
{
    get(d, key).is_some()
}

/// Whether entry `key` of a dictionary is the name `name`.
pub fn is_name(d: &Vec<(Vec<u8>, PdfValue)>, key: &[u8], name: &[u8]) -> (r: bool)
    ensures
        r == has_name(d@, key@, name@),
{
    match get(d, key) {
        Some(PdfValue::Name(n)) => same_bytes(n.as_slice(), name),
        _ => false,
    }
}

/// Whether a dictionary's `Type` is `name`.
pub fn is_type(d: &Vec<(Vec<u8>, PdfValue)>, name: &[u8]) -> (r: bool)
    ensures
        r == has_type(d@, name@),
{
    is_name(d, "Type".as_bytes(), name)
}

/// The first object from index `i` on whose id is `id`.
pub open spec fn find_from(objects: Seq<((u32, u16), PdfObject)>, id: (u32, u16), i: int) -> Option<
    PdfObject,
>
    decreases objects.len() - i,
{
    if i < 0 || i >= objects.len() {
        None
    } else if objects[i].0 == id {
        Some(objects[i].1)
    } else {
        find_from(objects, id, i + 1)
    }
}

/// Object `id` of a document.
pub open spec fn find(objects: Seq<((u32, u16), PdfObject)>, id: (u32, u16)) -> Option<PdfObject> {
    find_from(objects, id, 0)
}

/// The object that `object` ends at when references are followed, at most
/// `fuel` times; `None` where a reference leads nowhere or the chain is
/// longer.
pub open spec fn deref(objects: Seq<((u32, u16), PdfObject)>, object: PdfObject, fuel: nat) -> Option<
    PdfObject,
>
    decreases fuel,
{
    match object {
        PdfObject::Reference(number, generation) => match find(objects, (number, generation)) {
            None => None,
            Some(target) => if fuel == 0 {
                None
            } else {
                deref(objects, target, (fuel - 1) as nat)
            },
        },
        _ => Some(object),
    }
}

/// How many references `Document::get_object` follows.
pub const DEREF_LIMIT: usize = 128;

/// The dictionary object `id` ends at, as `Document::get_dictionary` finds
/// it.
pub open spec fn dictionary_at(objects: Seq<((u32, u16), PdfObject)>, id: (u32, u16)) -> Option<
    Seq<(Vec<u8>, PdfValue)>,
> {
    match find(objects, id) {
        None => None,
        Some(object) => match deref(objects, object, DEREF_LIMIT as nat) {
            Some(PdfObject::Dictionary(d)) => Some(d@),
            _ => None,
        },
    }
}

/// Object `id` of a document.
pub fn find_object(objects: &Vec<((u32, u16), PdfObject)>, id: (u32, u16)) -> (r: Option<&PdfObject>)
    ensures
        r matches Some(o) ==> find(objects@, id) == Some(*o),
        r is None ==> find(objects@, id) is None,
{
    let mut i: usize = 0;
    while i < objects.len()
        invariant
            i <= objects.len(),
            find(objects@, id) == find_from(objects@, id, i as int),
        decreases objects.len() - i,
    {
        if objects[i].0.0 == id.0 && objects[i].0.1 == id.1 {
            return Some(&objects[i].1);
        }
        i = i + 1;
    }
    None
}

/// The dictionary object `id` ends at when references are followed.
pub fn get_dictionary(objects: &Vec<((u32, u16), PdfObject)>, id: (u32, u16)) -> (r: Option<
    &Vec<(Vec<u8>, PdfValue)>,
>)
    ensures
        r matches Some(d) ==> dictionary_at(objects@, id) == Some(d@),
        r is None ==> dictionary_at(objects@, id) is None,
{
    let mut object = match find_object(objects, id) {
        Some(object) => object,
        None => return None,
    };
    let ghost start = *object;
    let mut fuel: usize = DEREF_LIMIT;
    loop
        invariant
            fuel <= DEREF_LIMIT,
            find(objects@, id) == Some(start),
            deref(objects@, start, DEREF_LIMIT as nat) == deref(objects@, *object, fuel as nat),
        decreases fuel,
    {
        match object {
            PdfObject::Reference(number, generation) => {
                let target = match find_object(objects, (*number, *generation)) {
                    Some(target) => target,
                    None => return None,
                };
                if fuel == 0 {
                    return None;
                }
                fuel = fuel - 1;
                object = target;
            },
            PdfObject::Dictionary(d) => return Some(d),
            _ => return None,
        }
    }
}

/// The total content length of the streams among `objects`.
pub open spec fn stream_total(objects: Seq<((u32, u16), PdfObject)>) -> nat
    decreases objects.len(),
{
    if objects.len() == 0 {
        0
    } else {
        stream_total(objects.drop_last()) + match objects.last().1 {
            PdfObject::Stream(_, length) => length as nat,
            _ => 0nat,
        }
    }
}

proof fn lemma_stream_total_prefix(objects: Seq<((u32, u16), PdfObject)>, n: int)
    requires
        0 <= n <= objects.len(),
    ensures
        stream_total(objects.take(n)) <= stream_total(objects),
    decreases objects.len(),
{
    if n < objects.len() {
        assert(objects.drop_last().take(n) == objects.take(n));
        lemma_stream_total_prefix(objects.drop_last(), n);
    } else {
        assert(objects.take(n) == objects);
    }
}

/// The catalog the trailer's `Root` refers to.
pub open spec fn root_of(trailer: Seq<(Vec<u8>, PdfValue)>) -> Option<(u32, u16)> {
    match lookup(trailer, bytes_of("Root")) {
        Some(PdfValue::Reference(number, generation)) => Some((number, generation)),
        _ => None,
    }
}

/// What loading checks of a parsed document: no encryption, a bounded
/// number of objects and of stream bytes, and a trailer whose `Root` is a
/// catalog dictionary.
pub open spec fn model_check(m: PdfModel) -> BinaryResult<()> {
    if has_key(m.trailer@, bytes_of("Encrypt")) || m.encrypted {
        Err("Encrypted PDF documents are not accepted.")
    } else if m.objects@.len() == 0 || m.objects@.len() > MAX_OBJECTS {
        Err("PDF object boundary rejected.")
    } else if stream_total(m.objects@) > usize::MAX {
        Err("PDF stream size overflow.")
    } else if stream_total(m.objects@) > MAX_STREAM_BYTES {
        Err("PDF stream boundary rejected.")
    } else {
        match root_of(m.trailer@) {
            None => Err(STRUCTURE_ERROR),
            Some(root) => match dictionary_at(m.objects@, root) {
                None => Err(STRUCTURE_ERROR),
                Some(catalog) => if !has_type(catalog, bytes_of("Catalog")) {
                    Err("PDF catalog validation failed.")
                } else {
                    Ok(())
                },
            },
        }
    }
}

/// The catalog the trailer's `Root` refers to.
pub fn root_id(trailer: &Vec<(Vec<u8>, PdfValue)>) -> (r: Option<(u32, u16)>)
    ensures
        r == root_of(trailer@),
{
    match get(trailer, "Root".as_bytes()) {
        Some(PdfValue::Reference(number, generation)) => Some((*number, *generation)),
        _ => None,
    }
}

/// Checks a parsed document as loading does.
pub fn check_model(m: &PdfModel) -> (r: BinaryResult<()>)
    ensures
        r == model_check(*m),
{
    if has(&m.trailer, "Encrypt".as_bytes()) || m.encrypted {
        return Err("Encrypted PDF documents are not accepted.");
    }
    if m.objects.len() == 0 || m.objects.len() > MAX_OBJECTS {
        return Err("PDF object boundary rejected.");
    }
    let mut total: usize = 0;
    let mut i: usize = 0;
    while i < m.objects.len()
        invariant
            i <= m.objects@.len(),
            !has_key(m.trailer@, bytes_of("Encrypt")) && !m.encrypted,
            0 < m.objects@.len() <= MAX_OBJECTS,
            total == stream_total(m.objects@.take(i as int)),
        decreases m.objects.len() - i,
    {
        assert(m.objects@.take(i + 1).drop_last() == m.objects@.take(i as int));
        let length: usize = match &m.objects[i].1 {
            PdfObject::Stream(_, length) => *length,
            _ => 0,
        };
        total = match total.checked_add(length) {
            Some(sum) => sum,
            None => {
                proof {
                    assert(m.objects@.take(i + 1).last() == m.objects@[i as int]);
                    assert(stream_total(m.objects@.take(i + 1)) == total + length);
                    lemma_stream_total_prefix(m.objects@, i + 1);
                }
                return Err("PDF stream size overflow.");
            },
        };
        i = i + 1;
    }
    assert(m.objects@.take(i as int) == m.objects@);
    if total > MAX_STREAM_BYTES {
        return Err("PDF stream boundary rejected.");
    }
    let root = match root_id(&m.trailer) {
        Some(root) => root,
        None => return Err(STRUCTURE_ERROR),
    };
    let catalog = match get_dictionary(&m.objects, root) {
        Some(catalog) => catalog,
        None => return Err(STRUCTURE_ERROR),
    };
    if !is_type(catalog, "Catalog".as_bytes()) {
        return Err("PDF catalog validation failed.");
    }
    Ok(())
}

/// The dictionary of an object that is a dictionary or a stream.
pub open spec fn dict_of(object: PdfObject) -> Option<Seq<(Vec<u8>, PdfValue)>> {
    match object {
        PdfObject::Dictionary(d) => Some(d@),
        PdfObject::Stream(d, _) => Some(d@),
        _ => None,
    }
}

pub open spec fn one_if(b: bool) -> nat {
    if b {
        1
    } else {
        0
    }
}

/// Whether an object is an XMP metadata stream.
pub open spec fn is_metadata_stream(object: PdfObject) -> bool {
    object matches PdfObject::Stream(d, _) && has_type(d@, bytes_of("Metadata"))
}

/// The author and timestamp fields of an annotation dictionary.
pub open spec fn annotation_fields(d: Seq<(Vec<u8>, PdfValue)>) -> nat {
    if has_type(d, bytes_of("Annot")) {
        one_if(has_key(d, bytes_of("T"))) + one_if(has_key(d, bytes_of("M"))) + one_if(
            has_key(d, bytes_of("CreationDate")),
        ) + one_if(has_key(d, bytes_of("NM")))
    } else {
        0
    }
}

/// Whether a dictionary is a JavaScript or launch action.
pub open spec fn is_active(d: Seq<(Vec<u8>, PdfValue)>) -> bool {
    has_name(d, bytes_of("S"), bytes_of("JavaScript")) || has_name(
        d,
        bytes_of("S"),
        bytes_of("Launch"),
    )
}

/// The active-content items of a dictionary: being an active action, and
/// each of its `JS`, `OpenAction` and `AA` entries.
pub open spec fn active_fields(d: Seq<(Vec<u8>, PdfValue)>) -> nat {
    one_if(is_active(d)) + one_if(has_key(d, bytes_of("JS"))) + one_if(
        has_key(d, bytes_of("OpenAction")),
    ) + one_if(has_key(d, bytes_of("AA")))
}

/// Whether an object is a file specification of a C2PA manifest.
pub open spec fn is_c2pa_filespec(object: PdfObject) -> bool {
    object matches PdfObject::Dictionary(d) && has_name(
        d@,
        bytes_of("AFRelationship"),
        bytes_of("C2PA_Manifest"),
    )
}

/// What one object adds to each count: metadata streams, annotation
/// fields, active content, C2PA manifests.
pub open spec fn object_counts(object: PdfObject) -> (nat, nat, nat, nat) {
    (
        one_if(is_metadata_stream(object)),
        match dict_of(object) {
            Some(d) => annotation_fields(d),
            None => 0,
        },
        match dict_of(object) {
            Some(d) => active_fields(d),
            None => 0,
        },
        one_if(is_c2pa_filespec(object)),
    )
}

/// The counts over a list of objects.
pub open spec fn counts(objects: Seq<((u32, u16), PdfObject)>) -> (nat, nat, nat, nat)
    decreases objects.len(),
{
    if objects.len() == 0 {
        (0, 0, 0, 0)
    } else {
        let before = counts(objects.drop_last());
        let here = object_counts(objects.last().1);
        (before.0 + here.0, before.1 + here.1, before.2 + here.2, before.3 + here.3)
    }
}

proof fn lemma_counts_bounded(objects: Seq<((u32, u16), PdfObject)>)
    ensures
        counts(objects).0 <= objects.len(),
        counts(objects).1 <= 4 * objects.len(),
        counts(objects).2 <= 4 * objects.len(),
        counts(objects).3 <= objects.len(),
    decreases objects.len(),
{
    if objects.len() > 0 {
        lemma_counts_bounded(objects.drop_last());
    }
}

/// The findings PDF analysis reports for a document.
pub open spec fn pdf_findings(m: PdfModel) -> Seq<BinaryFinding> {
    let c = counts(m.objects@);
    finding_if(
        "pdf-metadata",
        one_if(has_key(m.trailer@, bytes_of("Info"))) + c.0,
        "PDF Info dictionary or catalog XMP metadata",
    ) + finding_if("c2pa", c.3, "PDF C2PA associated-file manifest") + finding_if(
        "pdf-annotation-privacy",
        c.1,
        "PDF annotation author and timestamp fields",
    ) + finding_if("pdf-active-content", c.2, "PDF JavaScript, launch and automatic actions")
}

/// Whether `r` is what analysis reports for a parsed document `m`.
pub open spec fn model_report(m: PdfModel, r: BinaryResult<ParsedBinary>) -> bool {
    match model_check(m) {
        Err(e) => r == Err::<ParsedBinary, &'static str>(e),
        Ok(_) => r is Ok && r->Ok_0.format == BinaryFormat::Pdf && r->Ok_0.findings@ == pdf_findings(m)
            && r->Ok_0.c2pa_detected == (counts(m.objects@).3 > 0),
    }
}

fn annotation_count_of(d: &Vec<(Vec<u8>, PdfValue)>) -> (n: usize)
    ensures
        n == annotation_fields(d@),
{
    if !is_type(d, "Annot".as_bytes()) {
        return 0;
    }
    let mut n: usize = 0;
    if has(d, "T".as_bytes()) {
        n = n + 1;
    }
    if has(d, "M".as_bytes()) {
        n = n + 1;
    }
    if has(d, "CreationDate".as_bytes()) {
        n = n + 1;
    }
    if has(d, "NM".as_bytes()) {
        n = n + 1;
    }
    n
}

/// Whether a dictionary is a JavaScript or launch action.
pub fn is_active_action(d: &Vec<(Vec<u8>, PdfValue)>) -> (r: bool)
    ensures
        r == is_active(d@),
{
    is_name(d, "S".as_bytes(), "JavaScript".as_bytes()) || is_name(
        d,
        "S".as_bytes(),
        "Launch".as_bytes(),
    )
}

fn active_count_of(d: &Vec<(Vec<u8>, PdfValue)>) -> (n: usize)
    ensures
        n == active_fields(d@),
{
    let mut n: usize = 0;
    if is_active_action(d) {
        n = n + 1;
    }
    if has(d, "JS".as_bytes()) {
        n = n + 1;
    }
    if has(d, "OpenAction".as_bytes()) {
        n = n + 1;
    }
    if has(d, "AA".as_bytes()) {
        n = n + 1;
    }
    n
}

/// Whether an object is a file specification of a C2PA manifest.
pub fn c2pa_filespec(object: &PdfObject) -> (r: bool)
    ensures
        r == is_c2pa_filespec(*object),
{
    match object {
        PdfObject::Dictionary(d) => is_name(
            d,
            "AFRelationship".as_bytes(),
            "C2PA_Manifest".as_bytes(),
        ),
        _ => false,
    }
}

/// Reports the metadata, C2PA manifests, annotation fields and active
/// content of a parsed document.
pub fn analyze_model(m: &PdfModel) -> (r: BinaryResult<ParsedBinary>)
    ensures
        model_report(*m, r),
{
    check_model(m)?;
    let mut metadata: usize = 0;
    let mut annotations: usize = 0;
    let mut active: usize = 0;
    let mut c2pa: usize = 0;
    let mut i: usize = 0;
    while i < m.objects.len()
        invariant
            i <= m.objects@.len() <= MAX_OBJECTS,
            (metadata as nat, annotations as nat, active as nat, c2pa as nat) == counts(
                m.objects@.take(i as int),
            ),
        decreases m.objects.len() - i,
    {
        proof {
            assert(m.objects@.take(i + 1).drop_last() == m.objects@.take(i as int));
            lemma_counts_bounded(m.objects@.take(i + 1));
        }
        let object = &m.objects[i].1;
        match object {
            PdfObject::Stream(d, _) => if is_type(d, "Metadata".as_bytes()) {
                metadata = metadata + 1;
            },
            _ => {},
        }
        match object {
            PdfObject::Dictionary(d) | PdfObject::Stream(d, _) => {
                annotations = annotations + annotation_count_of(d);
                active = active + active_count_of(d);
            },
            _ => {},
        }
        if c2pa_filespec(object) {
            c2pa = c2pa + 1;
        }
        i = i + 1;
    }
    assert(m.objects@.take(i as int) == m.objects@);
    proof {
        lemma_counts_bounded(m.objects@);
    }
    if has(&m.trailer, "Info".as_bytes()) {
        metadata = metadata + 1;
    }
    let mut findings: Vec<BinaryFinding> = Vec::new();
    push_finding(&mut findings, "pdf-metadata", metadata, "PDF Info dictionary or catalog XMP metadata");
    push_finding(&mut findings, "c2pa", c2pa, "PDF C2PA associated-file manifest");
    push_finding(
        &mut findings,
        "pdf-annotation-privacy",
        annotations,
        "PDF annotation author and timestamp fields",
    );
    push_finding(
        &mut findings,
        "pdf-active-content",
        active,
        "PDF JavaScript, launch and automatic actions",
    );
    assert(findings@ =~= pdf_findings(*m));
    Ok(ParsedBinary { format: BinaryFormat::Pdf, findings, c2pa_detected: c2pa > 0 })
}

/// What loading `bytes` gives when `lopdf` parses them into `m`.
pub open spec fn load_result(bytes: Seq<u8>, m: PdfModel) -> BinaryResult<()> {
    if !has_prefix(bytes, bytes_of("%PDF-")) {
        Err("PDF signature validation failed.")
    } else if !pdf_loads(bytes) {
        Err(STRUCTURE_ERROR)
    } else {
        model_check(m)
    }
}

/// Whether `m` is the model of the document `lopdf` loads from `bytes`.
pub open spec fn loaded_model(bytes: Seq<u8>, m: PdfModel) -> bool {
    model_matches(m, pdf_loaded(bytes).0, pdf_loaded(bytes).1, pdf_loaded(bytes).2)
}

/// Whether `m` is the model of what `lopdf` parses from `bytes`, where they
/// carry the signature and `lopdf` accepts them.
pub open spec fn pdf_parsed(bytes: Seq<u8>, m: PdfModel) -> bool {
    has_prefix(bytes, bytes_of("%PDF-")) && pdf_loads(bytes) ==> loaded_model(bytes, m)
}

/// Whether `r` is what analysis reports for `bytes` when `lopdf` parses them
/// into a document whose model is `m`.
pub open spec fn pdf_report(bytes: Seq<u8>, m: PdfModel, r: BinaryResult<ParsedBinary>) -> bool {
    pdf_parsed(bytes, m) && match load_result(bytes, m) {
        Err(e) => r == Err::<ParsedBinary, &'static str>(e),
        Ok(_) => model_report(m, r),
    }
}

/// Parses a document and checks it.
fn load(bytes: &[u8]) -> (r: BinaryResult<(PdfDocument, PdfModel)>)
    ensures
        match r {
            Ok(loaded) => load_result(bytes@, loaded.1) is Ok && loaded_model(bytes@, loaded.1)
                && model_matches(
                loaded.1,
                loaded.0.objects(),
                loaded.0.trailer(),
                loaded.0.encrypted(),
            ) && loaded.0.source() == bytes@ && loaded.0.edits() == Seq::<PdfEdit>::empty() && (
            loaded.0.objects(),
            loaded.0.trailer(),
            loaded.0.encrypted(),
            ) == pdf_loaded(bytes@),
            Err(e) => exists|m: PdfModel|
                pdf_parsed(bytes@, m) && load_result(bytes@, m) == Err::<(), &'static str>(e),
        },
{
    if !starts_with(bytes, "%PDF-".as_bytes()) {
        let ghost m: PdfModel = vstd::pervasive::arbitrary();
        assert(load_result(bytes@, m) is Err);
        return Err("PDF signature validation failed.");
    }
    let document = match load_document(bytes) {
        Some(document) => document,
        None => {
            let ghost m: PdfModel = vstd::pervasive::arbitrary();
            assert(load_result(bytes@, m) is Err);
            return Err(STRUCTURE_ERROR);
        },
    };
    let model = model_of(&document);
    match check_model(&model) {
        Ok(()) => Ok((document, model)),
        Err(e) => {
            assert(load_result(bytes@, model) == Err::<(), &'static str>(e));
            Err(e)
        },
    }
}

/// Whether `r` is what detection gives for `bytes`: PDF where loading
/// accepts them, else its error.
pub open spec fn detection(b: Seq<u8>, r: BinaryResult<BinaryFormat>) -> bool {
    match r {
        Ok(format) => format == BinaryFormat::Pdf && exists|m: PdfModel|
            pdf_parsed(b, m) && load_result(b, m) is Ok,
        Err(e) => exists|m: PdfModel|
            pdf_parsed(b, m) && load_result(b, m) == Err::<(), &'static str>(e),
    }
}

/// Confirms that `bytes` is a PDF document that loading accepts.
pub fn detect(bytes: &[u8]) -> (r: BinaryResult<BinaryFormat>)
    ensures
        detection(bytes@, r),
{
    match load(bytes) {
        Ok(loaded) => {
            assert(pdf_parsed(bytes@, loaded.1) && load_result(bytes@, loaded.1) is Ok);
            Ok(BinaryFormat::Pdf)
        },
        Err(e) => Err(e),
    }
}

/// Reports the metadata, C2PA manifests, annotation fields and active
/// content of a PDF document; `lopdf` parses it.
pub fn analyze(bytes: &[u8]) -> (r: BinaryResult<ParsedBinary>)
    ensures
        exists|m: PdfModel| pdf_report(bytes@, m, r),
{
    match load(bytes) {
        Ok(loaded) => {
            let r = analyze_model(&loaded.1);
            assert(pdf_report(bytes@, loaded.1, r));
            r
        },
        Err(e) => {
            let ghost m = choose|m: PdfModel|
                pdf_parsed(bytes@, m) && load_result(bytes@, m) == Err::<(), &'static str>(e);
            assert(pdf_report(bytes@, m, Err(e)));
            Err(e)
        },
    }
}

/// The ids of the C2PA file specifications among `objects`, in order.
pub open spec fn filespec_ids(objects: Seq<((u32, u16), PdfObject)>) -> Seq<(u32, u16)>
    decreases objects.len(),
{
    if objects.len() == 0 {
        Seq::empty()
    } else {
        filespec_ids(objects.drop_last()) + if is_c2pa_filespec(objects.last().1) {
            seq![objects.last().0]
        } else {
            Seq::empty()
        }
    }
}

/// The ids of the XMP metadata streams among `objects`, in order.
pub open spec fn metadata_ids(objects: Seq<((u32, u16), PdfObject)>) -> Seq<(u32, u16)>
    decreases objects.len(),
{
    if objects.len() == 0 {
        Seq::empty()
    } else {
        metadata_ids(objects.drop_last()) + if is_metadata_stream(objects.last().1) {
            seq![objects.last().0]
        } else {
            Seq::empty()
        }
    }
}

/// Whether an object is a JavaScript or launch action.
pub open spec fn is_active_object(object: PdfObject) -> bool {
    dict_of(object) matches Some(d) && is_active(d)
}

/// The ids of the JavaScript and launch actions among `objects`, in order.
pub open spec fn active_ids(objects: Seq<((u32, u16), PdfObject)>) -> Seq<(u32, u16)>
    decreases objects.len(),
{
    if objects.len() == 0 {
        Seq::empty()
    } else {
        active_ids(objects.drop_last()) + if is_active_object(objects.last().1) {
            seq![objects.last().0]
        } else {
            Seq::empty()
        }
    }
}

/// The ids that the values of a nested dictionary refer to, in order.
pub open spec fn leaf_refs(d: Seq<(Vec<u8>, PdfLeaf)>) -> Seq<(u32, u16)>
    decreases d.len(),
{
    if d.len() == 0 {
        Seq::empty()
    } else {
        leaf_refs(d.drop_last()) + match d.last().1 {
            PdfLeaf::Reference(number, generation) => seq![(number, generation)],
            _ => Seq::empty(),
        }
    }
}

/// The ids that the values of a dictionary refer to, in order.
pub open spec fn value_refs(d: Seq<(Vec<u8>, PdfValue)>) -> Seq<(u32, u16)>
    decreases d.len(),
{
    if d.len() == 0 {
        Seq::empty()
    } else {
        value_refs(d.drop_last()) + match d.last().1 {
            PdfValue::Reference(number, generation) => seq![(number, generation)],
            _ => Seq::empty(),
        }
    }
}

/// The embedded files of file specification `filespec`: what the entries of
/// its `EF` dictionary refer to.
pub open spec fn embedded_of(objects: Seq<((u32, u16), PdfObject)>, filespec: (u32, u16)) -> Seq<
    (u32, u16),
> {
    match dictionary_at(objects, filespec) {
        None => Seq::empty(),
        Some(d) => match lookup(d, bytes_of("EF")) {
            Some(PdfValue::Dictionary(leaves)) => leaf_refs(leaves@),
            Some(PdfValue::Reference(number, generation)) => match dictionary_at(
                objects,
                (number, generation),
            ) {
                Some(files) => value_refs(files),
                None => Seq::empty(),
            },
            _ => Seq::empty(),
        },
    }
}

/// The embedded files of the file specifications `filespecs`, in order.
pub open spec fn embedded_ids(objects: Seq<((u32, u16), PdfObject)>, filespecs: Seq<(u32, u16)>) -> Seq<
    (u32, u16),
>
    decreases filespecs.len(),
{
    if filespecs.len() == 0 {
        Seq::empty()
    } else {
        embedded_ids(objects, filespecs.drop_last()) + embedded_of(objects, filespecs.last())
    }
}

/// The ids of the C2PA file specifications among `objects`, in order.
pub fn c2pa_filespec_ids(objects: &Vec<((u32, u16), PdfObject)>) -> (ids: Vec<(u32, u16)>)
    ensures
        ids@ == filespec_ids(objects@),
{
    let mut ids: Vec<(u32, u16)> = Vec::new();
    let mut i: usize = 0;
    while i < objects.len()
        invariant
            i <= objects@.len(),
            ids@ == filespec_ids(objects@.take(i as int)),
        decreases objects.len() - i,
    {
        assert(objects@.take(i + 1).drop_last() == objects@.take(i as int));
        if c2pa_filespec(&objects[i].1) {
            ids.push(objects[i].0);
        }
        i = i + 1;
    }
    assert(objects@.take(i as int) == objects@);
    ids
}

/// The ids of the XMP metadata streams among `objects`, in order.
pub fn metadata_stream_ids(objects: &Vec<((u32, u16), PdfObject)>) -> (ids: Vec<(u32, u16)>)
    ensures
        ids@ == metadata_ids(objects@),
{
    let mut ids: Vec<(u32, u16)> = Vec::new();
    let mut i: usize = 0;
    while i < objects.len()
        invariant
            i <= objects@.len(),
            ids@ == metadata_ids(objects@.take(i as int)),
        decreases objects.len() - i,
    {
        assert(objects@.take(i + 1).drop_last() == objects@.take(i as int));
        let metadata = match &objects[i].1 {
            PdfObject::Stream(d, _) => is_type(d, "Metadata".as_bytes()),
            _ => false,
        };
        if metadata {
            ids.push(objects[i].0);
        }
        i = i + 1;
    }
    assert(objects@.take(i as int) == objects@);
    ids
}

/// Whether an object is a JavaScript or launch action.
pub fn active_object(object: &PdfObject) -> (r: bool)
    ensures
        r == is_active_object(*object),
{
    match object {
        PdfObject::Dictionary(d) | PdfObject::Stream(d, _) => is_active_action(d),
        _ => false,
    }
}

/// The ids of the JavaScript and launch actions among `objects`, in order.
/// A list in place of a set: every id occurs once (the model's ids are
/// distinct), and nulling an object is the same once or twice.
pub fn active_action_ids(objects: &Vec<((u32, u16), PdfObject)>) -> (ids: Vec<(u32, u16)>)
    ensures
        ids@ == active_ids(objects@),
{
    let mut ids: Vec<(u32, u16)> = Vec::new();
    let mut i: usize = 0;
    while i < objects.len()
        invariant
            i <= objects@.len(),
            ids@ == active_ids(objects@.take(i as int)),
        decreases objects.len() - i,
    {
        assert(objects@.take(i + 1).drop_last() == objects@.take(i as int));
        if active_object(&objects[i].1) {
            ids.push(objects[i].0);
        }
        i = i + 1;
    }
    assert(objects@.take(i as int) == objects@);
    ids
}

fn push_leaf_refs(ids: &mut Vec<(u32, u16)>, d: &Vec<(Vec<u8>, PdfLeaf)>)
    ensures
        final(ids)@ == old(ids)@ + leaf_refs(d@),
{
    let ghost start = ids@;
    let mut i: usize = 0;
    while i < d.len()
        invariant
            i <= d@.len(),
            ids@ == start + leaf_refs(d@.take(i as int)),
        decreases d.len() - i,
    {
        assert(d@.take(i + 1).drop_last() == d@.take(i as int));
        match &d[i].1 {
            PdfLeaf::Reference(number, generation) => ids.push((*number, *generation)),
            _ => {},
        }
        i = i + 1;
        assert(ids@ =~= start + leaf_refs(d@.take(i as int)));
    }
    assert(d@.take(i as int) == d@);
}

fn push_value_refs(ids: &mut Vec<(u32, u16)>, d: &Vec<(Vec<u8>, PdfValue)>)
    ensures
        final(ids)@ == old(ids)@ + value_refs(d@),
{
    let ghost start = ids@;
    let mut i: usize = 0;
    while i < d.len()
        invariant
            i <= d@.len(),
            ids@ == start + value_refs(d@.take(i as int)),
        decreases d.len() - i,
    {
        assert(d@.take(i + 1).drop_last() == d@.take(i as int));
        match &d[i].1 {
            PdfValue::Reference(number, generation) => ids.push((*number, *generation)),
            _ => {},
        }
        i = i + 1;
        assert(ids@ =~= start + value_refs(d@.take(i as int)));
    }
    assert(d@.take(i as int) == d@);
}

/// The embedded files of the file specifications `filespecs`, in order. An
/// id may occur more than once.
pub fn embedded_stream_ids(objects: &Vec<((u32, u16), PdfObject)>, filespecs: &Vec<(u32, u16)>) -> (ids:
    Vec<(u32, u16)>)
    ensures
        ids@ == embedded_ids(objects@, filespecs@),
{
    let mut ids: Vec<(u32, u16)> = Vec::new();
    let mut k: usize = 0;
    while k < filespecs.len()
        invariant
            k <= filespecs@.len(),
            ids@ == embedded_ids(objects@, filespecs@.take(k as int)),
        decreases filespecs.len() - k,
    {
        assert(filespecs@.take(k + 1).drop_last() == filespecs@.take(k as int));
        let ghost before = ids@;
        match get_dictionary(objects, filespecs[k]) {
            None => {},
            Some(filespec) => match get(filespec, "EF".as_bytes()) {
                Some(PdfValue::Dictionary(leaves)) => push_leaf_refs(&mut ids, leaves),
                Some(PdfValue::Reference(number, generation)) => match get_dictionary(
                    objects,
                    (*number, *generation),
                ) {
                    Some(files) => push_value_refs(&mut ids, files),
                    None => {},
                },
                _ => {},
            },
        }
        assert(ids@ =~= before + embedded_of(objects@, filespecs@[k as int]));
        k = k + 1;
    }
    assert(filespecs@.take(k as int) == filespecs@);
    ids
}

/// Whether analysis of `bytes` succeeds and reports nothing: no metadata
/// item and no C2PA manifest.
pub open spec fn reports_nothing(bytes: Seq<u8>) -> bool {
    exists|m: PdfModel, after: ParsedBinary|
        #[trigger] pdf_report(bytes, m, Ok(after)) && capped_total(after.findings@) == 0
            && !after.c2pa_detected
}

/// The objects after `nulled` for each id of `ids`, in order.
pub open spec fn nulled_all(before: Map<(u32, u16), PdfSlot>, ids: Seq<(u32, u16)>) -> Map<
    (u32, u16),
    PdfSlot,
>
    decreases ids.len(),
{
    if ids.len() == 0 {
        before
    } else {
        nulled(nulled_all(before, ids.drop_last()), ids.last())
    }
}

/// The objects after removing each of `keys`, in order, from the dictionary
/// of object `id`.
pub open spec fn without_entries(before: Map<(u32, u16), PdfSlot>, id: (u32, u16), keys: Seq<&str>) -> Map<
    (u32, u16),
    PdfSlot,
>
    decreases keys.len(),
{
    if keys.len() == 0 {
        before
    } else {
        without_entry(without_entries(before, id, keys.drop_last()), id, bytes_of(keys.last()))
    }
}

/// Replaces each object of `ids` that the document holds by `Null`.
fn null_all(document: &mut PdfDocument, ids: &Vec<(u32, u16)>)
    ensures
        final(document).objects() == nulled_all(old(document).objects(), ids@),
        final(document).trailer() == old(document).trailer(),
        final(document).encrypted() == old(document).encrypted(),
        final(document).source() == old(document).source(),
        final(document).edits() == old(document).edits() + ids@.map_values(
            |id: (u32, u16)| PdfEdit::NullObject(id),
        ),
{
    let ghost start = *document;
    let mut i: usize = 0;
    while i < ids.len()
        invariant
            i <= ids@.len(),
            document.objects() == nulled_all(start.objects(), ids@.take(i as int)),
            document.trailer() == start.trailer(),
            document.encrypted() == start.encrypted(),
            document.source() == start.source(),
            document.edits() == start.edits() + ids@.take(i as int).map_values(
                |id: (u32, u16)| PdfEdit::NullObject(id),
            ),
        decreases ids.len() - i,
    {
        null_object(document, ids[i]);
        assert(ids@.take(i + 1).drop_last() =~= ids@.take(i as int));
        assert(ids@.take(i + 1).map_values(|id: (u32, u16)| PdfEdit::NullObject(id)) =~= ids@.take(
            i as int,
        ).map_values(|id: (u32, u16)| PdfEdit::NullObject(id)).push(PdfEdit::NullObject(ids@[i as int])));
        i = i + 1;
    }
    assert(ids@.take(i as int) =~= ids@);
}

/// Removes each of `keys` from the dictionary of object `id`, where it is a
/// dictionary or a stream.
fn remove_entries(document: &mut PdfDocument, id: (u32, u16), keys: &[&str])
    ensures
        final(document).objects() == without_entries(old(document).objects(), id, keys@),
        final(document).trailer() == old(document).trailer(),
        final(document).encrypted() == old(document).encrypted(),
        final(document).source() == old(document).source(),
        final(document).edits() == old(document).edits() + keys@.map_values(
            |key: &str| PdfEdit::RemoveObjectEntry(id, bytes_of(key)),
        ),
{
    let ghost start = *document;
    let mut i: usize = 0;
    while i < keys.len()
        invariant
            i <= keys@.len(),
            document.objects() == without_entries(start.objects(), id, keys@.take(i as int)),
            document.trailer() == start.trailer(),
            document.encrypted() == start.encrypted(),
            document.source() == start.source(),
            document.edits() == start.edits() + keys@.take(i as int).map_values(
                |key: &str| PdfEdit::RemoveObjectEntry(id, bytes_of(key)),
            ),
        decreases keys.len() - i,
    {
        remove_object_entry(document, id, keys[i].as_bytes());
        assert(keys@.take(i + 1).drop_last() =~= keys@.take(i as int));
        assert(keys@.take(i + 1).map_values(|key: &str| PdfEdit::RemoveObjectEntry(id, bytes_of(key)))
            =~= keys@.take(i as int).map_values(|key: &str| PdfEdit::RemoveObjectEntry(id, bytes_of(key))).push(
            PdfEdit::RemoveObjectEntry(id, bytes_of(keys@[i as int])),
        ));
        i = i + 1;
    }
    assert(keys@.take(i as int) =~= keys@);
}

/// The edits that replace each object of `ids` by `Null`, in order.
pub open spec fn null_edits(ids: Seq<(u32, u16)>) -> Seq<PdfEdit> {
    ids.map_values(|id: (u32, u16)| PdfEdit::NullObject(id))
}

/// The edits that remove each of `keys` from object `id`, in order.
pub open spec fn entry_edits(id: (u32, u16), keys: Seq<&str>) -> Seq<PdfEdit> {
    keys.map_values(|key: &str| PdfEdit::RemoveObjectEntry(id, bytes_of(key)))
}

/// The annotation fields that name an author or a time.
pub open spec fn annotation_key_names() -> Seq<&'static str> {
    seq!["T", "M", "CreationDate", "NM"]
}

/// The entries that start JavaScript or automatic actions.
pub open spec fn action_key_names() -> Seq<&'static str> {
    seq!["JS", "OpenAction", "AA"]
}

/// The entries removed from object `id`, whose dictionary is `d`: none from
/// an active action (which is nulled), else its author and time fields where
/// it is an annotation, and its action entries.
pub open spec fn stripped(id: (u32, u16), d: Seq<(Vec<u8>, PdfValue)>) -> Seq<PdfEdit> {
    if is_active(d) {
        Seq::empty()
    } else {
        (if has_type(d, bytes_of("Annot")) {
            entry_edits(id, annotation_key_names())
        } else {
            Seq::empty()
        }) + entry_edits(id, action_key_names())
    }
}

/// The entries removed from the dictionaries and streams of `objects`, in
/// order.
pub open spec fn object_edits(objects: Seq<((u32, u16), PdfObject)>) -> Seq<PdfEdit>
    decreases objects.len(),
{
    if objects.len() == 0 {
        Seq::empty()
    } else {
        object_edits(objects.drop_last()) + match objects.last().1 {
            PdfObject::Dictionary(d) => stripped(objects.last().0, d@),
            PdfObject::Stream(d, _) => stripped(objects.last().0, d@),
            _ => Seq::empty(),
        }
    }
}

/// The edit that replaces object `id` by `Null`, if there is one.
pub open spec fn optional_null(id: Option<(u32, u16)>) -> Seq<PdfEdit> {
    match id {
        Some(id) => seq![PdfEdit::NullObject(id)],
        None => Seq::empty(),
    }
}

/// The `Metadata` reference of the catalog that references from `root` end
/// at: `None` where they end at no dictionary, else the reference, if the
/// catalog holds one.
pub open spec fn catalog_metadata(objects: Map<(u32, u16), PdfSlot>, root: (u32, u16)) -> Option<
    Option<(u32, u16)>,
> {
    match followed(objects, root, 128) {
        Some(target) => match objects[target] {
            PdfSlot::Dictionary(entries) => Some(referred(entries, bytes_of("Metadata"))),
            _ => None,
        },
        None => None,
    }
}

/// The edits sanitizing makes on a document whose model is `m`, whose
/// catalog is `root`, whose trailer's `Info` refers to `info` and whose
/// catalog's `Metadata` refers to `metadata`: `Info` and `Metadata` removed
/// and their objects nulled; the C2PA file specifications, their embedded
/// files, the metadata streams and the active actions nulled; author, time
/// and action entries removed; and `Prev` and `XRefStm` removed from the
/// trailer.
pub open spec fn sanitize_edits(
    m: PdfModel,
    root: (u32, u16),
    info: Option<(u32, u16)>,
    metadata: Option<(u32, u16)>,
) -> Seq<PdfEdit> {
    let objects = m.objects@;
    seq![
        PdfEdit::RemoveTrailerEntry(bytes_of("Info")),
        PdfEdit::RemoveDictionaryEntry(root, bytes_of("Metadata")),
    ] + optional_null(info) + optional_null(metadata) + null_edits(filespec_ids(objects))
        + null_edits(embedded_ids(objects, filespec_ids(objects))) + null_edits(metadata_ids(objects))
        + null_edits(active_ids(objects)) + object_edits(objects) + seq![
        PdfEdit::RemoveTrailerEntry(bytes_of("Prev")),
        PdfEdit::RemoveTrailerEntry(bytes_of("XRefStm")),
    ]
}

/// The messages with which sanitizing a PDF document is refused: those of
/// loading (of the input or of the rewritten output), a missing catalog or
/// a failed save, and a rewritten output in which analysis still finds
/// something.
pub open spec fn pdf_refusal(e: &'static str) -> bool {
    e == STRUCTURE_ERROR || e == "PDF post-sanitization verification failed." || exists|
        b: Seq<u8>,
        m: PdfModel,
    | #[trigger] load_result(b, m) == Err::<(), &'static str>(e)
}

/// What sanitizing returns for the saved file `out`, analysed as `after`,
/// of a file analysed as `parsed`: the analysis error; a refusal where
/// analysis still finds something; else `out` with the number of items
/// `parsed` found.
pub open spec fn checked_output(
    out: Seq<u8>,
    parsed: ParsedBinary,
    after: BinaryResult<ParsedBinary>,
    r: BinaryResult<CleanedBinary>,
) -> bool {
    match after {
        Err(e) => r == Err::<CleanedBinary, &'static str>(e),
        Ok(a) => if capped_total(a.findings@) != 0 || a.c2pa_detected {
            r == Err::<CleanedBinary, &'static str>("PDF post-sanitization verification failed.")
        } else {
            r is Ok && r->Ok_0.bytes@ == out && r->Ok_0.removed_items == capped_total(parsed.findings@)
        },
    }
}

/// What sanitizing owes for `b`, parsed into the model `m` and analysed as
/// `before`: the analysis error; else, for the catalog that loading checked,
/// a structure error where its references end at no dictionary; else the
/// file `lopdf` saves after `sanitize_edits`, or a structure error where
/// saving fails; and that file is refused with its analysis error, or as not
/// clean where analysis still finds something, and otherwise returned with
/// the number of items `before` found.
pub open spec fn sanitize_outcome(
    b: Seq<u8>,
    m: PdfModel,
    before: BinaryResult<ParsedBinary>,
    r: BinaryResult<CleanedBinary>,
) -> bool {
    match before {
        Err(e) => r == Err::<CleanedBinary, &'static str>(e),
        Ok(parsed) => edited_outcome(b, m, parsed, r),
    }
}

/// What sanitizing owes for `b`, parsed into the model `m` and analysed as
/// `parsed`, once its analysis succeeds.
pub open spec fn edited_outcome(b: Seq<u8>, m: PdfModel, parsed: ParsedBinary, r: BinaryResult<CleanedBinary>) -> bool {
    let root = root_of(m.trailer@)->Some_0;
    match catalog_metadata(pdf_loaded(b).0, root) {
        None => r == Err::<CleanedBinary, &'static str>(STRUCTURE_ERROR),
        Some(metadata) => saved_outcome(
            pdf_saved(b, sanitize_edits(m, root, referred(pdf_loaded(b).1, bytes_of("Info")), metadata)),
            parsed,
            r,
        ),
    }
}

/// What sanitizing owes once the edited document is saved as `saved`.
pub open spec fn saved_outcome(saved: Option<Seq<u8>>, parsed: ParsedBinary, r: BinaryResult<CleanedBinary>) -> bool {
    match saved {
        None => r == Err::<CleanedBinary, &'static str>(STRUCTURE_ERROR),
        Some(out) => output_outcome(out, parsed, r),
    }
}

/// What sanitizing owes for the saved file `out`, by its analysis.
pub open spec fn output_outcome(out: Seq<u8>, parsed: ParsedBinary, r: BinaryResult<CleanedBinary>) -> bool {
    exists|m2: PdfModel, after: BinaryResult<ParsedBinary>|
        #[trigger] pdf_report(out, m2, after) && checked_output(out, parsed, after, r)
}

/// Whether `r` is what sanitizing gives for `bytes`: the signature error
/// where they are not a PDF file; what `sanitize_outcome` owes for the model
/// loading gives and its analysis; so a refusal only for one of the reasons
/// `pdf_refusal` names, and a success only with a rewritten file in which
/// analysis finds nothing.
pub open spec fn sanitization(b: Seq<u8>, r: BinaryResult<CleanedBinary>) -> bool {
    &&& !has_prefix(b, bytes_of("%PDF-")) ==> r == Err::<CleanedBinary, &'static str>(
        "PDF signature validation failed.",
    )
    &&& exists|m: PdfModel, before: BinaryResult<ParsedBinary>|
        #[trigger] pdf_report(b, m, before) && sanitize_outcome(b, m, before, r)
    &&& r matches Err(e) ==> pdf_refusal(e)
    &&& r matches Ok(cleaned) ==> reports_nothing(cleaned.bytes@)
}

/// Rewrites a PDF document without its information dictionary, XMP
/// metadata, C2PA manifests and their embedded files, annotation author and
/// timestamp fields, and JavaScript, launch and automatic actions. The
/// rewritten file is analysed again and refused unless nothing is left to
/// report; `removed_items` is the number of items the first analysis found.
/// What `sanitize_outcome` owes once the edited document is saved as `out`
/// and `out` is analysed as `after`.
proof fn lemma_saved_outcome(
    b: Seq<u8>,
    m: PdfModel,
    before: BinaryResult<ParsedBinary>,
    metadata: Option<(u32, u16)>,
    out: Seq<u8>,
    m2: PdfModel,
    after: BinaryResult<ParsedBinary>,
    r: BinaryResult<CleanedBinary>,
)
    requires
        before is Ok,
        catalog_metadata(pdf_loaded(b).0, root_of(m.trailer@)->Some_0) == Some(metadata),
        pdf_saved(
            b,
            sanitize_edits(
                m,
                root_of(m.trailer@)->Some_0,
                referred(pdf_loaded(b).1, bytes_of("Info")),
                metadata,
            ),
        ) == Some(out),
        pdf_report(out, m2, after),
        checked_output(out, before->Ok_0, after, r),
    ensures
        sanitize_outcome(b, m, before, r),
{
    let root = root_of(m.trailer@)->Some_0;
    let edits = sanitize_edits(m, root, referred(pdf_loaded(b).1, bytes_of("Info")), metadata);
    assert(pdf_saved(b, edits) == Some(out));
    assert(pdf_report(out, m2, after));
    assert(checked_output(out, before->Ok_0, after, r));
    assert(output_outcome(out, before->Ok_0, r));
    assert(saved_outcome(pdf_saved(b, edits), before->Ok_0, r));
    assert(edited_outcome(b, m, before->Ok_0, r));
}

/// Removes the author, time and action entries of the dictionaries and
/// streams of `objects` from the document, as `object_edits` lists them.
fn strip_entries(document: &mut PdfDocument, objects: &Vec<((u32, u16), PdfObject)>)
    ensures
        final(document).source() == old(document).source(),
        final(document).encrypted() == old(document).encrypted(),
        final(document).edits() == old(document).edits() + object_edits(objects@),
{
    let ghost prefix = document.edits();
    let annotation_keys: [&str; 4] = ["T", "M", "CreationDate", "NM"];
    let action_keys: [&str; 3] = ["JS", "OpenAction", "AA"];
    assert(annotation_keys@ =~= annotation_key_names());
    assert(action_keys@ =~= action_key_names());
    let ghost start = *document;
    let mut i: usize = 0;
    while i < objects.len()
        invariant
            i <= objects@.len(),
            annotation_keys@ == annotation_key_names(),
            action_keys@ == action_key_names(),
            document.source() == start.source(),
            document.encrypted() == start.encrypted(),
            document.edits() == prefix + object_edits(objects@.take(i as int)),
        decreases objects.len() - i,
    {
        let ghost before_edits = document.edits();
        let id = objects[i].0;
        match &objects[i].1 {
            PdfObject::Dictionary(d) | PdfObject::Stream(d, _) => if !is_active_action(d) {
                if is_type(d, "Annot".as_bytes()) {
                    remove_entries(document, id, &annotation_keys);
                }
                remove_entries(document, id, &action_keys);
            },
            _ => {},
        }
        proof {
            assert(objects@.take(i + 1).drop_last() =~= objects@.take(i as int));
            assert(document.edits() =~= before_edits + match objects@[i as int].1 {
                PdfObject::Dictionary(d) => stripped(id, d@),
                PdfObject::Stream(d, _) => stripped(id, d@),
                _ => Seq::<PdfEdit>::empty(),
            });
        }
        i = i + 1;
    }
    assert(objects@.take(i as int) =~= objects@);
}

#[verifier::spinoff_prover]
#[verifier::rlimit(40)]
pub fn sanitize(bytes: &[u8]) -> (r: BinaryResult<CleanedBinary>)
    ensures
        sanitization(bytes@, r),
{
    proof {
        reveal_strlit("%PDF-");
    }
    let ghost b = bytes@;
    let (mut document, model) = match load(bytes) {
        Ok(loaded) => loaded,
        Err(e) => {
            proof {
                let m = choose|m: PdfModel|
                    pdf_parsed(b, m) && load_result(b, m) == Err::<(), &'static str>(e);
                assert(pdf_report(b, m, Err(e)) && sanitize_outcome(b, m, Err(e), Err(e)));
                assert(pdf_refusal(e));
            }
            return Err(e);
        },
    };
    let filespecs = c2pa_filespec_ids(&model.objects);
    let streams = embedded_stream_ids(&model.objects, &filespecs);
    let before_result = analyze_model(&model);
    assert(pdf_report(b, model, before_result));
    let before = match before_result {
        Ok(before) => before,
        Err(e) => {
            assert(load_result(b, model) is Ok);
            assert(false);
            return Err(e);
        },
    };
    let removed_items = before.metadata_count();
    let metadata_streams = metadata_stream_ids(&model.objects);
    let actions = active_action_ids(&model.objects);
    let ghost loaded = pdf_loaded(b);
    let info = remove_trailer_entry(&mut document, "Info".as_bytes());
    assert(info == referred(loaded.1, bytes_of("Info")));
    assert(document.objects() == loaded.0);
    assert(model_check(model) is Ok);
    let root = match root_id(&model.trailer) {
        Some(root) => root,
        None => return Err(STRUCTURE_ERROR),
    };
    let metadata = match remove_dictionary_entry(&mut document, root, "Metadata".as_bytes()) {
        Some(metadata) => metadata,
        None => {
            assert(sanitize_outcome(b, model, before_result, Err(STRUCTURE_ERROR)));
            return Err(STRUCTURE_ERROR);
        },
    };
    assert(root == root_of(model.trailer@)->Some_0);
    assert(catalog_metadata(loaded.0, root) == Some(metadata));
    let ghost head = document.edits();
    match info {
        Some(id) => null_object(&mut document, id),
        None => {},
    }
    match metadata {
        Some(id) => null_object(&mut document, id),
        None => {},
    }
    assert(document.edits() =~= head + optional_null(info) + optional_null(metadata));
    null_all(&mut document, &filespecs);
    null_all(&mut document, &streams);
    null_all(&mut document, &metadata_streams);
    null_all(&mut document, &actions);
    strip_entries(&mut document, &model.objects);
    remove_trailer_entry(&mut document, "Prev".as_bytes());
    remove_trailer_entry(&mut document, "XRefStm".as_bytes());
    let ghost edits = sanitize_edits(
        model,
        root,
        referred(pdf_loaded(b).1, bytes_of("Info")),
        metadata,
    );
    assert(document.edits() =~= edits);
    assert(document.encrypted() == model.encrypted);
    let output = match save_document(&mut document) {
        Some(output) => output,
        None => {
            assert(sanitize_outcome(b, model, before_result, Err(STRUCTURE_ERROR)));
            return Err(STRUCTURE_ERROR);
        },
    };
    let ghost out = output@;
    assert(pdf_saved(b, edits) == Some(out));
    assert(catalog_metadata(pdf_loaded(b).0, root_of(model.trailer@)->Some_0) == Some(metadata));
    assert(pdf_saved(
        b,
        sanitize_edits(
            model,
            root_of(model.trailer@)->Some_0,
            referred(pdf_loaded(b).1, bytes_of("Info")),
            metadata,
        ),
    ) == Some(out));
    let verified_result = analyze(output.as_slice());
    let ghost m2 = choose|m: PdfModel| pdf_report(out, m, verified_result);
    let verified = match verified_result {
        Ok(verified) => verified,
        Err(e) => {
            proof {
                assert(load_result(out, m2) == Err::<(), &'static str>(e));
                assert(pdf_refusal(e));
                lemma_saved_outcome(b, model, before_result, metadata, out, m2, verified_result, Err(e));
            }
            return Err(e);
        },
    };
    if verified.metadata_count() != 0 || verified.c2pa_detected {
        assert(pdf_report(out, m2, Ok(verified)));
        assert(capped_total(verified.findings@) != 0 || verified.c2pa_detected);
        proof {
            lemma_saved_outcome(
                b,
                model,
                before_result,
                metadata,
                out,
                m2,
                verified_result,
                Err("PDF post-sanitization verification failed."),
            );
        }
        return Err("PDF post-sanitization verification failed.");
    }
    let cleaned = CleanedBinary { bytes: output, removed_items };
    proof {
        assert(cleaned.bytes@ == out);
        assert(pdf_report(cleaned.bytes@, m2, Ok(verified)));
        assert(reports_nothing(cleaned.bytes@));
        lemma_saved_outcome(b, model, before_result, metadata, out, m2, verified_result, Ok(cleaned));
    }
    Ok(cleaned)
}

} // verus!
