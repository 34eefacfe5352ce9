//! PDF documents through `lopdf`: loading, the object graph seen one object
//! at a time, the edits sanitizing makes, and saving.
use lopdf::{Dictionary, Document, Object};
use vstd::prelude::*;

verus! {

#[verifier::external_type_specification]
#[verifier::external_body]
pub struct ExDocument(Document);

#[verifier::external_type_specification]
#[verifier::external_body]
pub struct ExObject(Object);

#[verifier::external_type_specification]
#[verifier::external_body]
pub struct ExDictionary(Dictionary);

/// A `lopdf` object, told apart by variant as far as the logic reads it.
#[derive(Clone, Copy)]
pub enum ObjectView<'a> {
    Dictionary(&'a Dictionary),
    /// A stream's dictionary and the length of its content.
    Stream(&'a Dictionary, usize),
    Name(&'a [u8]),
    Reference(u32, u16),
    Other,
}

/// An object of a document as plain values: a dictionary or a stream with
/// its entries (a stream also with the length of its content), a name, a
/// reference, `Null`, or another kind.
pub enum PdfSlot {
    Dictionary(Map<Seq<u8>, PdfSlot>),
    Stream(Map<Seq<u8>, PdfSlot>, nat),
    Name(Seq<u8>),
    Reference(u32, u16),
    Null,
    Other,
}

/// The entries of a `Dictionary`: each key with its value as plain values.
pub uninterp spec fn dictionary_contents(dictionary: Dictionary) -> Map<Seq<u8>, PdfSlot>;

/// Whether `view` shows an object whose plain value is `slot`.
pub open spec fn view_matches(view: ObjectView, slot: PdfSlot) -> bool {
    match view {
        ObjectView::Dictionary(d) => slot == PdfSlot::Dictionary(dictionary_contents(*d)),
        ObjectView::Stream(d, length) => slot == PdfSlot::Stream(dictionary_contents(*d), length as nat),
        ObjectView::Name(name) => slot == PdfSlot::Name(name@),
        ObjectView::Reference(number, generation) => slot == PdfSlot::Reference(number, generation),
        ObjectView::Other => slot is Null || slot is Other,
    }
}

/// Object ids in the order of `BTreeMap`: by number, then by generation.
pub open spec fn id_before(a: (u32, u16), b: (u32, u16)) -> bool {
    a.0 < b.0 || (a.0 == b.0 && a.1 < b.1)
}

/// Whether `a` is `null_object` applied to `before` for `id`.
pub open spec fn nulled(before: Map<(u32, u16), PdfSlot>, id: (u32, u16)) -> Map<(u32, u16), PdfSlot> {
    if before.dom().contains(id) {
        before.insert(id, PdfSlot::Null)
    } else {
        before
    }
}

/// The objects after removing the entry `key` from the dictionary of object
/// `id`, where it is a dictionary or a stream.
pub open spec fn without_entry(before: Map<(u32, u16), PdfSlot>, id: (u32, u16), key: Seq<u8>) -> Map<
    (u32, u16),
    PdfSlot,
> {
    if before.dom().contains(id) {
        match before[id] {
            PdfSlot::Dictionary(m) => before.insert(id, PdfSlot::Dictionary(m.remove(key))),
            PdfSlot::Stream(m, length) => before.insert(id, PdfSlot::Stream(m.remove(key), length)),
            _ => before,
        }
    } else {
        before
    }
}

/// The id that object `id` ends at when references are followed as
/// `Document::get_object_mut` follows them: at most 128 references, every
/// id on the way present.
pub open spec fn followed(objects: Map<(u32, u16), PdfSlot>, id: (u32, u16), fuel: nat) -> Option<(u32, u16)>
    decreases fuel,
{
    if !objects.dom().contains(id) {
        None
    } else {
        match objects[id] {
            PdfSlot::Reference(number, generation) => if fuel == 0 {
                None
            } else {
                followed(objects, (number, generation), (fuel - 1) as nat)
            },
            _ => Some(id),
        }
    }
}

/// The id an entry of `entries` under `key` refers to, if it is a reference.
pub open spec fn referred(entries: Map<Seq<u8>, PdfSlot>, key: Seq<u8>) -> Option<(u32, u16)> {
    if entries.dom().contains(key) {
        match entries[key] {
            PdfSlot::Reference(number, generation) => Some((number, generation)),
            _ => None,
        }
    } else {
        None
    }
}

/// An edit made on a loaded document: an entry removed from the trailer, an
/// entry removed from the dictionary references from an object end at, an
/// object replaced by `Null`, or an entry removed from the dictionary of an
/// object that is a dictionary or a stream.
pub enum PdfEdit {
    RemoveTrailerEntry(Seq<u8>),
    RemoveDictionaryEntry((u32, u16), Seq<u8>),
    NullObject((u32, u16)),
    RemoveObjectEntry((u32, u16), Seq<u8>),
}

/// A document loaded by `lopdf`, with the bytes it was loaded from, the
/// edits made on it since, and what it holds as plain values: its objects
/// (its `objects` map) by id, its trailer entries and whether its
/// `encryption_state` is set.
pub struct PdfDocument {
    document: Document,
    source: Ghost<Seq<u8>>,
    edits: Ghost<Seq<PdfEdit>>,
    objects: Ghost<Map<(u32, u16), PdfSlot>>,
    trailer: Ghost<Map<Seq<u8>, PdfSlot>>,
    encrypted: Ghost<bool>,
}

impl PdfDocument {
    /// The bytes the document was loaded from.
    pub closed spec fn source(&self) -> Seq<u8> {
        self.source@
    }

    /// The edits made since loading.
    pub closed spec fn edits(&self) -> Seq<PdfEdit> {
        self.edits@
    }

    /// The document's objects.
    pub closed spec fn objects(&self) -> Map<(u32, u16), PdfSlot> {
        self.objects@
    }

    /// The document's trailer entries.
    pub closed spec fn trailer(&self) -> Map<Seq<u8>, PdfSlot> {
        self.trailer@
    }

    /// Whether the document's encryption state is set.
    pub closed spec fn encrypted(&self) -> bool {
        self.encrypted@
    }
}

/// What `Document::save_to` writes into memory for the document
/// `Document::load_mem` makes of `source` after `edits`, in order; `None`
/// where it reports an error. `lopdf` is built without its `rayon` feature,
/// so loading reads objects in order, and a document without an encryption
/// state is written without chance or time.
pub uninterp spec fn pdf_saved(source: Seq<u8>, edits: Seq<PdfEdit>) -> Option<Seq<u8>>;

/// The objects after removing the entry `key` from the dictionary that
/// references from object `id` end at, where they end at one.
pub open spec fn without_dictionary_entry(objects: Map<(u32, u16), PdfSlot>, id: (u32, u16), key: Seq<u8>) -> Map<
    (u32, u16),
    PdfSlot,
> {
    match followed(objects, id, 128) {
        Some(target) => match objects[target] {
            PdfSlot::Dictionary(entries) => objects.insert(target, PdfSlot::Dictionary(entries.remove(key))),
            _ => objects,
        },
        None => objects,
    }
}

/// Whether `Document::load_mem` accepts `bytes`.
pub uninterp spec fn pdf_loads(bytes: Seq<u8>) -> bool;

/// What `Document::load_mem` makes of `bytes` when it accepts them: the
/// objects, the trailer entries and whether an encryption state is set.
pub uninterp spec fn pdf_loaded(bytes: Seq<u8>) -> (
    Map<(u32, u16), PdfSlot>,
    Map<Seq<u8>, PdfSlot>,
    bool,
);

/// `Document::load_mem`: the parsed document, or `None` where the crate
/// rejects the bytes. `lopdf` is built without its `rayon` feature, so the
/// document parsed is a function of the bytes.
#[verifier::external_body]
pub(crate) fn load_document(bytes: &[u8]) -> (r: Option<PdfDocument>)
    ensures
        r is Some <==> pdf_loads(bytes@),
        r matches Some(d) ==> (d.objects(), d.trailer(), d.encrypted()) == pdf_loaded(bytes@)
            && d.source() == bytes@ && d.edits() == Seq::<PdfEdit>::empty(),
{
    let document = Document::load_mem(bytes).ok()?;
    let loaded = Ghost(pdf_loaded(bytes@));
    Some(PdfDocument {
        document,
        source: Ghost(bytes@),
        edits: Ghost(Seq::empty()),
        objects: Ghost(loaded@.0),
        trailer: Ghost(loaded@.1),
        encrypted: Ghost(loaded@.2),
    })
}

/// Whether the document's `encryption_state` is set.
#[verifier::external_body]
pub(crate) fn encryption_state_set(document: &PdfDocument) -> (r: bool)
    ensures
        r == document.encrypted(),
{
    document.document.encryption_state.is_some()
}

/// The document's `trailer` dictionary.
#[verifier::external_body]
pub(crate) fn trailer_of<'a>(document: &'a PdfDocument) -> (r: &'a Dictionary)
    ensures
        dictionary_contents(*r) == document.trailer(),
{
    &document.document.trailer
}

/// The document's `objects`, each seen by `view_of`, in the order of their
/// ids in the `BTreeMap`: every id once, ascending.
#[verifier::external_body]
pub(crate) fn objects_of<'a>(document: &'a PdfDocument) -> (r: Vec<((u32, u16), ObjectView<'a>)>)
    ensures
        forall|i: int, j: int| 0 <= i < j < r@.len() ==> id_before(#[trigger] r@[i].0, #[trigger] r@[j].0),
        forall|i: int|
            0 <= i < r@.len() ==> document.objects().dom().contains(#[trigger] r@[i].0)
                && view_matches(r@[i].1, document.objects()[r@[i].0]),
        forall|id: (u32, u16)|
            #[trigger] document.objects().dom().contains(id) ==> exists|i: int|
                0 <= i < r@.len() && r@[i].0 == id,
{
    document.document.objects.iter().map(|(id, object)| (*id, view_of(object))).collect()
}

/// The entries of a dictionary, in its order, each value seen by `view_of`:
/// every key once.
#[verifier::external_body]
pub(crate) fn entries_of<'a>(dictionary: &'a Dictionary) -> (r: Vec<(&'a [u8], ObjectView<'a>)>)
    ensures
        forall|i: int, j: int| 0 <= i < j < r@.len() ==> (#[trigger] r@[i].0)@ != (#[trigger] r@[j].0)@,
        forall|i: int|
            0 <= i < r@.len() ==> dictionary_contents(*dictionary).dom().contains((#[trigger] r@[i].0)@)
                && view_matches(r@[i].1, dictionary_contents(*dictionary)[r@[i].0@]),
        forall|key: Seq<u8>|
            #[trigger] dictionary_contents(*dictionary).dom().contains(key) ==> exists|i: int|
                0 <= i < r@.len() && r@[i].0@ == key,
{
    dictionary.iter().map(|(key, value)| (key.as_slice(), view_of(value))).collect()
}

/// The variant of an object, with the fields the logic reads: the
/// conversion that `objects_of` and `entries_of` hand their items out by.
#[verifier::external_body]
fn view_of<'a>(object: &'a Object) -> ObjectView<'a> {
    match object {
        Object::Dictionary(dictionary) => ObjectView::Dictionary(dictionary),
        Object::Stream(stream) => ObjectView::Stream(&stream.dict, stream.content.len()),
        Object::Name(name) => ObjectView::Name(name.as_slice()),
        Object::Reference(id) => ObjectView::Reference(id.0, id.1),
        _ => ObjectView::Other,
    }
}

/// `Dictionary::remove` on the trailer; the id the removed entry referred
/// to, if it was a reference.
#[verifier::external_body]
pub(crate) fn remove_trailer_entry(document: &mut PdfDocument, key: &[u8]) -> (r: Option<(u32, u16)>)
    ensures
        final(document).source() == old(document).source(),
        final(document).edits() == old(document).edits().push(PdfEdit::RemoveTrailerEntry(key@)),
        r == referred(old(document).trailer(), key@),
        final(document).trailer() == old(document).trailer().remove(key@),
        final(document).objects() == old(document).objects(),
        final(document).encrypted() == old(document).encrypted(),
{
    document.edits = Ghost(document.edits@.push(PdfEdit::RemoveTrailerEntry(key@)));
    document.trailer = Ghost(document.trailer@.remove(key@));
    match document.document.trailer.remove(key) {
        Some(Object::Reference(id)) => Some(id),
        _ => None,
    }
}

/// `Document::get_dictionary_mut` of `id`, then `Dictionary::remove`: `None`
/// where references from `id` do not end at a dictionary, else the id the
/// removed entry referred to, if it was a reference.
#[verifier::external_body]
pub(crate) fn remove_dictionary_entry(document: &mut PdfDocument, id: (u32, u16), key: &[u8]) -> (r: Option<
    Option<(u32, u16)>,
>)
    ensures
        final(document).source() == old(document).source(),
        final(document).edits() == old(document).edits().push(PdfEdit::RemoveDictionaryEntry(id, key@)),
        final(document).trailer() == old(document).trailer(),
        final(document).encrypted() == old(document).encrypted(),
        final(document).objects() == without_dictionary_entry(old(document).objects(), id, key@),
        match followed(old(document).objects(), id, 128) {
            Some(target) => match old(document).objects()[target] {
                PdfSlot::Dictionary(entries) => r == Some(referred(entries, key@)),
                _ => r is None,
            },
            None => r is None,
        },
{
    document.edits = Ghost(document.edits@.push(PdfEdit::RemoveDictionaryEntry(id, key@)));
    document.objects = Ghost(without_dictionary_entry(document.objects@, id, key@));
    match document.document.get_dictionary_mut(id).ok()?.remove(key) {
        Some(Object::Reference(target)) => Some(Some(target)),
        _ => Some(None),
    }
}

/// Replaces object `id`, where there is one, by `Object::Null`.
#[verifier::external_body]
pub(crate) fn null_object(document: &mut PdfDocument, id: (u32, u16))
    ensures
        final(document).source() == old(document).source(),
        final(document).edits() == old(document).edits().push(PdfEdit::NullObject(id)),
        final(document).objects() == nulled(old(document).objects(), id),
        final(document).trailer() == old(document).trailer(),
        final(document).encrypted() == old(document).encrypted(),
{
    document.edits = Ghost(document.edits@.push(PdfEdit::NullObject(id)));
    document.objects = Ghost(nulled(document.objects@, id));
    if let Some(object) = document.document.objects.get_mut(&id) {
        *object = Object::Null;
    }
}

/// `Dictionary::remove` of `key` in the dictionary of object `id`, where it
/// is a dictionary or a stream.
#[verifier::external_body]
pub(crate) fn remove_object_entry(document: &mut PdfDocument, id: (u32, u16), key: &[u8])
    ensures
        final(document).source() == old(document).source(),
        final(document).edits() == old(document).edits().push(PdfEdit::RemoveObjectEntry(id, key@)),
        final(document).objects() == without_entry(old(document).objects(), id, key@),
        final(document).trailer() == old(document).trailer(),
        final(document).encrypted() == old(document).encrypted(),
{
    document.edits = Ghost(document.edits@.push(PdfEdit::RemoveObjectEntry(id, key@)));
    document.objects = Ghost(without_entry(document.objects@, id, key@));
    match document.document.objects.get_mut(&id) {
        Some(Object::Dictionary(dictionary)) => {
            dictionary.remove(key);
        },
        Some(Object::Stream(stream)) => {
            stream.dict.remove(key);
        },
        _ => {},
    }
}

/// `Document::save_to` into memory: the bytes written, or `None` on an
/// error; what `pdf_saved` names for the document's source and edits. A
/// document with an encryption state would be encrypted with fresh random
/// values, so it is not saved here.
#[verifier::external_body]
pub(crate) fn save_document(document: &mut PdfDocument) -> (r: Option<Vec<u8>>)
    requires
        !old(document).encrypted(),
    ensures
        match r {
            Some(bytes) => pdf_saved(old(document).source(), old(document).edits()) == Some(bytes@),
            None => pdf_saved(old(document).source(), old(document).edits()) is None,
        },
{
    let mut output = Vec::new();
    document.document.save_to(&mut output).ok()?;
    Some(output)
}

} // verus!
