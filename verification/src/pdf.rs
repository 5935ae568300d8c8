//! The PDF documents of `lopdf`, as the merge uses them. A document is held
//! as `lopdf::Document`. Of its contents the contracts speak through names:
//! the identifiers of its objects, its `max_id` counter, the identifiers of
//! its pages in page order, the entries of its dictionary objects and of its
//! trailer, its binary mark, and the bytes of the file that it is saved as.
//! Dictionary entries are modelled where their values are names, integers,
//! references or arrays of references, the forms that the merge writes.
use lopdf::{Dictionary, Document, Object};
use vstd::prelude::*;

verus! {

#[verifier::external_type_specification]
#[verifier::external_body]
pub struct ExDocument(Document);

#[verifier::external_type_specification]
#[verifier::external_body]
pub struct ExPdfError(lopdf::Error);

#[verifier::external_type_specification]
#[verifier::external_body]
pub struct ExIoError(std::io::Error);

#[verifier::external_type_specification]
#[verifier::external_body]
pub struct ExDictionary(Dictionary);

/// The value of a dictionary entry, in the forms that the merge writes: a
/// name (by its text), an integer, a reference, or an array of references.
pub enum PdfValue {
    Name(Seq<char>),
    Integer(int),
    Reference((u32, u16)),
    References(Seq<(u32, u16)>),
}

/// The identifiers (object number, generation) of the objects that a
/// document holds: the keys of `Document::objects`.
pub uninterp spec fn pdf_object_ids(doc: Document) -> Set<(u32, u16)>;

/// The `max_id` counter of a document.
pub uninterp spec fn pdf_max_id(doc: Document) -> u32;

/// The identifiers of a document's pages, in page order: the values of
/// `Document::get_pages`.
pub uninterp spec fn pdf_page_ids(doc: Document) -> Seq<(u32, u16)>;

/// The entries of a dictionary, keyed by the text of their keys, whose
/// values have one of the forms of `PdfValue`.
pub uninterp spec fn pdf_entries(dict: Dictionary) -> Map<Seq<char>, PdfValue>;

/// For each object of a document that is a dictionary, its entries as
/// `pdf_entries` gives them.
pub uninterp spec fn pdf_dictionaries(doc: Document) -> Map<(u32, u16), Map<Seq<char>, PdfValue>>;

/// The entries of a document's trailer, as `pdf_entries` gives them.
pub uninterp spec fn pdf_trailer(doc: Document) -> Map<Seq<char>, PdfValue>;

/// The `binary_mark` field of a document.
pub uninterp spec fn pdf_binary_mark(doc: Document) -> Seq<u8>;

/// The version of a document, as the text of its `version` field.
pub uninterp spec fn pdf_version(doc: Document) -> Seq<char>;

/// Every reference held in the document's objects and trailer names one of
/// its objects, and no two of its objects share an object number.
pub uninterp spec fn pdf_references_resolve(doc: Document) -> bool;

/// What `Document::renumber_objects_with(start)` makes of a document: its
/// object identifiers, its page identifiers and its dictionaries afterwards.
pub uninterp spec fn pdf_renumbered(doc: Document, start: u32) -> (
    Set<(u32, u16)>,
    Seq<(u32, u16)>,
    Map<(u32, u16), Map<Seq<char>, PdfValue>>,
);

/// The identifier that `Document::renumber_objects_with(start)` gives each
/// object of a document: its identifier before, mapped to the one after.
pub uninterp spec fn pdf_renumbering(doc: Document, start: u32) -> Map<(u32, u16), (u32, u16)>;

/// The bytes that `Document::save_to` writes for a document.
pub uninterp spec fn pdf_file_bytes(doc: Document) -> Seq<u8>;

/// The binary mark that a new document gets.
pub open spec fn default_binary_mark() -> Seq<u8> {
    seq![0xbbu8, 0xadu8, 0xc0u8, 0xdeu8]
}

/// Every byte of the binary mark has its high bit set, as `save_to` demands.
pub open spec fn binary_mark_valid(mark: Seq<u8>) -> bool {
    forall|i: int| 0 <= i < mark.len() ==> #[trigger] mark[i] >= 128
}

/// Calls `Display::to_string` on a `std::io::Error`. The text is not stated.
#[verifier::external_body]
pub(crate) fn io_error_text(e: &std::io::Error) -> String {
    e.to_string()
}

/// A document that renumbering leaves with its pages: its references all
/// name objects, no two of its objects share a number, and its page tree
/// lists no page twice.
pub open spec fn pages_survive_renumbering(doc: Document) -> bool {
    pdf_references_resolve(doc) && pdf_page_ids(doc).no_duplicates()
}

/// A dictionary value with each reference in it replaced by the identifier
/// that `ids` maps it to.
pub open spec fn renumbered_value(value: PdfValue, ids: Map<(u32, u16), (u32, u16)>) -> PdfValue {
    match value {
        PdfValue::Reference(id) => PdfValue::Reference(ids[id]),
        PdfValue::References(list) => PdfValue::References(list.map_values(|id: (u32, u16)| ids[id])),
        _ => value,
    }
}

/// Dictionary entries with each reference in them replaced by the identifier
/// that `ids` maps it to.
pub open spec fn renumbered_entries(
    entries: Map<Seq<char>, PdfValue>,
    ids: Map<(u32, u16), (u32, u16)>,
) -> Map<Seq<char>, PdfValue> {
    entries.map_values(|value: PdfValue| renumbered_value(value, ids))
}

/// The object numbers of the identifiers rise strictly along the sequence.
pub open spec fn numbers_ascending(ids: Seq<(u32, u16)>) -> bool {
    forall|i: int, j: int| 0 <= i < j < ids.len() ==> (#[trigger] ids[i]).0 < (#[trigger] ids[j]).0
}

/// Calls `Document::renumber_objects_with(start)`. Claimed: its outcome is a
/// function of the document and `start` alone; from its source, the objects
/// keep their generations and get the numbers `start`, `start + 1`, ... in
/// order, after the page objects have been reordered among themselves (which
/// may merge two objects, never add one), and `max_id` becomes the last
/// number given; every dictionary is one of its objects; the version and
/// the binary mark stay. Its counter would overflow past `u32::MAX`, and it
/// subtracts one from the counter at the end, hence the requirement.
/// Where every reference names an object, no two objects share a number and
/// the page tree lists no page twice, the reordering gives the pages rising
/// numbers in page order and the renumbering keeps that order, and every
/// reference met on a walk from the trailer, which reaches the page tree,
/// is rewritten to the new identifier: the page tree walks as before, so
/// page `i` afterwards is page `i` before under its new identifier, with
/// rising numbers, and a page that is a dictionary keeps its entries, their
/// references renumbered. Where a reference names no object, the page list
/// is not stated, for such a reference may come to name a renumbered
/// object; nor are the entries of dictionaries that no walk reaches.
#[verifier::external_body]
pub(crate) fn renumber_objects(doc: &mut Document, start: u32)
    requires
        1 <= start,
        start + pdf_object_ids(*old(doc)).len() <= u32::MAX,
    ensures
        pdf_object_ids(*final(doc)) == pdf_renumbered(*old(doc), start).0,
        pdf_page_ids(*final(doc)) == pdf_renumbered(*old(doc), start).1,
        pdf_dictionaries(*final(doc)) == pdf_renumbered(*old(doc), start).2,
        pdf_object_ids(*final(doc)).finite(),
        pdf_object_ids(*final(doc)).len() <= pdf_object_ids(*old(doc)).len(),
        pdf_max_id(*final(doc)) + 1 == start + pdf_object_ids(*final(doc)).len(),
        forall|id: (u32, u16)|
            #[trigger] pdf_object_ids(*final(doc)).contains(id) ==> start <= id.0 <= pdf_max_id(
                *final(doc),
            ),
        forall|id: (u32, u16)|
            #[trigger] pdf_dictionaries(*final(doc)).contains_key(id) ==> pdf_object_ids(
                *final(doc),
            ).contains(id),
        pdf_references_resolve(*old(doc)) && pdf_page_ids(*old(doc)).no_duplicates() ==> {
            &&& pdf_page_ids(*final(doc)).len() == pdf_page_ids(*old(doc)).len()
            &&& numbers_ascending(pdf_page_ids(*final(doc)))
            &&& forall|i: int|
                0 <= i < pdf_page_ids(*final(doc)).len() ==> #[trigger] pdf_page_ids(*final(doc))[i]
                    == pdf_renumbering(*old(doc), start)[pdf_page_ids(*old(doc))[i]]
            &&& forall|i: int|
                0 <= i < pdf_page_ids(*final(doc)).len() && pdf_dictionaries(*old(doc)).contains_key(
                    pdf_page_ids(*old(doc))[i],
                ) ==> pdf_dictionaries(*final(doc)).contains_key(
                    #[trigger] pdf_page_ids(*final(doc))[i],
                ) && pdf_dictionaries(*final(doc))[pdf_page_ids(*final(doc))[i]]
                    == renumbered_entries(
                    pdf_dictionaries(*old(doc))[pdf_page_ids(*old(doc))[i]],
                    pdf_renumbering(*old(doc), start),
                )
        },
        pdf_version(*final(doc)) == pdf_version(*old(doc)),
        pdf_binary_mark(*final(doc)) == pdf_binary_mark(*old(doc)),
{
    doc.renumber_objects_with(start)
}

/// Reads the `max_id` field of a document.
#[verifier::external_body]
pub(crate) fn max_object_id(doc: &Document) -> (r: u32)
    ensures
        r == pdf_max_id(*doc),
{
    doc.max_id
}

/// The document's page tree is one level deep and lists the pages `kids`:
/// the trailer's `Root` names the dictionary `catalog`, whose `Pages` names
/// the dictionary `pages`, whose `Kids` are references to `kids`, each a
/// dictionary of type `Page`; and there are no more kids than objects, nor
/// as many as `u32::MAX`.
pub open spec fn flat_page_tree(
    doc: Document,
    catalog: (u32, u16),
    pages: (u32, u16),
    kids: Seq<(u32, u16)>,
) -> bool {
    let dicts = pdf_dictionaries(doc);
    &&& pdf_trailer(doc).contains_key("Root"@)
    &&& pdf_trailer(doc)["Root"@] == PdfValue::Reference(catalog)
    &&& dicts.contains_key(catalog)
    &&& dicts[catalog].contains_key("Pages"@)
    &&& dicts[catalog]["Pages"@] == PdfValue::Reference(pages)
    &&& dicts.contains_key(pages)
    &&& dicts[pages].contains_key("Kids"@)
    &&& dicts[pages]["Kids"@] == PdfValue::References(kids)
    &&& forall|i: int|
        0 <= i < kids.len() ==> dicts.contains_key(#[trigger] kids[i]) && dicts[kids[i]].contains_key(
            "Type"@,
        ) && dicts[kids[i]]["Type"@] == PdfValue::Name("Page"@)
    &&& kids.len() <= pdf_object_ids(doc).len()
    &&& kids.len() < u32::MAX
}

/// Calls `Document::get_pages` and keeps its values, which come in page
/// order. Claimed, from the source of its page tree walk: each page is one
/// of the document's objects, and one that is a dictionary has the type
/// `Page`; the walk takes no more steps than there are objects, so there are
/// no more pages; and a page tree of one level gives its kids, in order.
#[verifier::external_body]
pub(crate) fn page_object_ids(doc: &Document) -> (r: Vec<(u32, u16)>)
    ensures
        r@ == pdf_page_ids(*doc),
        r.len() <= pdf_object_ids(*doc).len(),
        forall|i: int| 0 <= i < r.len() ==> pdf_object_ids(*doc).contains(#[trigger] r@[i]),
        forall|i: int|
            0 <= i < r.len() && pdf_dictionaries(*doc).contains_key(#[trigger] r@[i])
                ==> pdf_dictionaries(*doc)[r@[i]].contains_key("Type"@) && pdf_dictionaries(
                *doc,
            )[r@[i]]["Type"@] == PdfValue::Name("Page"@),
        forall|catalog: (u32, u16), pages: (u32, u16), kids: Seq<(u32, u16)>|
            #[trigger] flat_page_tree(*doc, catalog, pages, kids) ==> r@ == kids,
{
    doc.get_pages().into_values().collect()
}

/// Calls `Document::with_version("1.5")`. Claimed, from `Document::new`: the
/// new document has the version `1.5`, holds no object, its trailer is
/// empty, its `max_id` is 0 and its binary mark is `BB AD C0 DE`.
#[verifier::external_body]
pub(crate) fn new_document() -> (doc: Document)
    ensures
        pdf_object_ids(doc) == Set::<(u32, u16)>::empty(),
        pdf_dictionaries(doc).is_empty(),
        pdf_trailer(doc).is_empty(),
        pdf_max_id(doc) == 0,
        pdf_binary_mark(doc) == default_binary_mark(),
        pdf_version(doc) == "1.5"@,
{
    Document::with_version("1.5")
}

/// Calls `BTreeMap::append` on the object maps of two documents: every
/// object of `source` moves into `target`, replacing one there under the
/// same identifier. Claimed: the identifiers of `target` become the union;
/// its dictionaries are those of `source`, and those of its own whose
/// identifier `source` does not hold; its `max_id`, trailer, version and
/// binary mark stay.
#[verifier::external_body]
pub(crate) fn absorb_objects(target: &mut Document, source: &mut Document)
    ensures
        pdf_object_ids(*final(target)) == pdf_object_ids(*old(target)).union(
            pdf_object_ids(*old(source)),
        ),
        pdf_dictionaries(*final(target)) == pdf_dictionaries(*old(target)).remove_keys(
            pdf_object_ids(*old(source)),
        ).union_prefer_right(pdf_dictionaries(*old(source))),
        pdf_version(*final(target)) == pdf_version(*old(target)),
        pdf_max_id(*final(target)) == pdf_max_id(*old(target)),
        pdf_trailer(*final(target)) == pdf_trailer(*old(target)),
        pdf_binary_mark(*final(target)) == pdf_binary_mark(*old(target)),
{
    target.objects.append(&mut source.objects)
}

/// Calls `Document::new_object_id`, which adds one to `max_id` (and would
/// overflow at `u32::MAX`) and returns that number with generation 0. No
/// object is added, nothing else changes.
#[verifier::external_body]
pub(crate) fn allocate_object_id(doc: &mut Document) -> (id: (u32, u16))
    requires
        pdf_max_id(*old(doc)) < u32::MAX,
    ensures
        id == (((pdf_max_id(*old(doc)) + 1) as u32), 0u16),
        pdf_max_id(*final(doc)) == pdf_max_id(*old(doc)) + 1,
        pdf_object_ids(*final(doc)) == pdf_object_ids(*old(doc)),
        pdf_dictionaries(*final(doc)) == pdf_dictionaries(*old(doc)),
        pdf_trailer(*final(doc)) == pdf_trailer(*old(doc)),
        pdf_binary_mark(*final(doc)) == pdf_binary_mark(*old(doc)),
        pdf_version(*final(doc)) == pdf_version(*old(doc)),
{
    doc.new_object_id()
}

/// Calls `Document::get_dictionary_mut`: the object under `id`, or the
/// object that it refers to where it is a reference, as a dictionary; an
/// error where there is no such object or it is no dictionary. Claimed: a
/// dictionary under `id` itself is the one handed out; the one handed out is
/// a dictionary of the document, and what is done through it becomes that
/// dictionary's entries, the others staying; on an error nothing changes;
/// the object identifiers, `max_id`, trailer, version and binary mark stay
/// in any case.
#[verifier::external_body]
pub(crate) fn dictionary_of<'a>(doc: &'a mut Document, id: (u32, u16)) -> (r: Result<
    &'a mut Dictionary,
    lopdf::Error,
>)
    ensures
        pdf_object_ids(*final(doc)) == pdf_object_ids(*old(doc)),
        pdf_max_id(*final(doc)) == pdf_max_id(*old(doc)),
        pdf_trailer(*final(doc)) == pdf_trailer(*old(doc)),
        pdf_version(*final(doc)) == pdf_version(*old(doc)),
        pdf_binary_mark(*final(doc)) == pdf_binary_mark(*old(doc)),
        pdf_dictionaries(*old(doc)).contains_key(id) ==> r is Ok,
        r is Err ==> pdf_dictionaries(*final(doc)) == pdf_dictionaries(*old(doc)),
        r matches Ok(d) ==> exists|target: (u32, u16)|
            {
                &&& pdf_dictionaries(*old(doc)).contains_key(target)
                &&& pdf_dictionaries(*old(doc)).contains_key(id) ==> target == id
                &&& pdf_entries(*d) == pdf_dictionaries(*old(doc))[target]
                &&& pdf_dictionaries(*final(doc)) == pdf_dictionaries(*old(doc)).insert(
                    target,
                    pdf_entries(*final(d)),
                )
            },
{
    doc.get_dictionary_mut(id)
}

/// Calls `Dictionary::new`: a dictionary without entries.
#[verifier::external_body]
pub(crate) fn new_dictionary() -> (dict: Dictionary)
    ensures
        pdf_entries(dict).is_empty(),
{
    Dictionary::new()
}

/// Calls `Dictionary::set` with the name `name` as value: the entry under
/// `key` becomes that name.
#[verifier::external_body]
pub(crate) fn set_name_entry(dict: &mut Dictionary, key: &str, name: &str)
    ensures
        pdf_entries(*final(dict)) == pdf_entries(*old(dict)).insert(key@, PdfValue::Name(name@)),
{
    dict.set(key, Object::from(name))
}

/// Calls `Dictionary::set` with the integer `n` as value.
#[verifier::external_body]
pub(crate) fn set_integer_entry(dict: &mut Dictionary, key: &str, n: u32)
    ensures
        pdf_entries(*final(dict)) == pdf_entries(*old(dict)).insert(
            key@,
            PdfValue::Integer(n as int),
        ),
{
    dict.set(key, Object::from(n))
}

/// Calls `Dictionary::set` with a reference to the object `id` as value.
#[verifier::external_body]
pub(crate) fn set_reference_entry(dict: &mut Dictionary, key: &str, id: (u32, u16))
    ensures
        pdf_entries(*final(dict)) == pdf_entries(*old(dict)).insert(key@, PdfValue::Reference(id)),
{
    dict.set(key, Object::Reference(id))
}

/// Calls `Dictionary::set` with an array of references to the objects
/// `ids`, in their order, as value.
#[verifier::external_body]
pub(crate) fn set_references_entry(dict: &mut Dictionary, key: &str, ids: &Vec<(u32, u16)>)
    ensures
        pdf_entries(*final(dict)) == pdf_entries(*old(dict)).insert(
            key@,
            PdfValue::References(ids@),
        ),
{
    dict.set(key, Object::Array(ids.iter().map(|id| Object::Reference(*id)).collect()))
}

/// Calls `BTreeMap::insert` on the objects of a document, with the
/// dictionary as the object under `id`. Claimed: `id` is then among its
/// identifiers and its dictionary has the given entries; nothing else
/// changes.
#[verifier::external_body]
pub(crate) fn insert_dictionary(doc: &mut Document, id: (u32, u16), dict: Dictionary)
    ensures
        pdf_object_ids(*final(doc)) == pdf_object_ids(*old(doc)).insert(id),
        pdf_dictionaries(*final(doc)) == pdf_dictionaries(*old(doc)).insert(id, pdf_entries(dict)),
        pdf_max_id(*final(doc)) == pdf_max_id(*old(doc)),
        pdf_trailer(*final(doc)) == pdf_trailer(*old(doc)),
        pdf_binary_mark(*final(doc)) == pdf_binary_mark(*old(doc)),
        pdf_version(*final(doc)) == pdf_version(*old(doc)),
{
    doc.objects.insert(id, Object::Dictionary(dict));
}

/// Calls `Dictionary::set` on the trailer of a document, with a reference to
/// the object `id` as value. Nothing else changes.
#[verifier::external_body]
pub(crate) fn set_trailer_reference(doc: &mut Document, key: &str, id: (u32, u16))
    ensures
        pdf_trailer(*final(doc)) == pdf_trailer(*old(doc)).insert(key@, PdfValue::Reference(id)),
        pdf_object_ids(*final(doc)) == pdf_object_ids(*old(doc)),
        pdf_dictionaries(*final(doc)) == pdf_dictionaries(*old(doc)),
        pdf_max_id(*final(doc)) == pdf_max_id(*old(doc)),
        pdf_binary_mark(*final(doc)) == pdf_binary_mark(*old(doc)),
        pdf_version(*final(doc)) == pdf_version(*old(doc)),
{
    doc.trailer.set(key, Object::Reference(id))
}

/// Calls `BTreeMap::len` on the objects of a document: the number of its
/// object identifiers.
#[verifier::external_body]
pub(crate) fn object_count(doc: &Document) -> (r: usize)
    ensures
        r == pdf_object_ids(*doc).len(),
{
    doc.objects.len()
}

/// Writes the `max_id` field of a document; nothing else changes.
#[verifier::external_body]
pub(crate) fn set_max_id(doc: &mut Document, value: u32)
    ensures
        pdf_max_id(*final(doc)) == value,
        pdf_object_ids(*final(doc)) == pdf_object_ids(*old(doc)),
        pdf_dictionaries(*final(doc)) == pdf_dictionaries(*old(doc)),
        pdf_trailer(*final(doc)) == pdf_trailer(*old(doc)),
        pdf_binary_mark(*final(doc)) == pdf_binary_mark(*old(doc)),
        pdf_version(*final(doc)) == pdf_version(*old(doc)),
{
    doc.max_id = value;
}

/// Calls `Document::compress`, which compresses the content of the streams
/// that allow it. Claimed: the identifiers, the dictionary objects (streams
/// are none), `max_id`, trailer and binary mark stay.
#[verifier::external_body]
pub(crate) fn compress_streams(doc: &mut Document)
    ensures
        pdf_object_ids(*final(doc)) == pdf_object_ids(*old(doc)),
        pdf_dictionaries(*final(doc)) == pdf_dictionaries(*old(doc)),
        pdf_max_id(*final(doc)) == pdf_max_id(*old(doc)),
        pdf_trailer(*final(doc)) == pdf_trailer(*old(doc)),
        pdf_binary_mark(*final(doc)) == pdf_binary_mark(*old(doc)),
        pdf_version(*final(doc)) == pdf_version(*old(doc)),
{
    doc.compress()
}

/// The header with which a PDF file begins: `%PDF-`.
pub open spec fn pdf_header() -> Seq<u8> {
    seq![0x25u8, 0x50u8, 0x44u8, 0x46u8, 0x2du8]
}

/// The marker with which a PDF file ends: `%%EOF`.
pub open spec fn pdf_end_marker() -> Seq<u8> {
    seq![0x25u8, 0x25u8, 0x45u8, 0x4fu8, 0x46u8]
}

/// The bytes begin with the PDF header and end with the end marker, written
/// one after the other.
pub open spec fn framed_as_pdf(bytes: Seq<u8>) -> bool {
    &&& bytes.len() >= pdf_header().len() + pdf_end_marker().len()
    &&& bytes.take(pdf_header().len() as int) == pdf_header()
    &&& bytes.skip(bytes.len() - pdf_end_marker().len()) == pdf_end_marker()
}

/// Calls `Document::save_to` with a byte buffer as target. Claimed, from its
/// source: it fails only where a write to its target fails, which a `Vec`
/// never does, or where the binary mark has a byte below 128; otherwise it
/// appends the document's file, which starts with `%PDF-` (its first write)
/// and ends with `%%EOF` (its last), and is a function of the document. It
/// adds one, then two, to `max_id` when it writes the cross-reference stream
/// of a new document, which would overflow near `u32::MAX`, hence the
/// requirement. Which bytes lie in between is not stated.
#[verifier::external_body]
pub(crate) fn write_pdf(doc: &mut Document, target: &mut Vec<u8>) -> (r: Result<(), std::io::Error>)
    requires
        pdf_max_id(*old(doc)) < u32::MAX - 1,
    ensures
        binary_mark_valid(pdf_binary_mark(*old(doc))) ==> r is Ok,
        r is Ok ==> final(target)@ == old(target)@ + pdf_file_bytes(*old(doc)) && framed_as_pdf(
            pdf_file_bytes(*old(doc)),
        ),
{
    doc.save_to(target)
}

} // verus!
