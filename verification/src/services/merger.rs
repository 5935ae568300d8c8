//! The merge service: planning, inspecting, validating and preparing the
//! inputs of a merge, and assembling the merged PDF document.
use crate::domain::{
    FileFacts, FileMetadata, MergePlan, MergeRequest, MergeResult, PrepareStep, PreviewItem,
    PreviewRequest, SupportedKind,
};
use crate::errors::AppError;
use crate::pdf::{
    absorb_objects, allocate_object_id, binary_mark_valid, compress_streams, default_binary_mark,
    dictionary_of, framed_as_pdf, insert_dictionary, io_error_text, max_object_id,
    new_dictionary, new_document, object_count, page_object_ids, pdf_binary_mark,
    pdf_dictionaries, pdf_file_bytes, pdf_max_id, pdf_object_ids, pdf_page_ids, pdf_renumbered,
    pdf_trailer, pdf_version, pages_survive_renumbering, pdf_renumbering, renumbered_entries,
    numbers_ascending, flat_page_tree, renumber_objects, set_integer_entry, set_max_id, set_name_entry,
    set_reference_entry, set_references_entry, set_trailer_reference, write_pdf, PdfValue,
};
use lopdf::Document;
use crate::text::{
    ascii_lower_char, ascii_lowercase, ends_with, has_suffix, is_ascii_text, lemma_ascii_case_folds_together,
    lowercase, to_lowercase,
};
use vstd::prelude::*;

verus! {

/// The merge service. It holds no state.
pub struct MergerService;

impl Default for MergerService {
    fn default() -> (r: Self)
        ensures
            r == MergerService,
    {
        MergerService
    }
}

/// The sum of the sizes of the items.
pub open spec fn total_size(items: Seq<PreviewItem>) -> nat
    decreases items.len(),
{
    if items.len() == 0 {
        0
    } else {
        total_size(items.drop_last()) + items.last().size as nat
    }
}

/// Some item is of the kind.
pub open spec fn has_kind(items: Seq<PreviewItem>, kind: SupportedKind) -> bool {
    exists|i: int| 0 <= i < items.len() && #[trigger] items[i].kind == kind
}

/// The sizes of a prefix add up to no more than those of the whole.
pub proof fn lemma_total_size_prefix(items: Seq<PreviewItem>, n: int)
    requires
        0 <= n <= items.len(),
    ensures
        total_size(items.take(n)) <= total_size(items),
    decreases items.len() - n,
{
    if n < items.len() {
        lemma_total_size_prefix(items, n + 1);
        assert(items.take(n + 1).drop_last() =~= items.take(n));
    } else {
        assert(items.take(n) =~= items);
    }
}

/// The kind that a file name in lowercase stands for: a PDF by the suffix
/// `.pdf`, an image by `.jpg`, `.jpeg`, `.png` or `.webp`.
pub open spec fn kind_of_lowercase_name(normalized: Seq<char>) -> Option<SupportedKind> {
    if has_suffix(normalized, ".pdf"@) {
        Some(SupportedKind::Pdf)
    } else if has_suffix(normalized, ".jpg"@) || has_suffix(normalized, ".jpeg"@) || has_suffix(
        normalized,
        ".png"@,
    ) || has_suffix(normalized, ".webp"@) {
        Some(SupportedKind::Image)
    } else {
        None
    }
}

/// The kind that a file name in lowercase stands for.
pub fn kind_of_normalized_name(normalized: &str) -> (r: Option<SupportedKind>)
    ensures
        r == kind_of_lowercase_name(normalized@),
        has_suffix(normalized@, ".pdf"@) ==> r == Some(SupportedKind::Pdf),
        !has_suffix(normalized@, ".pdf"@) && (has_suffix(normalized@, ".jpg"@) || has_suffix(
            normalized@,
            ".jpeg"@,
        ) || has_suffix(normalized@, ".png"@) || has_suffix(normalized@, ".webp"@)) ==> r == Some(
            SupportedKind::Image,
        ),
        r is None <==> !has_suffix(normalized@, ".pdf"@) && !has_suffix(normalized@, ".jpg"@)
            && !has_suffix(normalized@, ".jpeg"@) && !has_suffix(normalized@, ".png"@) && !has_suffix(
            normalized@,
            ".webp"@,
        ),
{
    if ends_with(normalized, ".pdf") {
        return Some(SupportedKind::Pdf);
    }
    if ends_with(normalized, ".jpg") || ends_with(normalized, ".jpeg") || ends_with(
        normalized,
        ".png",
    ) || ends_with(normalized, ".webp") {
        Some(SupportedKind::Image)
    } else {
        None
    }
}

/// The kind of input that a file name stands for, whatever the case of its
/// letters.
pub fn detect_supported_kind(file_name: &str) -> (r: Option<SupportedKind>)
    ensures
        r == kind_of_lowercase_name(lowercase(file_name@)),
        is_ascii_text(file_name@) ==> r == kind_of_lowercase_name(ascii_lowercase(file_name@)),
        has_suffix(lowercase(file_name@), ".pdf"@) ==> r == Some(SupportedKind::Pdf),
        !has_suffix(lowercase(file_name@), ".pdf"@) && (has_suffix(lowercase(file_name@), ".jpg"@)
            || has_suffix(lowercase(file_name@), ".jpeg"@) || has_suffix(
            lowercase(file_name@),
            ".png"@,
        ) || has_suffix(lowercase(file_name@), ".webp"@)) ==> r == Some(SupportedKind::Image),
{
    let normalized = to_lowercase(file_name);
    kind_of_normalized_name(normalized.as_str())
}

/// The page count shown for an input: none for an image; for a PDF, the
/// number of pages of the loaded document, or the failure to load it.
pub fn inspect_page_count(kind: SupportedKind, pdf_document: &Result<Document, String>) -> (r: Result<
    Option<u32>,
    AppError,
>)
    ensures
        kind == SupportedKind::Image ==> r == Ok::<Option<u32>, AppError>(None),
        kind == SupportedKind::Pdf ==> match pdf_document {
            Err(m) => r matches Err(AppError::Pdf(e)) && e@ == m@,
            Ok(d) => r == Ok::<Option<u32>, AppError>(Some(pdf_page_ids(*d).len() as u32)),
        },
{
    match kind {
        SupportedKind::Image => Ok(None),
        SupportedKind::Pdf => match pdf_document {
            Err(m) => Err(AppError::Pdf(m.clone())),
            Ok(document) => {
                let pages = page_object_ids(document);
                Ok(Some(pages.len() as u32))
            },
        },
    }
}

/// The pixel width shown for an input: none for a PDF; for an image, what
/// reading its dimensions gave.
pub fn inspect_pixel_width(kind: SupportedKind, width: &Result<u32, String>) -> (r: Result<
    Option<u32>,
    AppError,
>)
    ensures
        kind == SupportedKind::Pdf ==> r == Ok::<Option<u32>, AppError>(None),
        kind == SupportedKind::Image ==> match width {
            Ok(w) => r == Ok::<Option<u32>, AppError>(Some(*w)),
            Err(m) => r matches Err(AppError::Image(e)) && e@ == m@,
        },
{
    match kind {
        SupportedKind::Pdf => Ok(None),
        SupportedKind::Image => match width {
            Ok(w) => Ok(Some(*w)),
            Err(m) => Err(AppError::Image(m.clone())),
        },
    }
}

/// The pixel height shown for an input: none for a PDF; for an image, what
/// reading its dimensions gave.
pub fn inspect_pixel_height(kind: SupportedKind, height: &Result<u32, String>) -> (r: Result<
    Option<u32>,
    AppError,
>)
    ensures
        kind == SupportedKind::Pdf ==> r == Ok::<Option<u32>, AppError>(None),
        kind == SupportedKind::Image ==> match height {
            Ok(h) => r == Ok::<Option<u32>, AppError>(Some(*h)),
            Err(m) => r matches Err(AppError::Image(e)) && e@ == m@,
        },
{
    match kind {
        SupportedKind::Pdf => Ok(None),
        SupportedKind::Image => match height {
            Ok(h) => Ok(Some(*h)),
            Err(m) => Err(AppError::Image(m.clone())),
        },
    }
}

/// The name shown for an input: its file name, or else the whole path.
pub open spec fn shown_name(path: Seq<char>, file_name: Option<String>) -> Seq<char> {
    match file_name {
        Some(n) => n@,
        None => path,
    }
}

/// `item` shows the input at `path` with these values.
pub open spec fn item_shows(
    item: PreviewItem,
    path: Seq<char>,
    name: Seq<char>,
    kind: SupportedKind,
    size: u64,
    page_count: Option<u32>,
    pixel_width: Option<u32>,
    pixel_height: Option<u32>,
) -> bool {
    &&& item.path@ == path
    &&& item.name@ == name
    &&& item.kind == kind
    &&& item.size == size
    &&& item.page_count == page_count
    &&& item.pixel_width == pixel_width
    &&& item.pixel_height == pixel_height
}

/// What inspecting the path gives, from what was read of it: a missing path
/// is an error; a path that is no regular file, or whose name is of no
/// supported kind, is skipped; otherwise the item carries the size, and the
/// page count of a PDF or the pixel size of an image, or the error met in
/// reading them.
pub open spec fn inspected_as(
    path: Seq<char>,
    facts: FileFacts,
    r: Result<Option<PreviewItem>, AppError>,
) -> bool {
    if !facts.exists {
        r matches Err(AppError::MissingInputFile(p)) && p@ == path
    } else {
        match facts.metadata {
            Err(m) => r matches Err(AppError::Io(e)) && e@ == m@,
            Ok(meta) => if !meta.is_file {
                r matches Ok(None)
            } else {
                let name = shown_name(path, facts.file_name);
                match kind_of_lowercase_name(lowercase(name)) {
                    None => r matches Ok(None),
                    Some(SupportedKind::Pdf) => match facts.pdf_document {
                        Err(m) => r matches Err(AppError::Pdf(e)) && e@ == m@,
                        Ok(d) => r matches Ok(Some(item)) && item_shows(
                            item,
                            path,
                            name,
                            SupportedKind::Pdf,
                            meta.len,
                            Some(pdf_page_ids(d).len() as u32),
                            None,
                            None,
                        ),
                    },
                    Some(SupportedKind::Image) => match facts.pixel_width {
                        Err(m) => r matches Err(AppError::Image(e)) && e@ == m@,
                        Ok(w) => match facts.pixel_height {
                            Err(m) => r matches Err(AppError::Image(e)) && e@ == m@,
                            Ok(h) => r matches Ok(Some(item)) && item_shows(
                                item,
                                path,
                                name,
                                SupportedKind::Image,
                                meta.len,
                                None,
                                Some(w),
                                Some(h),
                            ),
                        },
                    },
                }
            },
        }
    }
}

/// Inspects one picked path, from what was read of it.
pub fn inspect_input_path(path: &String, facts: FileFacts) -> (r: Result<
    Option<PreviewItem>,
    AppError,
>)
    ensures
        inspected_as(path@, facts, r),
        r matches Ok(Some(item)) ==> {
            &&& item.path@ == path@
            &&& item.name@ == shown_name(path@, facts.file_name)
            &&& facts.metadata matches Ok(meta) && item.size == meta.len
        },
{
    if !facts.exists {
        return Err(AppError::MissingInputFile(path.clone()));
    }
    let metadata: FileMetadata = match &facts.metadata {
        Ok(meta) => *meta,
        Err(m) => return Err(AppError::Io(m.clone())),
    };
    if !metadata.is_file {
        return Ok(None);
    }
    let name: String = match &facts.file_name {
        Some(n) => n.clone(),
        None => path.clone(),
    };
    let kind = match detect_supported_kind(name.as_str()) {
        Some(kind) => kind,
        None => return Ok(None),
    };
    let page_count = match inspect_page_count(kind, &facts.pdf_document) {
        Ok(c) => c,
        Err(e) => return Err(e),
    };
    let pixel_width = match inspect_pixel_width(kind, &facts.pixel_width) {
        Ok(w) => w,
        Err(e) => return Err(e),
    };
    let pixel_height = match inspect_pixel_height(kind, &facts.pixel_height) {
        Ok(h) => h,
        Err(e) => return Err(e),
    };
    Ok(
        Some(
            PreviewItem {
                path: path.clone(),
                name,
                kind,
                size: metadata.len,
                page_count,
                pixel_width,
                pixel_height,
            },
        ),
    )
}

/// The items that a sequence of inspections yields, in order: the first
/// error met, or else every inspected item, the skipped paths left out.
pub open spec fn collect_inspected(outcomes: Seq<Result<Option<PreviewItem>, AppError>>) -> Result<
    Seq<PreviewItem>,
    AppError,
>
    decreases outcomes.len(),
{
    if outcomes.len() == 0 {
        Ok(Seq::empty())
    } else {
        match collect_inspected(outcomes.drop_last()) {
            Err(e) => Err(e),
            Ok(items) => match outcomes.last() {
                Err(e) => Err(e),
                Ok(Some(item)) => Ok(items.push(item)),
                Ok(None) => Ok(items),
            },
        }
    }
}

/// What inspecting the picked inputs answers: the collected items, or
/// `NoSupportedInputs` where none was collected.
pub open spec fn inspection_answer(outcomes: Seq<Result<Option<PreviewItem>, AppError>>) -> Result<
    Seq<PreviewItem>,
    AppError,
> {
    match collect_inspected(outcomes) {
        Err(e) => Err(e),
        Ok(items) => if items.len() == 0 {
            Err(AppError::NoSupportedInputs)
        } else {
            Ok(items)
        },
    }
}

/// Once an error is met, the inspections that follow do not change the
/// answer.
pub proof fn lemma_collect_error_persists(
    outcomes: Seq<Result<Option<PreviewItem>, AppError>>,
    n: int,
)
    requires
        0 <= n <= outcomes.len(),
        collect_inspected(outcomes.take(n)) is Err,
    ensures
        collect_inspected(outcomes) == collect_inspected(outcomes.take(n)),
    decreases outcomes.len() - n,
{
    if n < outcomes.len() {
        assert(outcomes.take(n + 1).drop_last() =~= outcomes.take(n));
        lemma_collect_error_persists(outcomes, n + 1);
    } else {
        assert(outcomes.take(n) =~= outcomes);
    }
}

/// The output path names a PDF file: it ends with `.pdf`, whatever the case
/// of its letters.
pub open spec fn is_pdf_output_path(output_path: Seq<char>) -> bool {
    has_suffix(lowercase(output_path), ".pdf"@)
}

/// Every item exists.
pub open spec fn all_present(present: Seq<bool>) -> bool {
    forall|i: int| 0 <= i < present.len() ==> #[trigger] present[i]
}

/// `i` is the first item that does not exist.
pub open spec fn first_missing(present: Seq<bool>, i: int) -> bool {
    &&& 0 <= i < present.len()
    &&& !present[i]
    &&& forall|j: int| 0 <= j < i ==> #[trigger] present[j]
}

/// Checks a merge request before any work: it must hold items, name a PDF
/// output file, and every item must exist (`present[i]` tells whether the
/// path of item `i` exists). The first check that fails gives the error.
pub fn validate_request(request: &MergeRequest, present: &Vec<bool>) -> (r: Result<(), AppError>)
    requires
        present.len() == request.items.len(),
    ensures
        request.items.len() == 0 ==> r == Err::<(), AppError>(AppError::EmptyInput),
        request.items.len() > 0 && !is_pdf_output_path(request.output_path@) ==> r == Err::<
            (),
            AppError,
        >(AppError::InvalidOutputPath),
        request.items.len() > 0 && is_pdf_output_path(request.output_path@) && all_present(
            present@,
        ) ==> r == Ok::<(), AppError>(()),
        request.items.len() > 0 && !has_suffix(lowercase(request.output_path@), ".pdf"@) ==> r
            == Err::<(), AppError>(AppError::InvalidOutputPath),
        request.items.len() > 0 && has_suffix(lowercase(request.output_path@), ".pdf"@)
            && all_present(present@) ==> r == Ok::<(), AppError>(()),
        forall|i: int|
            request.items.len() > 0 && has_suffix(lowercase(request.output_path@), ".pdf"@) && 0 <= i
                < present.len() && !present@[i] && (forall|j: int|
                0 <= j < i ==> #[trigger] present@[j]) ==> (r matches Err(
                AppError::MissingInputFile(p),
            ) && p@ == request.items@[i].path@),
        forall|i: int|
            request.items.len() > 0 && is_pdf_output_path(request.output_path@) && first_missing(
                present@,
                i,
            ) ==> (r matches Err(AppError::MissingInputFile(p)) && p@ == request.items@[i].path@),
{
    if request.items.len() == 0 {
        return Err(AppError::EmptyInput);
    }
    let normalized = to_lowercase(request.output_path.as_str());
    if !ends_with(normalized.as_str(), ".pdf") {
        return Err(AppError::InvalidOutputPath);
    }
    let n = request.items.len();
    let mut i: usize = 0;
    while i < n
        invariant
            n == request.items.len(),
            n == present.len(),
            n > 0,
            is_pdf_output_path(request.output_path@),
            i <= n,
            forall|j: int| 0 <= j < i ==> #[trigger] present@[j],
        decreases n - i,
    {
        if !present[i] {
            proof {
                assert forall|k: int| #[trigger] first_missing(present@, k) implies k == i by {
                    if k < i {
                        assert(present@[k]);
                    } else if k > i {
                        assert(present@[i as int]);
                    }
                }
            }
            return Err(AppError::MissingInputFile(request.items[i].path.clone()));
        }
        match request.items[i].kind {
            SupportedKind::Image | SupportedKind::Pdf => {},
        }
        i = i + 1;
    }
    proof {
        assert forall|k: int| !first_missing(present@, k) by {
            if 0 <= k < present@.len() {
                assert(present@[k]);
            }
        }
    }
    Ok(())
}

/// How the item at `index` of the request becomes a PDF source: a PDF is
/// used from its path, an image is converted with the request's page
/// settings and its own index.
pub open spec fn prepared_as(step: PrepareStep, request: MergeRequest, index: int) -> bool {
    let item = request.items@[index];
    match item.kind {
        SupportedKind::Pdf => step matches PrepareStep::UsePdf { path } && path@ == item.path@,
        SupportedKind::Image => step matches PrepareStep::ConvertImage {
            path,
            index: k,
            page_size,
            margin_mm,
            fit_mode,
        } && path@ == item.path@ && k == index && page_size == request.image_page_size
            && margin_mm == request.image_margin_mm && fit_mode == request.image_fit_mode,
    }
}

/// One preparation step per queued item, in queue order.
pub fn prepare_input_pdfs(request: &MergeRequest) -> (steps: Vec<PrepareStep>)
    ensures
        steps.len() == request.items.len(),
        forall|i: int| 0 <= i < steps.len() ==> prepared_as(#[trigger] steps@[i], *request, i),
        forall|i: int|
            0 <= i < steps.len() ==> match #[trigger] steps@[i] {
                PrepareStep::UsePdf { path } => request.items@[i].kind == SupportedKind::Pdf
                    && path@ == request.items@[i].path@,
                PrepareStep::ConvertImage { path, index, page_size, margin_mm, fit_mode } =>
                request.items@[i].kind == SupportedKind::Image && path@ == request.items@[i].path@
                    && index == i && page_size == request.image_page_size && margin_mm
                    == request.image_margin_mm && fit_mode == request.image_fit_mode,
            },
{
    let n = request.items.len();
    let mut steps: Vec<PrepareStep> = Vec::new();
    let mut i: usize = 0;
    while i < n
        invariant
            n == request.items.len(),
            i <= n,
            steps.len() == i,
            forall|j: int| 0 <= j < i ==> prepared_as(#[trigger] steps@[j], *request, j),
        decreases n - i,
    {
        let item = &request.items[i];
        let step = match item.kind {
            SupportedKind::Pdf => PrepareStep::UsePdf { path: item.path.clone() },
            SupportedKind::Image => PrepareStep::ConvertImage {
                path: item.path.clone(),
                index: i,
                page_size: request.image_page_size,
                margin_mm: request.image_margin_mm,
                fit_mode: request.image_fit_mode,
            },
        };
        steps.push(step);
        proof {
            assert(steps@[i as int] == step);
        }
        i = i + 1;
    }
    steps
}

/// The answer to a merge that went through: the output path, the number of
/// merged items and the status `completed`.
pub fn completed_merge_result(request: &MergeRequest) -> (r: MergeResult)
    ensures
        r.output_path@ == request.output_path@,
        r.merged_items == request.items.len(),
        r.status@ == "completed"@,
{
    MergeResult {
        output_path: request.output_path.clone(),
        merged_items: request.items.len(),
        status: String::from_str("completed"),
    }
}

/// The merged document, with the page tree that the merge gave it: the
/// identifiers of its `Pages` and `Catalog` dictionaries, the first object
/// number given to each input, the page identifiers of each input after
/// renumbering, in input order, the `Kids` and `Count` entries of the
/// `Pages` dictionary, and the pages that `lopdf` finds in the merged
/// document, in page order.
pub struct MergedPdf {
    pub document: Document,
    pub pages_id: (u32, u16),
    pub catalog_id: (u32, u16),
    pub starts: Vec<u32>,
    pub page_runs: Vec<Vec<(u32, u16)>>,
    pub kids: Vec<(u32, u16)>,
    pub page_count: u32,
    pub pages: Vec<(u32, u16)>,
}

/// The number of objects that the documents hold together.
pub open spec fn object_total(docs: Seq<Document>) -> nat
    decreases docs.len(),
{
    if docs.len() == 0 {
        0
    } else {
        object_total(docs.drop_last()) + pdf_object_ids(docs.last()).len()
    }
}

/// The page identifiers of all runs, one run after the other.
pub open spec fn flatten_runs(runs: Seq<Vec<(u32, u16)>>) -> Seq<(u32, u16)>
    decreases runs.len(),
{
    if runs.len() == 0 {
        Seq::empty()
    } else {
        flatten_runs(runs.drop_last()) + runs.last()@
    }
}

/// The object identifiers of input `k` once renumbered from `starts[k]`.
pub open spec fn renumbered_ids(docs: Seq<Document>, starts: Seq<u32>, k: int) -> Set<(u32, u16)> {
    pdf_renumbered(docs[k], starts[k]).0
}

/// The dictionaries of input `k` once renumbered from `starts[k]`.
pub open spec fn renumbered_dictionaries(docs: Seq<Document>, starts: Seq<u32>, k: int) -> Map<
    (u32, u16),
    Map<Seq<char>, PdfValue>,
> {
    pdf_renumbered(docs[k], starts[k]).2
}

/// Each page of the document is a dictionary object, not a reference to one.
pub open spec fn pages_are_dictionaries(doc: Document) -> bool {
    forall|j: int|
        0 <= j < pdf_page_ids(doc).len() ==> pdf_dictionaries(doc).contains_key(
            #[trigger] pdf_page_ids(doc)[j],
        )
}

/// Renumbered from `start`, the document keeps its pages: as many, with
/// rising numbers; page `j` afterwards is page `j` before under the
/// identifier that renumbering gives it; and a page that is a dictionary
/// keeps its entries, their references renumbered.
pub open spec fn renumbering_keeps_pages(doc: Document, start: u32) -> bool {
    let before = pdf_page_ids(doc);
    let after = pdf_renumbered(doc, start).1;
    let dicts = pdf_renumbered(doc, start).2;
    let ids = pdf_renumbering(doc, start);
    &&& after.len() == before.len()
    &&& numbers_ascending(after)
    &&& forall|j: int| 0 <= j < after.len() ==> #[trigger] after[j] == ids[before[j]]
    &&& forall|j: int|
        0 <= j < after.len() && pdf_dictionaries(doc).contains_key(before[j]) ==> dicts.contains_key(
            #[trigger] after[j],
        ) && dicts[after[j]] == renumbered_entries(pdf_dictionaries(doc)[before[j]], ids)
}

/// The entries of a page dictionary once the merge has made the `Pages`
/// dictionary `pages_id` its parent.
pub open spec fn with_parent(entries: Map<Seq<char>, PdfValue>, pages_id: (u32, u16)) -> Map<
    Seq<char>,
    PdfValue,
> {
    entries.insert("Parent"@, PdfValue::Reference(pages_id))
}

/// The number that follows the objects of input `k` once renumbered.
pub open spec fn next_start(docs: Seq<Document>, starts: Seq<u32>, k: int) -> int {
    starts[k] + renumbered_ids(docs, starts, k).len()
}

/// The entries of the `Pages` dictionary: its type, its kids and their count.
pub open spec fn pages_entries(kids: Seq<(u32, u16)>, count: u32) -> Map<Seq<char>, PdfValue> {
    Map::<Seq<char>, PdfValue>::empty().insert("Type"@, PdfValue::Name("Pages"@)).insert(
        "Kids"@,
        PdfValue::References(kids),
    ).insert("Count"@, PdfValue::Integer(count as int))
}

/// The entries of the `Catalog` dictionary: its type and its page tree.
pub open spec fn catalog_entries(pages_id: (u32, u16)) -> Map<Seq<char>, PdfValue> {
    Map::<Seq<char>, PdfValue>::empty().insert("Type"@, PdfValue::Name("Catalog"@)).insert(
        "Pages"@,
        PdfValue::Reference(pages_id),
    )
}

/// `m` is the merge of the documents `docs`, in order:
/// - input `k` is renumbered from `starts[k]`: the first from 1, each next one
///   from the number that follows the one before; its objects keep their
///   numbers in that range, and its pages after renumbering are the run
///   `page_runs[k]`, each one of its renumbered objects;
/// - the merged document holds every renumbered object of every input, and
///   besides them only its `Pages` and `Catalog` dictionaries, which take the
///   two numbers that follow the last input's;
/// - `Kids` are the runs one after the other and `Count` their number (as a
///   `u32`); the `Pages` dictionary holds exactly these, with its type; the
///   `Catalog` names it as its page tree; the trailer's `Root` names the
///   `Catalog`;
/// - every renumbered dictionary of every input is a dictionary of the merged
///   document, with its entries, or with its entries and `Parent` (lopdf
///   follows a kid that is a reference to the dictionary it names); a kid
///   that is one of them keeps its entries and gets `Parent`, naming the
///   `Pages` dictionary;
/// - every kid is an object of the merged document, and where every kid is
///   a dictionary, the pages that `lopdf` finds in the merged document are
///   the kids, in order; `pages` are the pages it finds;
/// - where an input's references all name objects, no two of its objects
///   share a number and its page tree lists no page twice, renumbering
///   keeps its pages: its run has as many pages as the input, with rising
///   numbers, each the renumbered page of the input at that place, with
///   the input page's entries, their references renumbered;
/// - where every input is such and every page of every input is a
///   dictionary, every kid is a dictionary;
/// - `max_id` is the number of objects (as a `u32`), the version is `1.5`
///   and the binary mark is the one that a new document gets.
pub open spec fn assembled(m: MergedPdf, docs: Seq<Document>) -> bool {
    let n = docs.len() as int;
    let starts = m.starts@;
    let ids = pdf_object_ids(m.document);
    &&& n > 0
    &&& starts.len() == n
    &&& starts[0] == 1
    &&& forall|k: int| 0 <= k < n - 1 ==> #[trigger] starts[k + 1] == next_start(docs, starts, k)
    &&& forall|k: int, id: (u32, u16)|
        0 <= k < n && #[trigger] renumbered_ids(docs, starts, k).contains(id) ==> starts[k] <= id.0
            < next_start(docs, starts, k)
    &&& m.pages_id == (next_start(docs, starts, n - 1) as u32, 0u16)
    &&& m.catalog_id == ((next_start(docs, starts, n - 1) + 1) as u32, 0u16)
    &&& ids.finite()
    &&& forall|id: (u32, u16)|
        #[trigger] ids.contains(id) <==> (id == m.pages_id || id == m.catalog_id || exists|k: int|
            0 <= k < n && #[trigger] renumbered_ids(docs, starts, k).contains(id))
    &&& m.page_runs.len() == n
    &&& forall|k: int| 0 <= k < n ==> (#[trigger] m.page_runs@[k])@ == pdf_renumbered(
        docs[k],
        starts[k],
    ).1
    &&& forall|k: int, i: int|
        0 <= k < n && 0 <= i < m.page_runs@[k].len() ==> renumbered_ids(docs, starts, k).contains(
            #[trigger] m.page_runs@[k]@[i],
        )
    &&& m.kids@ == flatten_runs(m.page_runs@)
    &&& m.page_count == m.kids.len() as u32
    &&& pdf_dictionaries(m.document).contains_key(m.pages_id)
    &&& pdf_dictionaries(m.document)[m.pages_id] == pages_entries(m.kids@, m.page_count)
    &&& pdf_dictionaries(m.document).contains_key(m.catalog_id)
    &&& pdf_dictionaries(m.document)[m.catalog_id] == catalog_entries(m.pages_id)
    &&& pdf_trailer(m.document).contains_key("Root"@)
    &&& pdf_trailer(m.document)["Root"@] == PdfValue::Reference(m.catalog_id)
    &&& forall|k: int, id: (u32, u16)|
        0 <= k < n && #[trigger] renumbered_dictionaries(docs, starts, k).contains_key(id) ==> {
            let entries = renumbered_dictionaries(docs, starts, k)[id];
            &&& pdf_dictionaries(m.document).contains_key(id)
            &&& pdf_dictionaries(m.document)[id] == entries || pdf_dictionaries(m.document)[id]
                == with_parent(entries, m.pages_id)
        }
    &&& forall|k: int, i: int|
        #![trigger renumbered_dictionaries(docs, starts, k).contains_key(m.kids@[i])]
        0 <= k < n && 0 <= i < m.kids.len() && renumbered_dictionaries(docs, starts, k).contains_key(
            m.kids@[i],
        ) ==> pdf_dictionaries(m.document)[m.kids@[i]] == with_parent(
            renumbered_dictionaries(docs, starts, k)[m.kids@[i]],
            m.pages_id,
        )
    &&& forall|i: int|
        0 <= i < m.kids.len() && pdf_dictionaries(m.document).contains_key(#[trigger] m.kids@[i])
            ==> pdf_dictionaries(m.document)[m.kids@[i]].contains_key("Parent"@)
            && pdf_dictionaries(m.document)[m.kids@[i]]["Parent"@] == PdfValue::Reference(
            m.pages_id,
        )
    &&& forall|i: int| 0 <= i < m.kids.len() ==> ids.contains(#[trigger] m.kids@[i])
    &&& m.pages@ == pdf_page_ids(m.document)
    &&& (forall|i: int|
        0 <= i < m.kids.len() ==> pdf_dictionaries(m.document).contains_key(#[trigger] m.kids@[i]))
        ==> m.pages@ == m.kids@
    &&& forall|k: int|
        0 <= k < n && #[trigger] pages_survive_renumbering(docs[k]) ==> renumbering_keeps_pages(
            docs[k],
            starts[k],
        )
    &&& (forall|k: int|
        0 <= k < n ==> pages_survive_renumbering(#[trigger] docs[k]) && pages_are_dictionaries(
            docs[k],
        )) ==> forall|i: int|
        0 <= i < m.kids.len() ==> pdf_dictionaries(m.document).contains_key(#[trigger] m.kids@[i])
    &&& pdf_max_id(m.document) == ids.len() as u32
    &&& pdf_version(m.document) == "1.5"@
    &&& pdf_binary_mark(m.document) == default_binary_mark()
}

/// The objects of a prefix are no more than those of the whole, and one
/// more document adds its own.
pub proof fn lemma_object_total_prefix(docs: Seq<Document>, n: int)
    requires
        0 <= n < docs.len(),
    ensures
        object_total(docs.take(n + 1)) == object_total(docs.take(n)) + pdf_object_ids(
            docs[n],
        ).len(),
        object_total(docs.take(n + 1)) <= object_total(docs),
    decreases docs.len() - n,
{
    assert(docs.take(n + 1).drop_last() =~= docs.take(n));
    if n + 1 < docs.len() {
        lemma_object_total_prefix(docs, n + 1);
    } else {
        assert(docs.take(n + 1) =~= docs);
    }
}

/// Assembles one document from the loaded ones, in order: each is
/// renumbered to follow the previous one, its objects move into the merged
/// document and its pages are appended to the page tree; then a `Pages`
/// dictionary (made the parent of every page) and a `Catalog` are added
/// under the two numbers that follow, the trailer's `Root` is set, `max_id`
/// is set to the number of objects and the streams are compressed. The
/// object numbers must fit in a `u32`.
pub fn merge_loaded_documents(documents: Vec<Document>) -> (m: MergedPdf)
    requires
        documents.len() > 0,
        object_total(documents@) + 3 <= u32::MAX,
    ensures
        assembled(m, documents@),
{
    let ghost docs = documents@;
    let count = documents.len();
    let mut rest = documents;
    let mut merged = new_document();
    let mut max_id: u32 = 1;
    let mut starts: Vec<u32> = Vec::new();
    let mut page_runs: Vec<Vec<(u32, u16)>> = Vec::new();
    let mut page_ids: Vec<(u32, u16)> = Vec::new();
    let mut k: usize = 0;
    while rest.len() > 0
        invariant
            docs == documents@,
            docs.len() == count,
            count > 0,
            k <= count,
            rest@ == docs.skip(k as int),
            object_total(docs) + 3 <= u32::MAX,
            1 <= max_id,
            max_id <= 1 + object_total(docs.take(k as int)),
            starts.len() == k,
            k > 0 ==> starts@[0] == 1,
            k == 0 ==> max_id == 1,
            forall|j: int| 0 <= j < k - 1 ==> #[trigger] starts@[j + 1] == next_start(docs, starts@, j),
            k > 0 ==> max_id == next_start(docs, starts@, k - 1),
            forall|j: int, id: (u32, u16)|
                0 <= j < k && #[trigger] renumbered_ids(docs, starts@, j).contains(id) ==> starts@[j]
                    <= id.0 < next_start(docs, starts@, j),
            forall|j: int| 0 <= j < k ==> #[trigger] renumbered_ids(docs, starts@, j).finite(),
            pdf_object_ids(merged).finite(),
            forall|id: (u32, u16)|
                #[trigger] pdf_object_ids(merged).contains(id) <==> exists|j: int|
                    0 <= j < k && #[trigger] renumbered_ids(docs, starts@, j).contains(id),
            forall|id: (u32, u16)| #[trigger] pdf_object_ids(merged).contains(id) ==> id.0 < max_id,
            forall|id: (u32, u16)|
                #[trigger] pdf_dictionaries(merged).contains_key(id) ==> pdf_object_ids(
                    merged,
                ).contains(id),
            forall|j: int, id: (u32, u16)|
                0 <= j < k && #[trigger] renumbered_dictionaries(docs, starts@, j).contains_key(id)
                    ==> pdf_dictionaries(merged).contains_key(id) && pdf_dictionaries(merged)[id]
                    == renumbered_dictionaries(docs, starts@, j)[id],
            forall|j: int|
                0 <= j < k && #[trigger] pages_survive_renumbering(docs[j]) ==> renumbering_keeps_pages(
                    docs[j],
                    starts@[j],
                ),
            (forall|j: int|
                0 <= j < k ==> pages_survive_renumbering(#[trigger] docs[j]) && pages_are_dictionaries(
                    docs[j],
                )) ==> forall|i: int|
                0 <= i < page_ids.len() ==> pdf_dictionaries(merged).contains_key(
                    #[trigger] page_ids@[i],
                ),
            pdf_max_id(merged) == 0,
            pdf_trailer(merged) == Map::<Seq<char>, PdfValue>::empty(),
            pdf_version(merged) == "1.5"@,
            pdf_binary_mark(merged) == default_binary_mark(),
            page_runs.len() == k,
            forall|j: int| 0 <= j < k ==> (#[trigger] page_runs@[j])@ == pdf_renumbered(
                docs[j],
                starts@[j],
            ).1,
            page_ids@ == flatten_runs(page_runs@),
            forall|j: int, i: int|
                0 <= j < k && 0 <= i < page_runs@[j].len() ==> renumbered_ids(docs, starts@, j).contains(
                    #[trigger] page_runs@[j]@[i],
                ),
            page_ids.len() <= pdf_object_ids(merged).len(),
            pdf_object_ids(merged).len() + 1 == max_id,
            forall|i: int|
                0 <= i < page_ids.len() ==> pdf_object_ids(merged).contains(#[trigger] page_ids@[i]),
            forall|i: int|
                0 <= i < page_ids.len() && pdf_dictionaries(merged).contains_key(
                    #[trigger] page_ids@[i],
                ) ==> pdf_dictionaries(merged)[page_ids@[i]].contains_key("Type"@)
                    && pdf_dictionaries(merged)[page_ids@[i]]["Type"@] == PdfValue::Name("Page"@),
        decreases rest.len(),
    {
        let mut document = rest.remove(0);
        assert(document == docs[k as int]);
        proof {
            lemma_object_total_prefix(docs, k as int);
        }
        let start = max_id;
        let ghost starts_before = starts@;
        starts.push(start);
        proof {
            assert(starts@.drop_last() =~= starts_before);
            assert forall|j: int| 0 <= j < k implies #[trigger] renumbered_ids(docs, starts@, j)
                == renumbered_ids(docs, starts_before, j) && next_start(docs, starts@, j)
                == next_start(docs, starts_before, j) && renumbered_dictionaries(docs, starts@, j)
                == renumbered_dictionaries(docs, starts_before, j) by {
                assert(starts@[j] == starts_before[j]);
            }
        }
        renumber_objects(&mut document, start);
        let last_id = max_object_id(&document);
        let run = page_object_ids(&document);
        let mut j: usize = 0;
        let ghost before = page_ids@;
        while j < run.len()
            invariant
                j <= run.len(),
                page_ids@ == before + run@.take(j as int),
            decreases run.len() - j,
        {
            page_ids.push(run[j]);
            j = j + 1;
            assert(page_ids@ =~= before + run@.take(j as int));
        }
        assert(run@.take(run.len() as int) =~= run@);
        let ghost merged_before = merged;
        let ghost source = document;
        absorb_objects(&mut merged, &mut document);
        proof {
            let old_ids = pdf_object_ids(merged_before);
            let src_ids = pdf_object_ids(source);
            assert(renumbered_ids(docs, starts@, k as int) == pdf_renumbered(docs[k as int], start).0);
            assert(renumbered_dictionaries(docs, starts@, k as int) == pdf_dictionaries(source));
            assert(old_ids.disjoint(src_ids)) by {
                assert forall|id: (u32, u16)| old_ids.contains(id) implies !src_ids.contains(id) by {
                    assert(id.0 < start);
                }
            }
            vstd::set_lib::lemma_set_disjoint_lens(old_ids, src_ids);
            assert(pdf_object_ids(merged) == old_ids + src_ids);
            assert forall|id: (u32, u16)|
                #[trigger] pdf_object_ids(merged).contains(id) <==> exists|i: int|
                    0 <= i < k + 1 && #[trigger] renumbered_ids(docs, starts@, i).contains(id) by {
                if pdf_object_ids(merged).contains(id) {
                    if old_ids.contains(id) {
                        let i = choose|i: int|
                            0 <= i < k && #[trigger] renumbered_ids(docs, starts_before, i).contains(
                                id,
                            );
                        assert(renumbered_ids(docs, starts@, i).contains(id));
                    } else {
                        assert(renumbered_ids(docs, starts@, k as int).contains(id));
                    }
                }
                if exists|i: int|
                    0 <= i < k + 1 && #[trigger] renumbered_ids(docs, starts@, i).contains(id) {
                    let i = choose|i: int|
                        0 <= i < k + 1 && #[trigger] renumbered_ids(docs, starts@, i).contains(id);
                    if i < k {
                        assert(renumbered_ids(docs, starts_before, i).contains(id));
                    }
                }
            }
            assert forall|i: int, id: (u32, u16)|
                0 <= i < k + 1 && #[trigger] renumbered_dictionaries(docs, starts@, i).contains_key(id)
                    implies pdf_dictionaries(merged).contains_key(id) && pdf_dictionaries(merged)[id]
                    == renumbered_dictionaries(docs, starts@, i)[id] by {
                if i < k {
                    assert(renumbered_dictionaries(docs, starts_before, i).contains_key(id));
                    assert(old_ids.contains(id));
                    assert(!src_ids.contains(id));
                    assert(!pdf_dictionaries(source).contains_key(id));
                }
            }
            assert forall|i: int|
                0 <= i < page_ids.len() && pdf_dictionaries(merged).contains_key(
                    #[trigger] page_ids@[i],
                ) implies pdf_dictionaries(merged)[page_ids@[i]].contains_key("Type"@)
                    && pdf_dictionaries(merged)[page_ids@[i]]["Type"@] == PdfValue::Name("Page"@) by {
                if i < before.len() {
                    assert(page_ids@[i] == before[i]);
                    assert(old_ids.contains(page_ids@[i]));
                    assert(!src_ids.contains(page_ids@[i]));
                    assert(!pdf_dictionaries(source).contains_key(page_ids@[i]));
                } else {
                    assert(page_ids@[i] == run@[i - before.len()]);
                    assert(src_ids.contains(page_ids@[i]));
                }
            }
            assert forall|i: int|
                0 <= i < page_ids.len() implies pdf_object_ids(merged).contains(#[trigger] page_ids@[i]) by {
                if i < before.len() {
                    assert(page_ids@[i] == before[i]);
                } else {
                    assert(page_ids@[i] == run@[i - before.len()]);
                }
            }
        }
        max_id = last_id + 1;
        let ghost runs_before = page_runs@;
        page_runs.push(run);
        proof {
            assert(page_runs@.drop_last() =~= runs_before);
            assert forall|i: int| 0 <= i < k + 1 implies (#[trigger] page_runs@[i])@
                == pdf_renumbered(docs[i], starts@[i]).1 by {
                if i < k {
                    assert(page_runs@[i] == runs_before[i]);
                    assert(starts@[i] == starts_before[i]);
                }
            }
            assert forall|j: int, i: int|
                0 <= j < k + 1 && 0 <= i < page_runs@[j].len() implies renumbered_ids(
                    docs,
                    starts@,
                    j,
                ).contains(#[trigger] page_runs@[j]@[i]) by {
                if j < k {
                    assert(page_runs@[j] == runs_before[j]);
                    assert(renumbered_ids(docs, starts_before, j).contains(page_runs@[j]@[i]));
                } else {
                    assert(page_runs@[j]@[i] == run@[i]);
                }
            }
            assert forall|i: int|
                0 <= i < k + 1 && #[trigger] pages_survive_renumbering(docs[i]) implies renumbering_keeps_pages(
                    docs[i],
                    starts@[i],
                ) by {
                if i < k {
                    assert(starts@[i] == starts_before[i]);
                }
            }
            if forall|j: int|
                0 <= j < k + 1 ==> pages_survive_renumbering(#[trigger] docs[j]) && pages_are_dictionaries(
                    docs[j],
                ) {
                assert(forall|j: int|
                    0 <= j < k ==> pages_survive_renumbering(#[trigger] docs[j]) && pages_are_dictionaries(
                        docs[j],
                    ));
                assert(pages_survive_renumbering(docs[k as int]) && pages_are_dictionaries(docs[k as int]));
                assert(renumbering_keeps_pages(docs[k as int], start));
                assert forall|i: int|
                    0 <= i < page_ids.len() implies pdf_dictionaries(merged).contains_key(
                        #[trigger] page_ids@[i],
                    ) by {
                    if i < before.len() {
                        assert(page_ids@[i] == before[i]);
                        assert(pdf_dictionaries(merged_before).contains_key(before[i]));
                        assert(pdf_object_ids(merged_before).contains(before[i]));
                        assert(!pdf_object_ids(source).contains(before[i]));
                    } else {
                        let at = i - before.len();
                        assert(page_ids@[i] == run@[at]);
                        assert(pdf_dictionaries(docs[k as int]).contains_key(pdf_page_ids(docs[k as int])[at]));
                        assert(pdf_renumbered(docs[k as int], start).1[at] == run@[at]);
                        assert(renumbered_dictionaries(docs, starts@, k as int).contains_key(run@[at]));
                    }
                }
            }
        }
        k = k + 1;
        assert(rest@ =~= docs.skip(k as int));
    }
    assert(k == count);
    assert(docs.take(count as int) =~= docs);
    let ghost end = max_id as int;
    let ghost starts_after = starts@;
    let ghost ids_after = pdf_object_ids(merged);
    set_max_id(&mut merged, max_id - 1);
    let pages_id = allocate_object_id(&mut merged);
    let catalog_id = allocate_object_id(&mut merged);
    let page_count = page_ids.len() as u32;
    let ghost tree_ids = pdf_object_ids(merged);
    let ghost tree_dicts = pdf_dictionaries(merged);
    let mut j: usize = 0;
    while j < page_ids.len()
        invariant
            j <= page_ids.len(),
            pdf_object_ids(merged) == tree_ids,
            pdf_max_id(merged) == end + 1,
            pdf_trailer(merged) == Map::<Seq<char>, PdfValue>::empty(),
            pdf_version(merged) == "1.5"@,
            pdf_binary_mark(merged) == default_binary_mark(),
            pdf_dictionaries(merged).dom() == tree_dicts.dom(),
            forall|t: (u32, u16)|
                #[trigger] tree_dicts.contains_key(t) ==> pdf_dictionaries(merged)[t] == tree_dicts[t]
                    || pdf_dictionaries(merged)[t] == with_parent(tree_dicts[t], pages_id),
            forall|i: int|
                0 <= i < j && tree_dicts.contains_key(#[trigger] page_ids@[i])
                    ==> pdf_dictionaries(merged)[page_ids@[i]] == with_parent(
                    tree_dicts[page_ids@[i]],
                    pages_id,
                ),
        decreases page_ids.len() - j,
    {
        let ghost dicts_before = pdf_dictionaries(merged);
        let found = dictionary_of(&mut merged, page_ids[j]);
        match found {
            Ok(dict) => set_reference_entry(dict, "Parent", pages_id),
            Err(_) => {},
        }
        proof {
            let now = pdf_dictionaries(merged);
            if found is Ok {
                let target = choose|target: (u32, u16)|
                    {
                        &&& dicts_before.contains_key(target)
                        &&& dicts_before.contains_key(page_ids@[j as int]) ==> target == page_ids@[j as int]
                        &&& now == dicts_before.insert(target, with_parent(dicts_before[target], pages_id))
                    };
                assert(with_parent(with_parent(tree_dicts[target], pages_id), pages_id) =~= with_parent(
                    tree_dicts[target],
                    pages_id,
                ));
                assert(now.dom() =~= tree_dicts.dom());
            }
        }
        j = j + 1;
    }
    let mut pages_dict = new_dictionary();
    set_name_entry(&mut pages_dict, "Type", "Pages");
    set_references_entry(&mut pages_dict, "Kids", &page_ids);
    set_integer_entry(&mut pages_dict, "Count", page_count);
    let mut catalog_dict = new_dictionary();
    set_name_entry(&mut catalog_dict, "Type", "Catalog");
    set_reference_entry(&mut catalog_dict, "Pages", pages_id);
    insert_dictionary(&mut merged, pages_id, pages_dict);
    insert_dictionary(&mut merged, catalog_id, catalog_dict);
    set_trailer_reference(&mut merged, "Root", catalog_id);
    let objects = object_count(&merged);
    set_max_id(&mut merged, objects as u32);
    compress_streams(&mut merged);
    let pages = page_object_ids(&merged);
    let m = MergedPdf {
        document: merged,
        pages_id,
        catalog_id,
        starts,
        page_runs,
        kids: page_ids,
        page_count,
        pages,
    };
    proof {
        let n = count as int;
        let dicts = pdf_dictionaries(m.document);
        reveal_strlit("Type");
        reveal_strlit("Pages");
        reveal_strlit("Kids");
        reveal_strlit("Count");
        reveal_strlit("Parent");
        assert("Type"@ != "Parent"@) by {
            assert("Type"@.len() != "Parent"@.len());
        }
        assert("Kids"@ != "Count"@) by {
            assert("Kids"@.len() != "Count"@.len());
        }
        assert("Kids"@ != "Type"@) by {
            assert("Kids"@[0] != "Type"@[0]);
        }
        assert("Pages"@ != "Type"@) by {
            assert("Pages"@.len() != "Type"@.len());
        }
        assert(pages_id != catalog_id);
        assert forall|id: (u32, u16)| #[trigger]
            pdf_object_ids(m.document).contains(id) <==> (id == m.pages_id || id == m.catalog_id
                || exists|i: int|
                0 <= i < n && #[trigger] renumbered_ids(docs, m.starts@, i).contains(id)) by {
            if id != pages_id && id != catalog_id {
                assert(pdf_object_ids(m.document).contains(id) == tree_ids.contains(id));
                assert(tree_ids.contains(id) <==> exists|i: int|
                    0 <= i < n && #[trigger] renumbered_ids(docs, starts_after, i).contains(id));
                assert(m.starts@ == starts_after);
            } else {
                assert(pdf_object_ids(m.document).contains(id));
            }
        }
        assert(dicts[m.pages_id] =~= pages_entries(m.kids@, m.page_count));
        assert forall|k: int, id: (u32, u16)|
            0 <= k < n && #[trigger] renumbered_dictionaries(docs, m.starts@, k).contains_key(id)
                implies dicts.contains_key(id) && (dicts[id] == renumbered_dictionaries(docs, m.starts@, k)[id]
                || dicts[id] == with_parent(renumbered_dictionaries(docs, m.starts@, k)[id], m.pages_id)) by {
            assert(tree_dicts.contains_key(id));
            assert(ids_after.contains(id));
            assert(id.0 < end);
        }
        assert forall|i: int| 0 <= i < m.kids.len() implies pdf_object_ids(m.document).contains(
            #[trigger] m.kids@[i],
        ) by {
            assert(ids_after.contains(page_ids@[i]));
        }
        assert forall|i: int|
            0 <= i < m.kids.len() && dicts.contains_key(#[trigger] m.kids@[i]) implies dicts[m.kids@[i]]
                == with_parent(tree_dicts[m.kids@[i]], m.pages_id) && tree_dicts[m.kids@[i]].contains_key("Type"@)
                && tree_dicts[m.kids@[i]]["Type"@] == PdfValue::Name("Page"@) by {
            assert(ids_after.contains(m.kids@[i]));
            assert(m.kids@[i].0 < end);
            assert(m.kids@[i] != m.pages_id && m.kids@[i] != m.catalog_id);
            assert(tree_dicts.contains_key(m.kids@[i]));
        }
        assert forall|k: int, i: int|
            #![trigger renumbered_dictionaries(docs, m.starts@, k).contains_key(m.kids@[i])]
            0 <= k < n && 0 <= i < m.kids.len() && renumbered_dictionaries(docs, m.starts@, k).contains_key(
                m.kids@[i],
            ) implies dicts[m.kids@[i]] == with_parent(
                renumbered_dictionaries(docs, m.starts@, k)[m.kids@[i]],
                m.pages_id,
            ) by {
            assert(tree_dicts.contains_key(m.kids@[i]));
            assert(dicts.contains_key(m.kids@[i]));
        }
        assert(pdf_object_ids(m.document) == tree_ids.insert(pages_id).insert(catalog_id));
        assert(m.kids.len() <= pdf_object_ids(m.document).len()) by {
            assert(tree_ids == ids_after);
            vstd::set::axiom_set_insert_len(tree_ids, pages_id);
            vstd::set::axiom_set_insert_len(tree_ids.insert(pages_id), catalog_id);
        }
        if forall|i: int| 0 <= i < m.kids.len() ==> dicts.contains_key(#[trigger] m.kids@[i]) {
            assert(dicts[m.catalog_id] =~= catalog_entries(m.pages_id));
            assert(pdf_trailer(m.document)["Root"@] == PdfValue::Reference(m.catalog_id));
            assert(dicts[m.catalog_id]["Pages"@] == PdfValue::Reference(m.pages_id));
            assert(dicts[m.pages_id].contains_key("Kids"@));
            assert(dicts[m.pages_id]["Kids"@] == PdfValue::References(m.kids@));
            assert(forall|i: int|
                0 <= i < m.kids.len() ==> dicts.contains_key(#[trigger] m.kids@[i]) && dicts[m.kids@[i]].contains_key(
                    "Type"@,
                ) && dicts[m.kids@[i]]["Type"@] == PdfValue::Name("Page"@));
            assert(m.kids.len() < u32::MAX);
            assert(flat_page_tree(m.document, m.catalog_id, m.pages_id, m.kids@));
        }
        assert(dicts[m.catalog_id] == catalog_entries(m.pages_id));
        assert(pdf_max_id(m.document) == pdf_object_ids(m.document).len() as u32);
    }
    m
}

/// A merged document can be written: its binary mark is valid, so that
/// `render_pdf` succeeds on it where its object numbers leave room.
pub proof fn lemma_merged_document_renders(m: MergedPdf, docs: Seq<Document>)
    requires
        assembled(m, docs),
    ensures
        binary_mark_valid(pdf_binary_mark(m.document)),
{
}

/// The loaded sources, where each loaded.
pub open spec fn loaded_documents(loaded: Seq<Result<Document, String>>) -> Seq<Document> {
    Seq::new(loaded.len(), |i: int| loaded[i]->Ok_0)
}

/// `i` is the first source that failed to load.
pub open spec fn first_failure(loaded: Seq<Result<Document, String>>, i: int) -> bool {
    &&& 0 <= i < loaded.len()
    &&& loaded[i] is Err
    &&& forall|j: int| 0 <= j < i ==> (#[trigger] loaded[j]) is Ok
}

/// Merges the loaded PDF sources, given in order with, for a source that
/// failed to load, the text of its load error. No source is an error
/// (`EmptyInput`); so is the first source that failed to load (`Pdf`, with its
/// text). Where the sources hold too many objects for their numbers to fit in
/// a `u32`, nothing is merged and `None` comes back.
pub fn merge_pdf_documents(loaded: Vec<Result<Document, String>>) -> (r: Result<
    Option<MergedPdf>,
    AppError,
>)
    ensures
        loaded.len() == 0 ==> r matches Err(AppError::EmptyInput),
        forall|i: int|
            first_failure(loaded@, i) ==> (r matches Err(AppError::Pdf(m)) && m@ == loaded@[i]->Err_0@),
        loaded.len() > 0 && (forall|i: int| 0 <= i < loaded.len() ==> (#[trigger] loaded@[i]) is Ok)
            ==> if object_total(loaded_documents(loaded@)) + 3 > u32::MAX {
            r matches Ok(None)
        } else {
            r matches Ok(Some(m)) && assembled(m, loaded_documents(loaded@))
        },
{
    let ghost all = loaded@;
    let n = loaded.len();
    if n == 0 {
        return Err(AppError::EmptyInput);
    }
    let mut rest = loaded;
    let mut documents: Vec<Document> = Vec::new();
    let mut total: u64 = 0;
    let mut too_many = false;
    let mut i: usize = 0;
    while rest.len() > 0
        invariant
            all == loaded@,
            n == all.len(),
            i <= n,
            rest@ == all.skip(i as int),
            documents.len() == i,
            forall|k: int| 0 <= k < i ==> (#[trigger] all[k]) is Ok,
            forall|k: int| 0 <= k < i ==> #[trigger] documents@[k] == all[k]->Ok_0,
            !too_many ==> total == object_total(documents@) && total + 3 <= u32::MAX,
            too_many ==> object_total(documents@) + 3 > u32::MAX,
        decreases rest.len(),
    {
        let source = rest.remove(0);
        assert(source == all[i as int]);
        match source {
            Err(text) => {
                proof {
                    assert forall|j: int| first_failure(all, j) implies j == i by {
                        if j < i {
                            assert(all[j] is Ok);
                        } else if j > i {
                            assert(all[i as int] is Ok);
                        }
                    }
                }
                return Err(AppError::Pdf(text));
            },
            Ok(document) => {
                let objects = object_count(&document);
                let ghost before = documents@;
                documents.push(document);
                proof {
                    assert(documents@.drop_last() =~= before);
                }
                if !too_many {
                    if objects as u64 > 0xffff_fffcu64 - total {
                        too_many = true;
                    } else {
                        total = total + objects as u64;
                    }
                }
            },
        }
        i = i + 1;
        assert(rest@ =~= all.skip(i as int));
    }
    assert(documents@ =~= loaded_documents(all));
    proof {
        assert forall|j: int| !first_failure(all, j) by {
            if 0 <= j < all.len() {
                assert(all[j] is Ok);
            }
        }
    }
    if too_many {
        return Ok(None);
    }
    Ok(Some(merge_loaded_documents(documents)))
}

/// The bytes of a document, as `lopdf` writes it: the document's file, from
/// its `%PDF-` header to its `%%EOF` marker. Writing fails only for a
/// document whose binary mark has a byte below 128, with a `Write` error.
/// Writing takes two more object numbers, which must fit in a `u32`.
pub fn render_pdf(document: &mut Document) -> (r: Result<Vec<u8>, AppError>)
    requires
        pdf_max_id(*old(document)) < u32::MAX - 1,
    ensures
        binary_mark_valid(pdf_binary_mark(*old(document))) ==> r is Ok,
        r matches Ok(bytes) ==> bytes@ == pdf_file_bytes(*old(document)) && framed_as_pdf(bytes@),
        r matches Err(e) ==> e is Write,
{
    let mut bytes: Vec<u8> = Vec::new();
    match write_pdf(document, &mut bytes) {
        Ok(()) => {
            assert(bytes@ =~= Seq::<u8>::empty() + pdf_file_bytes(*old(document)));
            Ok(bytes)
        },
        Err(e) => Err(AppError::Write(io_error_text(&e))),
    }
}

/// Renders a document where its object numbers leave room for writing;
/// `None` where they do not.
pub fn render_pdf_checked(document: &mut Document) -> (r: Option<Result<Vec<u8>, AppError>>)
    ensures
        pdf_max_id(*old(document)) >= u32::MAX - 1 ==> r is None,
        pdf_max_id(*old(document)) < u32::MAX - 1 ==> (r matches Some(res) && (binary_mark_valid(
            pdf_binary_mark(*old(document)),
        ) ==> res is Ok) && (res matches Ok(bytes) ==> bytes@ == pdf_file_bytes(*old(document))
            && framed_as_pdf(bytes@)) && (res matches Err(e) ==> e is Write)),
{
    if max_object_id(document) >= 0xffff_fffeu32 {
        return None;
    }
    Some(render_pdf(document))
}

/// Every item is an image or a PDF file: a plan marks images or PDF files
/// exactly when the queue is not empty.
pub proof fn lemma_plan_kinds_cover_items(items: Seq<PreviewItem>)
    ensures
        (has_kind(items, SupportedKind::Image) || has_kind(items, SupportedKind::Pdf)) <==> items.len()
            > 0,
{
    if items.len() > 0 {
        match items[0].kind {
            SupportedKind::Image => assert(has_kind(items, SupportedKind::Image)),
            SupportedKind::Pdf => assert(has_kind(items, SupportedKind::Pdf)),
        }
    }
}

/// For ASCII names, detection ignores the case of letters: two ASCII names
/// that differ only in the case of their letters are detected as the same
/// kind (each being detected by its ASCII lowercase).
pub proof fn lemma_detection_ignores_ascii_case(a: Seq<char>, b: Seq<char>)
    requires
        a.len() == b.len(),
        forall|i: int| 0 <= i < a.len() ==> ascii_lower_char(#[trigger] a[i]) == ascii_lower_char(b[i]),
    ensures
        kind_of_lowercase_name(ascii_lowercase(a)) == kind_of_lowercase_name(ascii_lowercase(b)),
{
    lemma_ascii_case_folds_together(a, b);
}

/// A plan depends on the kinds and sizes of the items alone: two queues that
/// agree on them, item by item, have the same total and the same kinds.
pub proof fn lemma_plan_depends_on_kinds_and_sizes(a: Seq<PreviewItem>, b: Seq<PreviewItem>)
    requires
        a.len() == b.len(),
        forall|i: int| 0 <= i < a.len() ==> (#[trigger] a[i]).kind == b[i].kind && a[i].size == b[i].size,
    ensures
        total_size(a) == total_size(b),
        forall|kind: SupportedKind| has_kind(a, kind) == has_kind(b, kind),
    decreases a.len(),
{
    if a.len() > 0 {
        let (pa, pb) = (a.drop_last(), b.drop_last());
        assert forall|i: int| 0 <= i < pa.len() implies (#[trigger] pa[i]).kind == pb[i].kind
            && pa[i].size == pb[i].size by {
            assert(pa[i] == a[i] && pb[i] == b[i]);
        }
        lemma_plan_depends_on_kinds_and_sizes(pa, pb);
    }
    assert forall|kind: SupportedKind| has_kind(a, kind) == has_kind(b, kind) by {
        if has_kind(a, kind) {
            let i = choose|i: int| 0 <= i < a.len() && #[trigger] a[i].kind == kind;
            assert(b[i].kind == kind);
        }
        if has_kind(b, kind) {
            let i = choose|i: int| 0 <= i < b.len() && #[trigger] b[i].kind == kind;
            assert(a[i].kind == kind);
        }
    }
}

/// The answer to an inspection that succeeds is never empty.
pub proof fn lemma_inspection_answer_not_empty(outcomes: Seq<Result<Option<PreviewItem>, AppError>>)
    ensures
        inspection_answer(outcomes) matches Ok(items) ==> items.len() > 0,
{
}

/// An inspection that meets no error and at least one supported input
/// succeeds.
pub proof fn lemma_inspection_succeeds_without_errors(
    outcomes: Seq<Result<Option<PreviewItem>, AppError>>,
)
    requires
        forall|i: int| 0 <= i < outcomes.len() ==> (#[trigger] outcomes[i]) is Ok,
        exists|i: int| 0 <= i < outcomes.len() && (#[trigger] outcomes[i]) matches Ok(Some(_)),
    ensures
        inspection_answer(outcomes) is Ok,
    decreases outcomes.len(),
{
    lemma_collect_all_ok(outcomes);
}

/// With no error among the outcomes, the collection holds one item per
/// inspected item, and so at least one where one was inspected.
proof fn lemma_collect_all_ok(outcomes: Seq<Result<Option<PreviewItem>, AppError>>)
    requires
        forall|i: int| 0 <= i < outcomes.len() ==> (#[trigger] outcomes[i]) is Ok,
    ensures
        collect_inspected(outcomes) is Ok,
        (exists|i: int| 0 <= i < outcomes.len() && (#[trigger] outcomes[i]) matches Ok(Some(_)))
            ==> collect_inspected(outcomes)->Ok_0.len() > 0,
    decreases outcomes.len(),
{
    if outcomes.len() > 0 {
        let prefix = outcomes.drop_last();
        assert forall|i: int| 0 <= i < prefix.len() implies (#[trigger] prefix[i]) is Ok by {
            assert(prefix[i] == outcomes[i]);
        }
        lemma_collect_all_ok(prefix);
        if exists|i: int| 0 <= i < outcomes.len() && (#[trigger] outcomes[i]) matches Ok(Some(_)) {
            let i = choose|i: int| 0 <= i < outcomes.len() && (#[trigger] outcomes[i]) matches Ok(Some(_));
            if i < outcomes.len() - 1 {
                assert(prefix[i] == outcomes[i]);
            }
        }
    }
}

/// An inspected item agrees with its name and kind: its kind is the one that
/// its lowercased name stands for, a PDF carries a page count and no pixel
/// size, an image a pixel size and no page count.
pub proof fn lemma_inspected_item_is_consistent(
    path: Seq<char>,
    facts: FileFacts,
    r: Result<Option<PreviewItem>, AppError>,
)
    requires
        inspected_as(path, facts, r),
    ensures
        r matches Ok(Some(item)) ==> {
            &&& kind_of_lowercase_name(lowercase(item.name@)) == Some(item.kind)
            &&& item.kind == SupportedKind::Pdf ==> item.page_count is Some
                && item.pixel_width is None && item.pixel_height is None
            &&& item.kind == SupportedKind::Image ==> item.page_count is None
                && item.pixel_width is Some && item.pixel_height is Some
        },
{
}

/// The number of page identifiers over all runs.
pub open spec fn run_lengths(runs: Seq<Vec<(u32, u16)>>) -> nat
    decreases runs.len(),
{
    if runs.len() == 0 {
        0
    } else {
        run_lengths(runs.drop_last()) + runs.last()@.len()
    }
}

/// Where the run `k` starts among the runs laid one after the other.
pub open spec fn run_offset(runs: Seq<Vec<(u32, u16)>>, k: int) -> nat {
    run_lengths(runs.take(k))
}

/// The runs laid one after the other, as the `Kids` of an assembled merge
/// are, hold as many identifiers as the runs together.
pub proof fn lemma_kids_count_is_sum_of_runs(runs: Seq<Vec<(u32, u16)>>)
    ensures
        flatten_runs(runs).len() == run_lengths(runs),
    decreases runs.len(),
{
    if runs.len() > 0 {
        lemma_kids_count_is_sum_of_runs(runs.drop_last());
    }
}

/// The runs laid one after the other, as the `Kids` of an assembled merge
/// are, keep their order: identifier `j` of run `k` stands at the offset of
/// run `k` plus `j`, after every identifier of the runs before.
pub proof fn lemma_kids_keep_input_order(runs: Seq<Vec<(u32, u16)>>, k: int, j: int)
    requires
        0 <= k < runs.len(),
        0 <= j < runs[k].len(),
    ensures
        run_offset(runs, k) + j < flatten_runs(runs).len(),
        flatten_runs(runs)[run_offset(runs, k) + j] == runs[k]@[j],
    decreases runs.len(),
{
    let prefix = runs.drop_last();
    lemma_kids_count_is_sum_of_runs(runs);
    lemma_kids_count_is_sum_of_runs(prefix);
    if k == runs.len() - 1 {
        assert(runs.take(k) =~= prefix);
    } else {
        assert(prefix[k] == runs[k]);
        assert(prefix.take(k) =~= runs.take(k));
        lemma_kids_keep_input_order(prefix, k, j);
    }
}

/// The number of pages that the documents have together.
pub open spec fn page_total(docs: Seq<Document>) -> nat
    decreases docs.len(),
{
    if docs.len() == 0 {
        0
    } else {
        page_total(docs.drop_last()) + pdf_page_ids(docs.last()).len()
    }
}

/// Runs as long as the inputs' page lists are, prefix by prefix, as long
/// together as the inputs' pages.
proof fn lemma_run_lengths_match(runs: Seq<Vec<(u32, u16)>>, docs: Seq<Document>, p: int)
    requires
        runs.len() == docs.len(),
        0 <= p <= runs.len(),
        forall|k: int| 0 <= k < runs.len() ==> (#[trigger] runs[k])@.len() == pdf_page_ids(docs[k]).len(),
    ensures
        run_lengths(runs.take(p)) == page_total(docs.take(p)),
    decreases p,
{
    if p > 0 {
        assert(runs.take(p).drop_last() =~= runs.take(p - 1));
        assert(docs.take(p).drop_last() =~= docs.take(p - 1));
        lemma_run_lengths_match(runs, docs, p - 1);
    }
}

/// A merge of inputs whose pages survive renumbering and are dictionaries
/// has as many pages as the inputs together.
pub proof fn lemma_merged_page_count(m: MergedPdf, docs: Seq<Document>)
    requires
        assembled(m, docs),
        forall|k: int|
            0 <= k < docs.len() ==> pages_survive_renumbering(#[trigger] docs[k])
                && pages_are_dictionaries(docs[k]),
    ensures
        pdf_page_ids(m.document).len() == page_total(docs),
{
    let runs = m.page_runs@;
    assert forall|k: int| 0 <= k < runs.len() implies (#[trigger] runs[k])@.len() == pdf_page_ids(
        docs[k],
    ).len() by {
        assert(pages_survive_renumbering(docs[k]) && renumbering_keeps_pages(docs[k], m.starts@[k]));
    }
    lemma_kids_count_is_sum_of_runs(runs);
    lemma_run_lengths_match(runs, docs, docs.len() as int);
    assert(runs.take(runs.len() as int) =~= runs);
    assert(docs.take(docs.len() as int) =~= docs);
}

/// In such a merge, the pages come in input order, each input's in its own
/// order: page `j` of the renumbered input `k` is the merged document's page
/// at the count of the pages before input `k`, plus `j`.
pub proof fn lemma_merged_pages_in_input_order(m: MergedPdf, docs: Seq<Document>, k: int, j: int)
    requires
        assembled(m, docs),
        forall|k: int|
            0 <= k < docs.len() ==> pages_survive_renumbering(#[trigger] docs[k])
                && pages_are_dictionaries(docs[k]),
        0 <= k < docs.len(),
        0 <= j < pdf_page_ids(docs[k]).len(),
    ensures
        page_total(docs.take(k)) + j < pdf_page_ids(m.document).len(),
        pdf_page_ids(m.document)[page_total(docs.take(k)) + j] == m.page_runs@[k]@[j],
{
    let runs = m.page_runs@;
    assert forall|i: int| 0 <= i < runs.len() implies (#[trigger] runs[i])@.len() == pdf_page_ids(
        docs[i],
    ).len() by {
        assert(pages_survive_renumbering(docs[i]) && renumbering_keeps_pages(docs[i], m.starts@[i]));
    }
    lemma_run_lengths_match(runs, docs, k);
    lemma_kids_keep_input_order(runs, k, j);
}

/// In such a merge, each page keeps what it was: the merged document's page
/// at the count of the pages before input `k`, plus `j`, is page `j` of
/// input `k` under the identifier that renumbering gave it, and it holds
/// the input page's entries, their references renumbered, with `Parent`
/// naming the `Pages` dictionary.
pub proof fn lemma_merged_pages_keep_their_entries(m: MergedPdf, docs: Seq<Document>, k: int, j: int)
    requires
        assembled(m, docs),
        forall|k: int|
            0 <= k < docs.len() ==> pages_survive_renumbering(#[trigger] docs[k])
                && pages_are_dictionaries(docs[k]),
        0 <= k < docs.len(),
        0 <= j < pdf_page_ids(docs[k]).len(),
    ensures
        ({
            let page = pdf_page_ids(docs[k])[j];
            let ids = pdf_renumbering(docs[k], m.starts@[k]);
            let at = page_total(docs.take(k)) + j;
            &&& at < pdf_page_ids(m.document).len()
            &&& pdf_page_ids(m.document)[at] == ids[page]
            &&& pdf_dictionaries(m.document).contains_key(ids[page])
            &&& pdf_dictionaries(m.document)[ids[page]] == with_parent(
                renumbered_entries(pdf_dictionaries(docs[k])[page], ids),
                m.pages_id,
            )
        }),
{
    let at = page_total(docs.take(k)) + j;
    lemma_merged_pages_in_input_order(m, docs, k, j);
    assert(pages_survive_renumbering(docs[k]));
    assert(renumbering_keeps_pages(docs[k], m.starts@[k]));
    let kid = m.page_runs@[k]@[j];
    assert(kid == pdf_renumbered(docs[k], m.starts@[k]).1[j]);
    assert(m.kids@[at] == kid);
    assert(pages_are_dictionaries(docs[k]));
    assert(pdf_dictionaries(docs[k]).contains_key(pdf_page_ids(docs[k])[j]));
    assert(renumbered_dictionaries(docs, m.starts@, k).contains_key(m.kids@[at]));
}

/// The runs up to `p` laid one after the other have rising numbers, all
/// below the number at which input `p` starts.
proof fn lemma_kids_prefix_ascending(m: MergedPdf, docs: Seq<Document>, p: int)
    requires
        assembled(m, docs),
        forall|k: int| 0 <= k < docs.len() ==> pages_survive_renumbering(#[trigger] docs[k]),
        1 <= p <= docs.len(),
    ensures
        numbers_ascending(flatten_runs(m.page_runs@.take(p))),
        forall|i: int|
            0 <= i < flatten_runs(m.page_runs@.take(p)).len() ==> (#[trigger] flatten_runs(
                m.page_runs@.take(p),
            )[i]).0 < next_start(docs, m.starts@, p - 1),
    decreases p,
{
    let runs = m.page_runs@;
    let starts = m.starts@;
    let flat = flatten_runs(runs.take(p));
    let prefix = flatten_runs(runs.take(p - 1));
    let run = runs[p - 1]@;
    assert(runs.take(p).drop_last() =~= runs.take(p - 1));
    assert(flat == prefix + run);
    assert(pages_survive_renumbering(docs[p - 1]) && renumbering_keeps_pages(docs[p - 1], m.starts@[p - 1]));
    assert(numbers_ascending(run));
    assert forall|i: int| 0 <= i < run.len() implies starts[p - 1] <= (#[trigger] run[i]).0
        < next_start(docs, starts, p - 1) by {
        assert(renumbered_ids(docs, starts, p - 1).contains(runs[p - 1]@[i]));
    }
    if p == 1 {
        assert(runs.take(0) =~= Seq::<Vec<(u32, u16)>>::empty());
        assert(flat =~= run);
    } else {
        lemma_kids_prefix_ascending(m, docs, p - 1);
        assert(starts[(p - 2) + 1] == next_start(docs, starts, p - 2));
        assert forall|i: int, j: int| 0 <= i < j < flat.len() implies (#[trigger] flat[i]).0 < (
        #[trigger] flat[j]).0 by {
            if j < prefix.len() {
                assert(flat[i] == prefix[i] && flat[j] == prefix[j]);
            } else if i < prefix.len() {
                assert(flat[i] == prefix[i] && flat[j] == run[j - prefix.len()]);
            } else {
                assert(flat[i] == run[i - prefix.len()] && flat[j] == run[j - prefix.len()]);
            }
        }
        assert forall|i: int| 0 <= i < flat.len() implies (#[trigger] flat[i]).0 < next_start(
            docs,
            starts,
            p - 1,
        ) by {
            if i < prefix.len() {
                assert(flat[i] == prefix[i]);
            } else {
                assert(flat[i] == run[i - prefix.len()]);
            }
        }
    }
}

/// A merge of inputs whose pages survive renumbering lists no page twice
/// among its kids: their numbers rise along the `Kids` array.
pub proof fn lemma_merged_kids_distinct(m: MergedPdf, docs: Seq<Document>)
    requires
        assembled(m, docs),
        forall|k: int| 0 <= k < docs.len() ==> pages_survive_renumbering(#[trigger] docs[k]),
    ensures
        numbers_ascending(m.kids@),
        m.kids@.no_duplicates(),
{
    lemma_kids_prefix_ascending(m, docs, docs.len() as int);
    assert(m.page_runs@.take(docs.len() as int) =~= m.page_runs@);
    assert forall|i: int, j: int| 0 <= i < m.kids.len() && 0 <= j < m.kids.len() && i != j implies m.kids@[i]
        != m.kids@[j] by {
        if i < j {
            assert(m.kids@[i].0 < m.kids@[j].0);
        } else {
            assert(m.kids@[j].0 < m.kids@[i].0);
        }
    }
}

/// The suffix closes any text that it is appended to.
proof fn lemma_suffix_of_append(p: Seq<char>, suffix: Seq<char>)
    ensures
        has_suffix(p + suffix, suffix),
        (p + suffix).len() > 0 && suffix.len() > 0 ==> (p + suffix).last() == suffix.last(),
{
    let s = p + suffix;
    assert(s.subrange(s.len() - suffix.len(), s.len() as int) =~= suffix);
}

/// A text ending with `suffix` ends with its last character.
proof fn lemma_suffix_last(s: Seq<char>, suffix: Seq<char>)
    requires
        has_suffix(s, suffix),
        suffix.len() > 0,
    ensures
        s.last() == suffix.last(),
{
    assert(s.subrange(s.len() - suffix.len(), s.len() as int)[suffix.len() - 1] == s.last());
}

/// Detection goes by the extension alone: whatever comes before it, dots
/// included, a lowercase name ending in `.pdf` is a PDF, and one ending in
/// `.jpg`, `.jpeg`, `.png` or `.webp` is an image.
pub proof fn lemma_kind_follows_extension(p: Seq<char>)
    ensures
        kind_of_lowercase_name(p + ".pdf"@) == Some(SupportedKind::Pdf),
        kind_of_lowercase_name(p + ".jpg"@) == Some(SupportedKind::Image),
        kind_of_lowercase_name(p + ".jpeg"@) == Some(SupportedKind::Image),
        kind_of_lowercase_name(p + ".png"@) == Some(SupportedKind::Image),
        kind_of_lowercase_name(p + ".webp"@) == Some(SupportedKind::Image),
{
    reveal_strlit(".pdf");
    reveal_strlit(".jpg");
    reveal_strlit(".jpeg");
    reveal_strlit(".png");
    reveal_strlit(".webp");
    lemma_suffix_of_append(p, ".pdf"@);
    lemma_suffix_of_append(p, ".jpg"@);
    lemma_suffix_of_append(p, ".jpeg"@);
    lemma_suffix_of_append(p, ".png"@);
    lemma_suffix_of_append(p, ".webp"@);
    assert(".pdf"@.last() == 'f');
    assert(".jpg"@.last() == 'g');
    assert(".jpeg"@.last() == 'g');
    assert(".png"@.last() == 'g');
    assert(".webp"@.last() == 'p');
    if has_suffix(p + ".jpg"@, ".pdf"@) {
        lemma_suffix_last(p + ".jpg"@, ".pdf"@);
    }
    if has_suffix(p + ".jpeg"@, ".pdf"@) {
        lemma_suffix_last(p + ".jpeg"@, ".pdf"@);
    }
    if has_suffix(p + ".png"@, ".pdf"@) {
        lemma_suffix_last(p + ".png"@, ".pdf"@);
    }
    if has_suffix(p + ".webp"@, ".pdf"@) {
        lemma_suffix_last(p + ".webp"@, ".pdf"@);
    }
}

/// Whatever the case of its letters, a name whose lowercase ends in one of
/// the extensions is detected by that extension alone, dots before it
/// included.
pub proof fn lemma_detection_follows_extension(name: Seq<char>, p: Seq<char>, extension: Seq<char>)
    requires
        lowercase(name) == p + extension,
    ensures
        extension == ".pdf"@ ==> kind_of_lowercase_name(lowercase(name)) == Some(SupportedKind::Pdf),
        extension == ".jpg"@ || extension == ".jpeg"@ || extension == ".png"@ || extension
            == ".webp"@ ==> kind_of_lowercase_name(lowercase(name)) == Some(SupportedKind::Image),
{
    lemma_kind_follows_extension(p);
}

/// An output path whose lowercase ends in `.pdf` names a PDF file, whatever
/// comes before, dots included; one whose lowercase does not end so does not.
pub proof fn lemma_output_path_follows_extension(path: Seq<char>, p: Seq<char>)
    ensures
        lowercase(path) == p + ".pdf"@ ==> is_pdf_output_path(path),
        !has_suffix(lowercase(path), ".pdf"@) ==> !is_pdf_output_path(path),
{
    lemma_suffix_of_append(p, ".pdf"@);
}

/// An inspected item shows the picked path itself, with the file's name
/// (or the path where it has none) and the file's size.
pub proof fn lemma_inspected_item_keeps_path(
    path: Seq<char>,
    facts: FileFacts,
    r: Result<Option<PreviewItem>, AppError>,
)
    requires
        inspected_as(path, facts, r),
    ensures
        r matches Ok(Some(item)) ==> {
            &&& item.path@ == path
            &&& facts.file_name matches Some(n) ==> item.name@ == n@
            &&& facts.file_name is None ==> item.name@ == path
            &&& facts.metadata matches Ok(meta) && item.size == meta.len
        },
{
}

/// `i` is the first inspection that failed.
pub open spec fn first_error(outcomes: Seq<Result<Option<PreviewItem>, AppError>>, i: int) -> bool {
    &&& 0 <= i < outcomes.len()
    &&& outcomes[i] is Err
    &&& forall|j: int| 0 <= j < i ==> (#[trigger] outcomes[j]) is Ok
}

/// The first failed inspection is the answer, whatever was inspected
/// before it and whatever follows.
pub proof fn lemma_first_error_is_the_answer(
    outcomes: Seq<Result<Option<PreviewItem>, AppError>>,
    i: int,
)
    requires
        first_error(outcomes, i),
    ensures
        collect_inspected(outcomes) == Err::<Seq<PreviewItem>, AppError>(outcomes[i]->Err_0),
        inspection_answer(outcomes) == Err::<Seq<PreviewItem>, AppError>(outcomes[i]->Err_0),
{
    let prefix = outcomes.take(i);
    assert forall|j: int| 0 <= j < prefix.len() implies (#[trigger] prefix[j]) is Ok by {
        assert(prefix[j] == outcomes[j]);
    }
    lemma_collect_all_ok(prefix);
    assert(outcomes.take(i + 1).drop_last() =~= prefix);
    assert(outcomes.take(i + 1).last() == outcomes[i]);
    lemma_collect_error_persists(outcomes, i + 1);
}

/// The index under which a step converts an image; none for a PDF used as
/// it is.
pub open spec fn conversion_index(step: PrepareStep) -> Option<usize> {
    match step {
        PrepareStep::ConvertImage { index, .. } => Some(index),
        PrepareStep::UsePdf { .. } => None,
    }
}

/// Each image is converted under its own position in the queue, so two
/// images never share an index (nor the file converted for it).
pub proof fn lemma_images_get_their_own_index(steps: Seq<PrepareStep>, request: MergeRequest)
    requires
        steps.len() == request.items.len(),
        forall|i: int| 0 <= i < steps.len() ==> prepared_as(#[trigger] steps[i], request, i),
    ensures
        forall|i: int|
            0 <= i < steps.len() && request.items@[i].kind == SupportedKind::Image
                ==> #[trigger] conversion_index(steps[i]) == Some(i as usize),
        forall|i: int, j: int|
            0 <= i < j < steps.len() && (#[trigger] conversion_index(steps[i])) is Some && (
            #[trigger] conversion_index(steps[j])) is Some ==> conversion_index(steps[i])
                != conversion_index(steps[j]),
{
    assert forall|i: int|
        0 <= i < steps.len() && request.items@[i].kind == SupportedKind::Image
            implies #[trigger] conversion_index(steps[i]) == Some(i as usize) by {
        assert(prepared_as(steps[i], request, i));
    }
    assert forall|i: int, j: int|
        0 <= i < j < steps.len() && (#[trigger] conversion_index(steps[i])) is Some && (
        #[trigger] conversion_index(steps[j])) is Some implies conversion_index(steps[i])
            != conversion_index(steps[j]) by {
        assert(prepared_as(steps[i], request, i));
        assert(prepared_as(steps[j], request, j));
    }
}

/// Sizes add up: the total of two queues one after the other is the sum of
/// their totals, and that of one item is its size.
pub proof fn lemma_total_size_adds(a: Seq<PreviewItem>, b: Seq<PreviewItem>, item: PreviewItem)
    ensures
        total_size(a + b) == total_size(a) + total_size(b),
        total_size(seq![item]) == item.size,
    decreases b.len(),
{
    let one: Seq<PreviewItem> = seq![item];
    assert(one.drop_last() =~= Seq::<PreviewItem>::empty());
    assert(total_size(Seq::<PreviewItem>::empty()) == 0);
    assert(one.last() == item);
    assert(total_size(one) == item.size);
    if b.len() == 0 {
        assert(a + b =~= a);
    } else {
        assert((a + b).drop_last() =~= a + b.drop_last());
        lemma_total_size_adds(a, b.drop_last(), item);
    }
}

/// Collecting inspections goes outcome by outcome: an inspected item is
/// kept, a skipped path adds nothing, an error is the answer; and two runs
/// of outcomes one after the other collect as the first, then the second.
pub proof fn lemma_collect_goes_outcome_by_outcome(
    a: Seq<Result<Option<PreviewItem>, AppError>>,
    b: Seq<Result<Option<PreviewItem>, AppError>>,
    item: PreviewItem,
    e: AppError,
)
    ensures
        collect_inspected(seq![Ok(Some(item))]) == Ok::<Seq<PreviewItem>, AppError>(seq![item]),
        collect_inspected(seq![Ok(None)]) == Ok::<Seq<PreviewItem>, AppError>(Seq::empty()),
        collect_inspected(seq![Err(e)]) == Err::<Seq<PreviewItem>, AppError>(e),
        collect_inspected(a) is Err ==> collect_inspected(a + b) == collect_inspected(a),
        collect_inspected(a) is Ok && collect_inspected(b) is Err ==> collect_inspected(a + b)
            == collect_inspected(b),
        collect_inspected(a) is Ok && collect_inspected(b) is Ok ==> collect_inspected(a + b)
            == Ok::<Seq<PreviewItem>, AppError>(
            collect_inspected(a)->Ok_0 + collect_inspected(b)->Ok_0,
        ),
    decreases b.len(),
{
    let one_item: Seq<Result<Option<PreviewItem>, AppError>> = seq![Ok(Some(item))];
    let one_skip: Seq<Result<Option<PreviewItem>, AppError>> = seq![Ok(None)];
    let one_err: Seq<Result<Option<PreviewItem>, AppError>> = seq![Err(e)];
    assert(one_item.drop_last() =~= Seq::<Result<Option<PreviewItem>, AppError>>::empty());
    assert(one_skip.drop_last() =~= Seq::<Result<Option<PreviewItem>, AppError>>::empty());
    assert(one_err.drop_last() =~= Seq::<Result<Option<PreviewItem>, AppError>>::empty());
    assert(Seq::<PreviewItem>::empty().push(item) =~= seq![item]);
    let none: Seq<Result<Option<PreviewItem>, AppError>> = Seq::empty();
    assert(collect_inspected(none) == Ok::<Seq<PreviewItem>, AppError>(Seq::empty()));
    assert(one_item.last() == Ok::<Option<PreviewItem>, AppError>(Some(item)));
    assert(one_skip.last() == Ok::<Option<PreviewItem>, AppError>(None));
    assert(one_err.last() == Err::<Option<PreviewItem>, AppError>(e));
    assert(collect_inspected(one_item) == Ok::<Seq<PreviewItem>, AppError>(seq![item]));
    assert(collect_inspected(one_skip) == Ok::<Seq<PreviewItem>, AppError>(Seq::empty()));
    assert(collect_inspected(one_err) == Err::<Seq<PreviewItem>, AppError>(e));
    if b.len() == 0 {
        assert(a + b =~= a);
        assert(collect_inspected(b) == Ok::<Seq<PreviewItem>, AppError>(Seq::empty()));
        if collect_inspected(a) is Ok {
            assert(collect_inspected(a)->Ok_0 + Seq::<PreviewItem>::empty() =~= collect_inspected(
                a,
            )->Ok_0);
        }
    } else {
        assert((a + b).drop_last() =~= a + b.drop_last());
        assert((a + b).last() == b.last());
        lemma_collect_goes_outcome_by_outcome(a, b.drop_last(), item, e);
        if collect_inspected(a) is Ok && collect_inspected(b) is Ok {
            let x = collect_inspected(a)->Ok_0;
            let y = collect_inspected(b.drop_last())->Ok_0;
            if let Ok(Some(last)) = b.last() {
                assert(x + y.push(last) =~= (x + y).push(last));
            }
        }
    }
}

/// Inspecting a path that is missing is an error naming that path; one
/// that exists but is no regular file, or whose shown name has no
/// supported extension, is skipped; one that is a regular file with a
/// supported name, read without error, gives an item of that name's kind.
pub proof fn lemma_inspection_outcomes(
    path: Seq<char>,
    facts: FileFacts,
    r: Result<Option<PreviewItem>, AppError>,
)
    requires
        inspected_as(path, facts, r),
    ensures
        !facts.exists ==> (r matches Err(AppError::MissingInputFile(p)) && p@ == path),
        facts.exists && (facts.metadata matches Ok(meta) && !meta.is_file) ==> r matches Ok(None),
        facts.exists && facts.metadata is Ok && kind_of_lowercase_name(
            lowercase(shown_name(path, facts.file_name)),
        ) is None ==> r matches Ok(None),
        r matches Ok(Some(item)) ==> {
            &&& facts.exists
            &&& facts.metadata matches Ok(meta) && meta.is_file
            &&& Some(item.kind) == kind_of_lowercase_name(lowercase(shown_name(path, facts.file_name)))
        },
{
}

impl MergerService {

    /// Collects the inspections of the picked paths, given in the order of
    /// the paths: the first error stops the collection; paths that were
    /// skipped are left out; an empty collection is refused.
    pub fn inspect_inputs(
        &self,
        inspected: Vec<Result<Option<PreviewItem>, AppError>>,
    ) -> (r: Result<Vec<PreviewItem>, AppError>)
        ensures
            match inspection_answer(inspected@) {
                Ok(items) => r matches Ok(v) && v@ == items,
                Err(e) => r == Err::<Vec<PreviewItem>, AppError>(e),
            },
            forall|i: int|
                first_error(inspected@, i) ==> r == Err::<Vec<PreviewItem>, AppError>(
                    inspected@[i]->Err_0,
                ),
    {
        let ghost all = inspected@;
        let total = inspected.len();
        let mut rest = inspected;
        let mut items: Vec<PreviewItem> = Vec::new();
        let mut i: usize = 0;
        while rest.len() > 0
            invariant
                i <= all.len(),
                all == inspected@,
                all.len() == total,
                rest@ == all.skip(i as int),
                collect_inspected(all.take(i as int)) == Ok::<Seq<PreviewItem>, AppError>(items@),
            decreases rest.len(),
        {
            let outcome = rest.remove(0);
            proof {
                assert(all.take(i + 1).drop_last() =~= all.take(i as int));
                assert(all.take(i + 1).last() == outcome);
            }
            match outcome {
                Err(e) => {
                    proof {
                        assert(collect_inspected(all.take(i + 1)) == Err::<
                            Seq<PreviewItem>,
                            AppError,
                        >(e));
                        lemma_collect_error_persists(all, i + 1);
                        assert forall|j: int| first_error(all, j) implies e == all[j]->Err_0 by {
                            lemma_first_error_is_the_answer(all, j);
                        }
                    }
                    return Err(e);
                },
                Ok(Some(item)) => {
                    items.push(item);
                },
                Ok(None) => {},
            }
            i = i + 1;
            assert(rest@ =~= all.skip(i as int));
        }
        assert(all.take(i as int) =~= all);
        proof {
            assert forall|j: int| !first_error(all, j) by {
                if first_error(all, j) {
                    lemma_first_error_is_the_answer(all, j);
                }
            }
        }
        if items.len() == 0 {
            return Err(AppError::NoSupportedInputs);
        }
        Ok(items)
    }
    /// Summarises a merge queue: how many items it holds, their total size,
    /// and whether images and PDF files are among them.
    pub fn preview_plan(&self, request: PreviewRequest) -> (plan: MergePlan)
        requires
            total_size(request.items@) <= u64::MAX,
        ensures
            plan.total_items == request.items.len(),
            plan.total_bytes == total_size(request.items@),
            plan.contains_images == has_kind(request.items@, SupportedKind::Image),
            plan.contains_pdfs == has_kind(request.items@, SupportedKind::Pdf),
    {
        let items = &request.items;
        let n = items.len();
        let mut total_bytes: u64 = 0;
        let mut contains_images = false;
        let mut contains_pdfs = false;
        let mut i: usize = 0;
        while i < n
            invariant
                n == items.len(),
                i <= n,
                total_size(items@) <= u64::MAX,
                total_bytes == total_size(items@.take(i as int)),
                contains_images == has_kind(items@.take(i as int), SupportedKind::Image),
                contains_pdfs == has_kind(items@.take(i as int), SupportedKind::Pdf),
            decreases n - i,
        {
            proof {
                lemma_total_size_prefix(items@, i + 1);
                assert(items@.take(i + 1).drop_last() =~= items@.take(i as int));
            }
            total_bytes = total_bytes + items[i].size;
            let is_image = items[i].kind == SupportedKind::Image;
            let is_pdf = items[i].kind == SupportedKind::Pdf;
            proof {
                let prefix = items@.take(i as int);
                let next = items@.take(i + 1);
                assert(next[i as int] == items@[i as int]);
                assert forall|kind: SupportedKind|
                    has_kind(next, kind) == (has_kind(prefix, kind) || items@[i as int].kind
                        == kind) by {
                    if has_kind(next, kind) {
                        let j = choose|j: int| 0 <= j < next.len() && #[trigger] next[j].kind == kind;
                        if j < i {
                            assert(prefix[j] == next[j]);
                        }
                    }
                    if has_kind(prefix, kind) {
                        let j = choose|j: int|
                            0 <= j < prefix.len() && #[trigger] prefix[j].kind == kind;
                        assert(next[j] == prefix[j]);
                    }
                }
            }
            contains_images = contains_images || is_image;
            contains_pdfs = contains_pdfs || is_pdf;
            i = i + 1;
        }
        assert(items@.take(n as int) =~= items@);
        MergePlan { total_items: n, total_bytes, contains_images, contains_pdfs }
    }
}

} // verus!
