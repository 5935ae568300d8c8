//! The values that the merge service takes and gives back.
use lopdf::Document;
use vstd::prelude::*;

verus! {

/// The two kinds of input file that can be merged.
#[derive(Clone, Copy, Debug, PartialEq, Eq, Structural)]
pub enum SupportedKind {
    Image,
    Pdf,
}

/// The page size that an image input is placed on.
#[derive(Clone, Copy, Debug, PartialEq, Eq, Structural)]
pub enum PageSizePreset {
    Auto,
    A4,
    Letter,
}

/// How an image is scaled into the content area of its page.
#[derive(Clone, Copy, Debug, PartialEq, Eq, Structural)]
pub enum ImageFitMode {
    Contain,
    Cover,
    Fill,
}

/// One inspected input file, as shown in the merge queue.
#[derive(Clone, Debug, PartialEq, Eq)]
pub struct PreviewItem {
    pub path: String,
    pub name: String,
    pub kind: SupportedKind,
    pub size: u64,
    pub page_count: Option<u32>,
    pub pixel_width: Option<u32>,
    pub pixel_height: Option<u32>,
}

/// The queue for which a merge plan is asked.
#[derive(Clone, Debug, PartialEq, Eq)]
pub struct PreviewRequest {
    pub items: Vec<PreviewItem>,
}

/// The paths that the user picked, to be inspected.
#[derive(Clone, Debug, PartialEq, Eq)]
pub struct InspectInputsRequest {
    pub paths: Vec<String>,
}

/// A summary of a merge queue.
#[derive(Clone, Debug, PartialEq, Eq)]
pub struct MergePlan {
    pub total_items: usize,
    pub total_bytes: u64,
    pub contains_images: bool,
    pub contains_pdfs: bool,
}

/// A request to merge the queued inputs into one PDF file.
#[derive(Clone, Debug, PartialEq, Eq)]
pub struct MergeRequest {
    pub items: Vec<PreviewItem>,
    pub output_path: String,
    pub image_page_size: PageSizePreset,
    pub image_margin_mm: u32,
    pub image_fit_mode: ImageFitMode,
}

/// The answer to a merge that went through.
#[derive(Clone, Debug, PartialEq, Eq)]
pub struct MergeResult {
    pub output_path: String,
    pub merged_items: usize,
    pub status: String,
}

/// What the file system says of an existing path.
#[derive(Clone, Copy, Debug, PartialEq, Eq, Structural)]
pub struct FileMetadata {
    pub is_file: bool,
    pub len: u64,
}

/// What was read of one picked path, in the order in which an inspection
/// consults it: whether it exists, its metadata, its file name, and, for the
/// kind that its name gives, the loaded PDF document (or the text of its
/// load error) or the pixel width and height of an image. A field that the inspection does not reach is not consulted.
#[derive(Debug)]
pub struct FileFacts {
    pub exists: bool,
    pub metadata: Result<FileMetadata, String>,
    pub file_name: Option<String>,
    pub pdf_document: Result<Document, String>,
    pub pixel_width: Result<u32, String>,
    pub pixel_height: Result<u32, String>,
}

/// How one queued input becomes a PDF source for the merge: a PDF is used
/// as it is, an image is first laid out on a page of its own.
#[derive(Clone, Debug, PartialEq, Eq)]
pub enum PrepareStep {
    UsePdf { path: String },
    ConvertImage {
        path: String,
        index: usize,
        page_size: PageSizePreset,
        margin_mm: u32,
        fit_mode: ImageFitMode,
    },
}

} // verus!
