use lopdf::Document;
use merge_picture::domain::{
    FileFacts, FileMetadata, ImageFitMode, MergeRequest, PageSizePreset, PrepareStep, PreviewItem,
    PreviewRequest, SupportedKind,
};
use merge_picture::errors::AppError;
use merge_picture::services::merger::{
    completed_merge_result, detect_supported_kind, inspect_input_path, kind_of_normalized_name,
    merge_pdf_documents, prepare_input_pdfs, render_pdf, render_pdf_checked, validate_request, MergerService,
};
use printpdf::{Mm, Op, PdfDocument, PdfPage, PdfSaveOptions};

fn sample_item(kind: SupportedKind) -> PreviewItem {
    PreviewItem {
        path: "/tmp/sample".to_string(),
        name: "sample".to_string(),
        kind,
        size: 120,
        page_count: None,
        pixel_width: None,
        pixel_height: None,
    }
}

fn blank_pdf_bytes() -> Vec<u8> {
    let mut document = PdfDocument::new("fixture");
    document.with_pages(vec![PdfPage::new(
        Mm(40.0),
        Mm(60.0),
        vec![Op::Marker {
            id: "fixture".to_string(),
        }],
    )]);
    document.save(&PdfSaveOptions::default(), &mut Vec::new())
}

fn loaded(bytes: &[u8]) -> Result<Document, String> {
    Document::load_mem(bytes).map_err(|error| error.to_string())
}

fn facts_for(name: &str, pdf_document: Result<Document, String>) -> FileFacts {
    FileFacts {
        exists: true,
        metadata: Ok(FileMetadata { is_file: true, len: 5 }),
        file_name: Some(name.to_string()),
        pdf_document,
        pixel_width: Err("not an image".to_string()),
        pixel_height: Err("not an image".to_string()),
    }
}

fn merge_request(items: Vec<PreviewItem>, output_path: &str) -> MergeRequest {
    MergeRequest {
        items,
        output_path: output_path.to_string(),
        image_page_size: PageSizePreset::Auto,
        image_margin_mm: 12,
        image_fit_mode: ImageFitMode::Contain,
    }
}

#[test]
fn preview_marks_mixed_inputs() {
    let service = MergerService;
    let plan = service.preview_plan(PreviewRequest {
        items: vec![
            sample_item(SupportedKind::Image),
            sample_item(SupportedKind::Pdf),
        ],
    });

    assert_eq!(plan.total_items, 2);
    assert_eq!(plan.total_bytes, 240);
    assert!(plan.contains_images);
    assert!(plan.contains_pdfs);
}

#[test]
fn merge_rejects_non_pdf_output() {
    let request = merge_request(vec![sample_item(SupportedKind::Pdf)], "merged.txt");
    let result = validate_request(&request, &vec![true]);
    assert!(matches!(result, Err(AppError::InvalidOutputPath)));
}

#[test]
fn merge_combines_multiple_pdf_inputs() {
    let first = loaded(&blank_pdf_bytes());
    let second = loaded(&blank_pdf_bytes());
    let mut merged = merge_pdf_documents(vec![first, second])
        .expect("merge should succeed")
        .expect("object numbers fit");
    let request = merge_request(
        vec![sample_item(SupportedKind::Pdf), sample_item(SupportedKind::Pdf)],
        "merged.pdf",
    );
    let result = completed_merge_result(&request);
    assert_eq!(result.status, "completed");
    assert_eq!(result.merged_items, 2);
    assert_eq!(merged.pages.len(), 2);
    assert_eq!(merged.page_count, 2);

    let bytes = render_pdf(&mut merged.document).expect("merged pdf should render");
    let reloaded = Document::load_mem(&bytes).expect("merged pdf should load");
    assert_eq!(reloaded.get_pages().len(), 2);
}

#[test]
fn inspect_inputs_filters_unsupported_files() {
    let supported = inspect_input_path(
        &"/tmp/inputs/sample.pdf".to_string(),
        facts_for("sample.pdf", loaded(&blank_pdf_bytes())),
    );
    let ignored = inspect_input_path(
        &"/tmp/inputs/notes.txt".to_string(),
        facts_for("notes.txt", Err("not read".to_string())),
    );

    let service = MergerService;
    let items = service
        .inspect_inputs(vec![supported, ignored])
        .expect("supported file should be inspected");

    assert_eq!(items.len(), 1);
    assert_eq!(items[0].kind, SupportedKind::Pdf);
    assert_eq!(items[0].page_count, Some(1));
}

#[test]
fn rejects_corrupted_pdf_input() {
    let result = merge_pdf_documents(vec![loaded(b"not a real pdf")]);
    assert!(result.is_err());
}

#[test]
fn merge_of_no_source_is_empty_input() {
    let result = merge_pdf_documents(Vec::new());
    assert!(matches!(result, Err(AppError::EmptyInput)));
}

#[test]
fn corrupted_pdf_is_a_pdf_error() {
    let broken = loaded(b"not a real pdf");
    let text = broken.as_ref().err().cloned().expect("broken input fails to load");
    let result = merge_pdf_documents(vec![
        loaded(&blank_pdf_bytes()),
        broken,
        Err("second failure".to_string()),
    ]);
    assert_eq!(result.err(), Some(AppError::Pdf(text)));
}

#[test]
fn merged_page_tree_lists_pages_in_input_order() {
    let inputs = vec![
        loaded(&blank_pdf_bytes()),
        loaded(&blank_pdf_bytes()),
        loaded(&blank_pdf_bytes()),
    ];
    let sizes: Vec<u32> = inputs
        .iter()
        .map(|d| d.as_ref().expect("loads").objects.len() as u32)
        .collect();
    let mut merged = merge_pdf_documents(inputs)
        .expect("merge should succeed")
        .expect("object numbers fit");
    assert_eq!(merged.starts, vec![1, 1 + sizes[0], 1 + sizes[0] + sizes[1]]);
    let end = 1 + sizes[0] + sizes[1] + sizes[2];
    assert_eq!(merged.pages_id, (end, 0));
    assert_eq!(merged.catalog_id, (end + 1, 0));
    assert_eq!(merged.page_runs.len(), 3);
    let flattened: Vec<(u32, u16)> = merged.page_runs.iter().flatten().copied().collect();
    assert_eq!(merged.kids, flattened);
    assert_eq!(merged.page_count, 3);
    // Each input is renumbered after the one before it.
    assert!(merged.page_runs[0][0].0 < merged.page_runs[1][0].0);
    assert!(merged.page_runs[1][0].0 < merged.page_runs[2][0].0);
    assert_eq!(merged.document.max_id as usize, merged.document.objects.len());
    assert_eq!(merged.document.objects.len() as u32, end + 1);

    assert_eq!(merged.pages, flattened);
    assert_eq!(merged.document.version, "1.5");

    let bytes = render_pdf(&mut merged.document).expect("rendered");
    let reloaded = Document::load_mem(&bytes).expect("reloads");
    let pages: Vec<(u32, u16)> = reloaded.get_pages().into_values().collect();
    assert_eq!(pages, flattened);
}

#[test]
fn every_merged_page_names_the_new_page_tree_as_parent() {
    let mut merged = merge_pdf_documents(vec![
        loaded(&blank_pdf_bytes()),
        loaded(&blank_pdf_bytes()),
    ])
    .expect("merge should succeed")
    .expect("object numbers fit");
    assert_eq!(merged.kids.len(), 2);
    for kid in &merged.kids {
        let page = merged.document.get_dictionary(*kid).expect("page dictionary");
        assert_eq!(
            page.get(b"Parent").expect("parent").as_reference().expect("reference"),
            merged.pages_id
        );
        assert_eq!(page.get(b"Type").expect("type").as_name().expect("name"), b"Page");
    }
    let kids_entry = merged
        .document
        .get_dictionary(merged.pages_id)
        .expect("pages dictionary")
        .get(b"Kids")
        .expect("kids")
        .as_array()
        .expect("array")
        .len();
    assert_eq!(kids_entry, 2);
    let bytes = render_pdf(&mut merged.document).expect("rendered");
    let reloaded = Document::load_mem(&bytes).expect("reloads");
    for (_, page_id) in reloaded.get_pages() {
        let page = reloaded.get_dictionary(page_id).expect("page dictionary");
        assert_eq!(
            page.get(b"Parent").expect("parent").as_reference().expect("reference"),
            merged.pages_id
        );
    }
}

#[test]
fn merged_pages_keep_their_entries() {
    let source = loaded(&blank_pdf_bytes()).expect("fixture loads");
    let page_id = *source.get_pages().values().next().expect("one page");
    let media_box = source
        .get_dictionary(page_id)
        .expect("page")
        .get(b"MediaBox")
        .expect("media box")
        .clone();
    let merged = merge_pdf_documents(vec![Ok(source.clone()), Ok(source)])
        .expect("merge should succeed")
        .expect("object numbers fit");
    for kid in &merged.kids {
        let page = merged.document.get_dictionary(*kid).expect("page dictionary");
        assert_eq!(page.get(b"MediaBox").expect("media box"), &media_box);
    }
}

#[test]
fn merged_kids_rise_and_repeat_nothing() {
    let merged = merge_pdf_documents(vec![
        loaded(&blank_pdf_bytes()),
        loaded(&blank_pdf_bytes()),
        loaded(&blank_pdf_bytes()),
    ])
    .expect("merge should succeed")
    .expect("object numbers fit");
    for pair in merged.kids.windows(2) {
        assert!(pair[0].0 < pair[1].0);
    }
    assert_eq!(merged.pages, merged.kids);
    assert_eq!(merged.pages.len(), 3);
}

#[test]
fn detects_kinds_whatever_the_case() {
    assert_eq!(detect_supported_kind("Scan.PDF"), Some(SupportedKind::Pdf));
    assert_eq!(detect_supported_kind("PHOTO.JPEG"), Some(SupportedKind::Image));
    assert_eq!(detect_supported_kind("photo.Jpg"), Some(SupportedKind::Image));
    assert_eq!(detect_supported_kind("icon.png"), Some(SupportedKind::Image));
    assert_eq!(detect_supported_kind("anim.WebP"), Some(SupportedKind::Image));
    assert_eq!(detect_supported_kind("notes.txt"), None);
    assert_eq!(detect_supported_kind("pdf"), None);
    assert_eq!(detect_supported_kind(""), None);
}

#[test]
fn normalized_names_are_matched_by_suffix_only() {
    assert_eq!(kind_of_normalized_name("a.pdf"), Some(SupportedKind::Pdf));
    assert_eq!(kind_of_normalized_name("a.PDF"), None);
    assert_eq!(kind_of_normalized_name(".webp"), Some(SupportedKind::Image));
    assert_eq!(kind_of_normalized_name("a.pdf.txt"), None);
    assert_eq!(kind_of_normalized_name("jpeg"), None);
}

#[test]
fn validation_checks_in_order() {
    let empty = merge_request(Vec::new(), "merged.txt");
    assert!(matches!(validate_request(&empty, &Vec::new()), Err(AppError::EmptyInput)));

    let items = vec![sample_item(SupportedKind::Pdf), sample_item(SupportedKind::Image)];
    let mut request = merge_request(items, "Out.PDF");
    assert_eq!(validate_request(&request, &vec![true, true]), Ok(()));

    request.items[1].path = "/tmp/second".to_string();
    match validate_request(&request, &vec![true, false]) {
        Err(AppError::MissingInputFile(path)) => assert_eq!(path, "/tmp/second"),
        other => panic!("unexpected {:?}", other),
    }
    match validate_request(&request, &vec![false, false]) {
        Err(AppError::MissingInputFile(path)) => assert_eq!(path, "/tmp/sample"),
        other => panic!("unexpected {:?}", other),
    }
}

#[test]
fn preparation_keeps_order_and_indices() {
    let mut image = sample_item(SupportedKind::Image);
    image.path = "/tmp/photo.png".to_string();
    let mut pdf = sample_item(SupportedKind::Pdf);
    pdf.path = "/tmp/doc.pdf".to_string();
    let request = MergeRequest {
        items: vec![pdf, image],
        output_path: "out.pdf".to_string(),
        image_page_size: PageSizePreset::Letter,
        image_margin_mm: 14,
        image_fit_mode: ImageFitMode::Cover,
    };
    let steps = prepare_input_pdfs(&request);
    assert_eq!(
        steps,
        vec![
            PrepareStep::UsePdf { path: "/tmp/doc.pdf".to_string() },
            PrepareStep::ConvertImage {
                path: "/tmp/photo.png".to_string(),
                index: 1,
                page_size: PageSizePreset::Letter,
                margin_mm: 14,
                fit_mode: ImageFitMode::Cover,
            },
        ]
    );
}

#[test]
fn preview_of_empty_queue() {
    let plan = MergerService.preview_plan(PreviewRequest { items: Vec::new() });
    assert_eq!(plan.total_items, 0);
    assert_eq!(plan.total_bytes, 0);
    assert!(!plan.contains_images);
    assert!(!plan.contains_pdfs);
}

#[test]
fn preview_of_images_only() {
    let mut big = sample_item(SupportedKind::Image);
    big.size = 1000;
    let plan = MergerService.preview_plan(PreviewRequest {
        items: vec![big, sample_item(SupportedKind::Image)],
    });
    assert_eq!(plan.total_bytes, 1120);
    assert!(plan.contains_images);
    assert!(!plan.contains_pdfs);
}

#[test]
fn rendered_document_is_a_whole_pdf_file() {
    let mut merged = merge_pdf_documents(vec![loaded(&blank_pdf_bytes())])
        .expect("merge should succeed")
        .expect("object numbers fit");
    let bytes = render_pdf_checked(&mut merged.document)
        .expect("room to write")
        .expect("rendered");
    assert!(bytes.starts_with(b"%PDF-"));
    assert!(bytes.ends_with(b"%%EOF"));
    assert!(bytes.len() >= 10);
}
