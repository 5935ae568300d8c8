use lopdf::Document;
use merge_picture::domain::{FileFacts, FileMetadata, PreviewItem, SupportedKind};
use merge_picture::errors::AppError;
use merge_picture::services::merger::{
    inspect_input_path, inspect_page_count, inspect_pixel_height, inspect_pixel_width,
    MergerService,
};
use printpdf::{Mm, Op, PdfDocument, PdfPage, PdfSaveOptions};

fn pdf_bytes(pages: usize) -> Vec<u8> {
    let mut document = PdfDocument::new("fixture");
    let mut list = Vec::new();
    for _ in 0..pages {
        list.push(PdfPage::new(
            Mm(40.0),
            Mm(60.0),
            vec![Op::Marker {
                id: "fixture".to_string(),
            }],
        ));
    }
    document.with_pages(list);
    document.save(&PdfSaveOptions::default(), &mut Vec::new())
}

fn image_facts(name: Option<&str>) -> FileFacts {
    FileFacts {
        exists: true,
        metadata: Ok(FileMetadata { is_file: true, len: 77 }),
        file_name: name.map(|n| n.to_string()),
        pdf_document: Err("not read".to_string()),
        pixel_width: Ok(24),
        pixel_height: Ok(16),
    }
}

fn item(path: &str) -> PreviewItem {
    PreviewItem {
        path: path.to_string(),
        name: path.to_string(),
        kind: SupportedKind::Pdf,
        size: 1,
        page_count: Some(1),
        pixel_width: None,
        pixel_height: None,
    }
}

#[test]
fn missing_path_is_an_error() {
    let mut facts = image_facts(Some("a.png"));
    facts.exists = false;
    match inspect_input_path(&"/x/a.png".to_string(), facts) {
        Err(AppError::MissingInputFile(p)) => assert_eq!(p, "/x/a.png"),
        other => panic!("unexpected {:?}", other),
    }
}

#[test]
fn metadata_failure_is_an_io_error() {
    let mut facts = image_facts(Some("a.png"));
    facts.metadata = Err("denied".to_string());
    assert_eq!(
        inspect_input_path(&"/x/a.png".to_string(), facts),
        Err(AppError::Io("denied".to_string()))
    );
}

#[test]
fn directories_are_skipped() {
    let mut facts = image_facts(Some("a.png"));
    facts.metadata = Ok(FileMetadata { is_file: false, len: 0 });
    assert_eq!(inspect_input_path(&"/x/a.png".to_string(), facts), Ok(None));
}

#[test]
fn images_carry_their_pixel_size() {
    let inspected = inspect_input_path(&"/x/Photo.PNG".to_string(), image_facts(Some("Photo.PNG")))
        .expect("inspected")
        .expect("supported");
    assert_eq!(inspected.name, "Photo.PNG");
    assert_eq!(inspected.kind, SupportedKind::Image);
    assert_eq!(inspected.size, 77);
    assert_eq!(inspected.page_count, None);
    assert_eq!(inspected.pixel_width, Some(24));
    assert_eq!(inspected.pixel_height, Some(16));
}

#[test]
fn the_path_names_an_input_without_file_name() {
    let inspected = inspect_input_path(&"/x/y.jpg".to_string(), image_facts(None))
        .expect("inspected")
        .expect("supported");
    assert_eq!(inspected.name, "/x/y.jpg");
}

#[test]
fn unreadable_image_is_an_image_error() {
    let mut facts = image_facts(Some("a.webp"));
    facts.pixel_height = Err("bad header".to_string());
    assert_eq!(
        inspect_input_path(&"/x/a.webp".to_string(), facts),
        Err(AppError::Image("bad header".to_string()))
    );
}

#[test]
fn pdf_page_counts() {
    let three = Document::load_mem(&pdf_bytes(3)).map_err(|e| e.to_string());
    assert_eq!(inspect_page_count(SupportedKind::Pdf, &three), Ok(Some(3)));
    assert_eq!(inspect_page_count(SupportedKind::Image, &three), Ok(None));
    assert_eq!(
        inspect_page_count(SupportedKind::Pdf, &Err("gone".to_string())),
        Err(AppError::Pdf("gone".to_string()))
    );
}

#[test]
fn pixel_sizes_only_for_images() {
    assert_eq!(inspect_pixel_width(SupportedKind::Pdf, &Ok(5)), Ok(None));
    assert_eq!(inspect_pixel_width(SupportedKind::Image, &Ok(5)), Ok(Some(5)));
    assert_eq!(inspect_pixel_height(SupportedKind::Image, &Ok(9)), Ok(Some(9)));
    assert_eq!(
        inspect_pixel_width(SupportedKind::Image, &Err("e".to_string())),
        Err(AppError::Image("e".to_string()))
    );
}

#[test]
fn first_error_wins() {
    let outcomes = vec![
        Ok(Some(item("a"))),
        Err(AppError::Io("first".to_string())),
        Err(AppError::Io("second".to_string())),
    ];
    assert_eq!(
        MergerService.inspect_inputs(outcomes),
        Err(AppError::Io("first".to_string()))
    );
}

#[test]
fn nothing_supported_is_refused() {
    assert_eq!(
        MergerService.inspect_inputs(vec![Ok(None), Ok(None)]),
        Err(AppError::NoSupportedInputs)
    );
    assert_eq!(MergerService.inspect_inputs(Vec::new()), Err(AppError::NoSupportedInputs));
}

#[test]
fn inspected_items_keep_their_order() {
    let items = MergerService
        .inspect_inputs(vec![Ok(Some(item("a"))), Ok(None), Ok(Some(item("b")))])
        .expect("items");
    assert_eq!(items, vec![item("a"), item("b")]);
}
