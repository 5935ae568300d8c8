use merge_picture::commands::preview_merge_plan;
use merge_picture::domain::PreviewRequest;
use merge_picture::errors::AppError;

#[test]
fn error_codes() {
    assert_eq!(AppError::EmptyInput.code(), "empty_input");
    assert_eq!(AppError::InvalidOutputPath.code(), "invalid_output_path");
    assert_eq!(AppError::MissingInputFile("p".to_string()).code(), "missing_input_file");
    assert_eq!(AppError::UnsupportedInput("p".to_string()).code(), "unsupported_input");
    assert_eq!(AppError::NoSupportedInputs.code(), "no_supported_inputs");
    assert_eq!(AppError::Io("m".to_string()).code(), "io_error");
    assert_eq!(AppError::Image("m".to_string()).code(), "image_error");
    assert_eq!(AppError::Pdf("m".to_string()).code(), "pdf_error");
    assert_eq!(AppError::Write("m".to_string()).code(), "write_error");
}

#[test]
fn error_messages() {
    assert_eq!(AppError::EmptyInput.message(), "No input files were provided");
    assert_eq!(AppError::InvalidOutputPath.message(), "Output path must end with .pdf");
    assert_eq!(
        AppError::MissingInputFile("/a".to_string()).message(),
        "Input file does not exist: /a"
    );
    assert_eq!(
        AppError::UnsupportedInput("/b".to_string()).message(),
        "Unsupported file kind for path: /b"
    );
    assert_eq!(
        AppError::NoSupportedInputs.message(),
        "No supported input files were selected"
    );
    assert_eq!(AppError::Io("x".to_string()).message(), "Failed to read file: x");
    assert_eq!(AppError::Image("y".to_string()).message(), "Failed to decode image: y");
    assert_eq!(AppError::Pdf("z".to_string()).message(), "Failed to process PDF: z");
    assert_eq!(AppError::Write("w".to_string()).message(), "Failed to save merged PDF: w");
}

#[test]
fn error_payload() {
    let payload = AppError::Pdf("broken".to_string()).payload();
    assert_eq!(payload.code, "pdf_error");
    assert_eq!(payload.message, "Failed to process PDF: broken");
}

#[test]
fn preview_command_never_fails() {
    let plan = preview_merge_plan(PreviewRequest { items: Vec::new() }).expect("plan");
    assert_eq!(plan.total_items, 0);
}
