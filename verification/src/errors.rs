//! The errors of the merge service, with the code and the message that a
//! caller is shown for each.
use vstd::prelude::*;

verus! {

/// Every way in which inspecting or merging inputs can fail.
#[derive(Clone, Debug, PartialEq, Eq)]
pub enum AppError {
    EmptyInput,
    InvalidOutputPath,
    MissingInputFile(String),
    UnsupportedInput(String),
    NoSupportedInputs,
    Io(String),
    Image(String),
    Pdf(String),
    Write(String),
}

/// The serialised form of an error: a stable code and a readable message.
#[derive(Clone, Debug)]
pub struct ErrorPayload {
    pub code: &'static str,
    pub message: String,
}

/// The stable code of each error kind.
pub open spec fn error_code(e: AppError) -> Seq<char> {
    match e {
        AppError::EmptyInput => "empty_input"@,
        AppError::InvalidOutputPath => "invalid_output_path"@,
        AppError::MissingInputFile(_) => "missing_input_file"@,
        AppError::UnsupportedInput(_) => "unsupported_input"@,
        AppError::NoSupportedInputs => "no_supported_inputs"@,
        AppError::Io(_) => "io_error"@,
        AppError::Image(_) => "image_error"@,
        AppError::Pdf(_) => "pdf_error"@,
        AppError::Write(_) => "write_error"@,
    }
}

/// The message of each error: a fixed sentence, followed by the detail that
/// the error carries where it carries one.
pub open spec fn error_message(e: AppError) -> Seq<char> {
    match e {
        AppError::EmptyInput => "No input files were provided"@,
        AppError::InvalidOutputPath => "Output path must end with .pdf"@,
        AppError::MissingInputFile(p) => "Input file does not exist: "@ + p@,
        AppError::UnsupportedInput(p) => "Unsupported file kind for path: "@ + p@,
        AppError::NoSupportedInputs => "No supported input files were selected"@,
        AppError::Io(m) => "Failed to read file: "@ + m@,
        AppError::Image(m) => "Failed to decode image: "@ + m@,
        AppError::Pdf(m) => "Failed to process PDF: "@ + m@,
        AppError::Write(m) => "Failed to save merged PDF: "@ + m@,
    }
}

fn prefixed(prefix: &str, detail: &String) -> (r: String)
    ensures
        r@ == prefix@ + detail@,
{
    let mut s = String::from_str(prefix);
    s.append(detail.as_str());
    s
}

/// Which kind of error a value is, as a number.
pub open spec fn error_kind(e: AppError) -> int {
    match e {
        AppError::EmptyInput => 0,
        AppError::InvalidOutputPath => 1,
        AppError::MissingInputFile(_) => 2,
        AppError::UnsupportedInput(_) => 3,
        AppError::NoSupportedInputs => 4,
        AppError::Io(_) => 5,
        AppError::Image(_) => 6,
        AppError::Pdf(_) => 7,
        AppError::Write(_) => 8,
    }
}

/// The kind that a code names, read from its length and first letter.
spec fn kind_named_by(code: Seq<char>) -> int {
    if code.len() == 11 && code[0] == 'e' {
        0
    } else if code.len() == 19 && code[0] == 'i' {
        1
    } else if code.len() == 18 {
        2
    } else if code.len() == 17 {
        3
    } else if code.len() == 19 {
        4
    } else if code.len() == 8 {
        5
    } else if code.len() == 11 && code[0] == 'i' {
        6
    } else if code.len() == 9 {
        7
    } else {
        8
    }
}

proof fn lemma_code_names_kind(e: AppError)
    ensures
        kind_named_by(error_code(e)) == error_kind(e),
{
    match e {
        AppError::EmptyInput => reveal_strlit("empty_input"),
        AppError::InvalidOutputPath => reveal_strlit("invalid_output_path"),
        AppError::MissingInputFile(_) => reveal_strlit("missing_input_file"),
        AppError::UnsupportedInput(_) => reveal_strlit("unsupported_input"),
        AppError::NoSupportedInputs => reveal_strlit("no_supported_inputs"),
        AppError::Io(_) => reveal_strlit("io_error"),
        AppError::Image(_) => reveal_strlit("image_error"),
        AppError::Pdf(_) => reveal_strlit("pdf_error"),
        AppError::Write(_) => reveal_strlit("write_error"),
    }
}

/// The code of an error tells its kind: two errors with the same code are
/// of the same kind.
pub proof fn lemma_error_code_identifies_kind(a: AppError, b: AppError)
    requires
        error_code(a) == error_code(b),
    ensures
        error_kind(a) == error_kind(b),
{
    lemma_code_names_kind(a);
    lemma_code_names_kind(b);
}

impl AppError {
    /// The stable code of this error.
    pub fn code(&self) -> (r: &'static str)
        ensures
            r@ == error_code(*self),
    {
        match self {
            AppError::EmptyInput => "empty_input",
            AppError::InvalidOutputPath => "invalid_output_path",
            AppError::MissingInputFile(_) => "missing_input_file",
            AppError::UnsupportedInput(_) => "unsupported_input",
            AppError::NoSupportedInputs => "no_supported_inputs",
            AppError::Io(_) => "io_error",
            AppError::Image(_) => "image_error",
            AppError::Pdf(_) => "pdf_error",
            AppError::Write(_) => "write_error",
        }
    }

    /// The readable message of this error.
    pub fn message(&self) -> (r: String)
        ensures
            r@ == error_message(*self),
    {
        match self {
            AppError::EmptyInput => String::from_str("No input files were provided"),
            AppError::InvalidOutputPath => String::from_str("Output path must end with .pdf"),
            AppError::MissingInputFile(p) => prefixed("Input file does not exist: ", p),
            AppError::UnsupportedInput(p) => prefixed("Unsupported file kind for path: ", p),
            AppError::NoSupportedInputs => String::from_str("No supported input files were selected"),
            AppError::Io(m) => prefixed("Failed to read file: ", m),
            AppError::Image(m) => prefixed("Failed to decode image: ", m),
            AppError::Pdf(m) => prefixed("Failed to process PDF: ", m),
            AppError::Write(m) => prefixed("Failed to save merged PDF: ", m),
        }
    }

    /// The payload under which this error is handed to the user interface.
    pub fn payload(&self) -> (r: ErrorPayload)
        ensures
            r.code@ == error_code(*self),
            r.message@ == error_message(*self),
    {
        ErrorPayload { code: self.code(), message: self.message() }
    }
}

} // verus!
