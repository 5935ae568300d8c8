//! Merging images and PDF files into one PDF document: inspection of the
//! picked inputs, the merge plan, request validation, the preparation of each
//! input and the assembly of the merged document.
pub mod domain;
pub mod errors;
pub mod text;
pub mod pdf;
pub mod services;
pub mod commands;
