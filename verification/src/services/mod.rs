//! The services behind the application's commands.
pub mod merger;
