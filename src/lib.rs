//! Applies SEARCH/REPLACE edit scripts to a text, with a strict engine that takes
//! blocks in order and a lenient one that sorts them by position.
pub mod error;
pub mod lenient;
pub mod locate;
pub mod marker;
pub mod strict;
pub mod text;
pub mod theorems;

pub use error::DiffError;
pub use lenient::construct_new_file_content_v1;
pub use strict::{construct_new_file_content_v2, NewFileContentConstructor};
