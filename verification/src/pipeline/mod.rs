//! From a page to an archived text.

pub mod archive;
pub mod capture;
pub mod fetch;
pub mod html_extract;
pub mod markdown;
pub mod outcome;
