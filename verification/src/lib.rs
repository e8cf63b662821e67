use vstd::prelude::*;

pub mod app_state;
pub mod carved_file;
pub mod commands;
pub mod constants;
pub mod device;
pub mod error;
pub mod extractor;
pub mod hexdump;
pub mod locale;
pub mod log_capture;
pub mod matcher;
pub mod notification;
pub mod scan_laws;
pub mod scan_model;
pub mod scan_chunks;
pub mod scan_headers;
pub mod scan_lone;
pub mod scanner;
pub mod signature;
pub mod source;
pub mod text;
pub mod validation;
pub mod window;
pub mod window_laws;

verus! {

} // verus!
