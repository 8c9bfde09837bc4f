//! A typed document-object model for the PDF object grammar, together with a
//! randomized generator of structurally valid instances for stress-testing
//! PDF readers.

pub mod fmt;
pub mod float;
pub mod gen;
pub mod laws;
pub mod pdfobj;
