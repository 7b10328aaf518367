//! Streams a word-processing package's text and images into a minimal PDF.
use vstd::prelude::*;

pub mod decimal;
pub mod pdf_stream_writer;
pub mod pdf_document;
pub mod bytes;
pub mod walker;
pub mod media;
pub mod display;
