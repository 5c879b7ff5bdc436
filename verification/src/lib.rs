//! A PDF object model: typed object values, an object store keyed by object
//! identity, a document with its page list, a reader and a writer.

pub mod qpdf;
