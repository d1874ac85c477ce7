//! A reader for DICOM Part 10 files: from the bytes of a file to a dataset
//! of typed elements that can be asked for by tag or by keyword.

pub mod dataelem;
pub mod dataset;
pub mod dictionary;
pub mod modules;
pub mod order;
pub mod text;
