//! Reading the bytes of a file.

pub mod bytes;
pub mod io;
pub mod theorems;
