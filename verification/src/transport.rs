//! The ring transport: a single-writer, single-reader channel of fixed-size
//! order records laid out in one flat region of bytes.

pub mod inq;
pub mod layout;
