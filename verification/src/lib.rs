//! Foundation layer of a page-oriented storage engine: a growable,
//! fixed-stride record store over an owned byte region, and a fixed-size
//! slotted page packing variable-length records behind an offset directory.

pub mod bytes;
pub mod mm_io;
pub mod page;
