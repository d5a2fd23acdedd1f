//! Verified line-record scanning over in-memory byte sources.
//!
//! A *record* is one newline-delimited unit of text: segments are separated
//! by the byte `0x0A`, a trailing delimiter closes the final record, and a
//! final unterminated segment still counts as one record.
//!
//! The library offers four interchangeable scanning strategies (iterator
//! style, manual buffer reuse, sized-buffer chunking, and mapped whole-region
//! scanning), all proved to satisfy one contract: on well-formed UTF-8 input
//! they return exactly the number of records, and on malformed input they
//! report a decode error. Echo helpers reproduce the input from its records.
//!
//! I/O stays outside: callers hand the library the bytes of a source (a read
//! file, standard input, a memory-mapped region) as a slice.

pub mod records;
pub mod scan;
pub mod utf8;
