//! Writing to the console without failing the scan when the console refuses.
use vstd::prelude::*;
use std::io::Write;

verus! {

#[verifier::external_type_specification]
#[verifier::external_body]
pub struct ExIoError(std::io::Error);

/// Calls `Write::write_all`. Whether the write succeeds depends on where the writer leads,
/// so nothing is stated of the result or of the writer.
#[verifier::external_body]
fn write_all_bytes<W: Sized + Write>(writer: &mut W, bytes: &[u8]) -> (result: Result<(), std::io::Error>) {
    writer.write_all(bytes)
}

/// Calls `Write::flush`. Whether the flush succeeds depends on where the writer leads, so
/// nothing is stated of the result or of the writer.
#[verifier::external_body]
fn flush_writer<W: Sized + Write>(writer: &mut W) -> (result: Result<(), std::io::Error>) {
    writer.flush()
}

/// Writes `line` to `writer` (a buffered console writer) and tells whether the write
/// failed; the failure does not stop the scan, its caller reports it.
pub fn write_all<W>(writer: &mut W, line: &[u8]) -> (failed: bool) where W: Sized + Write {
    match write_all_bytes(writer, line) {
        Err(_) => true,
        Ok(_) => false,
    }
}

/// Flushes `writer` and tells whether the flush failed; the failure does not stop the
/// scan, its caller reports it.
pub fn flush<W>(writer: &mut W) -> (failed: bool) where W: Sized + Write {
    match flush_writer(writer) {
        Err(_) => true,
        Ok(_) => false,
    }
}

/// Writes `line` to `writer` and flushes it, as a scan does when it stops, the flush
/// being tried even when the write failed; tells whether the write and whether the flush
/// failed.
pub fn fail<W>(writer: &mut W, line: &[u8]) -> (failed: (bool, bool)) where W: Sized + Write {
    let write_failed = write_all(writer, line);
    let flush_failed = flush(writer);
    (write_failed, flush_failed)
}

} // verus!
