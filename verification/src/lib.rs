//! Data-format containers for program payloads.
//!
//! A payload is embedded as inert data in an ordinary PDF (file attachment)
//! or SVG (`<metadata>` element). The loader is strict and fails closed:
//! exactly one payload, size-capped, SHA-256 verified.

use vstd::prelude::*;
use vstd::utf8::encode_utf8;

use crate::seqs::{contains, matches_at, occurs_at, same_bytes, starts_with};

pub mod accepts;
pub mod decimal;
pub mod digest;
pub mod inert;
pub mod laws;
pub mod pdf;
pub mod seqs;
pub mod svg;
pub mod tags;
pub mod text;

pub use digest::sha256_hex;

verus! {

/// Hard cap on payload size accepted by the loader.
pub const MAX_PAYLOAD: usize = 1048576;

/// Why a container was refused.
#[derive(Debug, PartialEq, Eq)]
pub enum Error {
    /// No embedded payload found.
    NotFound,
    /// More than one embedded payload (an ambiguous container is refused).
    Multiple,
    /// Malformed container, with what is wrong.
    Malformed(String),
    /// Payload too large, with its size in bytes.
    TooLarge(usize),
    /// Payload integrity check failed.
    HashMismatch,
    /// Invalid program, with what is wrong.
    Program(String),
    /// Unrecognised container format.
    UnknownFormat,
}

/// An [`Error`] as a value of the specifications: its messages as characters.
pub enum Rejection {
    NotFound,
    Multiple,
    Malformed(Seq<char>),
    TooLarge(usize),
    HashMismatch,
    Program(Seq<char>),
    UnknownFormat,
}

impl View for Error {
    type V = Rejection;

    open spec fn view(&self) -> Rejection {
        match self {
            Error::NotFound => Rejection::NotFound,
            Error::Multiple => Rejection::Multiple,
            Error::Malformed(m) => Rejection::Malformed(m@),
            Error::TooLarge(n) => Rejection::TooLarge(*n),
            Error::HashMismatch => Rejection::HashMismatch,
            Error::Program(m) => Rejection::Program(m@),
            Error::UnknownFormat => Rejection::UnknownFormat,
        }
    }
}

/// The result of an operation on bytes, as a value of the specifications.
pub open spec fn outcome(r: Result<Vec<u8>, Error>) -> Result<Seq<u8>, Rejection> {
    match r {
        Ok(v) => Ok(v@),
        Err(e) => Err(e@),
    }
}

/// A `Malformed` error with the given message.
#[verifier::spinoff_prover]
pub(crate) fn malformed(msg: &str) -> (e: Error)
    ensures
        e@ == Rejection::Malformed(msg@),
{
    Error::Malformed(msg.to_owned())
}

/// What the integrity check gives: the payload when the checksum text
/// computed from it is the one the container carries.
pub open spec fn checked(payload: Seq<u8>, computed: Seq<u8>, carried: Seq<u8>) -> Result<
    Seq<u8>,
    Rejection,
> {
    if computed == carried {
        Ok(payload)
    } else {
        Err(Rejection::HashMismatch)
    }
}

/// The integrity check: gives the payload back when the checksum text
/// computed from it equals the one the container carries.
#[verifier::spinoff_prover]
pub fn check_payload(payload: &[u8], computed: &[u8], carried: &[u8]) -> (r: Result<
    Vec<u8>,
    Error,
>)
    ensures
        outcome(r) == checked(payload@, computed@, carried@),
{
    if same_bytes(computed, carried) {
        Ok(vstd::slice::slice_to_vec(payload))
    } else {
        Err(Error::HashMismatch)
    }
}

/// Container formats that can carry a payload.
#[derive(Debug, Clone, Copy, PartialEq, Eq, Structural)]
pub enum Format {
    Pdf,
    Svg,
}

/// The bytes a PDF file begins with.
pub open spec fn pdf_magic() -> Seq<u8> {
    encode_utf8("%PDF-"@)
}

/// The start of an SVG root element.
pub open spec fn svg_tag() -> Seq<u8> {
    encode_utf8("<svg"@)
}

/// The format a file is in: PDF when it begins with `%PDF-`, else SVG when
/// `<svg` starts within its first 512 bytes, else none.
pub open spec fn detected(bytes: Seq<u8>) -> Option<Format> {
    if occurs_at(bytes, pdf_magic(), 0) {
        Some(Format::Pdf)
    } else if exists|i: int| 0 <= i < 512 && occurs_at(bytes, svg_tag(), i) {
        Some(Format::Svg)
    } else {
        None
    }
}

/// The format a file is in, by its first bytes.
#[verifier::spinoff_prover]
pub fn detect(bytes: &[u8]) -> (r: Option<Format>)
    ensures
        r == detected(bytes@),
{
    if starts_with(bytes, "%PDF-".as_bytes()) {
        return Some(Format::Pdf);
    }
    let tag = "<svg".as_bytes();
    proof {
        reveal_strlit("<svg");
        vstd::utf8::is_ascii_chars_encode_utf8("<svg"@);
    }
    assert(tag@.len() == 4);
    let len = bytes.len();
    let mut i: usize = 0;
    while i < 512 && i + 4 <= len
        invariant
            i <= 512,
            len == bytes@.len(),
            tag@ == svg_tag(),
            tag@.len() == 4,
            !occurs_at(bytes@, pdf_magic(), 0),
            forall|j: int| 0 <= j < i ==> !occurs_at(bytes@, svg_tag(), j),
        decreases 512 - i,
    {
        if matches_at(bytes, tag, i) {
            assert(0 <= i < 512 && occurs_at(bytes@, svg_tag(), i as int));
            return Some(Format::Svg);
        }
        i = i + 1;
    }
    None
}

/// What embedding a payload gives: the container of the requested format,
/// unless the payload is over the cap.
pub open spec fn embedded(format: Format, payload: Seq<u8>, title: Seq<char>) -> Result<
    Seq<u8>,
    Rejection,
> {
    if payload.len() > MAX_PAYLOAD {
        Err(Rejection::TooLarge(payload.len() as usize))
    } else {
        match format {
            Format::Pdf => pdf::wrap_result(payload, title),
            Format::Svg => svg::wrap_result(payload, title),
        }
    }
}

/// Wraps a serialised program in the requested container. The container
/// is detected in that format, and extracting from it gives the payload back
/// (for PDF, unless the escaped title holds the marker of the embedded file).
#[verifier::spinoff_prover]
pub fn embed_payload(format: Format, payload: &[u8], title: &str) -> (r: Result<Vec<u8>, Error>)
    ensures
        outcome(r) == embedded(format, payload@, title@),
        r matches Ok(file) ==> detected(file@) == Some(format),
        r matches Ok(file) ==> (format == Format::Pdf ==> !contains(
            encode_utf8(pdf::escape_text(title@)),
            pdf::marker(),
        )) ==> extracted(file@) == Ok::<Seq<u8>, Rejection>(payload@),
{
    if payload.len() > MAX_PAYLOAD {
        return Err(Error::TooLarge(payload.len()));
    }
    let r = match format {
        Format::Pdf => pdf::wrap(payload, title),
        Format::Svg => svg::wrap(payload, title),
    };
    proof {
        laws::detect_wrapped(format, payload@, title@);
        if r is Ok && (format == Format::Pdf ==> !contains(
            encode_utf8(pdf::escape_text(title@)),
            pdf::marker(),
        )) {
            laws::extract_inverts_embed(format, payload@, title@);
        }
    }
    r
}

/// What extracting gives: the payload of the container in the detected
/// format, or `UnknownFormat`.
pub open spec fn extracted(bytes: Seq<u8>) -> Result<Seq<u8>, Rejection> {
    match detected(bytes) {
        None => Err(Rejection::UnknownFormat),
        Some(Format::Pdf) => pdf::unwrap_result(bytes),
        Some(Format::Svg) => svg::unwrap_result(bytes),
    }
}

/// Extracts and verifies the serialised program inside a container.
#[verifier::spinoff_prover]
pub fn extract_payload(bytes: &[u8]) -> (r: Result<Vec<u8>, Error>)
    ensures
        outcome(r) == extracted(bytes@),
{
    match detect(bytes) {
        None => Err(Error::UnknownFormat),
        Some(Format::Pdf) => pdf::unwrap(bytes),
        Some(Format::Svg) => svg::unwrap(bytes),
    }
}

} // verus!
