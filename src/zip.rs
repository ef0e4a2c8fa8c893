use vstd::prelude::*;
use base64::Engine;
use std::io::Read;

verus! {

#[verifier::external_type_specification]
#[verifier::external_body]
pub struct ExIoError(std::io::Error);

#[verifier::external_type_specification]
#[verifier::external_body]
pub struct ExDecodeError(base64::DecodeError);

/// The gzip stream, at the best compression level, of the UTF-8 bytes of a
/// text; none where the encoder reports an error.
pub uninterp spec fn gzip_of(s: Seq<char>) -> Option<Seq<u8>>;

/// The text that a gzip stream inflates to; none where the stream is
/// corrupt or incomplete, or inflates to bytes that are no UTF-8.
pub uninterp spec fn gunzip_of(b: Seq<u8>) -> Option<Seq<char>>;

/// The URL-safe, padded base64 text of some bytes.
pub uninterp spec fn base64_of(b: Seq<u8>) -> Seq<char>;

/// The chars of the URL-safe base64 alphabet, and the padding char.
pub open spec fn is_url_safe_char(c: char) -> bool {
    ('A' <= c && c <= 'Z') || ('a' <= c && c <= 'z') || ('0' <= c && c <= '9') || c == '-' || c
        == '_' || c == '='
}

/// Whether a text is the base64 text of some bytes.
pub open spec fn is_base64_text(z: Seq<char>) -> bool {
    exists|b: Seq<u8>| z == #[trigger] base64_of(b)
}

/// The framed form of a text: gzip, then URL-safe base64; none where the
/// encoder fails.
pub open spec fn zipped_text(s: Seq<char>) -> Option<Seq<char>> {
    match gzip_of(s) {
        Some(g) => Some(base64_of(g)),
        None => None,
    }
}

/// Relies on flate2's `GzEncoder` at `Compression::new(9)`, read to the end:
/// the gzip stream of the text's bytes, or the encoder's error.
#[verifier::external_body]
fn gzip_text(s: &str) -> (r: Result<Vec<u8>, std::io::Error>)
    ensures
        match gzip_of(s@) {
            Some(g) => r is Ok && r->Ok_0@ == g,
            None => r is Err,
        },
{
    let mut encoder = flate2::read::GzEncoder::new(s.as_bytes(), flate2::Compression::new(9));
    let mut bytes = Vec::new();
    match encoder.read_to_end(&mut bytes) {
        Ok(_) => Ok(bytes),
        Err(e) => Err(e),
    }
}

/// Relies on flate2's `GzDecoder`, read to a string: the text the stream
/// inflates to, and a stream that `GzEncoder` made of a text inflates back
/// to that text.
#[verifier::external_body]
fn gunzip_text(b: &[u8]) -> (r: Result<String, std::io::Error>)
    ensures
        match gunzip_of(b@) {
            Some(t) => r is Ok && r->Ok_0@ == t,
            None => r is Err,
        },
        forall|t: Seq<char>| #[trigger] gzip_of(t) == Some(b@) ==> r is Ok && r->Ok_0@ == t,
{
    let mut text = String::new();
    let mut decoder = flate2::read::GzDecoder::new(b);
    match decoder.read_to_string(&mut text) {
        Ok(_) => Ok(text),
        Err(e) => Err(e),
    }
}

/// Relies on base64's `URL_SAFE` engine, `encode`: padded text over the
/// URL-safe alphabet.
#[verifier::external_body]
fn base64_encode(b: &[u8]) -> (r: String)
    ensures
        r@ == base64_of(b@),
        forall|i: int| 0 <= i < r@.len() ==> is_url_safe_char(#[trigger] r@[i]),
{
    base64::engine::general_purpose::URL_SAFE.encode(b)
}

/// Relies on base64's `URL_SAFE` engine, `decode`, which asks for canonical
/// padding: it accepts exactly the texts that `encode` makes, and gives back
/// the bytes they were made of.
#[verifier::external_body]
fn base64_decode(s: &str) -> (r: Result<Vec<u8>, base64::DecodeError>)
    ensures
        (r is Ok) == is_base64_text(s@),
        forall|b: Seq<u8>| s@ == #[trigger] base64_of(b) ==> r is Ok && r->Ok_0@ == b,
{
    base64::engine::general_purpose::URL_SAFE.decode(s)
}

/// Why a framed text could not be made or read.
#[derive(Debug)]
pub enum ZipError {
    Base64(base64::DecodeError),
    Io(std::io::Error),
}

/// Frames a text: gzip at the best level, then URL-safe base64.
pub fn zip_string(unzipped: &str) -> (r: Result<String, ZipError>)
    ensures
        match zipped_text(unzipped@) {
            Some(z) => r is Ok && r->Ok_0@ == z,
            None => r is Err && r->Err_0 is Io,
        },
        r is Ok ==> forall|i: int| 0 <= i < r->Ok_0@.len() ==> is_url_safe_char(#[trigger] r->Ok_0@[i]),
{
    match gzip_text(unzipped) {
        Ok(bytes) => Ok(base64_encode(bytes.as_slice())),
        Err(e) => Err(ZipError::Io(e)),
    }
}

/// Reads a framed text back: base64, then gzip. Text that is no base64 fails
/// with `Base64`, bytes that do not inflate to a text fail with `Io`, and
/// every framed text reads back to the text it was made of.
pub fn unzip_string(zipped: &str) -> (r: Result<String, ZipError>)
    ensures
        !is_base64_text(zipped@) ==> r is Err && r->Err_0 is Base64,
        forall|b: Seq<u8>|
            zipped@ == #[trigger] base64_of(b) ==> match gunzip_of(b) {
                Some(t) => r is Ok && r->Ok_0@ == t,
                None => r is Err && r->Err_0 is Io,
            },
        forall|t: Seq<char>| zipped_text(t) == Some(zipped@) ==> r is Ok && r->Ok_0@ == t,
{
    match base64_decode(zipped) {
        Ok(bytes) => match gunzip_text(bytes.as_slice()) {
            Ok(text) => Ok(text),
            Err(e) => Err(ZipError::Io(e)),
        },
        Err(e) => Err(ZipError::Base64(e)),
    }
}

} // verus!
