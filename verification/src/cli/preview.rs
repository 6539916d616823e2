//! Byte strings as they are listed.
use vstd::prelude::*;

use crate::cli::output::{BytePreview, BytePreviewView};
use crate::fingerprint;
use crate::fingerprint::sha256_hex;
use crate::numbers;
use crate::types;
use crate::types::LaneTextPreview;
use crate::utf8_text;
use crate::utf8_text::utf8_text;

verus! {

/// The number of bytes that a preview keeps.
pub const BYTE_PREVIEW_LIMIT: usize = 4096;

/// The beginning of bytes that are text.
pub open spec fn text_beginning(bytes: Seq<u8>) -> Option<Seq<char>> {
    match utf8_text::utf8_text_of(bytes) {
        None => None,
        Some(text) => if bytes.len() <= BYTE_PREVIEW_LIMIT {
            Some(text)
        } else {
            Some(types::utf8_prefix(text, BYTE_PREVIEW_LIMIT as nat))
        },
    }
}

/// The preview of a byte string.
pub open spec fn previewed(bytes: Seq<u8>) -> BytePreviewView {
    BytePreviewView {
        len: bytes.len(),
        sha256: numbers::hex_text(fingerprint::sha256(bytes)),
        utf8: text_beginning(bytes),
        truncated: bytes.len() > BYTE_PREVIEW_LIMIT,
    }
}

/// The preview of a byte string.
pub fn byte_preview(bytes: &[u8]) -> (r: BytePreview)
    ensures
        r@ == previewed(bytes@),
{
    BytePreview {
        len: bytes.len(),
        sha256: sha256_hex(bytes),
        utf8: utf8_preview(bytes),
        truncated: bytes.len() > BYTE_PREVIEW_LIMIT,
    }
}

fn utf8_preview(bytes: &[u8]) -> (r: Option<String>)
    ensures
        crate::text::opt_text(r) == text_beginning(bytes@),
{
    match utf8_text(bytes) {
        None => None,
        Some(text) => if bytes.len() <= BYTE_PREVIEW_LIMIT {
            Some(text)
        } else {
            Some(LaneTextPreview::from_text(text.as_str()).text)
        },
    }
}

} // verus!
