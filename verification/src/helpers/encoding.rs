//! Decoding of text bytes through `encoding_rs`.

use vstd::prelude::*;

verus! {

/// The text that the encoding known under `label` gives to `bytes`, or `None`
/// where the Encoding Standard knows no such label.
pub uninterp spec fn decoded_text(label: Seq<char>, bytes: Seq<u8>) -> Option<Seq<char>>;

/// The label of little-endian UTF-16.
pub const UTF_16LE: &'static str = "UTF-16LE";

/// Looks the label up with `encoding_rs::Encoding::for_label` and decodes the
/// whole input with `Encoding::decode`, which sniffs a byte order mark and puts
/// U+FFFD for malformed sequences. Claimed: the outcome is a function of the
/// label and the bytes, and the label of little-endian UTF-16 is known. The
/// bound on the length keeps the decoder's own size computation from
/// overflowing.
#[verifier::external_body]
pub(crate) fn decode_text(label: &str, bytes: &[u8]) -> (res: Option<String>)
    requires
        bytes@.len() <= usize::MAX / 4,
    ensures
        (match res {
            Some(text) => Some(text@),
            None => None,
        }) == decoded_text(label@, bytes@),
        label@ == UTF_16LE@ ==> res is Some,
{
    encoding_rs::Encoding::for_label(label.as_bytes()).map(|found| found.decode(bytes).0.into_owned())
}

} // verus!
