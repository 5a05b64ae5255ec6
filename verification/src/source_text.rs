//! The bytes of a C source in the encoding the compiler reads.
use vstd::prelude::*;
use vstd::utf8::encode_utf8;

verus! {

/// Whether `encoding_rs::Encoding::for_label` finds an encoding for
/// `label`.
pub uninterp spec fn label_known(label: Seq<u8>) -> bool;

/// What `Encoding::encode` gives for `text` in the encoding that `label`
/// names: the bytes, and whether some character could not be mapped (it
/// is then written as an HTML numeric character reference).
pub uninterp spec fn encoded_in(label: Seq<u8>, text: Seq<char>) -> (Seq<u8>, bool);

/// `encoding_rs::Encoding::for_label(label).is_some()`: whether the label
/// names an encoding. The contract names the answer; the crate's label
/// table is not restated.
#[verifier::external_body]
fn encoding_label_known(label: &[u8]) -> (r: bool)
    ensures
        r == label_known(label@),
{
    encoding_rs::Encoding::for_label(label).is_some()
}

/// `Encoding::encode` of `text` in the encoding that `label` names (looked
/// up as `encoding_label_known` does): the bytes and whether there were
/// unmappable characters. The contract names the result. The crate panics
/// only where a buffer size overflows `usize` (at most about three times
/// the text's UTF-8 length plus a few bytes, rounded up to a power of two),
/// which the bound on the text's length rules out.
#[verifier::external_body]
fn encode_in(label: &[u8], text: &str) -> (r: (Vec<u8>, bool))
    requires
        label_known(label@),
        encode_utf8(text@).len() <= usize::MAX / 64,
    ensures
        (r.0@, r.1) == encoded_in(label@, text@),
{
    let enc = encoding_rs::Encoding::for_label(label).unwrap();
    let (bytes, _, had_errors) = enc.encode(text);
    (bytes.into_owned(), had_errors)
}

/// Why a source cannot be given to the compiler in its encoding.
#[derive(Debug, Clone, Copy, PartialEq, Eq)]
pub enum EncodeError {
    /// The label names no encoding.
    UnknownEncoding,
    /// Some character has no form in the encoding.
    Unmappable,
}

/// The bytes of `text` in the encoding that `label` names (see
/// `encoded_in`): an error where the label names no encoding or a
/// character cannot be encoded.
pub fn encode_source(label: &[u8], text: &str) -> (r: Result<Vec<u8>, EncodeError>)
    requires
        encode_utf8(text@).len() <= usize::MAX / 64,
    ensures
        !label_known(label@) <==> r matches Err(EncodeError::UnknownEncoding),
        label_known(label@) ==> match r {
            Ok(b) => encoded_in(label@, text@) == (b@, false),
            Err(e) => e == EncodeError::Unmappable && encoded_in(label@, text@).1,
        },
{
    if !encoding_label_known(label) {
        return Err(EncodeError::UnknownEncoding);
    }
    let (bytes, had_errors) = encode_in(label, text);
    if had_errors {
        Err(EncodeError::Unmappable)
    } else {
        Ok(bytes)
    }
}

} // verus!
