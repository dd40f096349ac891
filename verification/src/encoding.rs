//! Base64 with the standard alphabet and padding (RFC 4648), as the log
//! stores directories and commands and as OSC 52 hands text to the terminal.
use vstd::prelude::*;

use base64::engine::general_purpose::STANDARD;
use base64::Engine;

verus! {

/// What `base64`'s standard engine (RFC 4648 alphabet, with padding) decodes
/// from the UTF-8 bytes of `input`; `None` when it refuses them.
pub uninterp spec fn base64_standard_decode(input: Seq<char>) -> Option<Seq<u8>>;

/// What `base64`'s standard engine (RFC 4648 alphabet, with padding) encodes `bytes` to.
pub uninterp spec fn base64_standard_encode(bytes: Seq<u8>) -> Seq<char>;

/// A character of the standard base64 alphabet, or the padding `=`.
pub open spec fn base64_symbol(c: char) -> bool {
    ||| 'A' <= c <= 'Z'
    ||| 'a' <= c <= 'z'
    ||| '0' <= c <= '9'
    ||| c == '+'
    ||| c == '/'
    ||| c == '='
}

/// The encoded length of `n` bytes does not overflow `usize` (the engine
/// panics when it would).
pub open spec fn encodable_len(n: nat) -> bool {
    (n / 3) * 4 + (if n % 3 > 0 {
        4nat
    } else {
        0nat
    }) <= usize::MAX
}

/// Calls `base64::engine::general_purpose::STANDARD.decode` on the bytes of
/// `input`. The decoded bytes, or the refusal, are named
/// `base64_standard_decode(input@)`; which inputs the engine accepts is not
/// stated here.
#[verifier::external_body]
pub(crate) fn base64_decode(input: &str) -> (res: Option<Vec<u8>>)
    ensures
        match res {
            Some(bytes) => base64_standard_decode(input@) == Some(bytes@),
            None => base64_standard_decode(input@) is None,
        },
{
    STANDARD.decode(input).ok()
}

/// Calls `base64::engine::general_purpose::STANDARD.encode`; the text it
/// returns is named `base64_standard_encode(bytes@)`. The text is made of the
/// standard alphabet and `=` padding, and the same engine decodes it back to
/// `bytes` (encoding pads canonically and zero-fills the trailing bits, which
/// is what decoding requires). The engine panics when the encoded length
/// overflows `usize`, which `requires` leaves out.
#[verifier::external_body]
pub(crate) fn base64_encode(bytes: &[u8]) -> (res: String)
    requires
        encodable_len(bytes@.len()),
    ensures
        res@ == base64_standard_encode(bytes@),
        forall|i: int| 0 <= i < res@.len() ==> base64_symbol(#[trigger] res@[i]),
        base64_standard_decode(res@) == Some(bytes@),
{
    STANDARD.encode(bytes)
}

} // verus!
