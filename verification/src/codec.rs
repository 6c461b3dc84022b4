//! The compact on-chain string encoding.
//!
//! Identity fields arrive as a tagged byte sequence: tag `0` means the
//! field is absent, a tag in `[1, 33]` means an inline string whose UTF-8
//! bytes follow, and any larger tag marks a hashed variant that cannot be
//! recovered as text.  Decoding never fails: every unrepresentable case
//! degrades to `None`.

use vstd::prelude::*;
use vstd::utf8::decode_utf8;
use vstd::utf8::encode_utf8;
use vstd::utf8::encode_utf8_decode_utf8;
use vstd::utf8::encode_utf8_valid_utf8;
use vstd::utf8::valid_utf8;

verus! {

/// Tags in `[1, MAX_INLINE_TAG]` mark an inline string.
pub const MAX_INLINE_TAG: u8 = 33;

/// What a compact-encoded field denotes, if it denotes a string at all.
pub open spec fn spec_data_to_str(bytes: Seq<u8>) -> Option<Seq<char>> {
    if bytes.len() == 0 {
        None
    } else if 1 <= bytes[0] <= MAX_INLINE_TAG {
        if valid_utf8(bytes.skip(1)) {
            Some(decode_utf8(bytes.skip(1)))
        } else {
            None
        }
    } else {
        None
    }
}

/// Relies on `String::from_utf8`: yields the decoded string exactly when
/// the bytes are valid UTF-8, and nothing otherwise.
#[verifier::external_body]
pub(crate) fn bytes_to_string(v: Vec<u8>) -> (r: Option<String>)
    ensures
        match r {
            Some(s) => valid_utf8(v@) && s@ == decode_utf8(v@),
            None => !valid_utf8(v@),
        },
{
    String::from_utf8(v).ok()
}

/// Decodes a compact-encoded identity field to its inline string, if any.
pub fn data_to_str(data: &[u8]) -> (r: Option<String>)
    ensures
        match spec_data_to_str(data@) {
            Some(s) => r matches Some(x) && x@ == s,
            None => r is None,
        },
{
    if data.len() == 0 {
        return None;
    }
    let tag = data[0];
    if 1 <= tag && tag <= MAX_INLINE_TAG {
        let mut payload: Vec<u8> = Vec::new();
        let mut i: usize = 1;
        while i < data.len()
            invariant
                1 <= i <= data@.len(),
                payload@ == data@.subrange(1, i as int),
            decreases data@.len() - i,
        {
            payload.push(data[i]);
            i = i + 1;
        }
        proof {
            assert(payload@ =~= data@.skip(1));
        }
        bytes_to_string(payload)
    } else {
        None
    }
}

/// A tag byte of `0` marks an absent field: nothing is decoded.
pub proof fn lemma_decode_absent(bytes: Seq<u8>)
    requires
        bytes.len() > 0,
        bytes[0] == 0,
    ensures
        spec_data_to_str(bytes) is None,
{
}

/// An inline tag followed by the UTF-8 bytes of a string decodes to
/// exactly that string.
pub proof fn lemma_decode_inline(tag: u8, s: Seq<char>)
    requires
        1 <= tag <= MAX_INLINE_TAG,
    ensures
        spec_data_to_str(seq![tag] + encode_utf8(s)) == Some(s),
{
    let b = seq![tag] + encode_utf8(s);
    assert(b.skip(1) =~= encode_utf8(s));
    encode_utf8_valid_utf8(s);
    encode_utf8_decode_utf8(s);
}

/// The same, phrased over the payload bytes: an inline tag followed by
/// any valid UTF-8 bytes decodes to the string those bytes spell.
pub proof fn lemma_decode_inline_bytes(tag: u8, payload: Seq<u8>)
    requires
        1 <= tag <= MAX_INLINE_TAG,
        valid_utf8(payload),
    ensures
        spec_data_to_str(seq![tag] + payload) == Some(decode_utf8(payload)),
{
    assert((seq![tag] + payload).skip(1) =~= payload);
}

/// A tag above the inline range marks a hashed variant: nothing is
/// decoded, whatever the payload.
pub proof fn lemma_decode_opaque(bytes: Seq<u8>)
    requires
        bytes.len() > 0,
        bytes[0] > MAX_INLINE_TAG,
    ensures
        spec_data_to_str(bytes) is None,
{
}

} // verus!
