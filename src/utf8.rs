//! Turning the bytes of generated tokens into text: tokens need not hold
//! whole characters, so bytes wait in a buffer until they decode.
use vstd::prelude::*;
use vstd::utf8::{decode_utf8, valid_utf8};
use llm::TokenUtf8Buffer;

verus! {

#[verifier::external_type_specification]
#[verifier::external_body]
pub struct ExTokenUtf8Buffer(TokenUtf8Buffer);

/// The bytes that a buffer holds, waiting to decode.
pub uninterp spec fn utf8_pending(b: TokenUtf8Buffer) -> Seq<u8>;

/// The first position from `i` on (and before the end) where the rest of
/// `all` is valid UTF-8.
pub open spec fn valid_suffix_from(all: Seq<u8>, i: int) -> Option<int>
    decreases all.len() - i,
{
    if i < 1 || i >= all.len() {
        None
    } else if valid_utf8(all.subrange(i, all.len() as int)) {
        Some(i)
    } else {
        valid_suffix_from(all, i + 1)
    }
}

/// The text that the buffer releases once it holds `all`: all of it where
/// it is valid UTF-8, else its shortest valid tail (the bytes before it are
/// dropped), else nothing yet.
pub open spec fn released(all: Seq<u8>) -> Option<Seq<char>> {
    if valid_utf8(all) {
        Some(decode_utf8(all))
    } else {
        match valid_suffix_from(all, 1) {
            Some(i) => Some(decode_utf8(all.subrange(i, all.len() as int))),
            None => None,
        }
    }
}

/// Relies on llm's `TokenUtf8Buffer::new`: an empty buffer.
#[verifier::external_body]
pub(crate) fn utf8_buffer() -> (r: TokenUtf8Buffer)
    ensures
        utf8_pending(r) == Seq::<u8>::empty(),
{
    TokenUtf8Buffer::new()
}

/// Relies on llm's `TokenUtf8Buffer::push`: the token's bytes join those
/// waiting; where all of them decode (`std::str::from_utf8`), or failing
/// that a tail of them (tried from the second byte on), that text comes out
/// and the buffer empties; else the bytes keep waiting.
#[verifier::external_body]
pub(crate) fn utf8_push(b: &mut TokenUtf8Buffer, token: &Vec<u8>) -> (r: Option<String>)
    ensures
        ({
            let all = utf8_pending(*old(b)) + token@;
            match released(all) {
                Some(text) => r is Some && r->0@ == text && utf8_pending(*final(b)) == Seq::<u8>::empty(),
                None => r is None && utf8_pending(*final(b)) == all,
            }
        }),
{
    b.push(token.as_slice())
}

} // verus!
