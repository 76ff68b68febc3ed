//! Fixed-capacity text buffers from `heapless`, as the rest of the library
//! sees them: each capacity used here has a name for the UTF-8 bytes it holds.
use vstd::prelude::*;

verus! {

#[verifier::external_type_specification]
#[verifier::external_body]
pub struct ExString<const N: usize>(heapless::String<N>);

/// The UTF-8 bytes held by a sentence buffer.
pub uninterp spec fn sentence_bytes(s: heapless::String<82>) -> Seq<u8>;

/// The UTF-8 bytes held by a rendered date.
pub uninterp spec fn date_text_bytes(s: heapless::String<10>) -> Seq<u8>;

/// The UTF-8 bytes held by a rendered time of day.
pub uninterp spec fn time_text_bytes(s: heapless::String<5>) -> Seq<u8>;

/// The UTF-8 encoding of the character whose code point is `b`.
pub open spec fn utf8_of_byte(b: u8) -> Seq<u8> {
    if b < 0x80 {
        seq![b]
    } else {
        seq![(0xC0u8 | (b >> 6u8)) as u8, (0x80u8 | (b & 0x3Fu8)) as u8]
    }
}

/// Relies on heapless::String::new: a new string holds no bytes.
#[verifier::external_body]
pub(crate) fn new_sentence() -> (r: heapless::String<82>)
    ensures
        sentence_bytes(r) == Seq::<u8>::empty(),
{
    heapless::String::new()
}

/// Relies on heapless::String::clear: afterwards the string holds no bytes.
#[verifier::external_body]
pub(crate) fn clear_sentence(s: &mut heapless::String<82>)
    ensures
        sentence_bytes(*final(s)) == Seq::<u8>::empty(),
{
    s.clear()
}

/// Relies on heapless::String::push with the character `b as char`: its
/// UTF-8 encoding is appended when it fits in the 82 bytes, else nothing
/// changes and `Err` comes back.
#[verifier::external_body]
pub(crate) fn push_byte_char(s: &mut heapless::String<82>, b: u8) -> (r: bool)
    ensures
        r <==> sentence_bytes(*old(s)).len() + utf8_of_byte(b).len() <= 82,
        r ==> sentence_bytes(*final(s)) == sentence_bytes(*old(s)) + utf8_of_byte(b),
        !r ==> sentence_bytes(*final(s)) == sentence_bytes(*old(s)),
{
    s.push(b as char).is_ok()
}

/// Relies on heapless::String::as_str and str::as_bytes: the bytes held.
#[verifier::external_body]
pub(crate) fn sentence_as_bytes(s: &heapless::String<82>) -> (r: &[u8])
    ensures
        r@ == sentence_bytes(*s),
{
    s.as_str().as_bytes()
}

/// Relies on heapless::String::new: a new string holds no bytes.
#[verifier::external_body]
pub(crate) fn new_date_text() -> (r: heapless::String<10>)
    ensures
        date_text_bytes(r) == Seq::<u8>::empty(),
{
    heapless::String::new()
}

/// Relies on heapless::String::push with an ASCII character: its one byte is
/// appended when fewer than 10 are held, else nothing changes.
#[verifier::external_body]
pub(crate) fn push_date_char(s: &mut heapless::String<10>, b: u8) -> (r: bool)
    requires
        b < 0x80,
    ensures
        r <==> date_text_bytes(*old(s)).len() < 10,
        r ==> date_text_bytes(*final(s)) == date_text_bytes(*old(s)).push(b),
        !r ==> date_text_bytes(*final(s)) == date_text_bytes(*old(s)),
{
    s.push(b as char).is_ok()
}

/// Relies on heapless::String::new: a new string holds no bytes.
#[verifier::external_body]
pub(crate) fn new_time_text() -> (r: heapless::String<5>)
    ensures
        time_text_bytes(r) == Seq::<u8>::empty(),
{
    heapless::String::new()
}

/// Relies on heapless::String::push with an ASCII character: its one byte is
/// appended when fewer than 5 are held, else nothing changes.
#[verifier::external_body]
pub(crate) fn push_time_char(s: &mut heapless::String<5>, b: u8) -> (r: bool)
    requires
        b < 0x80,
    ensures
        r <==> time_text_bytes(*old(s)).len() < 5,
        r ==> time_text_bytes(*final(s)) == time_text_bytes(*old(s)).push(b),
        !r ==> time_text_bytes(*final(s)) == time_text_bytes(*old(s)),
{
    s.push(b as char).is_ok()
}

} // verus!
