//! Ids as text.
//!
//! An id is handed out as an [`IdString`], which keeps the compact string of
//! the `smartstring` crate: short ids live inline, without an allocation.
use smartstring::{LazyCompact, SmartString};
use vstd::prelude::*;
use vstd::utf8::{encode_utf8, is_ascii_chars, is_ascii_chars_encode_utf8};

verus! {

/// The text of an id.
///
/// The string inside is the `smartstring` crate's. Its type cannot be
/// declared to the verifier, which does not know the trait that bounds its
/// parameter; so it is kept in this struct, whose inside the verifier does
/// not read. What is known of it is what the functions of this module state
/// of [`text_of`].
#[verifier::external_body]
pub struct IdString {
    inner: SmartString<LazyCompact>,
}

/// The characters that a string holds, in order.
pub uninterp spec fn text_of(s: IdString) -> Seq<char>;

impl View for IdString {
    type V = Seq<char>;

    open spec fn view(&self) -> Seq<char> {
        text_of(*self)
    }
}

/// The bytes of an id read as characters, one character for each byte.
pub open spec fn as_text(bytes: Seq<u8>) -> Seq<char> {
    Seq::new(bytes.len(), |i: int| bytes[i] as char)
}

/// ASCII bytes that are read as text and written as UTF-8 are the same
/// bytes again.
pub proof fn lemma_ascii_text(bytes: Seq<u8>)
    requires
        forall|k: int| 0 <= k < bytes.len() ==> #[trigger] bytes[k] < 128,
    ensures
        encode_utf8(as_text(bytes)) == bytes,
{
    let text = as_text(bytes);
    assert(is_ascii_chars(text)) by {
        assert forall|i: int| 0 <= i < text.len() implies '\0' <= #[trigger] text[i]
            <= '\u{7f}' by {
            assert(text[i] == bytes[i] as char);
        }
    }
    is_ascii_chars_encode_utf8(text);
    assert forall|i: int| 0 <= i < bytes.len() implies encode_utf8(text)[i] == bytes[i] by {
        assert(text[i] == bytes[i] as char);
    }
}

/// `String::push` of the standard library appends one character.
pub assume_specification[ String::push ](s: &mut String, ch: char)
    ensures
        final(s)@ == old(s)@.push(ch),
;

/// `SmartString::new_const` makes a string that holds no character.
#[verifier::external_body]
fn smart_new() -> (s: IdString)
    ensures
        text_of(s) == Seq::<char>::empty(),
{
    IdString { inner: SmartString::<LazyCompact>::new_const() }
}

/// `SmartString::from`, for a `String`, makes a string that holds the
/// characters of the `String`: it moves a long one and copies a short one
/// inline.
#[verifier::external_body]
fn smart_from(text: String) -> (s: IdString)
    ensures
        text_of(s) == text@,
{
    IdString { inner: SmartString::from(text) }
}

/// `SmartString::as_str` lends the characters that the string holds.
#[verifier::external_body]
fn smart_as_str(s: &IdString) -> (text: &str)
    ensures
        text@ == text_of(*s),
{
    s.inner.as_str()
}

/// Reads `bytes` as text, one character for each byte.
pub fn to_text(bytes: &[u8]) -> (text: String)
    ensures
        text@ == as_text(bytes@),
{
    let mut text = String::new();
    let mut i: usize = 0;
    while i < bytes.len()
        invariant
            i <= bytes@.len(),
            text@ == as_text(bytes@.take(i as int)),
        decreases bytes@.len() - i,
    {
        text.push(bytes[i] as char);
        i = i + 1;
    }
    text
}

impl IdString {
    /// The text of the empty id.
    pub fn new() -> (id: Self)
        ensures
            id@ == Seq::<char>::empty(),
    {
        smart_new()
    }

    /// The text of the id with the bytes `bytes`.
    pub fn from_bytes(bytes: &[u8]) -> (id: Self)
        ensures
            id@ == as_text(bytes@),
    {
        smart_from(to_text(bytes))
    }

    /// The text as a string slice.
    pub fn as_str(&self) -> (text: &str)
        ensures
            text@ == self@,
    {
        smart_as_str(self)
    }

    /// The text as bytes, in UTF-8.
    pub fn as_bytes(&self) -> (bytes: &[u8])
        ensures
            bytes@ == encode_utf8(self@),
    {
        self.as_str().as_bytes()
    }
}

} // verus!
