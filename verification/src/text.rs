//! Character classification and UTF-8 byte lengths shared by the
//! text-handling services.

use vstd::prelude::*;
use vstd::utf8::encode_scalar;
use vstd::utf8::encode_utf8;

verus! {

/// What `char::is_alphanumeric` returns for a character: whether it is
/// alphabetic or a number in the Unicode sense.
pub uninterp spec fn unicode_alnum(c: char) -> bool;

/// Relies on `char::is_alphanumeric`: the result depends on the character
/// alone (its Unicode `Alphabetic` property or number category).
#[verifier::external_body]
pub(crate) fn char_is_alphanumeric(c: char) -> (r: bool)
    ensures
        r == unicode_alnum(c),
{
    c.is_alphanumeric()
}

/// How many bytes one character occupies in UTF-8.
pub open spec fn char_blen(c: char) -> int {
    encode_scalar(c as u32).len() as int
}

/// How many bytes a character sequence occupies in UTF-8.
pub open spec fn utf8_len(w: Seq<char>) -> int {
    encode_utf8(w).len() as int
}

/// Computes a character's UTF-8 width from its scalar value.
pub fn char_utf8_len(c: char) -> (r: usize)
    ensures
        r as int == char_blen(c),
        1 <= r <= 4,
{
    let u = c as u32;
    if u < 0x80 {
        1
    } else if u < 0x800 {
        2
    } else if u < 0x10000 {
        3
    } else {
        4
    }
}

/// The empty sequence occupies no bytes.
pub proof fn lemma_utf8_len_empty()
    ensures
        utf8_len(Seq::<char>::empty()) == 0,
{
    assert(encode_utf8(Seq::<char>::empty()) =~= Seq::<u8>::empty());
}

/// UTF-8 length grows by one character's width at a time.
pub proof fn lemma_utf8_len_snoc(w: Seq<char>, c: char)
    ensures
        utf8_len(w.push(c)) == utf8_len(w) + char_blen(c),
    decreases w.len(),
{
    if w.len() == 0 {
        assert(w.push(c).drop_first() =~= Seq::<char>::empty());
        assert(w.push(c)[0] == c);
        assert(encode_utf8(Seq::<char>::empty()) =~= Seq::<u8>::empty());
        assert(utf8_len(w) == 0);
    } else {
        lemma_utf8_len_snoc(w.drop_first(), c);
        assert(w.push(c).drop_first() =~= w.drop_first().push(c));
        assert(w.push(c)[0] == w[0]);
        assert(encode_utf8(w.push(c)) == encode_scalar(w[0] as u32) + encode_utf8(
            w.drop_first().push(c),
        ));
        assert(encode_utf8(w) == encode_scalar(w[0] as u32) + encode_utf8(w.drop_first()));
    }
}

} // verus!
