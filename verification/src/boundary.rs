//! Boundary tokens: a run of dashes followed by random letters and digits.

use rand::Rng;
use vstd::prelude::*;
use vstd::utf8::{encode_utf8, is_ascii_chars, is_ascii_chars_encode_utf8};

verus! {

/// Number of leading dashes in a generated boundary.
pub const DASH_COUNT: usize = 24;

/// Number of random characters in a generated boundary.
pub const SUFFIX_LEN: usize = 16;

/// An ASCII digit or letter, as a byte.
pub open spec fn is_alphanumeric(b: u8) -> bool {
    ||| 0x30 <= b <= 0x39
    ||| 0x41 <= b <= 0x5a
    ||| 0x61 <= b <= 0x7a
}

/// An ASCII digit or letter, as a character.
pub open spec fn is_alphanumeric_char(c: char) -> bool {
    ||| '0' <= c <= '9'
    ||| 'A' <= c <= 'Z'
    ||| 'a' <= c <= 'z'
}

/// The dashes that every generated boundary starts with.
pub open spec fn dash_run() -> Seq<char> {
    Seq::new(DASH_COUNT as nat, |i: int| '-')
}

/// The bytes of `suffix`, each as the character of that code.
pub open spec fn suffix_chars(suffix: Seq<u8>) -> Seq<char> {
    Seq::new(suffix.len(), |i: int| suffix[i] as char)
}

/// What holds of every generated boundary: forty characters, the first
/// twenty-four of them dashes, the other sixteen ASCII digits or letters.
pub open spec fn is_generated_boundary(boundary: Seq<char>) -> bool {
    &&& boundary.len() == DASH_COUNT + SUFFIX_LEN
    &&& forall|i: int| 0 <= i < DASH_COUNT ==> boundary[i] == '-'
    &&& forall|i: int|
        DASH_COUNT <= i < DASH_COUNT + SUFFIX_LEN ==> is_alphanumeric_char(#[trigger] boundary[i])
}

/// A generated boundary is ASCII, so it takes forty bytes on the wire, one
/// for each character.
pub proof fn lemma_generated_boundary_is_ascii(boundary: Seq<char>)
    requires
        is_generated_boundary(boundary),
    ensures
        is_ascii_chars(boundary),
        encode_utf8(boundary).len() == DASH_COUNT + SUFFIX_LEN,
        forall|i: int|
            0 <= i < DASH_COUNT + SUFFIX_LEN ==> #[trigger] encode_utf8(boundary)[i]
                == boundary[i] as u8,
{
    assert forall|i: int| 0 <= i < boundary.len() implies '\0' <= #[trigger] boundary[i]
        <= '\u{7f}' by {
        if i >= DASH_COUNT {
            assert(is_alphanumeric_char(boundary[i]));
        }
    }
    is_ascii_chars_encode_utf8(boundary);
}

/// Draws one byte from `rand`'s thread-local generator with
/// `Rng::sample(Alphanumeric)`. `rand` documents that distribution as uniform
/// over the ASCII letters and digits; its source indexes a table of exactly
/// those 62 bytes. Believed, not proved: that the byte is one of them.
#[verifier::external_body]
fn sample_alphanumeric() -> (b: u8)
    ensures
        is_alphanumeric(b),
{
    rand::thread_rng().sample(rand::distributions::Alphanumeric)
}

/// `String::push`: appends one character. Believed, not proved.
#[verifier::external_body]
fn push_char(s: &mut String, c: char)
    ensures
        final(s)@ == old(s)@.push(c),
{
    s.push(c)
}

/// The boundary made of the dash run and the given suffix bytes, each taken
/// as the character of that code.
pub fn boundary_with_suffix(suffix: &[u8]) -> (boundary: String)
    ensures
        boundary@ == dash_run() + suffix_chars(suffix@),
{
    let mut out = String::from_str("------------------------");
    proof {
        reveal_strlit("------------------------");
        assert(out@ =~= dash_run());
    }
    let mut i: usize = 0;
    while i < suffix.len()
        invariant
            i <= suffix.len(),
            out@ == dash_run() + suffix_chars(suffix@.take(i as int)),
        decreases suffix.len() - i,
    {
        push_char(&mut out, suffix[i] as char);
        assert(out@ =~= dash_run() + suffix_chars(suffix@.take(i + 1)));
        i += 1;
    }
    assert(suffix@.take(suffix.len() as int) =~= suffix@);
    out
}

/// A fresh boundary: the dash run followed by sixteen characters drawn
/// independently from the ASCII letters and digits.
pub fn generate() -> (boundary: String)
    ensures
        is_generated_boundary(boundary@),
{
    let mut suffix: Vec<u8> = Vec::new();
    while suffix.len() < SUFFIX_LEN
        invariant
            suffix@.len() <= SUFFIX_LEN,
            forall|i: int| 0 <= i < suffix@.len() ==> is_alphanumeric(#[trigger] suffix@[i]),
        decreases SUFFIX_LEN - suffix@.len(),
    {
        let b = sample_alphanumeric();
        suffix.push(b);
    }
    let boundary = boundary_with_suffix(suffix.as_slice());
    proof {
        assert forall|i: int| DASH_COUNT <= i < DASH_COUNT + SUFFIX_LEN implies is_alphanumeric_char(
            #[trigger] boundary@[i],
        ) by {
            let b = suffix@[i - DASH_COUNT];
            assert(is_alphanumeric(b));
            assert(boundary@[i] == b as char);
        }
    }
    boundary
}

} // verus!
