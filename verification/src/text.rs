//! Attribute names are compared without regard to the case of ASCII letters:
//! their normal form is lower case.
use vstd::prelude::*;

verus! {

/// The lower-case form of an ASCII capital letter, and any other character
/// as it is.
pub open spec fn lower_char(c: char) -> char {
    if 'A' <= c && c <= 'Z' {
        ((c as u8) + 32) as char
    } else {
        c
    }
}

/// The text with every ASCII capital letter in lower case.
pub open spec fn lower(s: Seq<char>) -> Seq<char> {
    Seq::new(s.len(), |i: int| lower_char(s[i]))
}

/// Whether the text holds no ASCII capital letter.
pub open spec fn is_lower(s: Seq<char>) -> bool {
    forall|i: int| 0 <= i < s.len() ==> !('A' <= #[trigger] s[i] && s[i] <= 'Z')
}

/// A text without capital letters is its own lower-case form, and a
/// lower-case form holds no capital letter.
pub proof fn lemma_lower(s: Seq<char>)
    ensures
        is_lower(lower(s)),
        is_lower(s) ==> lower(s) == s,
        lower(lower(s)) == lower(s),
{
    assert forall|i: int| 0 <= i < s.len() implies !('A' <= #[trigger] lower(s)[i] && lower(s)[i]
        <= 'Z') by {
        let c = s[i];
        if 'A' <= c && c <= 'Z' {
            assert(65 <= c as u8 <= 90);
            assert((((c as u8) + 32) as char) as u8 == (c as u8) + 32);
        }
    }
    if is_lower(s) {
        assert(lower(s) =~= s);
    }
    assert(lower(lower(s)) =~= lower(s));
}

/// Calls `str::to_ascii_lowercase` of the standard library. Its documentation
/// says that the result is a copy in which the ASCII letters 'A' to 'Z' are
/// mapped to 'a' to 'z' and every other character is unchanged.
#[verifier::external_body]
pub(crate) fn to_lower(s: &str) -> (r: String)
    ensures
        r@ == lower(s@),
{
    s.to_ascii_lowercase()
}

} // verus!
