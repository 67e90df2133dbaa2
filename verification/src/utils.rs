//! Identifier clean-up.
use vstd::prelude::*;
use crate::text::{
    all_ascii, char_is_alphanumeric, chars_of, is_ascii_alphanumeric, string_push,
    unicode_alphanumeric,
};

verus! {

/// A character kept in an identifier: alphanumeric or `_`.
pub open spec fn identifier_char(c: char) -> bool {
    unicode_alphanumeric(c) || c == '_'
}

/// The characters of `s` that may stand in an identifier, in order.
pub open spec fn identifier_chars(s: Seq<char>) -> Seq<char>
    decreases s.len(),
{
    if s.len() == 0 {
        Seq::empty()
    } else if identifier_char(s.last()) {
        identifier_chars(s.drop_last()).push(s.last())
    } else {
        identifier_chars(s.drop_last())
    }
}

/// The ASCII letters, digits and `_` of `s`, in order.
pub open spec fn ascii_identifier_chars(s: Seq<char>) -> Seq<char>
    decreases s.len(),
{
    if s.len() == 0 {
        Seq::empty()
    } else if is_ascii_alphanumeric(s.last()) || s.last() == '_' {
        ascii_identifier_chars(s.drop_last()).push(s.last())
    } else {
        ascii_identifier_chars(s.drop_last())
    }
}

/// `s` without the characters that are neither alphanumeric nor `_`; for an
/// ASCII `s`, its ASCII letters, digits and `_`.
pub fn sanitize_identifier(s: &str) -> (r: String)
    ensures
        r@ == identifier_chars(s@),
        all_ascii(s@) ==> r@ == ascii_identifier_chars(s@),
{
    let v = chars_of(s);
    let mut r = String::new();
    let mut i: usize = 0;
    while i < v.len()
        invariant
            i <= v.len(),
            v@ == s@,
            r@ == identifier_chars(s@.take(i as int)),
            all_ascii(s@) ==> r@ == ascii_identifier_chars(s@.take(i as int)),
        decreases v.len() - i,
    {
        let c = v[i];
        assert(s@[i as int] == c);
        assert(s@.take(i + 1).drop_last() =~= s@.take(i as int));
        assert(s@.take(i + 1).last() == c);
        if char_is_alphanumeric(c) || c == '_' {
            string_push(&mut r, c);
        }
        i = i + 1;
    }
    assert(s@.take(v.len() as int) =~= s@);
    r
}

/// Every character that `sanitize_identifier` keeps may stand in an
/// identifier, and cleaning a cleaned string changes nothing.
pub proof fn lemma_identifier_chars(s: Seq<char>)
    ensures
        forall|i: int| 0 <= i < identifier_chars(s).len() ==> identifier_char(#[trigger] identifier_chars(s)[i]),
        identifier_chars(identifier_chars(s)) == identifier_chars(s),
    decreases s.len(),
{
    if s.len() > 0 {
        lemma_identifier_chars(s.drop_last());
        let t = identifier_chars(s.drop_last());
        if identifier_char(s.last()) {
            assert(identifier_chars(s) == t.push(s.last()));
            assert(t.push(s.last()).drop_last() =~= t);
        }
    }
}

} // verus!
