//! Conversions between strings and their character sequences.

use vstd::prelude::*;

verus! {

/// Relies on str::chars to list a string's characters in order.
#[verifier::external_body]
pub fn chars_of(s: &str) -> (v: Vec<char>)
    ensures
        v@ == s@,
{
    s.chars().collect()
}

/// Relies on String's FromIterator to assemble a string from its
/// characters in order.
#[verifier::external_body]
pub fn string_of(v: &Vec<char>) -> (s: String)
    ensures
        s@ == v@,
{
    v.iter().collect()
}

/// The lowercase folding of a character sequence.
pub uninterp spec fn lower_of(s: Seq<char>) -> Seq<char>;

/// Relies on str::to_lowercase: the folding is a function of the
/// characters alone.
#[verifier::external_body]
pub fn lowercase(s: &str) -> (r: String)
    ensures
        r@ == lower_of(s@),
{
    s.to_lowercase()
}

/// Character-for-character string equality.
pub fn str_eq(a: &str, b: &str) -> (r: bool)
    ensures
        r == (a@ == b@),
{
    let va = chars_of(a);
    let vb = chars_of(b);
    if va.len() != vb.len() {
        proof {
            assert(a@.len() != b@.len());
        }
        return false;
    }
    let mut i: usize = 0;
    while i < va.len()
        invariant
            i <= va.len(),
            va@.len() == vb@.len(),
            va@ == a@ && vb@ == b@,
            forall|j: int| 0 <= j < i ==> a@[j] == b@[j],
        decreases va.len() - i,
    {
        if va[i] != vb[i] {
            return false;
        }
        i = i + 1;
    }
    proof {
        assert(a@ =~= b@);
    }
    true
}

} // verus!
