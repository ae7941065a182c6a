//! Conversions between strings and character vectors, plus the case-folding
//! shim that the namespace matcher relies on.

use vstd::prelude::*;
use vstd::string::StrSliceExecFns;

verus! {

/// Copies the characters of a string slice into a vector.
pub fn str_chars(s: &str) -> (r: Vec<char>)
    ensures
        r@ == s@,
{
    let n = s.unicode_len();
    let mut v: Vec<char> = Vec::new();
    let mut i: usize = 0;
    while i < n
        invariant
            n == s@.len(),
            i <= n,
            v@ == s@.take(i as int),
        decreases n - i,
    {
        v.push(s.get_char(i));
        i += 1;
    }
    proof {
        assert(v@ =~= s@);
    }
    v
}

/// Relies on String::push: appends the given character to the end.
#[verifier::external_body]
pub(crate) fn push_char(s: &mut String, c: char)
    ensures
        final(s)@ == old(s)@.push(c),
{
    s.push(c)
}

/// Builds a string out of a vector of characters.
pub fn chars_string(v: &Vec<char>) -> (r: String)
    ensures
        r@ == v@,
{
    let mut s = String::new();
    let mut i: usize = 0;
    while i < v.len()
        invariant
            i <= v.len(),
            s@ == v@.take(i as int),
        decreases v.len() - i,
    {
        push_char(&mut s, v[i]);
        i += 1;
    }
    proof {
        assert(s@ =~= v@);
    }
    s
}

/// The character sequence that `str::to_lowercase` yields for a given input.
pub uninterp spec fn lower_of(s: Seq<char>) -> Seq<char>;

/// Relies on str::to_lowercase: the result depends on the characters alone,
/// and an empty input yields an empty output.
#[verifier::external_body]
pub(crate) fn lowercase(s: &str) -> (r: String)
    ensures
        r@ == lower_of(s@),
        s@.len() == 0 ==> r@.len() == 0,
{
    s.to_lowercase()
}

/// Whether `char::is_alphanumeric` accepts the character.
pub uninterp spec fn alnum_char(c: char) -> bool;

/// Relies on char::is_alphanumeric: the result depends on the character alone.
#[verifier::external_body]
pub(crate) fn is_alnum_char(c: char) -> (r: bool)
    ensures
        r == alnum_char(c),
{
    c.is_alphanumeric()
}

/// Character-wise equality of two string slices.
pub fn str_eq_str(a: &str, b: &str) -> (r: bool)
    ensures
        r == (a@ == b@),
{
    let va = str_chars(a);
    let vb = str_chars(b);
    if va.len() != vb.len() {
        proof {
            assert(a@.len() != b@.len());
        }
        return false;
    }
    let mut i: usize = 0;
    while i < va.len()
        invariant
            i <= va.len(),
            va@ == a@,
            vb@ == b@,
            a@.len() == b@.len(),
            forall|k: int| 0 <= k < i ==> a@[k] == #[trigger] b@[k],
        decreases va.len() - i,
    {
        if va[i] != vb[i] {
            return false;
        }
        i += 1;
    }
    proof {
        assert(a@ =~= b@);
    }
    true
}

} // verus!
