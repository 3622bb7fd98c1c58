//! Small text helpers shared by the request-argument utilities.

use vstd::prelude::*;

verus! {

broadcast use vstd::string::axiom_spec_iter;

/// What `str::to_lowercase` returns: a function of the characters alone.
pub uninterp spec fn lower_of(s: Seq<char>) -> Seq<char>;

/// Relies on str::to_lowercase: the result depends on the characters alone,
/// and an empty string stays empty.
#[verifier::external_body]
pub fn lowercase(s: &str) -> (r: String)
    ensures
        r@ == lower_of(s@),
        s@.len() == 0 ==> r@.len() == 0,
{
    s.to_lowercase()
}

/// Relies on str's equality: two string slices are equal exactly when their
/// character sequences are.
#[verifier::external_body]
pub fn str_eq(a: &str, b: &str) -> (r: bool)
    ensures
        r == (a@ == b@),
{
    a == b
}

/// Relies on String::from_iter over chars: the collected string holds
/// exactly the given characters in order.
#[verifier::external_body]
pub fn string_from_chars(v: &Vec<char>) -> (s: String)
    ensures
        s@ == v@,
{
    v.iter().collect()
}

/// Collects a string's characters into a vector.
pub fn chars_of(s: &str) -> (v: Vec<char>)
    ensures
        v@ == s@,
{
    let mut v: Vec<char> = Vec::new();
    for c in it: s.chars()
        invariant
            it.seq() == s@,
            v@ == it.seq().take(it.index() as int),
    {
        v.push(c);
    }
    proof {
        assert(v@ =~= s@);
    }
    v
}

/// Replaces every dash with an underscore.
pub open spec fn dash_underscore(c: char) -> char {
    if c == '-' {
        '_'
    } else {
        c
    }
}

/// Normalizes a request keyword: lowercased, dashes turned to underscores.
pub fn normalize_keyword(s: &str) -> (r: String)
    ensures
        r@ == lower_of(s@).map_values(|c: char| dash_underscore(c)),
{
    let low = lowercase(s);
    let v = chars_of(low.as_str());
    let m: usize = v.len();
    let mut outv: Vec<char> = Vec::new();
    for i in 0..m
        invariant
            m == v@.len(),
            v@ == lower_of(s@),
            outv@ =~= v@.take(i as int).map_values(|c: char| dash_underscore(c)),
    {
        let c = v[i];
        if c == '-' {
            outv.push('_');
        } else {
            outv.push(c);
        }
        proof {
            assert(v@.take(i as int + 1) =~= v@.take(i as int).push(v@[i as int]));
            assert(outv@ =~= v@.take(i as int + 1).map_values(|c: char| dash_underscore(c)));
        }
    }
    proof {
        assert(v@.take(m as int) =~= v@);
    }
    string_from_chars(&outv)
}

} // verus!
