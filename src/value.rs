use std::rc::Rc;
use vstd::prelude::*;

verus! {

/// An immutable, shareable payload produced by the graph's nodes.
pub type Value = Rc<String>;

/// The lowercase mapping of a string, as `str::to_lowercase` computes it.
pub uninterp spec fn lower_of(s: Seq<char>) -> Seq<char>;

/// Relies on `str::to_lowercase`: the result depends on the characters alone,
/// and the empty string maps to the empty string.
#[verifier::external_body]
pub(crate) fn lowercase(s: &str) -> (r: String)
    ensures
        r@ == lower_of(s@),
        s@.len() == 0 ==> r@.len() == 0,
{
    s.to_lowercase()
}

/// Makes a new value holding the characters of `s`.
pub fn new_value(s: &str) -> (r: Value)
    ensures
        r@ == s@,
{
    Rc::new(s.to_owned())
}

/// The case-folded copy of `v`, as a new value.
pub fn lowercased(v: &Value) -> (r: Value)
    ensures
        r@ == lower_of(v@),
{
    let s: &String = &**v;
    Rc::new(lowercase(s.as_str()))
}

/// Whether two values hold the same characters.
pub fn same_value(a: &Value, b: &Value) -> (r: bool)
    ensures
        r == (a@ == b@),
{
    let x: &String = &**a;
    let y: &String = &**b;
    *x == *y
}

} // verus!
