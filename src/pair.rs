//! Parsing of `<left><separator><right>` pairs such as `"400x600"` or
//! `"1.0,0.5"`.

use vstd::prelude::*;

verus! {

/// Splits `s` at its first `separator`: the text before it and the text
/// after it. `None` when `s` holds no separator.
pub fn split_pair<'a>(s: &'a str, separator: char) -> (r: Option<(&'a str, &'a str)>)
    ensures
        r is None <==> !s@.contains(separator),
        r matches Some((left, right)) ==> s@ == left@ + seq![separator] + right@
            && !left@.contains(separator),
{
    let n = s.unicode_len();
    let mut i: usize = 0;
    while i < n
        invariant
            n == s@.len(),
            i <= n,
            forall|j: int| 0 <= j < i ==> s@[j] != separator,
        decreases n - i,
    {
        if s.get_char(i) == separator {
            let left = s.substring_char(0, i);
            let right = s.substring_char(i + 1, n);
            assert(s@ =~= left@ + seq![separator] + right@);
            assert(!left@.contains(separator)) by {
                if left@.contains(separator) {
                    let j = choose|j: int| 0 <= j < left@.len() && left@[j] == separator;
                    assert(s@[j] == separator);
                }
            }
            return Some((left, right));
        }
        i += 1;
    }
    assert(!s@.contains(separator));
    None
}

/// Relies on `FromStr::from_str` of `T`: only whether it succeeds is used,
/// and nothing is assumed of the value it returns.
#[verifier::external_body]
fn parse_value<T: std::str::FromStr>(text: &str) -> (r: Option<T>) {
    T::from_str(text).ok()
}

/// Both halves of a pair, when both were read.
pub fn both<T>(left: Option<T>, right: Option<T>) -> (r: Option<(T, T)>)
    ensures
        r is Some <==> left is Some && right is Some,
        r matches Some((a, b)) ==> left == Some(a) && right == Some(b),
{
    match (left, right) {
        (Some(a), Some(b)) => Some((a, b)),
        _ => None,
    }
}

/// Parses `s` as `<left><separator><right>`, where both halves are read by
/// `T::from_str`. `None` when `s` holds no separator or either half does not
/// parse.
pub fn parse_pair<T: std::str::FromStr>(s: &str, separator: char) -> (r: Option<(T, T)>)
    ensures
        !s@.contains(separator) ==> r is None,
{
    match split_pair(s, separator) {
        None => None,
        Some((left, right)) => both(parse_value::<T>(left), parse_value::<T>(right)),
    }
}

} // verus!
