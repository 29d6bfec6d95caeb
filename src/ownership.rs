//! Moving, cloning and taking values out of vectors of strings, and the
//! Padovan sequence.

use vstd::prelude::*;
use std::rc::Rc;

verus! {

/// The decimal digit for `d < 10`.
pub open spec fn digit_char(d: nat) -> char {
    if d == 0 {
        '0'
    } else if d == 1 {
        '1'
    } else if d == 2 {
        '2'
    } else if d == 3 {
        '3'
    } else if d == 4 {
        '4'
    } else if d == 5 {
        '5'
    } else if d == 6 {
        '6'
    } else if d == 7 {
        '7'
    } else if d == 8 {
        '8'
    } else {
        '9'
    }
}

/// The decimal digits of `n`, most significant first, without leading
/// zeros.
pub open spec fn decimal_digits(n: nat) -> Seq<char>
    decreases n,
{
    if n < 10 {
        seq![digit_char(n)]
    } else {
        decimal_digits(n / 10) + seq![digit_char(n % 10)]
    }
}

/// The numbers from 100 to 109 are written `1`, `0`, then their last digit.
proof fn lemma_one_hundred_and(d: nat)
    requires
        d < 10,
    ensures
        decimal_digits(100 + d) == seq!['1', '0', digit_char(d)],
{
    let n = 100 + d;
    assert(n / 10 == 10 && n % 10 == d);
    assert(decimal_digits(10) =~= seq!['1', '0']) by {
        assert(decimal_digits(1) == seq!['1']);
    }
    assert(decimal_digits(n) =~= seq!['1', '0', digit_char(d)]);
}

/// Relies on `ToString::to_string` of `u32`, which writes the number in
/// decimal without sign or leading zeros.
#[verifier::external_body]
fn decimal_text(n: u32) -> (r: String)
    ensures
        r@ == decimal_digits(n as nat),
{
    n.to_string()
}

/// Relies on `std::mem::replace`: it stores `src` in `*dest` and returns
/// the value that `*dest` held.
pub assume_specification<T>[ std::mem::replace::<T> ](dest: &mut T, src: T) -> (r: T)
    ensures
        r == *old(dest),
        *final(dest) == src,
;

/// The strings `"101"` to `"105"`, in order.
fn numbered_strings() -> (v: Vec<String>)
    ensures
        v.len() == 5,
        forall|k: int| 0 <= k < 5 ==> (#[trigger] v[k])@ == decimal_digits((101 + k) as nat),
{
    let mut v: Vec<String> = Vec::new();
    let mut i: u32 = 101;
    while i < 106
        invariant
            101 <= i <= 106,
            v.len() == i - 101,
            forall|k: int| 0 <= k < v.len() ==> (#[trigger] v[k])@ == decimal_digits((101 + k) as nat),
        decreases 106 - i,
    {
        v.push(decimal_text(i));
        i += 1;
    }
    v
}

/// Assigning a vector moves it: the new owner holds the same strings.
pub fn err_moved_value() {
    let s = vec!["alice".to_string(), "bob".to_string(), "molly".to_string()];
    let t = s;
    assert(t.len() == 3);
}

/// Cloning a vector leaves the original usable, so it can be cloned twice.
pub fn clone_moved_value() {
    let s = vec!["alice".to_string(), "bob".to_string(), "molly".to_string()];
    let t = s.clone();
    let u = s.clone();
    assert(t.len() == 3 && u.len() == 3);
}

/// Indexing a vector of integers copies the element out; a vector of
/// strings is filled the same way.
pub fn err_move_indexed() {
    let x: Vec<i32> = vec![10, 20, 30];
    let x1 = x[1];
    assert(x1 == 20);
    let v = numbered_strings();
    assert(v.len() == 5);
}

/// Takes strings out of a vector by popping, by swapping out the last
/// element, and by replacing an element in place.
pub fn move_indexed() {
    let mut v = numbered_strings();
    proof {
        reveal_strlit("101");
        reveal_strlit("102");
        reveal_strlit("103");
        reveal_strlit("104");
        reveal_strlit("105");
        reveal_strlit("substitute");
        lemma_one_hundred_and((101 - 100) as nat);
        assert(decimal_digits(101) =~= "101"@);
        lemma_one_hundred_and((102 - 100) as nat);
        assert(decimal_digits(102) =~= "102"@);
        lemma_one_hundred_and((103 - 100) as nat);
        assert(decimal_digits(103) =~= "103"@);
        lemma_one_hundred_and((104 - 100) as nat);
        assert(decimal_digits(104) =~= "104"@);
        lemma_one_hundred_and((105 - 100) as nat);
        assert(decimal_digits(105) =~= "105"@);
        assert(v[0]@ == decimal_digits(101));
        assert(v[1]@ == decimal_digits(102));
        assert(v[2]@ == decimal_digits(103));
        assert(v[3]@ == decimal_digits(104));
        assert(v[4]@ == decimal_digits(105));
    }
    let fifth = v.pop().unwrap();
    assert(fifth@ == "105"@);
    let second = v.swap_remove(1);
    assert(second@ == "102"@);
    let third = std::mem::replace(&mut v[2], "substitute".to_string());
    assert(third@ == "103"@);
    assert(v.len() == 3 && v[0]@ == "101"@ && v[1]@ == "104"@ && v[2]@ == "substitute"@);
}

/// Several reference-counted handles share one string.
pub fn _using_rc() {
    let s: Rc<String> = Rc::new("shirataki".to_string());
    let _t: Rc<String> = s.clone();
    let _u: Rc<String> = s.clone();
}

/// The Padovan sequence: 1, 1, 1, then each term is the sum of the terms
/// two and three places before it.
pub open spec fn padovan_of(n: nat) -> nat
    decreases n,
{
    if n < 3 {
        1
    } else {
        padovan_of((n - 2) as nat) + padovan_of((n - 3) as nat)
    }
}

/// Each Padovan number is at most the next one.
proof fn lemma_padovan_step(n: nat)
    ensures
        padovan_of(n) <= padovan_of(n + 1),
    decreases n,
{
    if n >= 3 {
        lemma_padovan_step((n - 3) as nat);
        lemma_padovan_step((n - 2) as nat);
        assert(padovan_of(n + 1) == padovan_of((n - 1) as nat) + padovan_of((n - 2) as nat));
        assert(padovan_of(n) == padovan_of((n - 2) as nat) + padovan_of((n - 3) as nat));
    } else if n == 2 {
        assert(padovan_of(3) == padovan_of(1) + padovan_of(0));
    }
}

/// Padovan numbers do not decrease.
proof fn lemma_padovan_monotone(a: nat, b: nat)
    requires
        a <= b,
    ensures
        padovan_of(a) <= padovan_of(b),
    decreases b - a,
{
    if a < b {
        lemma_padovan_step(a);
        lemma_padovan_monotone(a + 1, b);
    }
}

/// The first `count` Padovan numbers, for at least three of them and a last
/// one that fits in a `u64`.
pub fn padovan(count: usize) -> (v: Vec<u64>)
    requires
        count >= 3,
        padovan_of((count - 1) as nat) <= u64::MAX,
    ensures
        v.len() == count,
        forall|i: int| 0 <= i < count ==> #[trigger] v[i] == padovan_of(i as nat),
{
    let mut v: Vec<u64> = vec![1, 1, 1];
    let mut i: usize = 3;
    while i < count
        invariant
            3 <= i <= count,
            padovan_of((count - 1) as nat) <= u64::MAX,
            v.len() == i,
            forall|k: int| 0 <= k < i ==> #[trigger] v[k] == padovan_of(k as nat),
        decreases count - i,
    {
        proof {
            lemma_padovan_monotone(i as nat, (count - 1) as nat);
        }
        let next = v[i - 3] + v[i - 2];
        v.push(next);
        i += 1;
    }
    v
}

} // verus!
