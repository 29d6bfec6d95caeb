//! Functions that borrow their inputs: a minimum that points into its
//! slice, a prefix search that points into its table, and a factorial.

use vstd::prelude::*;

verus! {

/// The smallest element of a non-empty slice: the first one when several
/// are equal.
pub fn smallest(v: &[i32]) -> (s: &i32)
    requires
        v@.len() > 0,
    ensures
        exists|i: int| 0 <= i < v@.len() && v@[i] == *s,
        forall|i: int| 0 <= i < v@.len() ==> *s <= #[trigger] v@[i],
{
    let mut s = &v[0];
    let ghost mut at: int = 0;
    let mut i: usize = 1;
    while i < v.len()
        invariant
            1 <= i <= v@.len(),
            0 <= at < i,
            v@[at] == *s,
            forall|j: int| 0 <= j < i ==> *s <= #[trigger] v@[j],
        decreases v@.len() - i,
    {
        let r = &v[i];
        if *r < *s {
            s = r;
            proof {
                at = i as int;
            }
        }
        i += 1;
    }
    s
}

/// `n!`.
pub open spec fn factorial_of(n: nat) -> nat
    decreases n,
{
    if n == 0 {
        1
    } else {
        n * factorial_of((n - 1) as nat)
    }
}

/// Factorials do not decrease.
proof fn lemma_factorial_monotone(a: nat, b: nat)
    requires
        a <= b,
    ensures
        1 <= factorial_of(a) <= factorial_of(b),
    decreases b,
{
    if b > 0 {
        if a < b {
            lemma_factorial_monotone(a, (b - 1) as nat);
        } else {
            lemma_factorial_monotone((a - 1) as nat, (b - 1) as nat);
        }
        let f = factorial_of((b - 1) as nat);
        assert(f <= b * f) by (nonlinear_arith)
            requires
                b >= 1,
                f >= 1,
        ;
    }
}

/// `n!`, for an `n` whose factorial fits in a `usize`.
pub fn factorial(n: usize) -> (r: usize)
    requires
        factorial_of(n as nat) <= usize::MAX,
    ensures
        r == factorial_of(n as nat),
{
    let mut acc: usize = 1;
    let mut k: usize = 0;
    while k < n
        invariant
            k <= n,
            factorial_of(n as nat) <= usize::MAX,
            acc == factorial_of(k as nat),
        decreases n - k,
    {
        proof {
            lemma_factorial_monotone((k + 1) as nat, n as nat);
            assert(factorial_of((k + 1) as nat) == (k + 1) * factorial_of(k as nat));
        }
        acc = (k + 1) * acc;
        k += 1;
    }
    acc
}

/// `s` begins with `prefix`.
pub open spec fn has_prefix(s: Seq<char>, prefix: Seq<char>) -> bool {
    prefix.len() <= s.len() && s.subrange(0, prefix.len() as int) == prefix
}

/// Relies on `str::starts_with` with a string pattern: true exactly when
/// the text begins with the pattern.
#[verifier::external_body]
fn starts_with(s: &str, prefix: &str) -> (r: bool)
    ensures
        r == has_prefix(s@, prefix@),
{
    s.starts_with(prefix)
}

/// A list of strings searched by prefix.
pub struct StringTable {
    pub elements: Vec<String>,
}

impl StringTable {
    /// The first element that begins with `prefix`, if any.
    pub fn find_by_prefix(&self, prefix: &str) -> (r: Option<&String>)
        ensures
            r is None <==> forall|i: int|
                0 <= i < self.elements.len() ==> !has_prefix(
                    #[trigger] self.elements[i]@,
                    prefix@,
                ),
            r is Some ==> exists|i: int|
                0 <= i < self.elements.len() && self.elements[i] == *r->Some_0 && has_prefix(
                    self.elements[i]@,
                    prefix@,
                ) && forall|j: int|
                    0 <= j < i ==> !has_prefix(#[trigger] self.elements[j]@, prefix@),
    {
        let mut i: usize = 0;
        while i < self.elements.len()
            invariant
                i <= self.elements.len(),
                forall|j: int| 0 <= j < i ==> !has_prefix(#[trigger] self.elements[j]@, prefix@),
            decreases self.elements.len() - i,
        {
            if starts_with(self.elements[i].as_str(), prefix) {
                return Some(&self.elements[i]);
            }
            i += 1;
        }
        None
    }
}

} // verus!
