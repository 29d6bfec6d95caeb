//! Greatest common divisors of machine integers.

use vstd::prelude::*;
use vstd::arithmetic::div_mod::{
    lemma_fundamental_div_mod, lemma_mod_multiples_basic, lemma_mod_multiples_vanish,
};

verus! {

/// `d` divides `x`; zero divides only zero.
pub open spec fn divides(d: nat, x: nat) -> bool {
    if d == 0 {
        x == 0
    } else {
        x % d == 0
    }
}

/// `r` divides both `a` and `b`, and every common divisor of `a` and `b`
/// divides `r`.
pub open spec fn is_gcd(r: nat, a: nat, b: nat) -> bool {
    &&& divides(r, a)
    &&& divides(r, b)
    &&& forall|d: nat| divides(d, a) && divides(d, b) ==> #[trigger] divides(d, r)
}

/// Divisibility is transitive.
pub proof fn lemma_divides_trans(a: nat, b: nat, c: nat)
    requires
        divides(a, b),
        divides(b, c),
    ensures
        divides(a, c),
{
    if b == 0 {
        assert(c == 0);
    } else if a > 0 {
        lemma_fundamental_div_mod(b as int, a as int);
        lemma_fundamental_div_mod(c as int, b as int);
        let k = b / a;
        let l = c / b;
        assert(c == (k * l) * a) by (nonlinear_arith)
            requires
                b == a * k,
                c == b * l,
        ;
        lemma_mod_multiples_basic((k * l) as int, a as int);
    }
}

/// A divisor of a positive `n` divides `m` exactly when it divides `m % n`.
proof fn lemma_divides_mod(d: nat, n: nat, m: nat)
    requires
        n > 0,
        divides(d, n),
    ensures
        divides(d, m) <==> divides(d, m % n),
{
    if d > 0 {
        lemma_fundamental_div_mod(m as int, n as int);
        lemma_fundamental_div_mod(n as int, d as int);
        let q = m / n;
        let k = n / d;
        assert(m == d * (k * q) + m % n) by (nonlinear_arith)
            requires
                m == n * q + m % n,
                n == d * k,
        ;
        lemma_mod_multiples_vanish((k * q) as int, (m % n) as int, d as int);
    }
}

/// `d` divides both `a` and `b`.
pub open spec fn divides_both(d: nat, a: nat, b: nat) -> bool {
    divides(d, a) && divides(d, b)
}

/// Euclid's algorithm on two positive integers.
pub fn gcd(n: u64, m: u64) -> (r: u64)
    requires
        n != 0,
        m != 0,
    ensures
        r > 0,
        is_gcd(r as nat, n as nat, m as nat),
{
    let mut a: u64 = n;
    let mut b: u64 = m;
    while b != 0
        invariant
            a > 0,
            forall|d: nat| #[trigger]
                divides_both(d, a as nat, b as nat) == divides_both(d, n as nat, m as nat),
        decreases b,
    {
        let ghost (a0, b0) = (a, b);
        if b < a {
            let t = b;
            b = a;
            a = t;
        }
        let ghost b1 = b;
        b = b % a;
        assert forall|d: nat| #[trigger]
            divides_both(d, a as nat, b as nat) == divides_both(d, n as nat, m as nat) by {
            assert(divides_both(d, a0 as nat, b0 as nat) == divides_both(d, n as nat, m as nat));
            if divides(d, a as nat) {
                lemma_divides_mod(d, a as nat, b1 as nat);
            }
        }
    }
    assert(divides(a as nat, a as nat)) by {
        lemma_mod_multiples_basic(1, a as int);
    }
    assert(divides_both(a as nat, a as nat, b as nat));
    assert forall|d: nat| divides(d, n as nat) && divides(d, m as nat) implies #[trigger] divides(
        d,
        a as nat,
    ) by {
        assert(divides_both(d, n as nat, m as nat));
        assert(divides_both(d, a as nat, b as nat));
    }
    a
}

/// `r` divides every element of `s`, and every common divisor of the
/// elements of `s` divides `r`.
pub open spec fn is_gcd_of_all(r: nat, s: Seq<u64>) -> bool {
    &&& forall|i: int| 0 <= i < s.len() ==> divides(r, #[trigger] s[i] as nat)
    &&& forall|d: nat|
        (forall|i: int| 0 <= i < s.len() ==> divides(d, #[trigger] s[i] as nat)) ==> #[trigger] divides(
            d,
            r,
        )
}

/// The greatest common divisor of a non-empty list of numbers. A single
/// number is its own result; two or more must all be positive.
pub fn gcd_all(numbers: &Vec<u64>) -> (r: u64)
    requires
        numbers.len() >= 1,
        numbers.len() >= 2 ==> forall|i: int| 0 <= i < numbers.len() ==> #[trigger] numbers[i] != 0,
    ensures
        is_gcd_of_all(r as nat, numbers@),
{
    let mut d: u64 = numbers[0];
    proof {
        assert(divides(d as nat, d as nat)) by {
            if d > 0 {
                lemma_mod_multiples_basic(1, d as int);
            }
        }
        let first = numbers@.subrange(0, 1);
        assert(first[0] == d);
        assert forall|c: nat|
            (forall|j: int| 0 <= j < first.len() ==> divides(c, #[trigger] first[j] as nat)) implies #[trigger] divides(
            c,
            d as nat,
        ) by {
            assert(divides(c, first[0] as nat));
        }
    }
    let mut i: usize = 1;
    while i < numbers.len()
        invariant
            1 <= i <= numbers.len(),
            numbers.len() >= 2 ==> forall|j: int|
                0 <= j < numbers.len() ==> #[trigger] numbers[j] != 0,
            numbers.len() >= 2 ==> d != 0,
            is_gcd_of_all(d as nat, numbers@.subrange(0, i as int)),
        decreases numbers.len() - i,
    {
        let ghost prev = d;
        let ghost head = numbers@.subrange(0, i as int);
        let ghost next = numbers@.subrange(0, i + 1);
        d = gcd(d, numbers[i]);
        proof {
            assert forall|j: int| 0 <= j < next.len() implies divides(d as nat, #[trigger] next[j] as nat) by {
                if j < i {
                    assert(next[j] == head[j]);
                    lemma_divides_trans(d as nat, prev as nat, head[j] as nat);
                }
            }
            assert forall|c: nat|
                (forall|j: int| 0 <= j < next.len() ==> divides(c, #[trigger] next[j] as nat)) implies #[trigger] divides(
                c,
                d as nat,
            ) by {
                assert forall|j: int| 0 <= j < head.len() implies divides(c, #[trigger] head[j] as nat) by {
                    assert(next[j] == head[j]);
                }
                assert(divides(c, prev as nat));
                assert(divides(c, next[i as int] as nat));
            }
        }
        i += 1;
    }
    assert(numbers@.subrange(0, numbers.len() as int) =~= numbers@);
    d
}

/// `c` is one of the ASCII digits `0` to `9`.
pub open spec fn is_ascii_digit(c: char) -> bool {
    '0' <= c && c <= '9'
}

/// The value of a string of decimal digits, most significant first.
pub open spec fn digits_value(s: Seq<char>) -> nat
    decreases s.len(),
{
    if s.len() == 0 {
        0
    } else {
        digits_value(s.drop_last()) * 10 + ((s.last() as u32 - '0' as u32) as nat)
    }
}

/// The number that a text spells as an unsigned 64-bit integer: an optional
/// `+`, then one or more decimal digits whose value fits in 64 bits.
pub open spec fn u64_of_text(s: Seq<char>) -> Option<u64> {
    let digits = if s.len() > 0 && s[0] == '+' {
        s.drop_first()
    } else {
        s
    };
    if digits.len() > 0 && (forall|i: int| 0 <= i < digits.len() ==> is_ascii_digit(#[trigger] digits[i]))
        && digits_value(digits) <= u64::MAX {
        Some(digits_value(digits) as u64)
    } else {
        None
    }
}

/// Relies on `u64::from_str`: it accepts an optional `+` followed by one or
/// more ASCII digits whose value fits in a `u64`, and rejects anything else.
#[verifier::external_body]
fn parse_u64(text: &str) -> (r: Option<u64>)
    ensures
        r == u64_of_text(text@),
{
    <u64 as std::str::FromStr>::from_str(text).ok()
}

/// Reads each text as an unsigned 64-bit integer. Fails with the index of
/// the first text that is not one.
pub fn parse_numbers(texts: &Vec<String>) -> (r: Result<Vec<u64>, usize>)
    ensures
        r is Ok <==> forall|i: int| 0 <= i < texts.len() ==> #[trigger] u64_of_text(texts[i]@) is Some,
        r is Ok ==> r->Ok_0.len() == texts.len() && forall|i: int|
            0 <= i < texts.len() ==> Some(#[trigger] r->Ok_0[i]) == u64_of_text(texts[i]@),
        r is Err ==> {
            let k = r->Err_0 as int;
            &&& 0 <= k < texts.len()
            &&& u64_of_text(texts[k]@) is None
            &&& forall|i: int| 0 <= i < k ==> #[trigger] u64_of_text(texts[i]@) is Some
        },
{
    let mut numbers: Vec<u64> = Vec::new();
    let mut i: usize = 0;
    while i < texts.len()
        invariant
            i <= texts.len(),
            numbers.len() == i,
            forall|j: int| 0 <= j < i ==> Some(#[trigger] numbers[j]) == u64_of_text(texts[j]@),
        decreases texts.len() - i,
    {
        match parse_u64(texts[i].as_str()) {
            Some(n) => numbers.push(n),
            None => {
                assert forall|j: int| 0 <= j < i implies #[trigger] u64_of_text(texts[j]@) is Some by {
                    assert(Some(numbers[j]) == u64_of_text(texts[j]@));
                }
                return Err(i);
            },
        }
        i += 1;
    }
    assert forall|j: int| 0 <= j < texts.len() implies #[trigger] u64_of_text(texts[j]@) is Some by {
        assert(Some(numbers[j]) == u64_of_text(texts[j]@));
    }
    Ok(numbers)
}

} // verus!
