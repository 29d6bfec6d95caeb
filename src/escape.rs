//! The iteration structure of the escape-time test.
//!
//! The arithmetic of one step (for the Mandelbrot set, `z = z * z + c` and
//! the test `|z|^2 > 4`) is supplied by the caller as `step`, which maps an
//! orbit state to the next one and says whether that next state escaped.
//! This module counts the steps, stops at the first escape, and bounds the
//! search by the iteration limit.

use vstd::prelude::*;

verus! {

/// `orbit` and `escaped` record `n` successive calls of `step` from `start`:
/// call `k` took `orbit[k]` to `orbit[k + 1]` and reported `escaped[k]`.
pub open spec fn is_run<S, F: Fn(S) -> (S, bool)>(
    step: F,
    start: S,
    n: nat,
    orbit: Seq<S>,
    escaped: Seq<bool>,
) -> bool {
    &&& orbit.len() == n + 1
    &&& escaped.len() == n
    &&& orbit[0] == start
    &&& forall|k: int|
        0 <= k < n ==> #[trigger] step.ensures((orbit[k],), (orbit[k + 1], escaped[k]))
}

/// Number of calls of `step` behind an escape-time result.
pub open spec fn steps_taken(r: Option<u32>, limit: u32) -> nat {
    match r {
        Some(i) => (i + 1) as nat,
        None => limit as nat,
    }
}

/// Applies `step` from `start` at most `limit` times. Returns `Some(i)` when
/// call `i` (counting from zero) is the first to report an escape, and
/// `None` when all `limit` calls report none.
pub fn escape_count<S: Copy, F: Fn(S) -> (S, bool)>(start: S, limit: u32, step: F) -> (r: Option<
    u32,
>)
    requires
        forall|s: S| #[trigger] step.requires((s,)),
    ensures
        r matches Some(i) ==> i < limit,
        exists|orbit: Seq<S>, escaped: Seq<bool>|
            {
                &&& #[trigger] is_run(step, start, steps_taken(r, limit), orbit, escaped)
                &&& forall|k: int|
                    0 <= k < steps_taken(r, limit) ==> (#[trigger] escaped[k] <==> r == Some(
                        k as u32,
                    ))
            },
{
    let mut z = start;
    let ghost mut orbit: Seq<S> = seq![start];
    let ghost mut escaped: Seq<bool> = Seq::empty();
    let mut i: u32 = 0;
    while i < limit
        invariant
            i <= limit,
            forall|s: S| #[trigger] step.requires((s,)),
            is_run(step, start, i as nat, orbit, escaped),
            orbit.last() == z,
            forall|k: int| 0 <= k < i ==> !#[trigger] escaped[k],
        decreases limit - i,
    {
        let (next, out) = step(z);
        proof {
            let old_orbit = orbit;
            let old_escaped = escaped;
            orbit = orbit.push(next);
            escaped = escaped.push(out);
            assert forall|k: int| 0 <= k < i + 1 implies #[trigger] step.ensures(
                (orbit[k],),
                (orbit[k + 1], escaped[k]),
            ) by {
                if k < i {
                    assert(step.ensures((old_orbit[k],), (old_orbit[k + 1], old_escaped[k])));
                }
            }
        }
        if out {
            assert(steps_taken(Some(i), limit) == i + 1);
            assert(is_run(step, start, steps_taken(Some(i), limit), orbit, escaped));
            assert(forall|k: int|
                0 <= k < steps_taken(Some(i), limit) ==> (#[trigger] escaped[k] <==> Some(i) == Some(
                    k as u32,
                )));
            return Some(i);
        }
        z = next;
        i += 1;
    }
    assert(is_run(step, start, steps_taken(None, limit), orbit, escaped));
    None
}

} // verus!
