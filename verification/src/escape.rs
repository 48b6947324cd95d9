//! The escape-time iteration `z <- z * z + c`.
//!
//! The iteration is written once, for any number type `Z`. The caller brings
//! the arithmetic as two functions: `next(z, c)`, one step of the orbit, and
//! `within(z)`, whether `z` is still inside the escape radius.

use vstd::prelude::*;

verus! {

/// The iteration cap that bounds the work spent on one sample.
pub const ITERMAX: u32 = 100;

/// `orbit` starts at `c`, and every point but the last is inside the escape
/// radius and is followed by its successor under `next`.
pub open spec fn is_orbit<Z, N: Fn(Z, Z) -> Z, W: Fn(Z) -> bool>(
    orbit: Seq<Z>,
    c: Z,
    next: N,
    within: W,
) -> bool {
    &&& orbit.len() >= 1
    &&& orbit[0] == c
    &&& forall|i: int|
        0 <= i < orbit.len() - 1 ==> call_ensures(within, (#[trigger] orbit[i],), true)
            && call_ensures(next, (orbit[i], c), orbit[i + 1])
}

/// `count` is an escape velocity of `c`: some orbit of `count` steps leaves
/// the escape radius at its last point, or reaches the cap `cap` there.
pub open spec fn escapes_after<Z, N: Fn(Z, Z) -> Z, W: Fn(Z) -> bool>(
    c: Z,
    next: N,
    within: W,
    cap: u32,
    count: u32,
) -> bool {
    &&& count <= cap
    &&& exists|orbit: Seq<Z>|
        {
            &&& #[trigger] is_orbit(orbit, c, next, within)
            &&& orbit.len() == count + 1
            &&& count < cap ==> call_ensures(within, (orbit[count as int],), false)
        }
}

/// `f` gives one value only for each argument.
pub open spec fn is_deterministic<A, R, F: Fn(A) -> R>(f: F) -> bool {
    forall|a: A, r1: R, r2: R|
        call_ensures(f, (a,), r1) && call_ensures(f, (a,), r2) ==> r1 == r2
}

/// `f` gives one value only for each pair of arguments.
pub open spec fn is_deterministic2<A, B, R, F: Fn(A, B) -> R>(f: F) -> bool {
    forall|a: A, b: B, r1: R, r2: R|
        call_ensures(f, (a, b), r1) && call_ensures(f, (a, b), r2) ==> r1 == r2
}

/// The escape velocity of `c`: the number of steps `z <- next(z, c)` taken
/// from `z = c` while `within(z)` holds, at most `cap`.
pub fn diverge<Z: Copy, N: Fn(Z, Z) -> Z, W: Fn(Z) -> bool>(
    c: Z,
    next: N,
    within: W,
    cap: u32,
) -> (count: u32)
    requires
        forall|z: Z| call_requires(within, (z,)),
        forall|z: Z, w: Z| call_requires(next, (z, w)),
    ensures
        escapes_after(c, next, within, cap, count),
        count <= cap,
        !call_ensures(within, (c,), true) ==> count == 0,
{
    let mut count: u32 = 0;
    let mut z: Z = c;
    let ghost mut orbit: Seq<Z> = seq![c];
    while count < cap
        invariant
            count <= cap,
            forall|z: Z| call_requires(within, (z,)),
            forall|z: Z, w: Z| call_requires(next, (z, w)),
            is_orbit(orbit, c, next, within),
            orbit.len() == count + 1,
            orbit[count as int] == z,
            count > 0 ==> call_ensures(within, (c,), true),
        decreases cap - count,
    {
        if !within(z) {
            return count;
        }
        let after = next(z, c);
        proof {
            let longer = orbit.push(after);
            assert forall|i: int| 0 <= i < longer.len() - 1 implies call_ensures(
                within,
                (#[trigger] longer[i],),
                true,
            ) && call_ensures(next, (longer[i], c), longer[i + 1]) by {
                if i < orbit.len() - 1 {
                    assert(longer[i] == orbit[i]);
                    assert(longer[i + 1] == orbit[i + 1]);
                }
            }
            orbit = longer;
        }
        z = after;
        count = count + 1;
    }
    count
}

/// With a step and a test that each give one value only, a sample has one
/// escape velocity: equal inputs give equal results.
pub proof fn lemma_escape_velocity_unique<Z, N: Fn(Z, Z) -> Z, W: Fn(Z) -> bool>(
    c: Z,
    next: N,
    within: W,
    cap: u32,
    first: u32,
    second: u32,
)
    requires
        is_deterministic2(next),
        is_deterministic(within),
        escapes_after(c, next, within, cap, first),
        escapes_after(c, next, within, cap, second),
    ensures
        first == second,
{
    let a = choose|orbit: Seq<Z>|
        {
            &&& #[trigger] is_orbit(orbit, c, next, within)
            &&& orbit.len() == first + 1
            &&& first < cap ==> call_ensures(within, (orbit[first as int],), false)
        };
    let b = choose|orbit: Seq<Z>|
        {
            &&& #[trigger] is_orbit(orbit, c, next, within)
            &&& orbit.len() == second + 1
            &&& second < cap ==> call_ensures(within, (orbit[second as int],), false)
        };
    lemma_orbits_agree(a, b, c, next, within, if first <= second { first as int } else { second as int });
    if first < second {
        assert(call_ensures(within, (a[first as int],), false));
        assert(call_ensures(within, (b[first as int],), true));
    } else if second < first {
        assert(call_ensures(within, (b[second as int],), false));
        assert(call_ensures(within, (a[second as int],), true));
    }
}

/// Two orbits of one sample under a step that gives one value only agree as
/// far as both reach.
proof fn lemma_orbits_agree<Z, N: Fn(Z, Z) -> Z, W: Fn(Z) -> bool>(
    a: Seq<Z>,
    b: Seq<Z>,
    c: Z,
    next: N,
    within: W,
    i: int,
)
    requires
        is_deterministic2(next),
        is_orbit(a, c, next, within),
        is_orbit(b, c, next, within),
        0 <= i < a.len(),
        i < b.len(),
    ensures
        a[i] == b[i],
    decreases i,
{
    if i > 0 {
        lemma_orbits_agree(a, b, c, next, within, i - 1);
        assert(call_ensures(next, (a[i - 1], c), a[i - 1 + 1]));
        assert(call_ensures(next, (b[i - 1], c), b[i - 1 + 1]));
    }
}

/// A sample that is outside the escape radius from the start has escape
/// velocity 0.
pub proof fn lemma_outside_escapes_at_once<Z, N: Fn(Z, Z) -> Z, W: Fn(Z) -> bool>(
    c: Z,
    next: N,
    within: W,
    cap: u32,
    count: u32,
)
    requires
        !call_ensures(within, (c,), true),
        escapes_after(c, next, within, cap, count),
    ensures
        count == 0,
{
    let orbit = choose|orbit: Seq<Z>|
        {
            &&& #[trigger] is_orbit(orbit, c, next, within)
            &&& orbit.len() == count + 1
            &&& count < cap ==> call_ensures(within, (orbit[count as int],), false)
        };
    if count > 0 {
        assert(call_ensures(within, (orbit[0],), true));
    }
}

} // verus!
