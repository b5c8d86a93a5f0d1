//! The escape-time loop: iterate a map from a starting state and report the
//! first iteration after which the state has escaped.

use vstd::prelude::*;

verus! {

/// Whether `step` can produce the state that `orbit` holds at position `i`
/// from the state before it: from `start` for the first, and for each later
/// one from the state at position `i - 1`.
pub open spec fn is_step<Z, S: Fn(Z) -> Z>(step: S, start: Z, orbit: Seq<Z>, i: int) -> bool {
    call_ensures(step, (if i == 0 {
        start
    } else {
        orbit[i - 1]
    },), orbit[i])
}

/// Whether `orbit` lists states that `step` can produce one after another
/// from `start`.
pub open spec fn is_orbit<Z, S: Fn(Z) -> Z>(step: S, start: Z, orbit: Seq<Z>) -> bool {
    forall|i: int| 0 <= i < orbit.len() ==> #[trigger] is_step(step, start, orbit, i)
}

/// Whether `escaped` can answer `answer` for the state that `orbit` holds at
/// position `i`.
pub open spec fn judged<Z, E: Fn(&Z) -> bool>(escaped: E, orbit: Seq<Z>, i: int, answer: bool) -> bool {
    call_ensures(escaped, (&orbit[i],), answer)
}

/// Whether `outcome` is the escape time of the run `orbit` within a budget
/// of `limit` iterations: `Some(i)` where the state after iteration `i`
/// (counted from zero) is the first one judged to have escaped, and the run
/// stopped there; `None` where the run used the whole budget and no state
/// was judged to have escaped.
pub open spec fn is_escape_time<Z, E: Fn(&Z) -> bool>(
    escaped: E,
    orbit: Seq<Z>,
    limit: u32,
    outcome: Option<u32>,
) -> bool {
    match outcome {
        Some(i) => {
            &&& i < limit
            &&& orbit.len() == i + 1
            &&& forall|j: int| 0 <= j < i ==> #[trigger] judged(escaped, orbit, j, false)
            &&& judged(escaped, orbit, i as int, true)
        },
        None => {
            &&& orbit.len() == limit
            &&& forall|j: int| 0 <= j < limit ==> #[trigger] judged(escaped, orbit, j, false)
        },
    }
}

/// Iterates `step` from `start`, at most `limit` times, and asks `escaped`
/// about the state after each iteration. Returns the index, counted from
/// zero, of the first iteration after which the state has escaped, or `None`
/// where the budget is used up first.
pub fn escapes<Z, S: Fn(Z) -> Z, E: Fn(&Z) -> bool>(
    start: Z,
    limit: u32,
    step: S,
    escaped: E,
) -> (outcome: Option<u32>)
    requires
        forall|z: Z| #[trigger] call_requires(step, (z,)),
        forall|z: Z| #[trigger] call_requires(escaped, (&z,)),
    ensures
        exists|orbit: Seq<Z>| #[trigger]
            is_orbit(step, start, orbit) && is_escape_time(escaped, orbit, limit, outcome),
{
    let mut z = start;
    let mut i: u32 = 0;
    let ghost mut orbit: Seq<Z> = Seq::empty();
    while i < limit
        invariant
            i <= limit,
            orbit.len() == i,
            i > 0 ==> orbit[i - 1] == z,
            i == 0 ==> z == start,
            is_orbit(step, start, orbit),
            forall|j: int| 0 <= j < i ==> #[trigger] judged(escaped, orbit, j, false),
            forall|z: Z| #[trigger] call_requires(step, (z,)),
            forall|z: Z| #[trigger] call_requires(escaped, (&z,)),
        decreases limit - i,
    {
        let ghost before = orbit;
        z = step(z);
        proof {
            orbit = before.push(z);
            assert forall|j: int| 0 <= j < orbit.len() implies #[trigger] is_step(
                step,
                start,
                orbit,
                j,
            ) by {
                if j < before.len() {
                    assert(is_step(step, start, before, j));
                }
            }
            assert(is_orbit(step, start, orbit));
        }
        let out = escaped(&z);
        proof {
            assert(judged(escaped, orbit, i as int, out));
            assert forall|j: int| 0 <= j < i implies #[trigger] judged(escaped, orbit, j, false) by {
                assert(judged(escaped, before, j, false));
            }
        }
        if out {
            assert(is_escape_time(escaped, orbit, limit, Some(i)));
            return Some(i);
        }
        i += 1;
    }
    assert(is_escape_time(escaped, orbit, limit, None));
    None
}

/// In a run from a state that `step` can only map to itself, every state is
/// that state.
proof fn lemma_orbit_of_fixed_point<Z, S: Fn(Z) -> Z>(step: S, start: Z, orbit: Seq<Z>, i: int)
    requires
        is_orbit(step, start, orbit),
        forall|z: Z| #[trigger] call_ensures(step, (start,), z) ==> z == start,
        0 <= i < orbit.len(),
    ensures
        orbit[i] == start,
    decreases i,
{
    if i > 0 {
        lemma_orbit_of_fixed_point(step, start, orbit, i - 1);
    }
    assert(is_step(step, start, orbit, i));
}

/// A starting state that `step` can only map to itself, and that is not
/// judged to have escaped, never escapes: the escape time is `None`,
/// whatever the budget.
pub proof fn lemma_fixed_point_stays_bounded<Z, S: Fn(Z) -> Z, E: Fn(&Z) -> bool>(
    step: S,
    escaped: E,
    start: Z,
    orbit: Seq<Z>,
    limit: u32,
    outcome: Option<u32>,
)
    requires
        is_orbit(step, start, orbit),
        is_escape_time(escaped, orbit, limit, outcome),
        forall|z: Z| #[trigger] call_ensures(step, (start,), z) ==> z == start,
        !call_ensures(escaped, (&start,), true),
    ensures
        outcome is None,
{
    if let Some(i) = outcome {
        lemma_orbit_of_fixed_point(step, start, orbit, i as int);
        assert(judged(escaped, orbit, i as int, true));
    }
}

/// Where every state that `step` can produce from the start is judged to
/// have escaped, and the budget allows one iteration at least, the escape
/// time is `Some(0)`.
pub proof fn lemma_escape_at_first_step<Z, S: Fn(Z) -> Z, E: Fn(&Z) -> bool>(
    step: S,
    escaped: E,
    start: Z,
    orbit: Seq<Z>,
    limit: u32,
    outcome: Option<u32>,
)
    requires
        is_orbit(step, start, orbit),
        is_escape_time(escaped, orbit, limit, outcome),
        limit > 0,
        forall|z: Z| #[trigger] call_ensures(step, (start,), z) ==> !call_ensures(escaped, (&z,), false),
    ensures
        outcome == Some(0u32),
{
    assert(orbit.len() > 0);
    assert(is_step(step, start, orbit, 0));
    match outcome {
        Some(i) => {
            if i > 0 {
                assert(judged(escaped, orbit, 0, false));
            }
        },
        None => {
            assert(judged(escaped, orbit, 0, false));
        },
    }
}

/// Two runs from one start, under a `step` that has one result for each
/// state, hold the same states as far as both go.
proof fn lemma_orbits_agree<Z, S: Fn(Z) -> Z>(
    step: S,
    start: Z,
    first: Seq<Z>,
    second: Seq<Z>,
    i: int,
)
    requires
        is_orbit(step, start, first),
        is_orbit(step, start, second),
        forall|z: Z, a: Z, b: Z|
            #[trigger] call_ensures(step, (z,), a) && #[trigger] call_ensures(step, (z,), b) ==> a
                == b,
        0 <= i < first.len(),
        i < second.len(),
    ensures
        first[i] == second[i],
    decreases i,
{
    if i > 0 {
        lemma_orbits_agree(step, start, first, second, i - 1);
    }
    assert(is_step(step, start, first, i));
    assert(is_step(step, start, second, i));
}

/// Where `step` has one result for each state and `escaped` one answer, the
/// escape time is determined: any two runs from one start with one budget
/// have the same escape time.
pub proof fn lemma_escape_time_is_determined<Z, S: Fn(Z) -> Z, E: Fn(&Z) -> bool>(
    step: S,
    escaped: E,
    start: Z,
    limit: u32,
    first: Seq<Z>,
    first_outcome: Option<u32>,
    second: Seq<Z>,
    second_outcome: Option<u32>,
)
    requires
        is_orbit(step, start, first),
        is_escape_time(escaped, first, limit, first_outcome),
        is_orbit(step, start, second),
        is_escape_time(escaped, second, limit, second_outcome),
        forall|z: Z, a: Z, b: Z|
            #[trigger] call_ensures(step, (z,), a) && #[trigger] call_ensures(step, (z,), b) ==> a
                == b,
        forall|z: Z, a: bool, b: bool|
            #[trigger] call_ensures(escaped, (&z,), a) && #[trigger] call_ensures(
                escaped,
                (&z,),
                b,
            ) ==> a == b,
    ensures
        first_outcome == second_outcome,
{
    match (first_outcome, second_outcome) {
        (Some(i), Some(j)) => {
            if i < j {
                lemma_orbits_agree(step, start, first, second, i as int);
                assert(judged(escaped, first, i as int, true));
                assert(judged(escaped, second, i as int, false));
            }
            if j < i {
                lemma_orbits_agree(step, start, first, second, j as int);
                assert(judged(escaped, first, j as int, false));
                assert(judged(escaped, second, j as int, true));
            }
        },
        (Some(i), None) => {
            lemma_orbits_agree(step, start, first, second, i as int);
            assert(judged(escaped, first, i as int, true));
            assert(judged(escaped, second, i as int, false));
        },
        (None, Some(j)) => {
            lemma_orbits_agree(step, start, first, second, j as int);
            assert(judged(escaped, first, j as int, false));
            assert(judged(escaped, second, j as int, true));
        },
        (None, None) => {},
    }
}

} // verus!
