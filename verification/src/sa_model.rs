//! The mathematics of the annealing cost: which edges an assignment induces,
//! how many doors each room then needs, and how both change when a single
//! observation moves to another room.

use vstd::prelude::*;

verus! {

/// Upper bound on the number of base rooms; the tables are sized to it.
pub const MAX_ROOMS: usize = 30;

/// Number of doors of every room.
pub const MAX_DOORS: usize = 6;

/// Weight of a door that a room needs beyond its six.
pub const HENPOU_WEIGHT: i32 = 1;

/// Weight of a violated inequality between two observations.
pub const INEQ_WEIGHT: i32 = 1;

/// Weight of the slack among several destinations of one door.
pub const DUP_WEIGHT: i32 = 0;

/// An edge of the base structure: room, door, destination.
pub type Edge = (int, int, int);

/// One where the condition holds, else zero.
pub open spec fn unit(b: bool) -> int {
    if b {
        1
    } else {
        0
    }
}

/// The edge that transition `t` of a trace walks under assignment `a`.
pub open spec fn transition(a: Seq<usize>, doors: Seq<usize>, t: int) -> Edge {
    (a[t] as int, doors[t] as int, a[t + 1] as int)
}

/// How many of the first `n` transitions walk edge `e`.
pub open spec fn count_transitions(a: Seq<usize>, doors: Seq<usize>, n: int, e: Edge) -> int
    decreases n,
{
    if n <= 0 {
        0
    } else {
        count_transitions(a, doors, n - 1, e) + unit(transition(a, doors, n - 1) == e)
    }
}

/// As `count_transitions`, without the two transitions that touch
/// observation `i`.
pub open spec fn count_away_from(
    a: Seq<usize>,
    doors: Seq<usize>,
    n: int,
    i: int,
    e: Edge,
) -> int
    decreases n,
{
    if n <= 0 {
        0
    } else {
        count_away_from(a, doors, n - 1, i, e) + unit(
            n - 1 != i && n != i && transition(a, doors, n - 1) == e,
        )
    }
}

/// Whether transition `t` exists in a trace of `n` transitions and walks `e`.
pub open spec fn walks(a: Seq<usize>, doors: Seq<usize>, n: int, t: int, e: Edge) -> bool {
    0 <= t < n && transition(a, doors, t) == e
}

/// Of `n` transitions, between none and `n` walk an edge.
pub proof fn lemma_count_bounds(a: Seq<usize>, doors: Seq<usize>, n: int, e: Edge)
    ensures
        0 <= count_transitions(a, doors, n, e),
        n >= 0 ==> count_transitions(a, doors, n, e) <= n,
    decreases n,
{
    if n > 0 {
        lemma_count_bounds(a, doors, n - 1, e);
    }
}

/// The transitions that walk an edge are those away from observation `i`
/// and, where they walk it, the one into `i` and the one out of it.
pub proof fn lemma_count_split(a: Seq<usize>, doors: Seq<usize>, n: int, i: int, e: Edge)
    ensures
        count_transitions(a, doors, n, e) == count_away_from(a, doors, n, i, e) + unit(
            walks(a, doors, n, i - 1, e),
        ) + unit(walks(a, doors, n, i, e)),
        0 <= count_away_from(a, doors, n, i, e),
    decreases n,
{
    if n > 0 {
        lemma_count_split(a, doors, n - 1, i, e);
    }
}

/// Moving observation `i` leaves the transitions away from it as they were.
pub proof fn lemma_count_away_unmoved(
    a: Seq<usize>,
    doors: Seq<usize>,
    n: int,
    i: int,
    room: usize,
    e: Edge,
)
    requires
        0 <= i < a.len(),
        n < a.len(),
    ensures
        count_away_from(a.update(i, room), doors, n, i, e) == count_away_from(a, doors, n, i, e),
    decreases n,
{
    if n > 0 {
        lemma_count_away_unmoved(a, doors, n - 1, i, room, e);
    }
}

/// A transition that occurs is counted.
pub proof fn lemma_count_positive(a: Seq<usize>, doors: Seq<usize>, n: int, t: int)
    requires
        0 <= t < n,
    ensures
        count_transitions(a, doors, n, transition(a, doors, t)) > 0,
    decreases n,
{
    lemma_count_bounds(a, doors, n - 1, transition(a, doors, t));
    if t < n - 1 {
        lemma_count_positive(a, doors, n - 1, t);
    }
}

/// A counted edge is walked by some transition.
pub proof fn lemma_count_witness(a: Seq<usize>, doors: Seq<usize>, n: int, e: Edge) -> (t: int)
    requires
        count_transitions(a, doors, n, e) > 0,
    ensures
        0 <= t < n,
        transition(a, doors, t) == e,
    decreases n,
{
    if transition(a, doors, n - 1) == e {
        n - 1
    } else {
        lemma_count_witness(a, doors, n - 1, e)
    }
}

/// The edges that an assignment induces on a trace.
pub open spec fn edges_of(a: Seq<usize>, doors: Seq<usize>) -> Set<Edge> {
    Set::new(|e: Edge| count_transitions(a, doors, doors.len() as int, e) > 0)
}

/// Number of distinct doors of `x` that lead to `y`.
#[verifier::opaque]
pub open spec fn doors_between(es: Set<Edge>, x: int, y: int) -> int {
    unit(es.contains((x, 0, y))) + unit(es.contains((x, 1, y))) + unit(es.contains((x, 2, y)))
        + unit(es.contains((x, 3, y))) + unit(es.contains((x, 4, y))) + unit(
        es.contains((x, 5, y)),
    )
}

/// Lend-borrow balance: doors from `x` to `y` less doors from `y` to `x`.
pub open spec fn kasikari(es: Set<Edge>, x: int, y: int) -> int {
    doors_between(es, x, y) - doors_between(es, y, x)
}

/// Doors that `x` must spend on `y`: those it uses, or as many as `y` uses
/// toward `x` where that is more.
pub open spec fn doors_needed(es: Set<Edge>, x: int, y: int) -> int {
    doors_between(es, x, y) + if kasikari(es, x, y) < 0 {
        -kasikari(es, x, y)
    } else {
        0
    }
}

/// Doors that `x` must spend on the rooms below `n`.
pub open spec fn filled_in_future(es: Set<Edge>, x: int, n: int) -> int
    decreases n,
{
    if n <= 0 {
        0
    } else {
        filled_in_future(es, x, n - 1) + doors_needed(es, x, n - 1)
    }
}

/// What a room pays for needing `v` doors.
pub open spec fn penalty(v: int) -> int {
    if v > 6 {
        v - 6
    } else {
        0
    }
}

/// Sum of the penalties of the rooms below `n`, of `rooms` rooms in all.
pub open spec fn overfill(es: Set<Edge>, rooms: int, n: int) -> int
    decreases n,
{
    if n <= 0 {
        0
    } else {
        overfill(es, rooms, n - 1) + penalty(filled_in_future(es, n - 1, rooms))
    }
}

/// How many of the first `n` inequalities join two observations that sit in
/// one room.
pub open spec fn violations(a: Seq<usize>, ineqs: Seq<(usize, usize)>, n: int) -> int
    decreases n,
{
    if n <= 0 {
        0
    } else {
        violations(a, ineqs, n - 1) + unit(a[ineqs[n - 1].0 as int] == a[ineqs[n - 1].1 as int])
    }
}

/// How many transitions leave room `x` through door `d` for one of the
/// first `n` rooms.
pub open spec fn door_sum(a: Seq<usize>, doors: Seq<usize>, x: int, d: int, n: int) -> int
    decreases n,
{
    if n <= 0 {
        0
    } else {
        door_sum(a, doors, x, d, n - 1) + count_transitions(
            a,
            doors,
            doors.len() as int,
            (x, d, n - 1),
        )
    }
}

/// The most transitions that leave room `x` through door `d` for any one of
/// the first `n` rooms.
pub open spec fn door_max(a: Seq<usize>, doors: Seq<usize>, x: int, d: int, n: int) -> int
    decreases n,
{
    if n <= 0 {
        0
    } else {
        let before = door_max(a, doors, x, d, n - 1);
        let here = count_transitions(a, doors, doors.len() as int, (x, d, n - 1));
        if here > before {
            here
        } else {
            before
        }
    }
}

/// The transitions through the doors below `d` of room `x` that do not go
/// where most transitions through their door go.
pub open spec fn room_slack(a: Seq<usize>, doors: Seq<usize>, x: int, d: int) -> int
    decreases d,
{
    if d <= 0 {
        0
    } else {
        room_slack(a, doors, x, d - 1) + door_sum(a, doors, x, d - 1, MAX_ROOMS as int) - door_max(
            a,
            doors,
            x,
            d - 1,
            MAX_ROOMS as int,
        )
    }
}

/// The slack of the rooms below `n`: zero where every door of every room
/// leads to one room only.
pub open spec fn duplicate_slack(a: Seq<usize>, doors: Seq<usize>, n: int) -> int
    decreases n,
{
    if n <= 0 {
        0
    } else {
        duplicate_slack(a, doors, n - 1) + room_slack(a, doors, n - 1, MAX_DOORS as int)
    }
}

/// The structural cost of an assignment: the doors that rooms need beyond
/// their six, the inequalities that are violated, and the slack among the
/// destinations of a door, each with its weight.
pub open spec fn cost_of(
    a: Seq<usize>,
    doors: Seq<usize>,
    rooms: int,
    ineqs: Seq<(usize, usize)>,
) -> int {
    HENPOU_WEIGHT * overfill(edges_of(a, doors), rooms, rooms) + INEQ_WEIGHT * violations(
        a,
        ineqs,
        ineqs.len() as int,
    ) + DUP_WEIGHT * duplicate_slack(a, doors, rooms)
}

/// The observations that an inequality joins to observation `i`, in the
/// order of the first `n` inequalities.
pub open spec fn partners(ineqs: Seq<(usize, usize)>, n: int, i: usize) -> Seq<usize>
    decreases n,
{
    if n <= 0 {
        Seq::empty()
    } else {
        let before = partners(ineqs, n - 1, i);
        let (p, q) = ineqs[n - 1];
        let with_first = if p == i {
            before.push(q)
        } else {
            before
        };
        if q == i {
            with_first.push(p)
        } else {
            with_first
        }
    }
}

/// What moving an observation from room `old` to room `new` adds to the
/// violation count, summed over its first `n` partners.
pub open spec fn partner_delta(
    a: Seq<usize>,
    ps: Seq<usize>,
    n: int,
    old: usize,
    new: usize,
) -> int
    decreases n,
{
    if n <= 0 {
        0
    } else {
        partner_delta(a, ps, n - 1, old, new) + unit(a[ps[n - 1] as int] == new) - unit(
            a[ps[n - 1] as int] == old,
        )
    }
}

/// Every partner of an observation is an observation, and no inequality
/// gives more than one.
pub proof fn lemma_partners_bounded(ineqs: Seq<(usize, usize)>, n: int, i: usize, bound: int)
    requires
        0 <= n <= ineqs.len(),
        forall|k: int| 0 <= k < ineqs.len() ==> (#[trigger] ineqs[k]).0 < ineqs[k].1 < bound,
    ensures
        partners(ineqs, n, i).len() <= n,
        forall|j: int|
            0 <= j < partners(ineqs, n, i).len() ==> (#[trigger] partners(ineqs, n, i)[j]) < bound,
    decreases n,
{
    if n > 0 {
        lemma_partners_bounded(ineqs, n - 1, i, bound);
        assert(ineqs[n - 1].0 < ineqs[n - 1].1);
    }
}

/// Each partner changes the violation count by one at most.
pub proof fn lemma_partner_delta_bounds(
    a: Seq<usize>,
    ps: Seq<usize>,
    n: int,
    old: usize,
    new: usize,
)
    requires
        old != new,
    ensures
        n >= 0 ==> -n <= partner_delta(a, ps, n, old, new) <= n,
        n < 0 ==> partner_delta(a, ps, n, old, new) == 0,
    decreases n,
{
    if n > 0 {
        lemma_partner_delta_bounds(a, ps, n - 1, old, new);
    }
}

/// Of `n` inequalities, between none and `n` are violated.
pub proof fn lemma_violations_bounds(a: Seq<usize>, ineqs: Seq<(usize, usize)>, n: int)
    ensures
        0 <= violations(a, ineqs, n),
        n >= 0 ==> violations(a, ineqs, n) <= n,
    decreases n,
{
    if n > 0 {
        lemma_violations_bounds(a, ineqs, n - 1);
    }
}

/// A partner added at the end does not change what the earlier ones add.
pub proof fn lemma_partner_delta_push(
    a: Seq<usize>,
    ps: Seq<usize>,
    extra: usize,
    n: int,
    old: usize,
    new: usize,
)
    requires
        0 <= n <= ps.len(),
    ensures
        partner_delta(a, ps.push(extra), n, old, new) == partner_delta(a, ps, n, old, new),
    decreases n,
{
    if n > 0 {
        lemma_partner_delta_push(a, ps, extra, n - 1, old, new);
    }
}

/// Moving one observation changes the violation count by what its partners
/// say.
pub proof fn lemma_violations_move(
    a: Seq<usize>,
    ineqs: Seq<(usize, usize)>,
    n: int,
    i: usize,
    new: usize,
)
    requires
        0 <= n <= ineqs.len(),
        i < a.len(),
        forall|k: int| 0 <= k < ineqs.len() ==> (#[trigger] ineqs[k]).0 < ineqs[k].1 < a.len(),
        a[i as int] != new,
    ensures
        violations(a.update(i as int, new), ineqs, n) == violations(a, ineqs, n) + partner_delta(
            a,
            partners(ineqs, n, i),
            partners(ineqs, n, i).len() as int,
            a[i as int],
            new,
        ),
    decreases n,
{
    if n > 0 {
        lemma_violations_move(a, ineqs, n - 1, i, new);
        let before = partners(ineqs, n - 1, i);
        let (p, q) = ineqs[n - 1];
        let old = a[i as int];
        assert(p < q);
        if p == i {
            let now = before.push(q);
            assert(partners(ineqs, n, i) == now);
            lemma_partner_delta_push(a, before, q, before.len() as int, old, new);
            assert(now.drop_last() =~= before);
        } else if q == i {
            let now = before.push(p);
            assert(partners(ineqs, n, i) == now);
            lemma_partner_delta_push(a, before, p, before.len() as int, old, new);
        } else {
            assert(partners(ineqs, n, i) == before);
        }
    }
}

/// Adding or removing one edge changes the door counts of its two rooms
/// only, and only toward each other.
pub proof fn lemma_toggle_counts(es: Set<Edge>, after: Set<Edge>, e: Edge, u: int, v: int)
    requires
        0 <= e.1 < 6,
        after == es.insert(e) || after == es.remove(e),
    ensures
        doors_between(after, u, v) == doors_between(es, u, v) + if u == e.0 && v == e.2 {
            unit(after.contains(e)) - unit(es.contains(e))
        } else {
            0
        },
{
    reveal(doors_between);
}

/// Adding or removing one edge changes what `u` needs only toward the other
/// end of the edge.
pub proof fn lemma_toggle_filled(es: Set<Edge>, after: Set<Edge>, e: Edge, u: int, n: int)
    requires
        0 <= e.1 < 6,
        after == es.insert(e) || after == es.remove(e),
    ensures
        filled_in_future(after, u, n) == filled_in_future(es, u, n) + if u == e.0 && 0 <= e.2 < n {
            doors_needed(after, u, e.2) - doors_needed(es, u, e.2)
        } else if u == e.2 && 0 <= e.0 < n {
            doors_needed(after, u, e.0) - doors_needed(es, u, e.0)
        } else {
            0
        },
    decreases n,
{
    if n > 0 {
        lemma_toggle_filled(es, after, e, u, n - 1);
        lemma_toggle_counts(es, after, e, u, n - 1);
        lemma_toggle_counts(es, after, e, n - 1, u);
    }
}

/// A room has at most six doors, so counts and balances stay within six.
pub proof fn lemma_doors_between_bounds(es: Set<Edge>, x: int, y: int)
    ensures
        0 <= doors_between(es, x, y) <= 6,
        -6 <= kasikari(es, x, y) <= 6,
        0 <= doors_needed(es, x, y) <= 6,
{
    reveal(doors_between);
}

/// What a room needs toward `n` rooms is at most six doors each.
pub proof fn lemma_filled_bounds(es: Set<Edge>, x: int, n: int)
    ensures
        0 <= filled_in_future(es, x, n),
        n >= 0 ==> filled_in_future(es, x, n) <= 6 * n,
    decreases n,
{
    if n > 0 {
        lemma_filled_bounds(es, x, n - 1);
        lemma_doors_between_bounds(es, x, n - 1);
    }
}

} // verus!
