//! Inequalities between observations, read off repeated stretches of doors.
//!
//! Two positions of a trace that show the same label and are followed by the
//! same doors must see the same labels for as long as the doors agree. Where
//! the first difference shows up, the two positions cannot be the same room.

use vstd::prelude::*;

verus! {

/// Whether the `len` doors after `p` and after `q` prove that the two
/// positions are different rooms: same label at the start, same doors, same
/// labels up to the last one, which differs.
pub open spec fn tells_apart(doors: Seq<usize>, obs: Seq<usize>, p: int, q: int, len: int) -> bool {
    &&& 0 <= p < q
    &&& 1 <= len
    &&& q + len <= doors.len()
    &&& obs[p] == obs[q]
    &&& forall|j: int| p <= j < p + len ==> #[trigger] doors[j] == doors[j + q - p]
    &&& forall|j: int| p < j < p + len ==> #[trigger] obs[j] == obs[j + q - p]
    &&& obs[p + len] != obs[q + len]
}

/// Whether some signature tells positions `p < q` apart.
pub open spec fn must_differ(doors: Seq<usize>, obs: Seq<usize>, p: int, q: int) -> bool {
    exists|len: int| tells_apart(doors, obs, p, q, len)
}

/// Two positions that stand in the same room stay together for as long as
/// they take the same doors, where every door of every room leads to one
/// room only.
pub proof fn lemma_same_room_stays(
    doors: Seq<usize>,
    rooms: Seq<usize>,
    p: int,
    q: int,
    len: int,
    k: int,
)
    requires
        rooms.len() == doors.len() + 1,
        forall|s: int, t: int|
            0 <= s < doors.len() && 0 <= t < doors.len() && rooms[s] == rooms[t] && doors[s]
                == doors[t] ==> rooms[s + 1] == rooms[t + 1],
        0 <= p < q,
        q + len <= doors.len(),
        forall|j: int| p <= j < p + len ==> #[trigger] doors[j] == doors[j + q - p],
        rooms[p] == rooms[q],
        0 <= k <= len,
    ensures
        rooms[p + k] == rooms[q + k],
    decreases k,
{
    if k > 0 {
        lemma_same_room_stays(doors, rooms, p, q, len, k - 1);
        assert(doors[p + k - 1] == doors[p + k - 1 + q - p]);
    }
}

/// Positions that a signature tells apart are different rooms, whatever the
/// rooms are: it is enough that every door of every room leads to one room
/// only and that a room shows one label.
pub proof fn lemma_must_differ_is_sound(
    doors: Seq<usize>,
    obs: Seq<usize>,
    rooms: Seq<usize>,
    p: int,
    q: int,
)
    requires
        rooms.len() == doors.len() + 1,
        obs.len() == rooms.len(),
        forall|s: int, t: int|
            0 <= s < doors.len() && 0 <= t < doors.len() && rooms[s] == rooms[t] && doors[s]
                == doors[t] ==> rooms[s + 1] == rooms[t + 1],
        forall|i: int, j: int|
            0 <= i < rooms.len() && 0 <= j < rooms.len() && rooms[i] == rooms[j] ==> obs[i]
                == obs[j],
        must_differ(doors, obs, p, q),
    ensures
        rooms[p] != rooms[q],
{
    let len = choose|len: int| tells_apart(doors, obs, p, q, len);
    if rooms[p] == rooms[q] {
        lemma_same_room_stays(doors, rooms, p, q, len, len);
        assert(obs[p + len] == obs[q + len]);
    }
}

/// Whether pair `a` comes before pair `b` in the order of the output.
pub open spec fn pair_before(a: (usize, usize), b: (usize, usize)) -> bool {
    a.0 < b.0 || (a.0 == b.0 && a.1 < b.1)
}

/// Scans the doors after `p` and `q` for the first difference in labels.
fn differ_at(doors: &Vec<usize>, results: &Vec<usize>, p: usize, q: usize) -> (found: bool)
    requires
        results.len() == doors.len() + 1,
        p < q <= doors.len(),
    ensures
        found == must_differ(doors@, results@, p as int, q as int),
{
    if results[p] != results[q] {
        return false;
    }
    let n = doors.len();
    let mut k: usize = 0;
    while q + k < n
        invariant
            n == doors.len(),
            results.len() == n + 1,
            p < q <= n,
            q + k <= n,
            results[p as int] == results[q as int],
            forall|j: int| p <= j < p + k ==> #[trigger] doors[j] == doors[j + q - p],
            forall|j: int| p < j <= p + k ==> #[trigger] results[j] == results[j + q - p],
        decreases n - k,
    {
        if doors[p + k] != doors[q + k] {
            proof {
                assert forall|len: int| !tells_apart(doors@, results@, p as int, q as int, len) by {
                    if tells_apart(doors@, results@, p as int, q as int, len) {
                        if len <= k {
                            assert(results@[p + len] == results@[p + len + q - p]);
                        } else {
                            assert(doors@[p + k] == doors@[p + k + q - p]);
                        }
                    }
                }
            }
            return false;
        }
        if results[p + 1 + k] != results[q + 1 + k] {
            proof {
                assert(tells_apart(doors@, results@, p as int, q as int, k + 1));
            }
            return true;
        }
        k = k + 1;
    }
    proof {
        assert forall|len: int| !tells_apart(doors@, results@, p as int, q as int, len) by {
            if tells_apart(doors@, results@, p as int, q as int, len) {
                assert(results@[p + len] == results@[p + len + q - p]);
            }
        }
    }
    false
}

/// Lists every pair of positions `p < q` of a doors-only trace that some
/// signature tells apart, each pair once, ordered by `p` and then by `q`.
pub fn find_signatures_ineqs(doors: &Vec<usize>, results: &Vec<usize>) -> (ineqs: Vec<
    (usize, usize),
>)
    requires
        results.len() == doors.len() + 1,
    ensures
        forall|k: int|
            0 <= k < ineqs.len() ==> (#[trigger] ineqs[k]).0 < ineqs[k].1 <= doors.len()
                && must_differ(doors@, results@, ineqs[k].0 as int, ineqs[k].1 as int),
        forall|p: int, q: int|
            0 <= p < q <= doors.len() && must_differ(doors@, results@, p, q) ==> ineqs@.contains(
                (p as usize, q as usize),
            ),
        forall|j: int, k: int| 0 <= j < k < ineqs.len() ==> pair_before(ineqs[j], ineqs[k]),
{
    let n = doors.len();
    let mut ineqs: Vec<(usize, usize)> = Vec::new();
    let mut p: usize = 0;
    while p < n
        invariant
            n == doors.len(),
            results.len() == n + 1,
            p <= n,
            forall|k: int|
                0 <= k < ineqs.len() ==> (#[trigger] ineqs[k]).0 < ineqs[k].1 <= n && ineqs[k].0
                    < p && must_differ(doors@, results@, ineqs[k].0 as int, ineqs[k].1 as int),
            forall|a: int, b: int|
                0 <= a < b <= n && a < p && must_differ(doors@, results@, a, b)
                    ==> ineqs@.contains((a as usize, b as usize)),
            forall|j: int, k: int| 0 <= j < k < ineqs.len() ==> pair_before(ineqs[j], ineqs[k]),
        decreases n - p,
    {
        let mut q: usize = p + 1;
        while q <= n
            invariant
                n == doors.len(),
                results.len() == n + 1,
                p < n,
                p < q <= n + 1,
                forall|k: int|
                    0 <= k < ineqs.len() ==> (#[trigger] ineqs[k]).0 < ineqs[k].1 <= n && (
                    ineqs[k].0 < p || (ineqs[k].0 == p && ineqs[k].1 < q)) && must_differ(
                        doors@,
                        results@,
                        ineqs[k].0 as int,
                        ineqs[k].1 as int,
                    ),
                forall|a: int, b: int|
                    0 <= a < b <= n && (a < p || (a == p && b < q)) && must_differ(
                        doors@,
                        results@,
                        a,
                        b,
                    ) ==> ineqs@.contains((a as usize, b as usize)),
                forall|j: int, k: int|
                    0 <= j < k < ineqs.len() ==> pair_before(ineqs[j], ineqs[k]),
            decreases n + 1 - q,
        {
            if differ_at(doors, results, p, q) {
                let ghost before = ineqs@;
                ineqs.push((p, q));
                proof {
                    assert forall|a: int, b: int|
                        0 <= a < b <= n && (a < p || (a == p && b < q + 1)) && must_differ(
                            doors@,
                            results@,
                            a,
                            b,
                        ) implies ineqs@.contains((a as usize, b as usize)) by {
                        if a == p && b == q {
                            assert(ineqs@[before.len() as int] == (p, q));
                        } else {
                            let at = choose|at: int|
                                0 <= at < before.len() && before[at] == (a as usize, b as usize);
                            assert(ineqs@[at] == (a as usize, b as usize));
                        }
                    }
                }
            }
            q = q + 1;
        }
        p = p + 1;
    }
    ineqs
}

/// The place of a pair in the order of the output.
pub open spec fn pair_rank(pair: (usize, usize), n: int) -> int {
    pair.0 * (n + 1) + pair.1
}

/// A list of pairs over `n + 1` positions in strictly rising order has at
/// most `(n + 1) * (n + 1)` pairs.
pub proof fn lemma_sorted_pairs_are_few(ineqs: Seq<(usize, usize)>, n: int, k: int)
    requires
        0 <= k < ineqs.len(),
        forall|j: int| 0 <= j < ineqs.len() ==> (#[trigger] ineqs[j]).0 < ineqs[j].1 <= n,
        forall|i: int, j: int| 0 <= i < j < ineqs.len() ==> pair_before(ineqs[i], ineqs[j]),
    ensures
        k <= pair_rank(ineqs[k], n) < (n + 1) * (n + 1),
    decreases k,
{
    let (p, q) = ineqs[k];
    assert(p * (n + 1) + q < (n + 1) * (n + 1)) by (nonlinear_arith)
        requires
            0 <= p < q <= n,
    ;
    if k > 0 {
        lemma_sorted_pairs_are_few(ineqs, n, k - 1);
        let (a, b) = ineqs[k - 1];
        assert(pair_before(ineqs[k - 1], ineqs[k]));
        assert(a * (n + 1) + b < p * (n + 1) + q) by (nonlinear_arith)
            requires
                0 <= a < b <= n,
                0 <= p < q <= n,
                a < p || (a == p && b < q),
        ;
    }
}

/// For each observation, the observations that an inequality joins to it.
pub fn index_by_observation(ineqs: &Vec<(usize, usize)>, observations: usize) -> (by_obs: Vec<
    Vec<usize>,
>)
    requires
        forall|k: int| 0 <= k < ineqs.len() ==> (#[trigger] ineqs[k]).0 < ineqs[k].1 < observations,
    ensures
        by_obs.len() == observations,
        forall|i: int|
            0 <= i < observations ==> (#[trigger] by_obs[i])@ == crate::sa_model::partners(
                ineqs@,
                ineqs.len() as int,
                i as usize,
            ),
{
    let mut by_obs: Vec<Vec<usize>> = Vec::new();
    let mut i: usize = 0;
    while i < observations
        invariant
            i <= observations,
            by_obs.len() == i,
            forall|j: int|
                0 <= j < i ==> (#[trigger] by_obs[j])@ == crate::sa_model::partners(
                    ineqs@,
                    0,
                    j as usize,
                ),
        decreases observations - i,
    {
        by_obs.push(Vec::new());
        i = i + 1;
    }
    let mut k: usize = 0;
    while k < ineqs.len()
        invariant
            k <= ineqs.len(),
            by_obs.len() == observations,
            forall|k: int|
                0 <= k < ineqs.len() ==> (#[trigger] ineqs[k]).0 < ineqs[k].1 < observations,
            forall|j: int|
                0 <= j < observations ==> (#[trigger] by_obs[j])@ == crate::sa_model::partners(
                    ineqs@,
                    k as int,
                    j as usize,
                ),
        decreases ineqs.len() - k,
    {
        let (p, q) = ineqs[k];
        by_obs[p].push(q);
        by_obs[q].push(p);
        k = k + 1;
    }
    by_obs
}

} // verus!
