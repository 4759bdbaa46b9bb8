//! The base-structure solver: an assignment of observations to rooms, with
//! the tables that price it and the single-observation move that keeps them
//! current.

use crate::api::FullMap;
use crate::base_map::{BaseMap, DoorTable};
use crate::dfs::{DfsSolver, solve_outcome};
use crate::dfs_model::{completed, DoorKey, Outcome, Problem, SearchState, walk_matches};
use crate::error::SolveError;
use crate::outside::{chance, choose_one, door_map_insert, random_between};
use crate::plan::{digits_below, digits_of, parse_digits, PlanStep};
use crate::sa_model::{
    cost_of, count_transitions, doors_between, DUP_WEIGHT, duplicate_slack, Edge, edges_of,
    filled_in_future, HENPOU_WEIGHT, INEQ_WEIGHT, kasikari, lemma_count_away_unmoved,
    lemma_count_bounds, lemma_count_positive, lemma_count_split, lemma_count_witness,
    lemma_doors_between_bounds, lemma_filled_bounds, lemma_partner_delta_bounds,
    lemma_partners_bounded, lemma_toggle_counts, lemma_toggle_filled, lemma_violations_bounds,
    lemma_violations_move, MAX_DOORS, MAX_ROOMS, overfill, partner_delta, partners, penalty,
    transition, violations,
};
use crate::signature::{
    find_signatures_ineqs, index_by_observation, lemma_sorted_pairs_are_few, must_differ,
};
use crate::submission::{initial_label, is_submission};
use vstd::prelude::*;

verus! {

/// Most inequalities that a solver takes: with that many the cost still fits.
pub const MAX_INEQUALITIES: usize = 1_000_000_000;

/// Most steps that one annealing run takes.
pub const MAX_ITERATIONS: usize = 10_000_000;

/// Number of steps between two looks at the stop signal, and between two
/// kicks.
pub const KICK_INTERVAL: usize = 100_000;

/// Longest doors-only plan that a solver takes: it cannot give rise to more
/// inequalities than `MAX_INEQUALITIES`.
pub const MAX_PLAN_LENGTH: usize = 30_000;

/// Whether each label of a trace is carried by one of `rooms` rooms and the
/// first is the label of room 0.
pub open spec fn labels_fit(labels: Seq<usize>, rooms: usize) -> bool {
    &&& labels.len() >= 1
    &&& labels[0] == 0
    &&& forall|i: int| 0 <= i < labels.len() ==> #[trigger] labels[i] < 4 && labels[i] < rooms
}

/// What keeps a solver from being made of a doors-only plan, the labels
/// seen along it and a number of rooms, if anything does.
pub open spec fn refusal(plan: Seq<char>, results: Seq<char>, rooms: usize) -> Option<SolveError> {
    if !digits_below(plan, 6) || !digits_below(results, 4) {
        Some(SolveError::MalformedPlan)
    } else if results.len() != plan.len() + 1 {
        Some(SolveError::ObservationLengthMismatch)
    } else if rooms < 1 || rooms > MAX_ROOMS || plan.len() > MAX_PLAN_LENGTH || !labels_fit(
        digits_of(results),
        rooms,
    ) {
        Some(SolveError::OutOfRange)
    } else {
        None
    }
}

/// An assignment of the observations of a doors-only trace to base rooms,
/// with its cost and the tables that the cost is read from.
#[derive(Debug)]
pub struct SimulatedAnnealingSolver {
    /// The label seen at each observation.
    pub observed_labels: Vec<usize>,
    /// For each step, the observation it leaves from and the door it takes.
    pub transitions: Vec<(usize, usize)>,
    /// Number of base rooms.
    pub num_rooms: usize,
    /// The room of each observation.
    pub assignment: Vec<usize>,
    /// The cost of the assignment.
    pub cost: i32,
    /// For each room, door and destination, the transitions that walk there.
    pub graph: Vec<Vec<Vec<usize>>>,
    /// For each room, the doors it is bound to need.
    pub filled_in_future: Vec<i32>,
    /// For each pair of rooms, doors there less doors back.
    pub kasikari_count: Vec<Vec<i32>>,
    /// Pairs of observations that cannot be one room.
    pub known_inequalities: Vec<(usize, usize)>,
    /// For each observation, its partners in those pairs.
    pub known_inequalities_by_obs_idx: Vec<Vec<usize>>,
}

/// The doors that a list of transitions takes, in order.
pub open spec fn doors_of(transitions: Seq<(usize, usize)>) -> Seq<usize> {
    Seq::new(transitions.len(), |t: int| transitions[t].1)
}

/// The edges that a table of transition counts holds.
pub open spec fn table_edges(graph: Seq<Vec<Vec<usize>>>) -> Set<Edge> {
    Set::new(
        |e: Edge|
            0 <= e.0 < MAX_ROOMS && 0 <= e.1 < MAX_DOORS && 0 <= e.2 < MAX_ROOMS
                && graph[e.0][e.1][e.2] > 0,
    )
}

/// Sum of the penalties of the first `n` entries of a table of door needs.
pub open spec fn penalty_total(filled: Seq<i32>, n: int) -> int
    decreases n,
{
    if n <= 0 {
        0
    } else {
        penalty_total(filled, n - 1) + penalty(filled[n - 1] as int)
    }
}

/// Sum of the penalties of the rooms that a list names.
pub open spec fn penalty_over(filled: Seq<i32>, rooms: Seq<usize>, n: int) -> int
    decreases n,
{
    if n <= 0 {
        0
    } else {
        penalty_over(filled, rooms, n - 1) + penalty(filled[rooms[n - 1] as int] as int)
    }
}

/// Tables that agree on the first `n` rooms have the same penalty total.
pub proof fn lemma_penalty_total_same(f: Seq<i32>, g: Seq<i32>, n: int)
    requires
        forall|r: int| 0 <= r < n ==> f[r] == g[r],
    ensures
        penalty_total(f, n) == penalty_total(g, n),
    decreases n,
{
    if n > 0 {
        lemma_penalty_total_same(f, g, n - 1);
    }
}

/// A change of one entry changes the penalty total by the penalty of that
/// entry.
pub proof fn lemma_penalty_total_update(f: Seq<i32>, x: int, v: i32, n: int)
    requires
        0 <= x < f.len(),
        n <= f.len(),
    ensures
        penalty_total(f.update(x, v), n) == penalty_total(f, n) + if x < n {
            penalty(v as int) - penalty(f[x] as int)
        } else {
            0
        },
    decreases n,
{
    if n > 0 {
        lemma_penalty_total_update(f, x, v, n - 1);
    }
}

/// The penalty total of entries that are at most `top` is at most `top - 6`
/// per entry.
pub proof fn lemma_penalty_total_bounds(f: Seq<i32>, n: int, top: int)
    requires
        0 <= n <= f.len(),
        forall|r: int| 0 <= r < n ==> f[r] <= top,
        top >= 6,
    ensures
        0 <= penalty_total(f, n) <= (top - 6) * n,
    decreases n,
{
    if n > 0 {
        lemma_penalty_total_bounds(f, n - 1, top);
        assert((top - 6) * n == (top - 6) * (n - 1) + (top - 6)) by (nonlinear_arith);
    }
}

/// Tables that agree on the rooms of a list have the same penalties over it.
pub proof fn lemma_penalty_over_same(f: Seq<i32>, g: Seq<i32>, rooms: Seq<usize>, n: int)
    requires
        0 <= n <= rooms.len(),
        forall|k: int| 0 <= k < n ==> f[rooms[k] as int] == g[rooms[k] as int],
    ensures
        penalty_over(f, rooms, n) == penalty_over(g, rooms, n),
    decreases n,
{
    if n > 0 {
        lemma_penalty_over_same(f, g, rooms, n - 1);
    }
}

/// Where two tables of door needs differ only at the rooms of a list
/// without repetition, their penalty totals differ by the penalties of those
/// rooms.
pub proof fn lemma_penalty_difference(
    f: Seq<i32>,
    g: Seq<i32>,
    rooms: Seq<usize>,
    n: int,
    m: int,
)
    requires
        f.len() == g.len(),
        0 <= n <= f.len(),
        0 <= m <= rooms.len(),
        forall|j: int, k: int| 0 <= j < k < m ==> rooms[j] != rooms[k],
        forall|k: int| 0 <= k < m ==> rooms[k] < n,
        forall|r: int|
            0 <= r < n && f[r] != g[r] ==> exists|k: int| 0 <= k < m && rooms[k] == r,
    ensures
        penalty_total(g, n) - penalty_total(f, n) == penalty_over(g, rooms, m) - penalty_over(
            f,
            rooms,
            m,
        ),
    decreases m,
{
    if m == 0 {
        assert forall|r: int| 0 <= r < n implies f[r] == g[r] by {
            if f[r] != g[r] {
                let k = choose|k: int| 0 <= k < m && rooms[k] == r;
            }
        }
        lemma_penalty_total_same(f, g, n);
    } else {
        let x = rooms[m - 1] as int;
        let h = f.update(x, g[x]);
        assert forall|r: int| 0 <= r < n && h[r] != g[r] implies exists|k: int|
            0 <= k < m - 1 && rooms[k] == r by {
            let k = choose|k: int| 0 <= k < m && rooms[k] == r;
            assert(k != m - 1);
        }
        lemma_penalty_difference(h, g, rooms, n, m - 1);
        lemma_penalty_total_update(f, x, g[x], n);
        lemma_penalty_over_same(h, f, rooms, m - 1);
    }
}

/// The penalties of a table of door needs that holds the needs of the edges
/// `es` add up to the overfill of `es`.
pub proof fn lemma_penalties_are_overfill(f: Seq<i32>, es: Set<Edge>, rooms: int, n: int)
    requires
        n <= rooms,
        forall|x: int| 0 <= x < rooms ==> f[x] == filled_in_future(es, x, rooms),
    ensures
        penalty_total(f, n) == overfill(es, rooms, n),
    decreases n,
{
    if n > 0 {
        lemma_penalties_are_overfill(f, es, rooms, n - 1);
    }
}

/// The value where it is negative, else zero.
fn negative_part(v: i32) -> (r: i32)
    ensures
        r == if v < 0 {
            v
        } else {
            0
        },
{
    if v < 0 {
        v
    } else {
        0
    }
}

/// A count table in which no transition is counted.
fn zero_counts() -> (g: Vec<Vec<Vec<usize>>>)
    ensures
        g.len() == MAX_ROOMS,
        forall|x: int| 0 <= x < MAX_ROOMS ==> (#[trigger] g[x]).len() == MAX_DOORS,
        forall|x: int, d: int|
            0 <= x < MAX_ROOMS && 0 <= d < MAX_DOORS ==> (#[trigger] g[x][d]).len() == MAX_ROOMS,
        forall|x: int, d: int, y: int|
            0 <= x < MAX_ROOMS && 0 <= d < MAX_DOORS && 0 <= y < MAX_ROOMS ==> #[trigger] g[x][d][y]
                == 0,
{
    let mut g: Vec<Vec<Vec<usize>>> = Vec::new();
    let mut x: usize = 0;
    while x < MAX_ROOMS
        invariant
            x <= MAX_ROOMS,
            g.len() == x,
            forall|i: int| 0 <= i < x ==> (#[trigger] g[i]).len() == MAX_DOORS,
            forall|i: int, d: int|
                0 <= i < x && 0 <= d < MAX_DOORS ==> (#[trigger] g[i][d]).len() == MAX_ROOMS,
            forall|i: int, d: int, y: int|
                0 <= i < x && 0 <= d < MAX_DOORS && 0 <= y < MAX_ROOMS ==> #[trigger] g[i][d][y]
                    == 0,
        decreases MAX_ROOMS - x,
    {
        let mut per_door: Vec<Vec<usize>> = Vec::new();
        let mut d: usize = 0;
        while d < MAX_DOORS
            invariant
                d <= MAX_DOORS,
                per_door.len() == d,
                forall|j: int| 0 <= j < d ==> (#[trigger] per_door[j]).len() == MAX_ROOMS,
                forall|j: int, y: int|
                    0 <= j < d && 0 <= y < MAX_ROOMS ==> #[trigger] per_door[j][y] == 0,
            decreases MAX_DOORS - d,
        {
            per_door.push(zero_row(MAX_ROOMS));
            d = d + 1;
        }
        g.push(per_door);
        x = x + 1;
    }
    g
}

/// A row of `n` zero counts.
fn zero_row(n: usize) -> (row: Vec<usize>)
    ensures
        row.len() == n,
        forall|i: int| 0 <= i < n ==> row[i] == 0,
{
    let mut row: Vec<usize> = Vec::new();
    let mut i: usize = 0;
    while i < n
        invariant
            i <= n,
            row.len() == i,
            forall|j: int| 0 <= j < i ==> row[j] == 0,
        decreases n - i,
    {
        row.push(0);
        i = i + 1;
    }
    row
}

/// A row of `n` zero balances.
fn zero_balance_row(n: usize) -> (row: Vec<i32>)
    ensures
        row.len() == n,
        forall|i: int| 0 <= i < n ==> row[i] == 0,
{
    let mut row: Vec<i32> = Vec::new();
    let mut i: usize = 0;
    while i < n
        invariant
            i <= n,
            row.len() == i,
            forall|j: int| 0 <= j < i ==> row[j] == 0,
        decreases n - i,
    {
        row.push(0);
        i = i + 1;
    }
    row
}

/// A balance table in which every pair of rooms is even.
fn zero_balances() -> (k: Vec<Vec<i32>>)
    ensures
        k.len() == MAX_ROOMS,
        forall|x: int| 0 <= x < MAX_ROOMS ==> (#[trigger] k[x]).len() == MAX_ROOMS,
        forall|x: int, y: int| 0 <= x < MAX_ROOMS && 0 <= y < MAX_ROOMS ==> #[trigger] k[x][y] == 0,
{
    let mut k: Vec<Vec<i32>> = Vec::new();
    let mut x: usize = 0;
    while x < MAX_ROOMS
        invariant
            x <= MAX_ROOMS,
            k.len() == x,
            forall|i: int| 0 <= i < x ==> (#[trigger] k[i]).len() == MAX_ROOMS,
            forall|i: int, y: int| 0 <= i < x && 0 <= y < MAX_ROOMS ==> #[trigger] k[i][y] == 0,
        decreases MAX_ROOMS - x,
    {
        k.push(zero_balance_row(MAX_ROOMS));
        x = x + 1;
    }
    k
}

/// Counts the doors of `x` that some transition takes to `y`.
fn count_doors(graph: &Vec<Vec<Vec<usize>>>, x: usize, y: usize) -> (n: i32)
    requires
        graph.len() == MAX_ROOMS,
        forall|i: int| 0 <= i < MAX_ROOMS ==> (#[trigger] graph[i]).len() == MAX_DOORS,
        forall|i: int, d: int|
            0 <= i < MAX_ROOMS && 0 <= d < MAX_DOORS ==> (#[trigger] graph[i][d]).len()
                == MAX_ROOMS,
        x < MAX_ROOMS,
        y < MAX_ROOMS,
    ensures
        n == doors_between(table_edges(graph@), x as int, y as int),
{
    proof {
        reveal(doors_between);
    }
    let mut n: i32 = 0;
    if graph[x][0][y] > 0 {
        n = n + 1;
    }
    if graph[x][1][y] > 0 {
        n = n + 1;
    }
    if graph[x][2][y] > 0 {
        n = n + 1;
    }
    if graph[x][3][y] > 0 {
        n = n + 1;
    }
    if graph[x][4][y] > 0 {
        n = n + 1;
    }
    if graph[x][5][y] > 0 {
        n = n + 1;
    }
    n
}

/// Counts, for every edge, the transitions of a trace that walk it.
fn count_graph(assignment: &Vec<usize>, transitions: &Vec<(usize, usize)>) -> (g: Vec<
    Vec<Vec<usize>>,
>)
    requires
        assignment.len() == transitions.len() + 1,
        forall|t: int| 0 <= t < transitions.len() ==> (#[trigger] transitions[t]).1 < MAX_DOORS,
        forall|i: int| 0 <= i < assignment.len() ==> (#[trigger] assignment[i]) < MAX_ROOMS,
    ensures
        g.len() == MAX_ROOMS,
        forall|x: int| 0 <= x < MAX_ROOMS ==> (#[trigger] g[x]).len() == MAX_DOORS,
        forall|x: int, d: int|
            0 <= x < MAX_ROOMS && 0 <= d < MAX_DOORS ==> (#[trigger] g[x][d]).len() == MAX_ROOMS,
        forall|x: int, d: int, y: int|
            0 <= x < MAX_ROOMS && 0 <= d < MAX_DOORS && 0 <= y < MAX_ROOMS ==> #[trigger] g[x][d][y]
                == count_transitions(
                assignment@,
                doors_of(transitions@),
                transitions.len() as int,
                (x, d, y),
            ),
{
    let mut g = zero_counts();
    let n = transitions.len();
    let mut t: usize = 0;
    while t < n
        invariant
            n == transitions.len(),
            t <= n,
            assignment.len() == n + 1,
            forall|t: int| 0 <= t < transitions.len() ==> (#[trigger] transitions[t]).1 < MAX_DOORS,
            forall|i: int| 0 <= i < assignment.len() ==> (#[trigger] assignment[i]) < MAX_ROOMS,
            g.len() == MAX_ROOMS,
            forall|x: int| 0 <= x < MAX_ROOMS ==> (#[trigger] g[x]).len() == MAX_DOORS,
            forall|x: int, d: int|
                0 <= x < MAX_ROOMS && 0 <= d < MAX_DOORS ==> (#[trigger] g[x][d]).len()
                    == MAX_ROOMS,
            forall|x: int, d: int, y: int|
                0 <= x < MAX_ROOMS && 0 <= d < MAX_DOORS && 0 <= y < MAX_ROOMS
                    ==> #[trigger] g[x][d][y] == count_transitions(
                    assignment@,
                    doors_of(transitions@),
                    t as int,
                    (x, d, y),
                ),
        decreases n - t,
    {
        let from_room = assignment[t];
        let to_room = assignment[t + 1];
        let door = transitions[t].1;
        proof {
            lemma_count_bounds(
                assignment@,
                doors_of(transitions@),
                t as int,
                (from_room as int, door as int, to_room as int),
            );
        }
        g[from_room][door][to_room] += 1;
        t = t + 1;
    }
    g
}

/// Derives the balance of every pair of rooms and the doors that every room
/// needs from a table of transition counts.
fn derive_tables(graph: &Vec<Vec<Vec<usize>>>, rooms: usize) -> (r: (Vec<Vec<i32>>, Vec<i32>))
    requires
        graph.len() == MAX_ROOMS,
        forall|i: int| 0 <= i < MAX_ROOMS ==> (#[trigger] graph[i]).len() == MAX_DOORS,
        forall|i: int, d: int|
            0 <= i < MAX_ROOMS && 0 <= d < MAX_DOORS ==> (#[trigger] graph[i][d]).len()
                == MAX_ROOMS,
        rooms <= MAX_ROOMS,
    ensures
        r.0.len() == MAX_ROOMS,
        forall|x: int| 0 <= x < MAX_ROOMS ==> (#[trigger] r.0[x]).len() == MAX_ROOMS,
        forall|x: int, y: int|
            0 <= x < MAX_ROOMS && 0 <= y < MAX_ROOMS ==> #[trigger] r.0[x][y] == if x < rooms && y
                < rooms {
                kasikari(table_edges(graph@), x, y)
            } else {
                0
            },
        r.1.len() == MAX_ROOMS,
        forall|x: int|
            0 <= x < MAX_ROOMS ==> #[trigger] r.1[x] == if x < rooms {
                filled_in_future(table_edges(graph@), x, rooms as int)
            } else {
                0
            },
{
    let ghost es = table_edges(graph@);
    let mut balances: Vec<Vec<i32>> = Vec::new();
    let mut needs: Vec<i32> = Vec::new();
    let mut x: usize = 0;
    while x < MAX_ROOMS
        invariant
            graph.len() == MAX_ROOMS,
            forall|i: int| 0 <= i < MAX_ROOMS ==> (#[trigger] graph[i]).len() == MAX_DOORS,
            forall|i: int, d: int|
                0 <= i < MAX_ROOMS && 0 <= d < MAX_DOORS ==> (#[trigger] graph[i][d]).len()
                    == MAX_ROOMS,
            rooms <= MAX_ROOMS,
            es == table_edges(graph@),
            x <= MAX_ROOMS,
            balances.len() == x,
            needs.len() == x,
            forall|i: int| 0 <= i < x ==> (#[trigger] balances[i]).len() == MAX_ROOMS,
            forall|i: int, y: int|
                0 <= i < x && 0 <= y < MAX_ROOMS ==> #[trigger] balances[i][y] == if i < rooms && y
                    < rooms {
                    kasikari(es, i, y)
                } else {
                    0
                },
            forall|i: int|
                0 <= i < x ==> #[trigger] needs[i] == if i < rooms {
                    filled_in_future(es, i, rooms as int)
                } else {
                    0
                },
        decreases MAX_ROOMS - x,
    {
        let mut row: Vec<i32> = Vec::new();
        let mut need: i32 = 0;
        let mut y: usize = 0;
        while y < MAX_ROOMS
            invariant
                graph.len() == MAX_ROOMS,
                forall|i: int| 0 <= i < MAX_ROOMS ==> (#[trigger] graph[i]).len() == MAX_DOORS,
                forall|i: int, d: int|
                    0 <= i < MAX_ROOMS && 0 <= d < MAX_DOORS ==> (#[trigger] graph[i][d]).len()
                        == MAX_ROOMS,
                rooms <= MAX_ROOMS,
                es == table_edges(graph@),
                x < MAX_ROOMS,
                y <= MAX_ROOMS,
                row.len() == y,
                forall|j: int|
                    0 <= j < y ==> #[trigger] row[j] == if x < rooms && j < rooms {
                        kasikari(es, x as int, j)
                    } else {
                        0
                    },
                need == if x < rooms {
                    filled_in_future(
                        es,
                        x as int,
                        if y < rooms {
                            y as int
                        } else {
                            rooms as int
                        },
                    )
                } else {
                    0
                },
            decreases MAX_ROOMS - y,
        {
            let mut balance: i32 = 0;
            if x < rooms && y < rooms {
                let out = count_doors(graph, x, y);
                let back = count_doors(graph, y, x);
                proof {
                    lemma_doors_between_bounds(es, x as int, y as int);
                    lemma_doors_between_bounds(es, y as int, x as int);
                    lemma_filled_bounds(es, x as int, y as int);
                }
                balance = out - back;
                need = need + out - negative_part(balance);
            }
            row.push(balance);
            y = y + 1;
        }
        balances.push(row);
        needs.push(need);
        x = x + 1;
    }
    (balances, needs)
}

/// Adds a room to a list of distinct rooms unless it is there already.
fn push_distinct(rooms: &mut Vec<usize>, r: usize)
    requires
        old(rooms)@.no_duplicates(),
    ensures
        final(rooms)@.no_duplicates(),
        final(rooms)@.contains(r),
        forall|x: usize| old(rooms)@.contains(x) ==> final(rooms)@.contains(x),
        forall|x: usize| final(rooms)@.contains(x) ==> x == r || old(rooms)@.contains(x),
        final(rooms).len() <= old(rooms).len() + 1,
{
    let mut k: usize = 0;
    while k < rooms.len()
        invariant
            k <= rooms.len(),
            *rooms == *old(rooms),
            rooms@.no_duplicates(),
            forall|j: int| 0 <= j < k ==> rooms[j] != r,
        decreases rooms.len() - k,
    {
        if rooms[k] == r {
            return;
        }
        k = k + 1;
    }
    let ghost before = rooms@;
    rooms.push(r);
    proof {
        assert(rooms@[before.len() as int] == r);
        assert forall|x: usize| before.contains(x) implies rooms@.contains(x) by {
            let j = choose|j: int| 0 <= j < before.len() && before[j] == x;
            assert(rooms@[j] == x);
        }
    }
}

/// Whether an assignment sends every door of every room to one room only.
pub open spec fn deterministic(a: Seq<usize>, doors: Seq<usize>) -> bool {
    forall|s: int, t: int|
        0 <= s < doors.len() && 0 <= t < doors.len() && a[s] == a[t] && doors[s] == doors[t]
            ==> a[s + 1] == a[t + 1]
}

/// The base structure that an assignment induces: each door that some
/// transition takes leads where that transition goes.
pub open spec fn table_of(a: Seq<usize>, doors: Seq<usize>) -> DoorTable {
    Map::new(
        |key: DoorKey| exists|t: int| 0 <= t < doors.len() && #[trigger] a[t] == key.0 && doors[t] == key.1,
        |key: DoorKey|
            a[(choose|t: int| 0 <= t < doors.len() && #[trigger] a[t] == key.0 && doors[t] == key.1)
                + 1],
    )
}

/// The state in which a layered search starts: nothing is paired, every
/// room carries the label of its base room, the first observation is
/// assigned to room 0 and no other.
pub open spec fn start_state(rooms: usize, layers: usize, observations: nat) -> SearchState {
    SearchState {
        connections: Map::<DoorKey, DoorKey>::empty(),
        labels: Seq::new(
            (rooms * layers) as nat,
            |i: int| initial_label(i, rooms as int) as usize,
        ),
        assignment: Seq::new(
            observations,
            |i: int|
                if i == 0 {
                    0isize
                } else {
                    -1isize
                },
        ),
    }
}

/// Whether a list of rooms can be the assignment of a trace: one room per
/// observation, room 0 first, each room carrying the label seen.
pub open spec fn assignable(rooms: Seq<usize>, labels: Seq<usize>, num_rooms: usize) -> bool {
    &&& rooms.len() == labels.len()
    &&& rooms.len() >= 1
    &&& rooms[0] == 0
    &&& forall|i: int|
        0 <= i < rooms.len() ==> (#[trigger] rooms[i]) < num_rooms && rooms[i] % 4 == labels[i]
}

/// Copies a list of numbers.
fn copy_numbers(v: &Vec<usize>) -> (copy: Vec<usize>)
    ensures
        copy@ == v@,
{
    let mut copy: Vec<usize> = Vec::new();
    let mut i: usize = 0;
    while i < v.len()
        invariant
            i <= v.len(),
            copy@ == v@.take(i as int),
        decreases v.len() - i,
    {
        copy.push(v[i]);
        proof {
            assert(v@.take(i + 1) =~= v@.take(i as int).push(v[i as int]));
        }
        i = i + 1;
    }
    proof {
        assert(v@.take(v.len() as int) =~= v@);
    }
    copy
}

/// Copies a list of steps.
fn copy_steps(v: &Vec<PlanStep>) -> (copy: Vec<PlanStep>)
    ensures
        copy@ == v@,
{
    let mut copy: Vec<PlanStep> = Vec::new();
    let mut i: usize = 0;
    while i < v.len()
        invariant
            i <= v.len(),
            copy@ == v@.take(i as int),
        decreases v.len() - i,
    {
        copy.push(v[i]);
        proof {
            assert(v@.take(i + 1) =~= v@.take(i as int).push(v[i as int]));
        }
        i = i + 1;
    }
    proof {
        assert(v@.take(v.len() as int) =~= v@);
    }
    copy
}

/// The assignment after a round of draws: every observation but the first
/// for which a room was drawn sits in that room, every other one where it
/// sat.
pub open spec fn redrawn(a: Seq<usize>, draws: Seq<Option<usize>>) -> Seq<usize> {
    Seq::new(
        a.len(),
        |i: int|
            if 0 < i < draws.len() && draws[i] is Some {
                draws[i]->0
            } else {
                a[i]
            },
    )
}

/// Lists the rooms that carry one label.
fn rooms_with_label(label: usize, num_rooms: usize) -> (list: Vec<usize>)
    ensures
        forall|r: usize| #[trigger] list@.contains(r) <==> r < num_rooms && r % 4 == label,
{
    let mut list: Vec<usize> = Vec::new();
    let mut room: usize = 0;
    while room < num_rooms
        invariant
            room <= num_rooms,
            forall|r: usize| #[trigger] list@.contains(r) <==> r < room && r % 4 == label,
        decreases num_rooms - room,
    {
        if room % 4 == label {
            let ghost was = list@;
            list.push(room);
            proof {
                assert(list@[was.len() as int] == room);
                assert forall|r: usize| #[trigger] list@.contains(r) <==> r < room + 1 && r % 4
                    == label by {
                    if list@.contains(r) {
                        let at = choose|at: int| 0 <= at < list@.len() && list@[at] == r;
                        if at < was.len() {
                            assert(was[at] == r);
                            assert(was.contains(r));
                        }
                    }
                    if r < room && r % 4 == label {
                        assert(was.contains(r));
                        let at = choose|at: int| 0 <= at < was.len() && was[at] == r;
                        assert(list@[at] == r);
                    }
                }
            }
        }
        room = room + 1;
    }
    list
}

/// Lists, for each of the four labels, the rooms that carry it.
fn label_candidates(num_rooms: usize) -> (lists: Vec<Vec<usize>>)
    ensures
        lists.len() == 4,
        forall|l: int, r: usize|
            0 <= l < 4 ==> (#[trigger] lists[l]@.contains(r) <==> r < num_rooms && r % 4 == l),
{
    let mut lists: Vec<Vec<usize>> = Vec::new();
    lists.push(rooms_with_label(0, num_rooms));
    lists.push(rooms_with_label(1, num_rooms));
    lists.push(rooms_with_label(2, num_rooms));
    lists.push(rooms_with_label(3, num_rooms));
    lists
}

/// Pairs each door of a plan with the observation it leaves from.
fn number_transitions(plan: &Vec<usize>) -> (transitions: Vec<(usize, usize)>)
    ensures
        transitions.len() == plan.len(),
        forall|j: int| 0 <= j < plan.len() ==> #[trigger] transitions[j] == (j as usize, plan[j]),
        doors_of(transitions@) == plan@,
{
    let mut transitions: Vec<(usize, usize)> = Vec::new();
    let mut t: usize = 0;
    while t < plan.len()
        invariant
            t <= plan.len(),
            transitions.len() == t,
            forall|j: int| 0 <= j < t ==> #[trigger] transitions[j] == (j as usize, plan[j]),
        decreases plan.len() - t,
    {
        transitions.push((t, plan[t]));
        t = t + 1;
    }
    proof {
        assert(doors_of(transitions@) =~= plan@);
    }
    transitions
}

/// Puts every observation into the room whose number is its label, if
/// every label is the number of a room.
fn rooms_by_label(labels: &Vec<usize>, num_rooms: usize) -> (r: Option<Vec<usize>>)
    ensures
        r is Some <==> forall|i: int| 0 <= i < labels.len() ==> #[trigger] labels[i] < num_rooms,
        r is Some ==> r->0@ == labels@,
{
    let mut assignment: Vec<usize> = Vec::new();
    let mut i: usize = 0;
    while i < labels.len()
        invariant
            i <= labels.len(),
            assignment@ == labels@.take(i as int),
            forall|j: int| 0 <= j < i ==> #[trigger] labels[j] < num_rooms,
        decreases labels.len() - i,
    {
        let label = labels[i];
        if label >= num_rooms {
            return None;
        }
        assignment.push(label);
        proof {
            assert(labels@.take(i + 1) =~= labels@.take(i as int).push(label));
        }
        i = i + 1;
    }
    proof {
        assert(labels@.take(labels.len() as int) =~= labels@);
    }
    Some(assignment)
}

impl SimulatedAnnealingSolver {
    /// The doors of the trace, in order.
    pub open spec fn doors(&self) -> Seq<usize> {
        doors_of(self.transitions@)
    }

    /// The sizes of the tables and the shape of the trace.
    pub open spec fn shape_ok(&self) -> bool {
        &&& 1 <= self.num_rooms <= MAX_ROOMS
        &&& self.assignment.len() == self.transitions.len() + 1
        &&& self.observed_labels.len() == self.assignment.len()
        &&& forall|t: int|
            0 <= t < self.transitions.len() ==> (#[trigger] self.transitions[t]).0 == t
                && self.transitions[t].1 < MAX_DOORS
        &&& self.graph.len() == MAX_ROOMS
        &&& forall|x: int| 0 <= x < MAX_ROOMS ==> (#[trigger] self.graph[x]).len() == MAX_DOORS
        &&& forall|x: int, d: int|
            0 <= x < MAX_ROOMS && 0 <= d < MAX_DOORS ==> (#[trigger] self.graph[x][d]).len()
                == MAX_ROOMS
        &&& self.filled_in_future.len() == MAX_ROOMS
        &&& self.kasikari_count.len() == MAX_ROOMS
        &&& forall|x: int|
            0 <= x < MAX_ROOMS ==> (#[trigger] self.kasikari_count[x]).len() == MAX_ROOMS
        &&& self.known_inequalities.len() <= MAX_INEQUALITIES
        &&& forall|k: int|
            0 <= k < self.known_inequalities.len() ==> (#[trigger] self.known_inequalities[k]).0
                < self.known_inequalities[k].1 < self.assignment.len()
        &&& self.known_inequalities_by_obs_idx.len() == self.assignment.len()
        &&& forall|i: int|
            0 <= i < self.assignment.len() ==> (#[trigger] self.known_inequalities_by_obs_idx[i])@
                == partners(
                self.known_inequalities@,
                self.known_inequalities.len() as int,
                i as usize,
            )
    }

    /// Every observation sits in a room that carries its label, and the
    /// first one sits in room 0.
    pub open spec fn labels_ok(&self) -> bool {
        &&& self.assignment.len() == self.observed_labels.len()
        &&& self.assignment.len() >= 1
        &&& self.assignment[0] == 0
        &&& forall|i: int|
            0 <= i < self.assignment.len() ==> (#[trigger] self.assignment[i]) < self.num_rooms
                && self.assignment[i] % 4 == self.observed_labels[i]
    }

    /// The count table holds, for each edge, the transitions that walk it.
    pub open spec fn graph_ok(&self) -> bool {
        forall|x: int, d: int, y: int|
            0 <= x < MAX_ROOMS && 0 <= d < MAX_DOORS && 0 <= y < MAX_ROOMS
                ==> #[trigger] self.graph[x][d][y] == count_transitions(
                self.assignment@,
                self.doors(),
                self.transitions.len() as int,
                (x, d, y),
            )
    }

    /// The balance and need tables are those of the edges in the count
    /// table.
    pub open spec fn aux_ok(&self) -> bool {
        self.aux_of(table_edges(self.graph@))
    }

    /// The cost is the weighted sum of overfill and violated inequalities.
    pub open spec fn cost_ok(&self) -> bool {
        self.cost == HENPOU_WEIGHT * penalty_total(
            self.filled_in_future@,
            self.num_rooms as int,
        ) + INEQ_WEIGHT * violations(
            self.assignment@,
            self.known_inequalities@,
            self.known_inequalities.len() as int,
        )
    }

    /// Everything that holds of a solver between two calls.
    pub open spec fn wf(&self) -> bool {
        &&& self.shape_ok()
        &&& self.labels_ok()
        &&& self.graph_ok()
        &&& self.aux_ok()
        &&& self.cost_ok()
    }

    /// Whether two solvers work on the same trace with the same inequalities.
    pub open spec fn same_trace(&self, other: &Self) -> bool {
        &&& self.observed_labels@ == other.observed_labels@
        &&& self.transitions@ == other.transitions@
        &&& self.num_rooms == other.num_rooms
        &&& self.known_inequalities@ == other.known_inequalities@
        &&& self.known_inequalities_by_obs_idx.deep_view()
            == other.known_inequalities_by_obs_idx.deep_view()
    }

    /// The cost of the current assignment.
    pub fn cost(&self) -> (c: i32)
        ensures
            c == self.cost,
    {
        self.cost
    }

    /// What room `room_id` pays for the doors it needs beyond six.
    fn calculate_penalty(&self, room_id: usize) -> (p: i32)
        requires
            room_id < self.filled_in_future.len(),
            -1000 <= self.filled_in_future[room_id as int] <= 1000,
        ensures
            p == HENPOU_WEIGHT * penalty(self.filled_in_future[room_id as int] as int),
    {
        let mut ret: i32 = 0;
        if self.filled_in_future[room_id] > 6 {
            ret = ret + (self.filled_in_future[room_id] - 6) * HENPOU_WEIGHT;
        }
        ret
    }

    /// Rebuilds every table and the cost from the assignment.
    pub fn recalculate_cost(&mut self)
        requires
            old(self).shape_ok(),
            old(self).labels_ok(),
        ensures
            final(self).wf(),
            final(self).same_trace(old(self)),
            final(self).assignment@ == old(self).assignment@,
    {
        let graph = count_graph(&self.assignment, &self.transitions);
        let (balances, needs) = derive_tables(&graph, self.num_rooms);
        let ghost es = table_edges(graph@);
        let rooms = self.num_rooms;
        let mut total: i32 = 0;
        let mut x: usize = 0;
        while x < rooms
            invariant
                x <= rooms <= MAX_ROOMS,
                needs.len() == MAX_ROOMS,
                forall|i: int|
                    0 <= i < MAX_ROOMS ==> #[trigger] needs[i] == if i < rooms {
                        filled_in_future(es, i, rooms as int)
                    } else {
                        0
                    },
                total == HENPOU_WEIGHT * penalty_total(needs@, x as int),
                0 <= total <= 180 * x,
            decreases rooms - x,
        {
            proof {
                lemma_filled_bounds(es, x as int, rooms as int);
            }
            if needs[x] > 6 {
                total = total + (needs[x] - 6) * HENPOU_WEIGHT;
            }
            x = x + 1;
        }
        let n = self.known_inequalities.len();
        let ghost overfill_part = total;
        let mut k: usize = 0;
        while k < n
            invariant
                k <= n,
                n == self.known_inequalities.len(),
                n <= MAX_INEQUALITIES,
                *self == *old(self),
                forall|j: int|
                    0 <= j < n ==> (#[trigger] self.known_inequalities[j]).0
                        < self.known_inequalities[j].1 < self.assignment.len(),
                0 <= overfill_part <= 180 * MAX_ROOMS,
                total == overfill_part + INEQ_WEIGHT * violations(
                    self.assignment@,
                    self.known_inequalities@,
                    k as int,
                ),
                0 <= violations(self.assignment@, self.known_inequalities@, k as int) <= k,
            decreases n - k,
        {
            let (p, q) = self.known_inequalities[k];
            if self.assignment[p] == self.assignment[q] {
                total = total + 1 * INEQ_WEIGHT;
            }
            k = k + 1;
        }
        self.graph = graph;
        self.kasikari_count = balances;
        self.filled_in_future = needs;
        self.cost = total;
    }

    /// Whether everything but the three tables is as in `other`.
    pub open spec fn same_but_tables(&self, other: &Self) -> bool {
        &&& self.observed_labels == other.observed_labels
        &&& self.transitions == other.transitions
        &&& self.num_rooms == other.num_rooms
        &&& self.assignment == other.assignment
        &&& self.cost == other.cost
        &&& self.known_inequalities == other.known_inequalities
        &&& self.known_inequalities_by_obs_idx == other.known_inequalities_by_obs_idx
    }

    /// Counts one transition more (`add`) or one less along the edge from
    /// `x` through door `d` to `y`, and says whether the edge appeared or
    /// disappeared with that.
    fn count_edge_use(&mut self, x: usize, d: usize, y: usize, add: bool) -> (toggled: bool)
        requires
            old(self).shape_ok(),
            x < MAX_ROOMS,
            y < MAX_ROOMS,
            d < MAX_DOORS,
            add ==> old(self).graph[x as int][d as int][y as int] < usize::MAX,
            !add ==> old(self).graph[x as int][d as int][y as int] >= 1,
        ensures
            final(self).shape_ok(),
            final(self).same_but_tables(old(self)),
            final(self).filled_in_future == old(self).filled_in_future,
            final(self).kasikari_count == old(self).kasikari_count,
            final(self).graph[x as int][d as int][y as int] == old(self).graph[x as int][d as int][y as int]
                + if add {
                1int
            } else {
                -1int
            },
            forall|a: int, b: int, c: int|
                0 <= a < MAX_ROOMS && 0 <= b < MAX_DOORS && 0 <= c < MAX_ROOMS && (a, b, c) != (
                    x as int,
                    d as int,
                    y as int,
                ) ==> #[trigger] final(self).graph[a][b][c] == old(self).graph[a][b][c],
            table_edges(final(self).graph@) == if !toggled {
                table_edges(old(self).graph@)
            } else if add {
                table_edges(old(self).graph@).insert((x as int, d as int, y as int))
            } else {
                table_edges(old(self).graph@).remove((x as int, d as int, y as int))
            },
            toggled ==> (add <==> !table_edges(old(self).graph@).contains(
                (x as int, d as int, y as int),
            )),
    {
        let ghost before = table_edges(self.graph@);
        let ghost e: Edge = (x as int, d as int, y as int);
        let toggled = if add {
            self.graph[x][d][y] += 1;
            self.graph[x][d][y] == 1
        } else {
            self.graph[x][d][y] -= 1;
            self.graph[x][d][y] == 0
        };
        proof {
            let after = table_edges(self.graph@);
            if !toggled {
                assert(after =~= before);
            } else if add {
                assert(after =~= before.insert(e));
            } else {
                assert(after =~= before.remove(e));
            }
        }
        toggled
    }

    /// Whether the balance and need tables are those of the edges `es`.
    pub open spec fn aux_of(&self, es: Set<Edge>) -> bool {
        let r = self.num_rooms as int;
        &&& forall|x: int, y: int|
            0 <= x < MAX_ROOMS && 0 <= y < MAX_ROOMS ==> #[trigger] self.kasikari_count[x][y]
                == if x < r && y < r {
                kasikari(es, x, y)
            } else {
                0
            }
        &&& forall|x: int|
            0 <= x < MAX_ROOMS ==> #[trigger] self.filled_in_future[x] == if x < r {
                filled_in_future(es, x, r)
            } else {
                0
            }
    }

    /// Brings the balance of `x` and `y` and the doors they need up to date
    /// after the edge from `x` to `y` appeared (`step` 1) or disappeared
    /// (`step` -1).
    fn follow_edge(&mut self, x: usize, y: usize, step: i32, Ghost(e): Ghost<Edge>, Ghost(before): Ghost<Set<Edge>>, Ghost(after): Ghost<Set<Edge>>)
        requires
            old(self).shape_ok(),
            old(self).aux_of(before),
            x < old(self).num_rooms,
            y < old(self).num_rooms,
            e.0 == x,
            e.2 == y,
            0 <= e.1 < 6,
            step == 1 || step == -1,
            step == 1 ==> !before.contains(e) && after == before.insert(e),
            step == -1 ==> before.contains(e) && after == before.remove(e),
        ensures
            final(self).shape_ok(),
            final(self).aux_of(after),
            final(self).same_but_tables(old(self)),
            final(self).graph == old(self).graph,
            forall|r: int|
                0 <= r < MAX_ROOMS && r != x && r != y ==> #[trigger] final(self).filled_in_future[r]
                    == old(self).filled_in_future[r],
    {
        let ghost rooms = self.num_rooms as int;
        proof {
            lemma_doors_between_bounds(before, x as int, y as int);
            lemma_doors_between_bounds(before, y as int, x as int);
            lemma_filled_bounds(before, x as int, rooms);
            lemma_filled_bounds(before, y as int, rooms);
            lemma_doors_between_bounds(after, x as int, y as int);
            lemma_doors_between_bounds(after, y as int, x as int);
            lemma_toggle_counts(before, after, e, x as int, y as int);
            lemma_toggle_counts(before, after, e, y as int, x as int);
            lemma_toggle_filled(before, after, e, x as int, rooms);
            lemma_toggle_filled(before, after, e, y as int, rooms);
        }
        self.filled_in_future[x] += step;
        let old_out = self.kasikari_count[x][y];
        let old_back = self.kasikari_count[y][x];
        self.kasikari_count[x][y] += step;
        self.kasikari_count[y][x] -= step;
        let new_out = self.kasikari_count[x][y];
        let new_back = self.kasikari_count[y][x];
        self.filled_in_future[x] -= negative_part(new_out) - negative_part(old_out);
        self.filled_in_future[y] -= negative_part(new_back) - negative_part(old_back);
        proof {
            assert forall|u: int, v: int|
                0 <= u < MAX_ROOMS && 0 <= v < MAX_ROOMS implies #[trigger] self.kasikari_count[u][v]
                == if u < rooms && v < rooms {
                kasikari(after, u, v)
            } else {
                0
            } by {
                lemma_toggle_counts(before, after, e, u, v);
                lemma_toggle_counts(before, after, e, v, u);
            }
            assert forall|u: int| 0 <= u < MAX_ROOMS implies #[trigger] self.filled_in_future[u]
                == if u < rooms {
                filled_in_future(after, u, rooms)
            } else {
                0
            } by {
                lemma_toggle_filled(before, after, e, u, rooms);
            }
        }
    }

    /// Counts one transition more (`add`) or one less along the edge from
    /// `x` through door `d` to `y`. Where the edge appears or disappears with
    /// that, the balance of the two rooms and the doors they need follow.
    fn adjust_edge(&mut self, x: usize, d: usize, y: usize, add: bool)
        requires
            old(self).shape_ok(),
            old(self).aux_ok(),
            x < old(self).num_rooms,
            y < old(self).num_rooms,
            d < MAX_DOORS,
            add ==> old(self).graph[x as int][d as int][y as int] < usize::MAX,
            !add ==> old(self).graph[x as int][d as int][y as int] >= 1,
        ensures
            final(self).shape_ok(),
            final(self).aux_ok(),
            final(self).same_but_tables(old(self)),
            final(self).graph[x as int][d as int][y as int] == old(self).graph[x as int][d as int][y as int]
                + if add {
                1int
            } else {
                -1int
            },
            forall|a: int, b: int, c: int|
                0 <= a < MAX_ROOMS && 0 <= b < MAX_DOORS && 0 <= c < MAX_ROOMS && (a, b, c) != (
                    x as int,
                    d as int,
                    y as int,
                ) ==> #[trigger] final(self).graph[a][b][c] == old(self).graph[a][b][c],
            forall|r: int|
                0 <= r < MAX_ROOMS && r != x && r != y ==> #[trigger] final(self).filled_in_future[r]
                    == old(self).filled_in_future[r],
    {
        let ghost before = table_edges(self.graph@);
        let ghost e: Edge = (x as int, d as int, y as int);
        let toggled = self.count_edge_use(x, d, y, add);
        let ghost after = table_edges(self.graph@);
        if toggled {
            let step: i32 = if add {
                1
            } else {
                -1
            };
            self.follow_edge(x, y, step, Ghost(e), Ghost(before), Ghost(after));
        }
    }

    /// Whether everything but the cost is as in `other`.
    pub open spec fn same_but_cost(&self, other: &Self) -> bool {
        &&& self.observed_labels == other.observed_labels
        &&& self.transitions == other.transitions
        &&& self.num_rooms == other.num_rooms
        &&& self.assignment == other.assignment
        &&& self.graph == other.graph
        &&& self.filled_in_future == other.filled_in_future
        &&& self.kasikari_count == other.kasikari_count
        &&& self.known_inequalities == other.known_inequalities
        &&& self.known_inequalities_by_obs_idx == other.known_inequalities_by_obs_idx
    }

    /// Adds to the cost (`add`), or takes from it, the penalties of the
    /// rooms in a list.
    fn shift_penalties(&mut self, rooms: &Vec<usize>, add: bool)
        requires
            old(self).filled_in_future.len() == MAX_ROOMS,
            forall|r: int|
                0 <= r < MAX_ROOMS ==> 0 <= #[trigger] old(self).filled_in_future[r] <= 6
                    * MAX_ROOMS,
            rooms.len() <= 4,
            forall|k: int| 0 <= k < rooms.len() ==> rooms[k] < MAX_ROOMS,
            -2000 <= old(self).cost <= 2_000_000_000,
        ensures
            final(self).same_but_cost(old(self)),
            final(self).cost == old(self).cost + if add {
                HENPOU_WEIGHT * penalty_over(
                    old(self).filled_in_future@,
                    rooms@,
                    rooms.len() as int,
                )
            } else {
                -HENPOU_WEIGHT * penalty_over(
                    old(self).filled_in_future@,
                    rooms@,
                    rooms.len() as int,
                )
            },
            old(self).cost - 180 * rooms.len() <= final(self).cost <= old(self).cost + 180
                * rooms.len(),
    {
        let mut k: usize = 0;
        while k < rooms.len()
            invariant
                k <= rooms.len() <= 4,
                self.same_but_cost(old(self)),
                self.filled_in_future.len() == MAX_ROOMS,
                forall|r: int|
                    0 <= r < MAX_ROOMS ==> 0 <= #[trigger] self.filled_in_future[r] <= 6
                        * MAX_ROOMS,
                forall|k: int| 0 <= k < rooms.len() ==> rooms[k] < MAX_ROOMS,
                -2000 <= old(self).cost <= 2_000_000_000,
                self.cost == old(self).cost + if add {
                    HENPOU_WEIGHT * penalty_over(self.filled_in_future@, rooms@, k as int)
                } else {
                    -HENPOU_WEIGHT * penalty_over(self.filled_in_future@, rooms@, k as int)
                },
                old(self).cost - 180 * k <= self.cost <= old(self).cost + 180 * k,
            decreases rooms.len() - k,
        {
            let p = self.calculate_penalty(rooms[k]);
            if add {
                self.cost = self.cost + p;
            } else {
                self.cost = self.cost - p;
            }
            k = k + 1;
        }
    }

    /// Takes from the cost each inequality that observation `obs_idx`
    /// violates while it sits in `old_room`, and adds each that it would
    /// violate in `new_room`.
    fn shift_inequalities(&mut self, obs_idx: usize, old_room: usize, new_room: usize)
        requires
            old(self).shape_ok(),
            obs_idx < old(self).assignment.len(),
            old_room != new_room,
            -2000 <= old(self).cost <= 10_000 + MAX_INEQUALITIES,
        ensures
            final(self).same_but_cost(old(self)),
            final(self).cost == old(self).cost + INEQ_WEIGHT * partner_delta(
                old(self).assignment@,
                old(self).known_inequalities_by_obs_idx[obs_idx as int]@,
                old(self).known_inequalities_by_obs_idx[obs_idx as int].len() as int,
                old_room,
                new_room,
            ),
    {
        let m = self.known_inequalities_by_obs_idx[obs_idx].len();
        let ghost ps = self.known_inequalities_by_obs_idx[obs_idx as int]@;
        proof {
            lemma_partners_bounded(
                self.known_inequalities@,
                self.known_inequalities.len() as int,
                obs_idx,
                self.assignment.len() as int,
            );
        }
        let mut j: usize = 0;
        while j < m
            invariant
                j <= m <= MAX_INEQUALITIES,
                self.same_but_cost(old(self)),
                obs_idx < self.known_inequalities_by_obs_idx.len(),
                ps == self.known_inequalities_by_obs_idx[obs_idx as int]@,
                m == ps.len(),
                forall|k: int| 0 <= k < ps.len() ==> (#[trigger] ps[k]) < self.assignment.len(),
                old_room != new_room,
                -2000 <= old(self).cost <= 10_000 + MAX_INEQUALITIES,
                self.cost == old(self).cost + INEQ_WEIGHT * partner_delta(
                    self.assignment@,
                    ps,
                    j as int,
                    old_room,
                    new_room,
                ),
                -j <= partner_delta(self.assignment@, ps, j as int, old_room, new_room) <= j,
            decreases m - j,
        {
            let other = self.known_inequalities_by_obs_idx[obs_idx][j];
            if self.assignment[other] == old_room {
                self.cost = self.cost - INEQ_WEIGHT;
            }
            if self.assignment[other] == new_room {
                self.cost = self.cost + INEQ_WEIGHT;
            }
            j = j + 1;
        }
    }

    /// Moves observation `obs_idx` to `new_room` and brings the tables and
    /// the cost up to date: the penalties of the rooms involved leave the
    /// cost, the edge into the observation and the edge out of it move, the
    /// inequalities of the observation are counted anew, and the penalties
    /// come back.
    pub fn update_point(&mut self, obs_idx: usize, new_room: usize)
        requires
            old(self).wf(),
            0 < obs_idx < old(self).assignment.len(),
            new_room < old(self).num_rooms,
            new_room % 4 == old(self).observed_labels[obs_idx as int],
        ensures
            final(self).wf(),
            final(self).same_trace(old(self)),
            final(self).assignment@ == old(self).assignment@.update(obs_idx as int, new_room),
    {
        let old_room = self.assignment[obs_idx];
        if old_room == new_room {
            proof {
                assert(self.assignment@.update(obs_idx as int, new_room) =~= self.assignment@);
            }
            return;
        }
        let ghost a0 = self.assignment@;
        let ghost a1 = a0.update(obs_idx as int, new_room);
        let ghost doors = self.doors();
        let ghost n = self.transitions.len() as int;
        let ghost i = obs_idx as int;
        let ghost f0 = self.filled_in_future@;
        let ghost g0 = self.graph@;
        let ghost rooms = self.num_rooms as int;
        let from_room = self.assignment[obs_idx - 1];
        let has_next = obs_idx + 1 < self.assignment.len();
        let to_room = if has_next {
            self.assignment[obs_idx + 1]
        } else {
            old_room
        };
        let mut affected: Vec<usize> = Vec::new();
        push_distinct(&mut affected, old_room);
        push_distinct(&mut affected, new_room);
        push_distinct(&mut affected, from_room);
        push_distinct(&mut affected, to_room);
        proof {
            assert forall|r: int| 0 <= r < MAX_ROOMS implies 0 <= #[trigger] f0[r] <= 6
                * MAX_ROOMS by {
                lemma_filled_bounds(table_edges(g0), r, rooms);
            }
            lemma_penalty_total_bounds(f0, rooms, 180);
            lemma_violations_bounds(a0, self.known_inequalities@, self.known_inequalities.len() as int);
            assert forall|k: int| 0 <= k < affected.len() implies affected[k] < rooms by {
                assert(affected@.contains(affected[k]));
            }
        }
        self.shift_penalties(&affected, false);
        let door_in = self.transitions[obs_idx - 1].1;
        let ghost in_old: Edge = (from_room as int, door_in as int, old_room as int);
        let ghost in_new: Edge = (from_room as int, door_in as int, new_room as int);
        proof {
            lemma_count_split(a0, doors, n, i, in_old);
            lemma_count_split(a0, doors, n, i, in_new);
            lemma_count_bounds(a0, doors, n, in_new);
        }
        self.adjust_edge(from_room, door_in, old_room, false);
        self.adjust_edge(from_room, door_in, new_room, true);
        if has_next {
            let door_out = self.transitions[obs_idx].1;
            let ghost out_old: Edge = (old_room as int, door_out as int, to_room as int);
            let ghost out_new: Edge = (new_room as int, door_out as int, to_room as int);
            proof {
                lemma_count_split(a0, doors, n, i, out_old);
                lemma_count_split(a0, doors, n, i, out_new);
                lemma_count_split(a1, doors, n, i, out_new);
                lemma_count_away_unmoved(a0, doors, n, i, new_room, out_new);
                lemma_count_bounds(a1, doors, n, out_new);
            }
            self.adjust_edge(old_room, door_out, to_room, false);
            self.adjust_edge(new_room, door_out, to_room, true);
        }
        let ghost f4 = self.filled_in_future@;
        proof {
            assert forall|r: int| 0 <= r < rooms && f0[r] != f4[r] implies exists|k: int|
                0 <= k < affected.len() && affected[k] == r by {
                assert(r == old_room || r == new_room || r == from_room || r == to_room);
                let k = choose|k: int| 0 <= k < affected.len() && affected[k] == r as usize;
            }
            lemma_penalty_difference(f0, f4, affected@, rooms, affected.len() as int);
            lemma_violations_move(
                a0,
                self.known_inequalities@,
                self.known_inequalities.len() as int,
                obs_idx,
                new_room,
            );
            assert forall|r: int| 0 <= r < MAX_ROOMS implies 0 <= #[trigger] f4[r] <= 6
                * MAX_ROOMS by {
                lemma_filled_bounds(table_edges(self.graph@), r, rooms);
            }
        }
        self.shift_inequalities(obs_idx, old_room, new_room);
        self.assignment[obs_idx] = new_room;
        proof {
            lemma_partner_delta_bounds(
                a0,
                self.known_inequalities_by_obs_idx[i]@,
                self.known_inequalities_by_obs_idx[i].len() as int,
                old_room,
                new_room,
            );
            lemma_violations_bounds(a1, self.known_inequalities@, self.known_inequalities.len() as int);
            lemma_penalty_total_bounds(f4, rooms, 180);
        }
        self.shift_penalties(&affected, true);
        proof {
            assert(self.assignment@ == a1);
            assert forall|x: int, d: int, y: int|
                0 <= x < MAX_ROOMS && 0 <= d < MAX_DOORS && 0 <= y < MAX_ROOMS
                    implies #[trigger] self.graph[x][d][y] == count_transitions(
                a1,
                doors,
                n,
                (x, d, y),
            ) by {
                lemma_count_split(a0, doors, n, i, (x, d, y));
                lemma_count_split(a1, doors, n, i, (x, d, y));
                lemma_count_away_unmoved(a0, doors, n, i, new_room, (x, d, y));
            }
        }
    }

    /// Sets up a solver for a doors-only plan, the labels seen along it and
    /// a number of rooms. Every observation starts in the room whose number
    /// is its label.
    pub fn new(plan_str: &str, results_str: &str, num_rooms: usize) -> (r: Result<
        Self,
        SolveError,
    >)
        ensures
            match r {
                Ok(s) => {
                    &&& refusal(plan_str@, results_str@, num_rooms) is None
                    &&& s.wf()
                    &&& s.num_rooms == num_rooms
                    &&& s.doors() == digits_of(plan_str@)
                    &&& s.observed_labels@ == digits_of(results_str@)
                    &&& s.assignment@ == s.observed_labels@
                    &&& forall|p: int, q: int|
                        0 <= p < q < s.assignment.len() ==> (s.known_inequalities@.contains(
                            (p as usize, q as usize),
                        ) <==> must_differ(s.doors(), s.observed_labels@, p, q))
                },
                Err(e) => refusal(plan_str@, results_str@, num_rooms) == Some(e),
            },
    {
        let plan = match parse_digits(plan_str, 6) {
            Some(plan) => plan,
            None => {
                return Err(SolveError::MalformedPlan);
            },
        };
        let observed_labels = match parse_digits(results_str, 4) {
            Some(labels) => labels,
            None => {
                return Err(SolveError::MalformedPlan);
            },
        };
        let steps = plan.len();
        let observations = observed_labels.len();
        if steps == usize::MAX || observations != steps + 1 {
            return Err(SolveError::ObservationLengthMismatch);
        }
        if num_rooms < 1 || num_rooms > MAX_ROOMS || plan.len() > MAX_PLAN_LENGTH {
            return Err(SolveError::OutOfRange);
        }
        if observed_labels[0] != 0 {
            return Err(SolveError::OutOfRange);
        }
        let num_observations = observed_labels.len();
        let assignment = match rooms_by_label(&observed_labels, num_rooms) {
            Some(assignment) => assignment,
            None => {
                return Err(SolveError::OutOfRange);
            },
        };
        let known_inequalities = find_signatures_ineqs(&plan, &observed_labels);
        proof {
            if known_inequalities.len() > 0 {
                lemma_sorted_pairs_are_few(
                    known_inequalities@,
                    plan.len() as int,
                    known_inequalities.len() - 1,
                );
            }
            assert((plan.len() + 1) * (plan.len() + 1) <= 30_001 * 30_001) by (nonlinear_arith)
                requires
                    plan.len() <= 30_000,
            ;
        }
        let known_inequalities_by_obs_idx = index_by_observation(
            &known_inequalities,
            num_observations,
        );
        let transitions = number_transitions(&plan);
        let mut solver = Self {
            observed_labels,
            transitions,
            assignment,
            num_rooms,
            cost: 0,
            graph: zero_counts(),
            filled_in_future: zero_balance_row(MAX_ROOMS),
            kasikari_count: zero_balances(),
            known_inequalities,
            known_inequalities_by_obs_idx,
        };
        proof {
            assert(solver.assignment@[0] == 0);
        }
        solver.recalculate_cost();
        proof {
            assert forall|p: int, q: int| 0 <= p < q < solver.assignment.len() implies (
            solver.known_inequalities@.contains((p as usize, q as usize)) <==> must_differ(
                solver.doors(),
                solver.observed_labels@,
                p,
                q,
            )) by {
                if solver.known_inequalities@.contains((p as usize, q as usize)) {
                    let k = choose|k: int|
                        0 <= k < solver.known_inequalities.len() && solver.known_inequalities[k]
                            == (p as usize, q as usize);
                    assert(must_differ(
                        plan@,
                        solver.observed_labels@,
                        solver.known_inequalities[k].0 as int,
                        solver.known_inequalities[k].1 as int,
                    ));
                }
            }
        }
        Ok(solver)
    }

    /// Replaces the whole assignment, if the rooms given can be one, and
    /// recomputes the cost; says whether it did.
    pub fn assign(&mut self, rooms: Vec<usize>) -> (ok: bool)
        requires
            old(self).wf(),
        ensures
            ok == assignable(rooms@, old(self).observed_labels@, old(self).num_rooms),
            ok ==> final(self).wf() && final(self).same_trace(old(self)) && final(self).assignment@
                == rooms@,
            !ok ==> *final(self) == *old(self),
    {
        let n = self.observed_labels.len();
        if rooms.len() != n || rooms[0] != 0 {
            return false;
        }
        let mut i: usize = 0;
        while i < n
            invariant
                i <= n,
                *self == *old(self),
                n == self.observed_labels.len(),
                rooms.len() == n,
                forall|j: int|
                    0 <= j < i ==> (#[trigger] rooms[j]) < self.num_rooms && rooms[j] % 4
                        == self.observed_labels[j],
            decreases n - i,
        {
            if rooms[i] >= self.num_rooms || rooms[i] % 4 != self.observed_labels[i] {
                return false;
            }
            i = i + 1;
        }
        self.assignment = rooms;
        self.recalculate_cost();
        true
    }

    /// Draws a room for every observation but the first among the rooms
    /// that carry its label, and recomputes the cost.
    pub fn randomize(&mut self)
        requires
            old(self).wf(),
        ensures
            final(self).wf(),
            final(self).same_trace(old(self)),
    {
        self.kick(1, 1);
    }

    /// Draws, with odds of `numerator` in `denominator` for each observation
    /// but the first, a new room among the rooms that carry its label, and
    /// recomputes the cost. What the draws make of the assignment is said by
    /// `redraw`, which takes them.
    pub fn kick(&mut self, numerator: u32, denominator: u32)
        requires
            old(self).wf(),
            0 < denominator,
            numerator <= denominator,
        ensures
            final(self).wf(),
            final(self).same_trace(old(self)),
            numerator == 0 ==> final(self).assignment@ == old(self).assignment@,
    {
        let candidates = label_candidates(self.num_rooms);
        let n = self.assignment.len();
        let mut draws: Vec<Option<usize>> = Vec::new();
        draws.push(None);
        let mut i: usize = 1;
        while i < n
            invariant
                1 <= i <= n,
                *self == *old(self),
                self.wf(),
                n == self.assignment.len(),
                draws.len() == i,
                0 < denominator,
                numerator <= denominator,
                candidates.len() == 4,
                forall|l: int, r: usize|
                    0 <= l < 4 ==> (#[trigger] candidates[l]@.contains(r) <==> r < self.num_rooms
                        && r % 4 == l),
                forall|j: int|
                    0 <= j < i ==> ((#[trigger] draws[j]) matches Some(r) ==> r < self.num_rooms
                        && r % 4 == self.observed_labels[j]),
                numerator == 0 ==> forall|j: int| 0 <= j < i ==> (#[trigger] draws[j]) is None,
            decreases n - i,
        {
            let label = self.observed_labels[i];
            assert(self.assignment[i as int] % 4 == label);
            let mut drawn: Option<usize> = None;
            if chance(numerator, denominator) {
                drawn = choose_one(&candidates[label]);
                proof {
                    if drawn is Some {
                        assert(candidates[label as int]@.contains(drawn->0));
                    }
                }
            }
            draws.push(drawn);
            i = i + 1;
        }
        proof {
            let after = redrawn(self.assignment@, draws@);
            assert forall|j: int| 0 <= j < after.len() implies (#[trigger] after[j]) < self.num_rooms
                && after[j] % 4 == self.observed_labels[j] by {
                assert(self.assignment[j] < self.num_rooms);
                if 0 < j && draws[j] is Some {
                    assert(draws[j]->0 < self.num_rooms);
                }
            }
            if numerator == 0 {
                assert forall|j: int| 0 <= j < after.len() implies after[j]
                    == self.assignment@[j] by {
                    if 0 < j {
                        assert(draws[j] is None);
                    }
                }
                assert(after =~= self.assignment@);
            }
        }
        let ok = self.redraw(&draws);
        assert(ok);
    }

    /// Draws an observation other than the first and a room that carries its
    /// label, as a move to try.
    pub fn propose(&self) -> (r: (usize, usize))
        requires
            self.wf(),
            self.assignment.len() >= 2,
        ensures
            0 < r.0 < self.assignment.len(),
            r.1 < self.num_rooms,
            r.1 % 4 == self.observed_labels[r.0 as int],
    {
        let candidates = label_candidates(self.num_rooms);
        let obs_idx = random_between(1, self.assignment.len());
        let label = self.observed_labels[obs_idx];
        let kept = self.assignment[obs_idx];
        assert(kept % 4 == label);
        match choose_one(&candidates[label]) {
            Some(room) => {
                assert(candidates[label as int]@.contains(room));
                (obs_idx, room)
            },
            None => (obs_idx, kept),
        }
    }

    /// Whether every door of every room leads to one room only.
    pub fn is_valid_assignment(&self) -> (ok: bool)
        requires
            self.wf(),
        ensures
            ok == deterministic(self.assignment@, self.doors()),
    {
        let ghost a = self.assignment@;
        let ghost doors = self.doors();
        let ghost n = self.transitions.len() as int;
        let mut x: usize = 0;
        while x < MAX_ROOMS
            invariant
                x <= MAX_ROOMS,
                self.wf(),
                a == self.assignment@,
                doors == self.doors(),
                n == self.transitions.len(),
                forall|i: int, d: int, y: int, z: int|
                    0 <= i < x && 0 <= d < MAX_DOORS && 0 <= y < MAX_ROOMS && 0 <= z < MAX_ROOMS
                        && #[trigger] self.graph[i][d][y] > 0 && #[trigger] self.graph[i][d][z] > 0
                        ==> y == z,
            decreases MAX_ROOMS - x,
        {
            let mut d: usize = 0;
            while d < MAX_DOORS
                invariant
                    x < MAX_ROOMS,
                    d <= MAX_DOORS,
                    self.wf(),
                    a == self.assignment@,
                    doors == self.doors(),
                    n == self.transitions.len(),
                    forall|j: int, y: int, z: int|
                        0 <= j < d && 0 <= y < MAX_ROOMS && 0 <= z < MAX_ROOMS
                            && #[trigger] self.graph[x as int][j][y] > 0
                            && #[trigger] self.graph[x as int][j][z] > 0 ==> y == z,
                decreases MAX_DOORS - d,
            {
                let mut seen: Option<usize> = None;
                let mut y: usize = 0;
                while y < MAX_ROOMS
                    invariant
                        x < MAX_ROOMS,
                        d < MAX_DOORS,
                        y <= MAX_ROOMS,
                        self.wf(),
                        a == self.assignment@,
                        doors == self.doors(),
                        n == self.transitions.len(),
                        seen is Some ==> seen->0 < y && self.graph[x as int][d as int][seen->0 as int]
                            > 0,
                        forall|z: int|
                            0 <= z < y && #[trigger] self.graph[x as int][d as int][z] > 0
                                ==> seen == Some(z as usize),
                    decreases MAX_ROOMS - y,
                {
                    if self.graph[x][d][y] > 0 {
                        match seen {
                            Some(first) => {
                                proof {
                                    let s = lemma_count_witness(
                                        a,
                                        doors,
                                        n,
                                        (x as int, d as int, first as int),
                                    );
                                    let t = lemma_count_witness(
                                        a,
                                        doors,
                                        n,
                                        (x as int, d as int, y as int),
                                    );
                                    assert(a[s + 1] != a[t + 1]);
                                }
                                return false;
                            },
                            None => {
                                seen = Some(y);
                            },
                        }
                    }
                    y = y + 1;
                }
                d = d + 1;
            }
            x = x + 1;
        }
        proof {
            assert forall|s: int, t: int|
                0 <= s < doors.len() && 0 <= t < doors.len() && a[s] == a[t] && doors[s]
                    == doors[t] implies a[s + 1] == a[t + 1] by {
                lemma_count_positive(a, doors, n, s);
                lemma_count_positive(a, doors, n, t);
                assert(self.graph[a[s] as int][doors[s] as int][a[s + 1] as int] > 0);
                assert(self.graph[a[s] as int][doors[s] as int][a[t + 1] as int] > 0);
            }
        }
        true
    }

    /// Reads the base structure off the assignment: each door that some
    /// transition takes leads where that transition goes.
    pub fn build_base_map(&self) -> (m: BaseMap)
        requires
            self.wf(),
            deterministic(self.assignment@, self.doors()),
        ensures
            m.wf(),
            m.num_rooms == self.num_rooms,
            m.starting_room == 0,
            m.connections@ == table_of(self.assignment@, self.doors()),
            forall|t: int|
                0 <= t < self.transitions.len() ==> m.connections@[(
                    #[trigger] self.assignment[t],
                    self.doors()[t],
                )] == self.assignment[t + 1],
    {
        let mut m = BaseMap::new(self.num_rooms);
        let n = self.transitions.len();
        let mut t: usize = 0;
        while t < n
            invariant
                t <= n,
                n == self.transitions.len(),
                self.wf(),
                deterministic(self.assignment@, self.doors()),
                m.num_rooms == self.num_rooms,
                m.starting_room == 0,
                forall|key: (usize, usize)|
                    m.connections@.contains_key(key) <==> exists|s: int|
                        0 <= s < t && #[trigger] self.assignment[s] == key.0 && self.doors()[s]
                            == key.1,
                forall|s: int|
                    0 <= s < t ==> m.connections@[(#[trigger] self.assignment[s], self.doors()[s])]
                        == self.assignment[s + 1],
            decreases n - t,
        {
            let from_room = self.assignment[t];
            let to_room = self.assignment[t + 1];
            let door = self.transitions[t].1;
            door_map_insert(&mut m.connections, (from_room, door), to_room);
            proof {
                assert forall|key: (usize, usize)| m.connections@.contains_key(key) implies exists|
                    s: int,
                |
                    0 <= s < t + 1 && #[trigger] self.assignment[s] == key.0 && self.doors()[s]
                        == key.1 by {
                    if key == (from_room, door) {
                        assert(self.assignment[t as int] == key.0);
                    } else {
                        let s = choose|s: int|
                            0 <= s < t && #[trigger] self.assignment[s] == key.0 && self.doors()[s]
                                == key.1;
                        assert(self.assignment[s] == key.0);
                    }
                }
            }
            t = t + 1;
        }
        proof {
            let a = self.assignment@;
            let doors = self.doors();
            let table = table_of(a, doors);
            assert forall|key: DoorKey| m.connections@.contains_key(key) implies table.contains_key(
                key,
            ) && table[key] == m.connections@[key] by {
                let s = choose|s: int|
                    0 <= s < n && #[trigger] self.assignment[s] == key.0 && self.doors()[s]
                        == key.1;
                assert(a[s] == key.0 && doors[s] == key.1);
                let t = choose|t: int|
                    0 <= t < doors.len() && #[trigger] a[t] == key.0 && doors[t] == key.1;
                assert(m.connections@[(self.assignment[t], self.doors()[t])] == a[t + 1]);
            }
            assert forall|key: DoorKey| table.contains_key(key) implies m.connections@.contains_key(
                key,
            ) by {
                let t = choose|t: int|
                    0 <= t < doors.len() && #[trigger] a[t] == key.0 && doors[t] == key.1;
                assert(self.assignment[t] == key.0);
            }
            assert(m.connections@ =~= table);
        }
        m
    }

    /// The layered search that this solver hands its base structure to.
    pub open spec fn lifted_problem(
        &self,
        steps: Seq<PlanStep>,
        observed: Seq<usize>,
        layers: usize,
    ) -> Problem {
        Problem {
            rooms: self.num_rooms,
            layers,
            base: table_of(self.assignment@, self.doors()),
            plan: steps,
            observed,
        }
    }

    /// What stands in the way of a map where the assignment is handed to
    /// the layered search, if anything does: an assignment that sends a
    /// door to two rooms, a labelled trace that the search does not take, or
    /// a search that ends without a map.
    pub open spec fn lift_refusal(
        &self,
        steps: Seq<PlanStep>,
        observed: Seq<usize>,
        layers: usize,
    ) -> Option<SolveError> {
        if !deterministic(self.assignment@, self.doors()) {
            Some(SolveError::BaseMapInconsistent)
        } else if observed.len() != steps.len() + 1 {
            Some(SolveError::ObservationLengthMismatch)
        } else if layers < 1 || layers > 3 {
            Some(SolveError::OutOfRange)
        } else {
            match solve_outcome(
                self.lifted_problem(steps, observed, layers),
                start_state(self.num_rooms, layers, observed.len()),
            ) {
                Outcome::Found(_) => None,
                Outcome::Dead => Some(SolveError::DFSNoSolution),
                Outcome::Abort => Some(SolveError::BaseMapInconsistent),
            }
        }
    }

    /// Hands the assignment to the layered search: checks that every door of
    /// every room leads to one room only, reads the base structure off the
    /// assignment and lifts it to `layer_num` layers along the labelled
    /// trace.
    pub fn lift_to_layers(
        &self,
        full_plan_steps: Vec<PlanStep>,
        results_labeled_vec: Vec<usize>,
        layer_num: usize,
    ) -> (r: Result<FullMap, SolveError>)
        requires
            self.wf(),
        ensures
            match r {
                Ok(map) => {
                    &&& self.lift_refusal(full_plan_steps@, results_labeled_vec@, layer_num) is None
                    &&& solve_outcome(
                        self.lifted_problem(full_plan_steps@, results_labeled_vec@, layer_num),
                        start_state(self.num_rooms, layer_num, results_labeled_vec@.len()),
                    ) matches Outcome::Found(end) && is_submission(
                        map,
                        completed(end.connections, self.num_rooms * layer_num),
                        self.num_rooms,
                        self.num_rooms * layer_num,
                    ) && walk_matches(
                        self.lifted_problem(full_plan_steps@, results_labeled_vec@, layer_num),
                        completed(end.connections, self.num_rooms * layer_num),
                        start_state(self.num_rooms, layer_num, results_labeled_vec@.len()).labels,
                        0,
                        0,
                    )
                },
                Err(e) => self.lift_refusal(full_plan_steps@, results_labeled_vec@, layer_num)
                    == Some(e),
            },
    {
        if !self.is_valid_assignment() {
            return Err(SolveError::BaseMapInconsistent);
        }
        let base_map = self.build_base_map();
        let ghost steps = full_plan_steps@;
        let ghost observed = results_labeled_vec@;
        proof {
            assert(self.num_rooms * layer_num <= isize::MAX || layer_num > 3) by (nonlinear_arith)
                requires
                    self.num_rooms <= 30,
                    isize::MAX >= 32767,
            ;
        }
        let mut dfs_solver = match DfsSolver::new(
            base_map,
            full_plan_steps,
            results_labeled_vec,
            layer_num,
        ) {
            Ok(solver) => solver,
            Err(e) => {
                return Err(e);
            },
        };
        proof {
            assert(dfs_solver.problem() == self.lifted_problem(steps, observed, layer_num));
            assert(dfs_solver.state() == start_state(self.num_rooms, layer_num, observed.len()));
        }
        dfs_solver.solve()
    }

    /// Anneals until an assignment is found that costs nothing and that the
    /// layered search lifts to a map, and hands out that assignment; `None`
    /// where `stop` says so or the steps run out first.
    ///
    /// The run starts from a random assignment. A step draws an observation
    /// and a room for it and moves the observation there; a move that does
    /// not lower the cost is kept only if `accept` says so of the rise in
    /// cost and of the number of steps that have cooled the temperature so
    /// far, and is taken back otherwise. Every `KICK_INTERVAL` steps `stop`
    /// is asked and one observation in twenty is drawn anew. An assignment
    /// that costs nothing is handed to the layered search at once; where
    /// that finds no map, three observations in five are drawn anew.
    ///
    /// A run that `stop` always stops finds nothing. Where there are four
    /// rooms at most, every label is carried by one room only and nothing is
    /// left to the draws: the assignment stays as it is, and a run that
    /// `stop` never stops hands it out exactly where it costs nothing and
    /// the layered search lifts it to a map.
    pub fn solve(
        &mut self,
        stop: impl Fn() -> bool,
        accept: impl Fn(i32, usize) -> bool,
        full_plan_steps: &Vec<PlanStep>,
        results_labeled_vec: &Vec<usize>,
        layer_num: usize,
    ) -> (found: Option<Vec<usize>>)
        requires
            old(self).wf(),
            call_requires(stop, ()),
            forall|rise: i32, cooled: usize| rise >= 0 ==> call_requires(accept, (rise, cooled)),
        ensures
            final(self).wf(),
            final(self).same_trace(old(self)),
            found matches Some(assignment) ==> {
                &&& assignment@ == final(self).assignment@
                &&& final(self).cost == 0
                &&& final(self).lift_refusal(full_plan_steps@, results_labeled_vec@, layer_num)
                    is None
            },
            (forall|said: bool| call_ensures(stop, (), said) ==> said) ==> found is None,
            old(self).num_rooms <= 4 ==> {
                &&& final(self).assignment@ == old(self).assignment@
                &&& final(self).cost == old(self).cost
                &&& found is Some ==> old(self).cost == 0 && old(self).lift_refusal(
                    full_plan_steps@,
                    results_labeled_vec@,
                    layer_num,
                ) is None
                &&& (forall|said: bool| call_ensures(stop, (), said) ==> !said) && old(self).cost
                    == 0 && old(self).lift_refusal(
                    full_plan_steps@,
                    results_labeled_vec@,
                    layer_num,
                ) is None ==> found is Some
            },
    {
        self.randomize();
        proof {
            if old(self).num_rooms <= 4 {
                lemma_nothing_left_to_draw(
                    *self,
                    *old(self),
                    full_plan_steps@,
                    results_labeled_vec@,
                    layer_num,
                );
            }
        }
        let mut cooled: usize = 0;
        let mut i: usize = 0;
        while i < MAX_ITERATIONS
            invariant
                i <= MAX_ITERATIONS,
                cooled <= i,
                self.wf(),
                old(self).wf(),
                self.same_trace(old(self)),
                call_requires(stop, ()),
                forall|rise: i32, cooled: usize|
                    rise >= 0 ==> call_requires(accept, (rise, cooled)),
                (forall|said: bool| call_ensures(stop, (), said) ==> said) ==> i == 0,
                old(self).num_rooms <= 4 ==> {
                    &&& self.assignment@ == old(self).assignment@
                    &&& self.cost == old(self).cost
                    &&& self.lift_refusal(full_plan_steps@, results_labeled_vec@, layer_num)
                        == old(self).lift_refusal(
                        full_plan_steps@,
                        results_labeled_vec@,
                        layer_num,
                    )
                    &&& (forall|said: bool| call_ensures(stop, (), said) ==> !said) && old(
                        self,
                    ).cost == 0 && old(self).lift_refusal(
                        full_plan_steps@,
                        results_labeled_vec@,
                        layer_num,
                    ) is None ==> i == 0
                },
            decreases MAX_ITERATIONS - i,
        {
            let at_interval = i % KICK_INTERVAL == 0;
            i = i + 1;
            if at_interval {
                let said = stop();
                if said {
                    return None;
                }
            }
            if self.cost == 0 {
                match self.lift_to_layers(
                    copy_steps(full_plan_steps),
                    copy_numbers(results_labeled_vec),
                    layer_num,
                ) {
                    Ok(_map) => {
                        return Some(copy_numbers(&self.assignment));
                    },
                    Err(_e) => {
                        self.kick(3, 5);
                    },
                }
            } else {
                proof {
                    self.lemma_cost_in_range();
                }
                let cost_before = self.cost;
                if at_interval && i > 1 {
                    self.kick(1, 20);
                    cooled = cooled + 1;
                } else if self.assignment.len() >= 2 {
                    let (obs_idx_to_move, new_room) = self.propose();
                    let old_room = self.assignment[obs_idx_to_move];
                    if new_room != old_room {
                        self.update_point(obs_idx_to_move, new_room);
                        proof {
                            self.lemma_cost_in_range();
                        }
                        let cost_delta = self.cost - cost_before;
                        if cost_delta < 0 || accept(cost_delta, cooled) {
                        } else {
                            self.update_point(obs_idx_to_move, old_room);
                        }
                        cooled = cooled + 1;
                    }
                }
            }
            proof {
                if old(self).num_rooms <= 4 {
                    lemma_nothing_left_to_draw(
                        *self,
                        *old(self),
                        full_plan_steps@,
                        results_labeled_vec@,
                        layer_num,
                    );
                }
            }
        }
        None
    }

    /// Takes the rooms that were drawn: every observation but the first for
    /// which a room was drawn moves to that room, every other one stays, and
    /// the cost is recomputed. Says whether every room drawn carries the
    /// label of its observation; where one does not, nothing changes.
    pub fn redraw(&mut self, draws: &Vec<Option<usize>>) -> (ok: bool)
        requires
            old(self).wf(),
        ensures
            ok == assignable(
                redrawn(old(self).assignment@, draws@),
                old(self).observed_labels@,
                old(self).num_rooms,
            ),
            ok ==> final(self).wf() && final(self).same_trace(old(self)) && final(self).assignment@
                == redrawn(old(self).assignment@, draws@),
            !ok ==> *final(self) == *old(self),
    {
        let n = self.assignment.len();
        let mut rooms: Vec<usize> = Vec::new();
        let mut i: usize = 0;
        while i < n
            invariant
                i <= n,
                *self == *old(self),
                n == self.assignment.len(),
                rooms.len() == i,
                forall|j: int|
                    0 <= j < i ==> #[trigger] rooms[j] == redrawn(self.assignment@, draws@)[j],
            decreases n - i,
        {
            let mut room = self.assignment[i];
            if i > 0 && i < draws.len() {
                match draws[i] {
                    Some(drawn) => {
                        room = drawn;
                    },
                    None => {},
                }
            }
            rooms.push(room);
            i = i + 1;
        }
        proof {
            assert(rooms@ =~= redrawn(self.assignment@, draws@));
        }
        self.assign(rooms)
    }

    /// Where there are four rooms at most, every label is carried by one
    /// room only, and the assignment is the labels themselves.
    pub proof fn lemma_one_room_per_label(&self)
        requires
            self.wf(),
            self.num_rooms <= 4,
        ensures
            self.assignment@ == self.observed_labels@,
    {
        assert forall|i: int| 0 <= i < self.assignment.len() implies self.assignment@[i]
            == self.observed_labels@[i] by {
            assert(self.assignment[i] < self.num_rooms);
        }
        assert(self.assignment@ =~= self.observed_labels@);
    }

    /// The cost of a solver is the structural cost of its assignment.
    pub proof fn lemma_cost_is_cost_of_assignment(&self)
        requires
            self.wf(),
        ensures
            self.cost == cost_of(
                self.assignment@,
                self.doors(),
                self.num_rooms as int,
                self.known_inequalities@,
            ),
            table_edges(self.graph@) == edges_of(self.assignment@, self.doors()),
    {
        let a = self.assignment@;
        let doors = self.doors();
        let rooms = self.num_rooms as int;
        let n = self.transitions.len() as int;
        assert forall|e: Edge| table_edges(self.graph@).contains(e) <==> edges_of(a, doors).contains(
            e,
        ) by {
            if edges_of(a, doors).contains(e) {
                let t = lemma_count_witness(a, doors, n, e);
                assert(self.assignment[t] < self.num_rooms);
                assert(self.assignment[t + 1] < self.num_rooms);
                assert(self.transitions[t].1 < MAX_DOORS);
                assert(self.graph[e.0][e.1][e.2] == count_transitions(a, doors, n, (e.0, e.1, e.2)));
            }
            if table_edges(self.graph@).contains(e) {
                assert(self.graph[e.0][e.1][e.2] == count_transitions(a, doors, n, (e.0, e.1, e.2)));
            }
        }
        assert(table_edges(self.graph@) =~= edges_of(a, doors));
        lemma_penalties_are_overfill(
            self.filled_in_future@,
            edges_of(a, doors),
            rooms,
            rooms,
        );
        assert(DUP_WEIGHT * duplicate_slack(a, doors, rooms) == 0);
    }

    /// The cost is never negative and never more than what the rooms and
    /// the inequalities can add up to.
    pub proof fn lemma_cost_in_range(&self)
        requires
            self.wf(),
        ensures
            0 <= self.cost <= 180 * MAX_ROOMS + MAX_INEQUALITIES,
    {
        let rooms = self.num_rooms as int;
        assert forall|r: int| 0 <= r < rooms implies self.filled_in_future@[r] <= 186 by {
            lemma_filled_bounds(table_edges(self.graph@), r, rooms);
        }
        lemma_penalty_total_bounds(self.filled_in_future@, rooms, 186);
        lemma_violations_bounds(
            self.assignment@,
            self.known_inequalities@,
            self.known_inequalities.len() as int,
        );
    }
}

/// The cost and the tables of a solver follow from its trace and its
/// assignment: two solvers that agree on those agree on all the rest.
pub proof fn lemma_tables_follow_assignment(
    s: SimulatedAnnealingSolver,
    t: SimulatedAnnealingSolver,
)
    requires
        s.wf(),
        t.wf(),
        s.same_trace(&t),
        s.assignment@ == t.assignment@,
    ensures
        s.cost == t.cost,
        s.graph.deep_view() == t.graph.deep_view(),
        s.filled_in_future@ == t.filled_in_future@,
        s.kasikari_count.deep_view() == t.kasikari_count.deep_view(),
{
    assert(s.doors() =~= t.doors());
    assert forall|x: int, d: int, y: int|
        0 <= x < MAX_ROOMS && 0 <= d < MAX_DOORS && 0 <= y < MAX_ROOMS implies s.graph[x][d][y]
        == t.graph[x][d][y] by {
        assert(s.graph[x][d][y] == count_transitions(
            s.assignment@,
            s.doors(),
            s.transitions.len() as int,
            (x, d, y),
        ));
    }
    assert(table_edges(s.graph@) =~= table_edges(t.graph@));
    assert(s.filled_in_future@ =~= t.filled_in_future@);
    assert(s.graph.deep_view() =~~= t.graph.deep_view());
    assert(s.kasikari_count.deep_view() =~~= t.kasikari_count.deep_view());
}

/// Where there are four rooms at most, two solvers on the same trace hold
/// the same assignment, and so the same cost and the same outcome of the
/// hand-over to the layered search: nothing is left to draw.
pub proof fn lemma_nothing_left_to_draw(
    now: SimulatedAnnealingSolver,
    before: SimulatedAnnealingSolver,
    steps: Seq<PlanStep>,
    observed: Seq<usize>,
    layers: usize,
)
    requires
        now.wf(),
        before.wf(),
        now.same_trace(&before),
        before.num_rooms <= 4,
    ensures
        now.assignment@ == before.assignment@,
        now.cost == before.cost,
        now.lift_refusal(steps, observed, layers) == before.lift_refusal(steps, observed, layers),
{
    now.lemma_one_room_per_label();
    before.lemma_one_room_per_label();
    lemma_tables_follow_assignment(now, before);
    assert(now.doors() =~= before.doors());
}

/// A move of one observation followed by the move back restores the
/// assignment, the cost and every table.
pub proof fn lemma_move_then_revert(
    before: SimulatedAnnealingSolver,
    moved: SimulatedAnnealingSolver,
    reverted: SimulatedAnnealingSolver,
    obs_idx: int,
    new_room: usize,
)
    requires
        before.wf(),
        moved.wf(),
        reverted.wf(),
        moved.same_trace(&before),
        reverted.same_trace(&moved),
        0 <= obs_idx < before.assignment.len(),
        moved.assignment@ == before.assignment@.update(obs_idx, new_room),
        reverted.assignment@ == moved.assignment@.update(obs_idx, before.assignment[obs_idx]),
    ensures
        reverted.assignment@ == before.assignment@,
        reverted.cost == before.cost,
        reverted.graph.deep_view() == before.graph.deep_view(),
        reverted.filled_in_future@ == before.filled_in_future@,
        reverted.kasikari_count.deep_view() == before.kasikari_count.deep_view(),
{
    assert(reverted.assignment@ =~= before.assignment@);
    lemma_tables_follow_assignment(reverted, before);
}

/// A cost of zero means that no room needs more than six doors and that no
/// inequality joins two observations of one room.
pub proof fn lemma_zero_cost(s: SimulatedAnnealingSolver)
    requires
        s.wf(),
        s.cost == 0,
    ensures
        forall|x: int|
            0 <= x < s.num_rooms ==> filled_in_future(
                table_edges(s.graph@),
                x,
                s.num_rooms as int,
            ) <= 6,
        forall|k: int|
            0 <= k < s.known_inequalities.len() ==> s.assignment[(
                #[trigger] s.known_inequalities[k]).0 as int] != s.assignment[s.known_inequalities[k].1 as int],
{
    let rooms = s.num_rooms as int;
    let n = s.known_inequalities.len() as int;
    lemma_penalty_total_nonnegative(s.filled_in_future@, rooms);
    lemma_violations_bounds(s.assignment@, s.known_inequalities@, n);
    assert forall|x: int| 0 <= x < rooms implies filled_in_future(
        table_edges(s.graph@),
        x,
        rooms,
    ) <= 6 by {
        lemma_penalty_total_zero(s.filled_in_future@, rooms, x);
    }
    assert forall|k: int| 0 <= k < n implies s.assignment[(#[trigger] s.known_inequalities[k]).0 as int]
        != s.assignment[s.known_inequalities[k].1 as int] by {
        lemma_violations_zero(s.assignment@, s.known_inequalities@, n, k);
    }
}

/// Where the penalty total is zero, no entry is above six.
pub proof fn lemma_penalty_total_zero(f: Seq<i32>, n: int, x: int)
    requires
        penalty_total(f, n) == 0,
        0 <= x < n,
    ensures
        f[x] <= 6,
    decreases n,
{
    lemma_penalty_total_nonnegative(f, n - 1);
    if x < n - 1 {
        lemma_penalty_total_zero(f, n - 1, x);
    }
}

/// A penalty total is never negative.
pub proof fn lemma_penalty_total_nonnegative(f: Seq<i32>, n: int)
    ensures
        penalty_total(f, n) >= 0,
    decreases n,
{
    if n > 0 {
        lemma_penalty_total_nonnegative(f, n - 1);
    }
}

/// Where no inequality is violated, each joins two different rooms.
pub proof fn lemma_violations_zero(a: Seq<usize>, ineqs: Seq<(usize, usize)>, n: int, k: int)
    requires
        violations(a, ineqs, n) == 0,
        0 <= k < n,
    ensures
        a[ineqs[k].0 as int] != a[ineqs[k].1 as int],
    decreases n,
{
    lemma_violations_bounds(a, ineqs, n - 1);
    if k < n - 1 {
        lemma_violations_zero(a, ineqs, n - 1, k);
    }
}

} // verus!
