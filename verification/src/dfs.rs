//! The layered completion: a depth-first search that lifts the base
//! structure to one, two or three layers along a labelled trace.

use crate::api::FullMap;
use crate::base_map::BaseMap;
use crate::dfs_model::{
    can_commit, commit, committed, completed, completed_to, DoorKey, ends_agree, ends_free, extends,
    from_end, is_spare, layer_orders, layer_point, leads_back, lemma_commit_keeps_pairing,
    lemma_commit_shape, lemma_commit_then_uncommit, lemma_completed, lemma_ends_in_first_layer,
    lemma_search_sound, lemma_twins_ok, lemma_uncommit_keeps_pairing, lemma_uncommit_shape,
    lemma_walk_extends, Outcome, pairing_wf, pattern_of, pick_door, Problem, problem_ok, same_state,
    search, SearchState, sides_distinct, sound_end, step_move, to_end, try_patterns,
    twin_pattern_ok, twin_patterns, uncommit, walk_matches,
};
use crate::error::SolveError;
use crate::outside::{
    bit_length, bits_of, bitset_insert, bitset_lowest, bitset_set, bitset_with_capacity,
    door_map_entries, door_map_get, door_map_insert, door_map_remove,
};
use crate::plan::PlanStep;
use crate::submission::{build_submission, initial_label, is_submission, room_labels};
use fixedbitset::FixedBitSet;
use fxhash::FxHashMap;
use vstd::prelude::*;

verus! {

/// Pairs the first rooms of `from_points` with the rooms of `to_points` in
/// the order `a`, `b`, `c`.
fn one_pattern(from_points: &Vec<usize>, to_points: &Vec<usize>, a: usize, b: usize, c: usize) -> (pat:
    Vec<(usize, usize)>)
    requires
        from_points.len() == to_points.len(),
        2 <= from_points.len() <= 3,
        a < from_points.len(),
        b < from_points.len(),
        c < from_points.len(),
    ensures
        pat.len() == from_points.len(),
        pat[0] == (from_points[0], to_points[a as int]),
        pat[1] == (from_points[1], to_points[b as int]),
        pat.len() == 3 ==> pat[2] == (from_points[2], to_points[c as int]),
{
    let mut pat: Vec<(usize, usize)> = Vec::new();
    pat.push((from_points[0], to_points[a]));
    pat.push((from_points[1], to_points[b]));
    if from_points.len() == 3 {
        pat.push((from_points[2], to_points[c]));
    }
    pat
}

/// Lists the twin patterns of a new edge from `from_room` to base room
/// `to_base_room`: one per order of the layers, in lexicographic order. A
/// pattern sends the room `k` layers above `from_room` to the room as many
/// layers above `to_base_room` as the order says, so its first pair starts
/// at `from_room` itself.
pub fn twins_patterns(
    layers: usize,
    from_room: usize,
    to_base_room: usize,
    num_base_room: usize,
) -> (pats: Vec<Vec<(usize, usize)>>)
    requires
        1 <= layers <= 3,
        1 <= num_base_room,
        from_room + num_base_room * layers <= usize::MAX,
        to_base_room + num_base_room * layers <= usize::MAX,
    ensures
        pats.len() == twin_patterns(layers, from_room, to_base_room, num_base_room).len(),
        forall|i: int|
            0 <= i < pats.len() ==> (#[trigger] pats[i])@ == twin_patterns(
                layers,
                from_room,
                to_base_room,
                num_base_room,
            )[i],
{
    if layers == 1 {
        let mut only: Vec<(usize, usize)> = Vec::new();
        only.push((from_room, to_base_room));
        let mut pats: Vec<Vec<(usize, usize)>> = Vec::new();
        pats.push(only);
        proof {
            assert(pats[0]@ =~= seq![(from_room, to_base_room)]);
        }
        return pats;
    }
    assert(num_base_room * layers >= num_base_room) by (nonlinear_arith)
        requires
            layers >= 1,
            num_base_room >= 1,
    ;
    let modulus = num_base_room * layers;
    let mut from_points: Vec<usize> = Vec::new();
    let mut to_points: Vec<usize> = Vec::new();
    let mut i: usize = 0;
    while i < layers
        invariant
            i <= layers <= 3,
            1 <= num_base_room,
            modulus == num_base_room * layers,
            modulus >= 1,
            from_room + modulus <= usize::MAX,
            to_base_room + modulus <= usize::MAX,
            from_points.len() == i,
            to_points.len() == i,
            forall|k: int|
                0 <= k < i ==> from_points[k] == layer_point(from_room, num_base_room, layers, k),
            forall|k: int|
                0 <= k < i ==> to_points[k] == layer_point(to_base_room, num_base_room, layers, k),
        decreases layers - i,
    {
        assert(num_base_room * i <= num_base_room * layers) by (nonlinear_arith)
            requires
                i <= layers,
        ;
        from_points.push((from_room + num_base_room * i) % modulus);
        to_points.push((to_base_room + num_base_room * i) % modulus);
        i = i + 1;
    }
    let mut pats: Vec<Vec<(usize, usize)>> = Vec::new();
    if layers == 2 {
        pats.push(one_pattern(&from_points, &to_points, 0, 1, 0));
        pats.push(one_pattern(&from_points, &to_points, 1, 0, 0));
    } else {
        pats.push(one_pattern(&from_points, &to_points, 0, 1, 2));
        pats.push(one_pattern(&from_points, &to_points, 0, 2, 1));
        pats.push(one_pattern(&from_points, &to_points, 1, 0, 2));
        pats.push(one_pattern(&from_points, &to_points, 1, 2, 0));
        pats.push(one_pattern(&from_points, &to_points, 2, 0, 1));
        pats.push(one_pattern(&from_points, &to_points, 2, 1, 0));
    }
    proof {
        let wanted = twin_patterns(layers, from_room, to_base_room, num_base_room);
        assert forall|i: int| 0 <= i < pats.len() implies (#[trigger] pats[i])@ == wanted[i] by {
            let order = layer_orders(layers)[i];
            assert(wanted[i] == pattern_of(order, from_room, to_base_room, num_base_room, layers));
            assert(pats[i]@ =~= wanted[i]);
        }
    }
    pats
}

/// Lifts a base structure to a map of one, two or three layers that agrees
/// with a labelled trace.
#[derive(Debug)]
pub struct DfsSolver {
    /// Number of base rooms.
    pub num_base_rooms: usize,
    /// The base structure that is lifted.
    pub base_map: BaseMap,
    /// The labelled plan.
    pub full_plan: Vec<PlanStep>,
    /// The label seen before the first step and after each step.
    pub observed_labels: Vec<usize>,
    /// For each pair of base rooms `(a, b)`, the doors of `a` that lead to
    /// `b` in the base structure and are not paired yet.
    pub remaining_base_doors: Vec<Vec<FixedBitSet>>,
    /// The pairing of doors committed so far, both directions of each pair.
    pub connections: FxHashMap<(usize, usize), (usize, usize)>,
    /// The room of each observation, or -1 where none is assigned.
    pub full_assignment: Vec<isize>,
    /// The label that each room carries now.
    pub current_labels: Vec<usize>,
    /// Number of layers.
    pub layer_num: usize,
}

/// How a search ended; where it was found, the solver holds the end state.
#[derive(Clone, Copy, Debug, PartialEq, Eq, Structural)]
pub enum SearchResult {
    Found,
    Dead,
    Abort,
}

/// Whether a search that ended with `r` and left `end` behind did what
/// `out` says, where `fallback` is the state owed after a failure.
pub open spec fn agrees(out: Outcome, r: SearchResult, end: SearchState, fallback: SearchState) -> bool {
    match out {
        Outcome::Found(st) => r == SearchResult::Found && same_state(end, st),
        Outcome::Dead => r == SearchResult::Dead && same_state(end, fallback),
        Outcome::Abort => r == SearchResult::Abort && same_state(end, fallback),
    }
}

/// A state in which observation `i` has no room.
pub open spec fn unassigned(st: SearchState, i: int) -> SearchState {
    SearchState { assignment: st.assignment.update(i, -1isize), ..st }
}

/// The door that a step takes, 0 for a step that takes none.
pub open spec fn door_of_step(step: PlanStep) -> usize {
    match step {
        PlanStep::Move(door) => door,
        PlanStep::ChangeLabel(_) => 0,
    }
}

/// The outcome of the search from the start of the plan: dead from the
/// outset where room 0 does not carry the first label observed.
pub open spec fn solve_outcome(p: Problem, st: SearchState) -> Outcome {
    if st.labels[0] == p.observed[0] {
        search(p, st, 0, 0)
    } else {
        Outcome::Dead
    }
}

/// The assignment that a search leaves behind that found no map: the first
/// observation has lost its room, unless the search was dead from the
/// outset.
pub open spec fn failed_assignment(p: Problem, st: SearchState) -> Seq<isize> {
    if st.labels[0] == p.observed[0] {
        st.assignment.update(0, -1isize)
    } else {
        st.assignment
    }
}

/// What keeps a solver from being made, if anything does.
pub open spec fn dfs_refusal(
    base_map: BaseMap,
    steps: nat,
    observations: nat,
    layer_num: usize,
) -> Option<SolveError> {
    if observations != steps + 1 {
        Some(SolveError::ObservationLengthMismatch)
    } else if layer_num < 1 || layer_num > 3 || base_map.num_rooms < 1 || base_map.num_rooms
        * layer_num > isize::MAX {
        Some(SolveError::OutOfRange)
    } else if !base_map.wf() {
        Some(SolveError::BaseMapInconsistent)
    } else {
        None
    }
}

impl DfsSolver {
    /// What the search is given.
    pub open spec fn problem(&self) -> Problem {
        Problem {
            rooms: self.num_base_rooms,
            layers: self.layer_num,
            base: self.base_map.connections@,
            plan: self.full_plan@,
            observed: self.observed_labels@,
        }
    }

    /// What the search has done so far.
    pub open spec fn state(&self) -> SearchState {
        SearchState {
            connections: self.connections@,
            labels: self.current_labels@,
            assignment: self.full_assignment@,
        }
    }

    /// The sizes of the tables.
    pub open spec fn shape_ok(&self) -> bool {
        &&& 1 <= self.num_base_rooms
        &&& 1 <= self.layer_num <= 3
        &&& self.num_base_rooms * self.layer_num <= isize::MAX
        &&& self.base_map.num_rooms == self.num_base_rooms
        &&& self.base_map.wf()
        &&& self.observed_labels.len() == self.full_plan.len() + 1
        &&& self.full_assignment.len() == self.observed_labels.len()
        &&& self.current_labels.len() == self.num_base_rooms * self.layer_num
        &&& self.remaining_base_doors.len() == self.num_base_rooms
        &&& forall|a: int|
            0 <= a < self.num_base_rooms ==> (#[trigger] self.remaining_base_doors[a]).len()
                == self.num_base_rooms
        &&& forall|a: int, b: int|
            0 <= a < self.num_base_rooms && 0 <= b < self.num_base_rooms ==> bit_length(
                #[trigger] self.remaining_base_doors[a][b],
            ) == 6
    }

    /// The pairing names rooms and doors that exist and pairs doors both
    /// ways: the partner of the partner of a door is the door.
    pub open spec fn pairing_ok(&self) -> bool {
        pairing_wf(self.connections@, self.num_base_rooms * self.layer_num)
    }

    /// The bit sets hold, for each pair of base rooms, the doors of the
    /// first that lead to the second and are not paired yet.
    pub open spec fn remaining_ok(&self) -> bool {
        forall|a: int, b: int, d: int|
            0 <= a < self.num_base_rooms && 0 <= b < self.num_base_rooms ==> (
            #[trigger] bits_of(self.remaining_base_doors[a][b]).contains(d) <==> 0 <= d < 6
                && leads_back(self.problem(), self.connections@, b as usize, a as usize, d as usize))
    }

    /// Everything that holds of a solver between two steps of the search.
    pub open spec fn wf(&self) -> bool {
        &&& self.shape_ok()
        &&& self.pairing_ok()
        &&& self.remaining_ok()
    }

    /// Whether everything but the pairing and the bit sets is as in `other`.
    pub open spec fn same_but_pairing(&self, other: &Self) -> bool {
        &&& self.num_base_rooms == other.num_base_rooms
        &&& self.base_map == other.base_map
        &&& self.full_plan == other.full_plan
        &&& self.observed_labels == other.observed_labels
        &&& self.full_assignment == other.full_assignment
        &&& self.current_labels == other.current_labels
        &&& self.layer_num == other.layer_num
    }

    /// The base room of which `room_id` is a copy.
    #[inline(always)]
    fn room_id_to_base_room(&self, room_id: usize) -> (base: usize)
        requires
            self.num_base_rooms >= 1,
        ensures
            base == room_id % self.num_base_rooms,
    {
        room_id % self.num_base_rooms
    }

    /// Picks the door of base room `to_base_room` for a new edge that comes
    /// from `from_base_room`: the lowest door that leads back there in the
    /// base structure and is not paired yet; where there is none, the lowest
    /// door that neither the base structure nor the pairing uses.
    pub fn get_new_door_of_to_room(&self, from_base_room: usize, to_base_room: usize) -> (door:
        Option<usize>)
        requires
            self.wf(),
            from_base_room < self.num_base_rooms,
            to_base_room < self.num_base_rooms,
        ensures
            door == pick_door(self.problem(), self.connections@, from_base_room, to_base_room),
            door is Some ==> door->0 < 6 && (leads_back(
                self.problem(),
                self.connections@,
                from_base_room,
                to_base_room,
                door->0,
            ) || is_spare(self.problem(), self.connections@, to_base_room, door->0)),
    {
        let ghost p = self.problem();
        let ghost conn = self.connections@;
        let ghost bits = bits_of(
            self.remaining_base_doors[to_base_room as int][from_base_room as int],
        );
        match bitset_lowest(&self.remaining_base_doors[to_base_room][from_base_room]) {
            Some(door) => {
                proof {
                    assert(bits.contains(door as int));
                    assert forall|d: usize| d < door implies !leads_back(
                        p,
                        conn,
                        from_base_room,
                        to_base_room,
                        d,
                    ) by {
                        if leads_back(p, conn, from_base_room, to_base_room, d) {
                            assert(bits.contains(d as int));
                        }
                    }
                }
                return Some(door);
            },
            None => {
                proof {
                    assert forall|d: usize| d < 6 implies !leads_back(
                        p,
                        conn,
                        from_base_room,
                        to_base_room,
                        d,
                    ) by {
                        if leads_back(p, conn, from_base_room, to_base_room, d) {
                            assert(bits.contains(d as int));
                        }
                    }
                }
            },
        }
        let mut door: usize = 0;
        while door < 6
            invariant
                door <= 6,
                p == self.problem(),
                conn == self.connections@,
                forall|d: usize|
                    d < 6 ==> !leads_back(p, conn, from_base_room, to_base_room, d),
                forall|d: usize| d < door ==> !is_spare(p, conn, to_base_room, d),
            decreases 6 - door,
        {
            if door_map_get(&self.base_map.connections, (to_base_room, door)).is_none()
                && door_map_get(&self.connections, (to_base_room, door)).is_none() {
                return Some(door);
            }
            door = door + 1;
        }
        None
    }

    /// Sets up the search for a base structure, a labelled plan, the labels
    /// seen along it and a number of layers. Every room starts with the
    /// label of its base room, nothing is paired, and only the first
    /// observation is assigned: to room 0.
    pub fn new(
        base_map: BaseMap,
        full_plan: Vec<PlanStep>,
        observed_labels: Vec<usize>,
        layer_num: usize,
    ) -> (r: Result<Self, SolveError>)
        ensures
            match r {
                Ok(s) => {
                    &&& dfs_refusal(base_map, full_plan@.len(), observed_labels@.len(), layer_num)
                        is None
                    &&& s.wf()
                    &&& s.num_base_rooms == base_map.num_rooms
                    &&& s.base_map == base_map
                    &&& s.full_plan == full_plan
                    &&& s.observed_labels == observed_labels
                    &&& s.layer_num == layer_num
                    &&& s.connections@ == Map::<DoorKey, DoorKey>::empty()
                    &&& s.current_labels@ == Seq::new(
                        (base_map.num_rooms * layer_num) as nat,
                        |i: int| initial_label(i, base_map.num_rooms as int) as usize,
                    )
                    &&& s.full_assignment@ == Seq::new(
                        observed_labels@.len(),
                        |i: int|
                            if i == 0 {
                                0isize
                            } else {
                                -1isize
                            },
                    )
                },
                Err(e) => dfs_refusal(base_map, full_plan@.len(), observed_labels@.len(), layer_num)
                    == Some(e),
            },
    {
        let steps = full_plan.len();
        let observations = observed_labels.len();
        if steps == usize::MAX || observations != steps + 1 {
            return Err(SolveError::ObservationLengthMismatch);
        }
        let num_base_rooms = base_map.num_rooms;
        if layer_num < 1 || layer_num > 3 || num_base_rooms < 1 {
            return Err(SolveError::OutOfRange);
        }
        let most: usize = if layer_num == 1 {
            isize::MAX as usize
        } else if layer_num == 2 {
            (isize::MAX as usize) / 2
        } else {
            (isize::MAX as usize) / 3
        };
        if num_base_rooms > most {
            proof {
                assert(num_base_rooms * layer_num > isize::MAX) by (nonlinear_arith)
                    requires
                        1 <= layer_num <= 3,
                        num_base_rooms > most,
                        most == (isize::MAX as int) / (layer_num as int),
                ;
            }
            return Err(SolveError::OutOfRange);
        }
        proof {
            assert(num_base_rooms * layer_num <= isize::MAX) by (nonlinear_arith)
                requires
                    1 <= layer_num <= 3,
                    num_base_rooms <= most,
                    most == (isize::MAX as int) / (layer_num as int),
            ;
        }
        let total = num_base_rooms * layer_num;
        let entries = door_map_entries(&base_map.connections);
        let mut remaining_base_doors = empty_door_sets(num_base_rooms);
        let mut k: usize = 0;
        while k < entries.len()
            invariant
                k <= entries.len(),
                1 <= num_base_rooms,
                num_base_rooms == base_map.num_rooms,
                observed_labels.len() == full_plan.len() + 1,
                1 <= layer_num <= 3,
                num_base_rooms * layer_num <= isize::MAX,
                forall|i: int|
                    0 <= i < entries.len() ==> base_map.connections@.contains_key(
                        (#[trigger] entries[i]).0,
                    ) && base_map.connections@[entries[i].0] == entries[i].1,
                forall|i: int|
                    0 <= i < k ==> (#[trigger] entries[i]).0.0 < num_base_rooms && entries[i].0.1
                        < 6 && entries[i].1 < num_base_rooms,
                remaining_base_doors.len() == num_base_rooms,
                forall|a: int|
                    0 <= a < num_base_rooms ==> (#[trigger] remaining_base_doors[a]).len()
                        == num_base_rooms,
                forall|a: int, b: int|
                    0 <= a < num_base_rooms && 0 <= b < num_base_rooms ==> bit_length(
                        #[trigger] remaining_base_doors[a][b],
                    ) == 6,
                forall|a: int, b: int, d: int|
                    0 <= a < num_base_rooms && 0 <= b < num_base_rooms ==> (#[trigger] bits_of(
                        remaining_base_doors[a][b],
                    ).contains(d) <==> 0 <= d < 6 && exists|i: int|
                        0 <= i < k && #[trigger] entries[i] == ((a as usize, d as usize), b as usize)),
            decreases entries.len() - k,
        {
            let ((from_room, from_door), to_room) = entries[k];
            if from_room >= num_base_rooms || from_door >= 6 || to_room >= num_base_rooms {
                proof {
                    assert(base_map.connections@.contains_key(entries[k as int].0));
                    assert(!base_map.wf());
                }
                return Err(SolveError::BaseMapInconsistent);
            }
            let ghost before = remaining_base_doors;
            bitset_insert(&mut remaining_base_doors[from_room][to_room], from_door);
            proof {
                assert forall|a: int, b: int, d: int|
                    0 <= a < num_base_rooms && 0 <= b < num_base_rooms implies (#[trigger] bits_of(
                    remaining_base_doors[a][b],
                ).contains(d) <==> 0 <= d < 6 && exists|i: int|
                    0 <= i < k + 1 && #[trigger] entries[i] == ((a as usize, d as usize), b as usize)) by {
                    let was = bits_of(before[a][b]).contains(d);
                    if 0 <= d < 6 && was {
                        let i = choose|i: int|
                            0 <= i < k && #[trigger] entries[i] == (
                                (a as usize, d as usize),
                                b as usize,
                            );
                        assert(entries[i] == ((a as usize, d as usize), b as usize));
                    }
                    if a == from_room && b == to_room && d == from_door {
                        assert(entries[k as int] == ((a as usize, d as usize), b as usize));
                    }
                    if 0 <= d < 6 && exists|i: int|
                        0 <= i < k + 1 && #[trigger] entries[i] == (
                            (a as usize, d as usize),
                            b as usize,
                        ) {
                        let i = choose|i: int|
                            0 <= i < k + 1 && #[trigger] entries[i] == (
                                (a as usize, d as usize),
                                b as usize,
                            );
                        if i < k {
                            assert(was);
                        }
                    }
                }
            }
            k = k + 1;
        }
        let current_labels = room_labels(num_base_rooms, total);
        let full_assignment = fresh_assignment(observed_labels.len());
        let solver = Self {
            num_base_rooms,
            base_map,
            full_plan,
            observed_labels,
            remaining_base_doors,
            connections: FxHashMap::default(),
            full_assignment,
            current_labels,
            layer_num,
        };
        proof {
            assert forall|key: (usize, usize)| #[trigger]
                solver.base_map.connections@.contains_key(key) implies key.0 < num_base_rooms
                && key.1 < 6 && solver.base_map.connections@[key] < num_base_rooms by {
                let i = choose|i: int| 0 <= i < entries.len() && entries[i].0 == key;
                assert(entries[i].0.0 < num_base_rooms);
            }
            assert forall|a: int, b: int, d: int|
                0 <= a < num_base_rooms && 0 <= b < num_base_rooms implies (#[trigger] bits_of(
                solver.remaining_base_doors[a][b],
            ).contains(d) <==> 0 <= d < 6 && leads_back(
                solver.problem(),
                solver.connections@,
                b as usize,
                a as usize,
                d as usize,
            )) by {
                if 0 <= d < 6 {
                    let key = (a as usize, d as usize);
                    if bits_of(solver.remaining_base_doors[a][b]).contains(d) {
                        let i = choose|i: int|
                            0 <= i < entries.len() && #[trigger] entries[i] == (key, b as usize);
                        assert(solver.base_map.connections@.contains_key(entries[i].0));
                    }
                    if leads_back(
                        solver.problem(),
                        solver.connections@,
                        b as usize,
                        a as usize,
                        d as usize,
                    ) {
                        let i = choose|i: int| 0 <= i < entries.len() && entries[i].0 == key;
                        assert(entries[i] == (key, b as usize));
                    }
                }
            }
        }
        Ok(solver)
    }

    /// Pairs every door that has no partner with itself.
    pub fn fill_missing_connections_with_self_loop(&mut self)
        requires
            old(self).shape_ok(),
            old(self).pairing_ok(),
        ensures
            final(self).connections@ == completed(
                old(self).connections@,
                old(self).num_base_rooms * old(self).layer_num,
            ),
            final(self).pairing_ok(),
            final(self).same_but_pairing(old(self)),
            final(self).remaining_base_doors == old(self).remaining_base_doors,
            forall|room: usize, door: usize|
                room < old(self).num_base_rooms * old(self).layer_num && door < 6 ==> #[trigger] final(self).connections@.contains_key(
                    (room, door),
                ),
    {
        let total = self.num_base_rooms * self.layer_num;
        let ghost before = self.connections@;
        let mut from_room: usize = 0;
        proof {
            assert(self.connections@ =~= completed_to(before, 0, 0));
        }
        while from_room < total
            invariant
                from_room <= total,
                self.connections@ == completed_to(before, from_room as int, 0),
                self.same_but_pairing(old(self)),
                self.remaining_base_doors == old(self).remaining_base_doors,
            decreases total - from_room,
        {
            let mut door: usize = 0;
            while door < 6
                invariant
                    from_room < total,
                    door <= 6,
                    self.connections@ == completed_to(before, from_room as int, door as int),
                    self.same_but_pairing(old(self)),
                    self.remaining_base_doors == old(self).remaining_base_doors,
                decreases 6 - door,
            {
                let rd = (from_room, door);
                if door_map_get(&self.connections, rd).is_none() {
                    door_map_insert(&mut self.connections, rd, rd);
                }
                proof {
                    assert(self.connections@ =~= completed_to(
                        before,
                        from_room as int,
                        door + 1,
                    ));
                }
                door = door + 1;
            }
            proof {
                assert(self.connections@ =~= completed_to(before, from_room + 1, 0));
            }
            from_room = from_room + 1;
        }
        proof {
            lemma_completed(before, total as int);
        }
    }

    /// Whether everything that the search is given is as in `other`.
    pub open spec fn same_problem(&self, other: &Self) -> bool {
        &&& self.num_base_rooms == other.num_base_rooms
        &&& self.base_map == other.base_map
        &&& self.full_plan == other.full_plan
        &&& self.observed_labels == other.observed_labels
        &&& self.layer_num == other.layer_num
    }

    /// Whether no observation after number `i` is assigned.
    pub open spec fn fresh_after(&self, i: int) -> bool {
        forall|j: int| i < j < self.full_assignment.len() ==> self.full_assignment[j] == -1
    }

    /// Searches on from step `plan_idx`, standing in `current_full_room`:
    /// assigns the observation to the room and takes the step. Where the
    /// plan cannot be walked to its end from here, everything is put back
    /// as it was and the observation is left without a room.
    fn dfs(&mut self, plan_idx: usize, obs_idx: usize, current_full_room: usize) -> (r:
        SearchResult)
        requires
            old(self).wf(),
            plan_idx <= old(self).full_plan.len(),
            obs_idx == plan_idx,
            current_full_room < old(self).num_base_rooms * old(self).layer_num,
            old(self).fresh_after(plan_idx as int),
        ensures
            final(self).wf(),
            final(self).same_problem(old(self)),
            agrees(
                search(
                    old(self).problem(),
                    old(self).state(),
                    plan_idx as int,
                    current_full_room,
                ),
                r,
                final(self).state(),
                unassigned(old(self).state(), plan_idx as int),
            ),
        decreases old(self).full_plan.len() - plan_idx, 1int,
    {
        let ghost st = self.state();
        self.full_assignment[obs_idx] = current_full_room as isize;
        let ghost here = self.state();
        proof {
            assert(here == SearchState {
                assignment: st.assignment.update(plan_idx as int, current_full_room as isize),
                ..st
            });
        }
        if plan_idx >= self.full_plan.len() {
            return SearchResult::Found;
        }
        let result = match self.full_plan[plan_idx] {
            PlanStep::ChangeLabel(new_label) => {
                let old_label = self.current_labels[current_full_room];
                self.current_labels[current_full_room] = new_label;
                proof {
                    assert(self.state() == SearchState {
                        labels: here.labels.update(current_full_room as int, new_label),
                        ..here
                    });
                }
                let r = self.dfs(plan_idx + 1, obs_idx + 1, current_full_room);
                match r {
                    SearchResult::Found => {},
                    _ => {
                        self.current_labels[current_full_room] = old_label;
                        proof {
                            assert(self.current_labels@ =~= here.labels);
                            assert(self.full_assignment@ =~= here.assignment);
                        }
                    },
                }
                r
            },
            PlanStep::Move(_door) => self.handle_move(plan_idx, obs_idx, current_full_room),
        };
        match result {
            SearchResult::Found => {},
            _ => {
                self.full_assignment[obs_idx] = -1;
                proof {
                    assert(self.full_assignment@ =~= st.assignment.update(plan_idx as int, -1isize));
                }
            },
        }
        result
    }

    /// Takes the move of step `plan_idx` out of `from_room`. An edge that is
    /// committed is followed, and there is no other branch. A new edge goes
    /// to the copies of the base room that the base structure names,
    /// through the door that `get_new_door_of_to_room` picks there; its twin
    /// patterns are tried in order, each committed on every layer at once
    /// and taken out again where the search does not reach the end of the
    /// plan through it.
    fn handle_move(&mut self, plan_idx: usize, obs_idx: usize, from_room: usize) -> (r:
        SearchResult)
        requires
            old(self).wf(),
            plan_idx < old(self).full_plan.len(),
            old(self).full_plan[plan_idx as int] is Move,
            obs_idx == plan_idx,
            from_room < old(self).num_base_rooms * old(self).layer_num,
            old(self).fresh_after(plan_idx as int),
        ensures
            final(self).wf(),
            final(self).same_problem(old(self)),
            agrees(
                step_move(
                    old(self).problem(),
                    old(self).state(),
                    plan_idx as int,
                    from_room,
                    door_of_step(old(self).full_plan[plan_idx as int]),
                ),
                r,
                final(self).state(),
                old(self).state(),
            ),
        decreases old(self).full_plan.len() - plan_idx, 0int,
    {
        let ghost p = self.problem();
        let ghost st = self.state();
        let from_door = match self.full_plan[plan_idx] {
            PlanStep::Move(door) => door,
            PlanStep::ChangeLabel(_) => {
                return SearchResult::Dead;
            },
        };
        let next_obs_idx = obs_idx + 1;
        let expected_label_at_dest = self.observed_labels[next_obs_idx];
        match door_map_get(&self.connections, (from_room, from_door)) {
            Some((to_room, _to_door)) => {
                assert(self.connections@.contains_key((from_room, from_door)));
                if self.current_labels[to_room] == expected_label_at_dest {
                    let r = self.dfs(plan_idx + 1, next_obs_idx, to_room);
                    proof {
                        assert(unassigned(st, plan_idx + 1).assignment =~= st.assignment);
                    }
                    return r;
                }
                return SearchResult::Dead;
            },
            None => {},
        }
        let from_base_room = self.room_id_to_base_room(from_room);
        let to_base_room = match door_map_get(
            &self.base_map.connections,
            (from_base_room, from_door),
        ) {
            Some(room) => room,
            None => {
                return SearchResult::Abort;
            },
        };
        assert(self.base_map.connections@.contains_key((from_base_room, from_door)));
        let to_door = match self.get_new_door_of_to_room(from_base_room, to_base_room) {
            Some(door) => door,
            None => {
                return SearchResult::Dead;
            },
        };
        assert(self.num_base_rooms <= self.num_base_rooms * self.layer_num) by (nonlinear_arith)
            requires
                self.layer_num >= 1,
        ;
        let patterns = twins_patterns(
            self.layer_num,
            from_room,
            to_base_room,
            self.num_base_rooms,
        );
        let ghost pats = twin_patterns(p.layers, from_room, to_base_room, p.rooms);
        let ghost whole = step_move(p, st, plan_idx as int, from_room, from_door);
        assert(whole == try_patterns(p, st, plan_idx as int, from_door, to_door, pats, 0));
        let mut k: usize = 0;
        while k < patterns.len()
            invariant
                k <= patterns.len(),
                whole == step_move(
                    old(self).problem(),
                    old(self).state(),
                    plan_idx as int,
                    from_room,
                    door_of_step(old(self).full_plan[plan_idx as int]),
                ),
                whole == try_patterns(p, st, plan_idx as int, from_door, to_door, pats, 0),
                patterns.len() == pats.len(),
                forall|i: int| 0 <= i < patterns.len() ==> (#[trigger] patterns[i])@ == pats[i],
                pats == twin_patterns(p.layers, from_room, to_base_room, p.rooms),
                self.wf(),
                self.same_problem(old(self)),
                p == old(self).problem(),
                st == old(self).state(),
                same_state(self.state(), st),
                old(self).fresh_after(plan_idx as int),
                plan_idx < self.full_plan.len(),
                obs_idx == plan_idx,
                next_obs_idx == obs_idx + 1,
                expected_label_at_dest == self.observed_labels[next_obs_idx as int],
                from_room < self.num_base_rooms * self.layer_num,
                from_base_room == from_room % self.num_base_rooms,
                to_base_room < self.num_base_rooms,
                from_door < 6,
                to_door < 6,
                p.base.contains_key((from_base_room, from_door)),
                p.base[(from_base_room, from_door)] == to_base_room,
                p.base.contains_key((to_base_room, to_door)) ==> p.base[(to_base_room, to_door)]
                    == from_base_room,
                try_patterns(p, st, plan_idx as int, from_door, to_door, pats, 0) == try_patterns(
                    p,
                    st,
                    plan_idx as int,
                    from_door,
                    to_door,
                    pats,
                    k as int,
                ),
            decreases patterns.len() - k,
        {
            proof {
                lemma_twins_ok(p.layers, from_room, to_base_room, p.rooms, k as int);
                assert(self.state() == st);
            }
            let ghost pat = pats[k as int];
            assert(patterns[k as int]@ == pat);
            let to_room = patterns[k][0].1;
            if self.current_labels[to_room] == expected_label_at_dest {
                let done = self.connect_twins(&patterns[k], from_door, to_door);
                if done {
                    let ghost committed_state = SearchState {
                        connections: commit(st.connections, pat, from_door, to_door, pat.len() as int),
                        ..st
                    };
                    proof {
                        assert(self.state() == committed_state);
                        lemma_commit_keeps_pairing(
                            st.connections,
                            pat,
                            from_door,
                            to_door,
                            p.rooms,
                            p.layers,
                            from_base_room,
                            to_base_room,
                        );
                    }
                    let r = self.dfs(plan_idx + 1, next_obs_idx, to_room);
                    match r {
                        SearchResult::Found => {
                            return SearchResult::Found;
                        },
                        _ => {
                            proof {
                                assert(unassigned(committed_state, plan_idx + 1).assignment
                                    =~= st.assignment);
                                assert(self.state() == committed_state);
                                lemma_commit_then_uncommit(st.connections, pat, from_door, to_door);
                            }
                            self.disconnect_twins(&patterns[k], from_door, to_door);
                            match r {
                                SearchResult::Abort => {
                                    return SearchResult::Abort;
                                },
                                _ => {},
                            }
                        },
                    }
                }
            }
            k = k + 1;
        }
        SearchResult::Dead
    }

    /// Runs the search from the start of the plan. Where it walks the plan
    /// to its end, every door that is left without a partner is paired with
    /// itself and the map is handed out for submission.
    pub fn solve(&mut self) -> (r: Result<FullMap, SolveError>)
        requires
            old(self).wf(),
            old(self).fresh_after(0),
        ensures
            final(self).same_problem(old(self)),
            match solve_outcome(old(self).problem(), old(self).state()) {
                Outcome::Found(end) => {
                    &&& r is Ok
                    &&& final(self).connections@ == completed(
                        end.connections,
                        old(self).num_base_rooms * old(self).layer_num,
                    )
                    &&& final(self).current_labels@ == end.labels
                    &&& final(self).full_assignment@ == end.assignment
                    &&& final(self).pairing_ok()
                    &&& forall|room: usize, door: usize|
                        room < old(self).num_base_rooms * old(self).layer_num && door < 6
                            ==> #[trigger] final(self).connections@.contains_key((room, door))
                    &&& sound_end(old(self).problem(), old(self).state(), 0, 0, end)
                    &&& extends(final(self).connections@, old(self).connections@)
                    &&& walk_matches(
                        old(self).problem(),
                        final(self).connections@,
                        old(self).current_labels@,
                        0,
                        0,
                    )
                    &&& is_submission(
                        r->Ok_0,
                        final(self).connections@,
                        old(self).num_base_rooms,
                        old(self).num_base_rooms * old(self).layer_num,
                    )
                    &&& forall|a: int, b: int, d: int|
                        0 <= a < old(self).num_base_rooms && 0 <= b < old(self).num_base_rooms
                            ==> (#[trigger] bits_of(final(self).remaining_base_doors[a][b]).contains(
                            d,
                        ) <==> 0 <= d < 6 && leads_back(
                            old(self).problem(),
                            end.connections,
                            b as usize,
                            a as usize,
                            d as usize,
                        ))
                },
                Outcome::Dead => {
                    &&& r == Err::<FullMap, SolveError>(SolveError::DFSNoSolution)
                    &&& final(self).connections@ == old(self).connections@
                    &&& final(self).current_labels@ == old(self).current_labels@
                    &&& final(self).full_assignment@ == failed_assignment(
                        old(self).problem(),
                        old(self).state(),
                    )
                    &&& final(self).wf()
                },
                Outcome::Abort => {
                    &&& r == Err::<FullMap, SolveError>(SolveError::BaseMapInconsistent)
                    &&& final(self).connections@ == old(self).connections@
                    &&& final(self).current_labels@ == old(self).current_labels@
                    &&& final(self).full_assignment@ == failed_assignment(
                        old(self).problem(),
                        old(self).state(),
                    )
                    &&& final(self).wf()
                },
            },
    {
        let ghost p = self.problem();
        let ghost st = self.state();
        let ghost total = self.num_base_rooms * self.layer_num;
        let start_obs_label = self.observed_labels[0];
        assert(self.num_base_rooms * self.layer_num >= 1) by (nonlinear_arith)
            requires
                self.num_base_rooms >= 1,
                self.layer_num >= 1,
        ;
        if self.current_labels[0] == start_obs_label {
            match self.dfs(0, 0, 0) {
                SearchResult::Found => {
                    let ghost end = self.state();
                    proof {
                        assert(problem_ok(p));
                        lemma_search_sound(p, st, 0, 0);
                        assert(search(p, st, 0, 0)->Found_0 == end);
                        lemma_completed(end.connections, total as int);
                        assert(extends(completed(end.connections, total as int), end.connections));
                        lemma_walk_extends(
                            p,
                            end.connections,
                            completed(end.connections, total as int),
                            st.labels,
                            0,
                            0,
                        );
                    }
                    self.fill_missing_connections_with_self_loop();
                    let map = build_submission(
                        &self.connections,
                        self.num_base_rooms,
                        self.num_base_rooms * self.layer_num,
                    );
                    return Ok(map);
                },
                SearchResult::Dead => {
                    return Err(SolveError::DFSNoSolution);
                },
                SearchResult::Abort => {
                    return Err(SolveError::BaseMapInconsistent);
                },
            }
        }
        Err(SolveError::DFSNoSolution)
    }

    /// Whether no end of a pattern is paired yet.
    fn ends_are_free(&self, pattern: &Vec<(usize, usize)>, from_door: usize, to_door: usize) -> (free:
        bool)
        ensures
            free == ends_free(self.connections@, pattern@, from_door, to_door),
    {
        let mut k: usize = 0;
        while k < pattern.len()
            invariant
                k <= pattern.len(),
                forall|j: int|
                    0 <= j < k ==> !self.connections@.contains_key(
                        ((#[trigger] pattern@[j]).0, from_door),
                    ) && !self.connections@.contains_key((pattern@[j].1, to_door)),
            decreases pattern.len() - k,
        {
            let (from_room, to_room) = pattern[k];
            let at_from = door_map_get(&self.connections, (from_room, from_door));
            let at_to = door_map_get(&self.connections, (to_room, to_door));
            proof {
                assert(from_end(pattern@, from_door, k as int) == (from_room, from_door));
                assert(to_end(pattern@, to_door, k as int) == (to_room, to_door));
            }
            if at_from.is_some() || at_to.is_some() {
                return false;
            }
            k = k + 1;
        }
        proof {
            assert forall|j: int| 0 <= j < pattern.len() implies !self.connections@.contains_key(
                #[trigger] from_end(pattern@, from_door, j),
            ) && !self.connections@.contains_key(to_end(pattern@, to_door, j)) by {
                assert(!self.connections@.contains_key((pattern@[j].0, from_door)));
            }
        }
        true
    }

    /// Enters every pair of a pattern into the pairing, both ways.
    fn enter_pairs(&mut self, pattern: &Vec<(usize, usize)>, from_door: usize, to_door: usize)
        ensures
            final(self).connections@ == commit(
                old(self).connections@,
                pattern@,
                from_door,
                to_door,
                pattern.len() as int,
            ),
            final(self).same_but_pairing(old(self)),
            final(self).remaining_base_doors == old(self).remaining_base_doors,
    {
        let mut k: usize = 0;
        while k < pattern.len()
            invariant
                k <= pattern.len(),
                self.connections@ == commit(
                    old(self).connections@,
                    pattern@,
                    from_door,
                    to_door,
                    k as int,
                ),
                self.same_but_pairing(old(self)),
                self.remaining_base_doors == old(self).remaining_base_doors,
            decreases pattern.len() - k,
        {
            let (from_room, to_room) = pattern[k];
            door_map_insert(&mut self.connections, (from_room, from_door), (to_room, to_door));
            door_map_insert(&mut self.connections, (to_room, to_door), (from_room, from_door));
            k = k + 1;
        }
    }

    /// Takes both ends of every pair of a pattern out of the pairing.
    fn remove_pairs(&mut self, pattern: &Vec<(usize, usize)>, from_door: usize, to_door: usize)
        ensures
            final(self).connections@ == uncommit(
                old(self).connections@,
                pattern@,
                from_door,
                to_door,
                pattern.len() as int,
            ),
            final(self).same_but_pairing(old(self)),
            final(self).remaining_base_doors == old(self).remaining_base_doors,
    {
        let mut k: usize = 0;
        while k < pattern.len()
            invariant
                k <= pattern.len(),
                self.connections@ == uncommit(
                    old(self).connections@,
                    pattern@,
                    from_door,
                    to_door,
                    k as int,
                ),
                self.same_but_pairing(old(self)),
                self.remaining_base_doors == old(self).remaining_base_doors,
            decreases pattern.len() - k,
        {
            let (from_room, to_room) = pattern[k];
            door_map_remove(&mut self.connections, (from_room, from_door));
            door_map_remove(&mut self.connections, (to_room, to_door));
            k = k + 1;
        }
    }

    /// Whether a pattern and two doors can stand for a new edge between the
    /// copies of two base rooms: the pattern joins the copies, and where the
    /// base structure knows one of the doors, it leads to the other room.
    pub open spec fn edge_ok(
        &self,
        pattern: Seq<(usize, usize)>,
        from_door: usize,
        to_door: usize,
    ) -> bool {
        let from_base = (pattern[0].0 % self.num_base_rooms) as usize;
        let to_base = (pattern[0].1 % self.num_base_rooms) as usize;
        let base = self.base_map.connections@;
        &&& pattern.len() >= 1
        &&& twin_pattern_ok(pattern, self.num_base_rooms, self.layer_num, from_base, to_base)
        &&& from_door < 6
        &&& to_door < 6
        &&& base.contains_key((from_base, from_door)) ==> base[(from_base, from_door)] == to_base
        &&& base.contains_key((to_base, to_door)) ==> base[(to_base, to_door)] == from_base
    }

    /// Sets or clears the bit of door `d` among the doors of base room `a`
    /// that lead to base room `b`.
    fn mark_door(&mut self, a: usize, b: usize, d: usize, enabled: bool)
        requires
            old(self).shape_ok(),
            a < old(self).num_base_rooms,
            b < old(self).num_base_rooms,
            d < 6,
        ensures
            final(self).shape_ok(),
            final(self).same_but_pairing(old(self)),
            final(self).connections == old(self).connections,
            forall|x: int, y: int|
                0 <= x < old(self).num_base_rooms && 0 <= y < old(self).num_base_rooms ==> bits_of(
                    #[trigger] final(self).remaining_base_doors[x][y],
                ) == if x == a && y == b {
                    if enabled {
                        bits_of(old(self).remaining_base_doors[x][y]).insert(d as int)
                    } else {
                        bits_of(old(self).remaining_base_doors[x][y]).remove(d as int)
                    }
                } else {
                    bits_of(old(self).remaining_base_doors[x][y])
                },
    {
        bitset_set(&mut self.remaining_base_doors[a][b], d, enabled);
    }

    /// Commits a new edge on every layer at once: each pair of the pattern
    /// is entered into the pairing in both directions, through `from_door`
    /// on the one side and `to_door` on the other, and both doors leave the
    /// sets of doors that are still to be paired. Nothing is committed, and
    /// `false` is returned, where an end of the pattern is paired already or
    /// the pattern itself gives one door two partners.
    pub fn connect_twins(
        &mut self,
        pattern: &Vec<(usize, usize)>,
        from_door: usize,
        to_door: usize,
    ) -> (done: bool)
        requires
            old(self).wf(),
            old(self).edge_ok(pattern@, from_door, to_door),
        ensures
            done == can_commit(old(self).connections@, pattern@, from_door, to_door),
            done ==> final(self).connections@ == commit(
                old(self).connections@,
                pattern@,
                from_door,
                to_door,
                pattern.len() as int,
            ),
            !done ==> final(self).connections@ == old(self).connections@ && final(self).remaining_base_doors == old(self).remaining_base_doors,
            final(self).same_but_pairing(old(self)),
            final(self).wf(),
    {
        let from_base_room = self.room_id_to_base_room(pattern[0].0);
        let to_base_room = self.room_id_to_base_room(pattern[0].1);
        if !self.ends_are_free(pattern, from_door, to_door) {
            return false;
        }
        if !ends_do_agree(pattern, from_door, to_door) {
            return false;
        }
        let ghost before = self.connections@;
        let ghost p = self.problem();
        self.enter_pairs(pattern, from_door, to_door);
        self.mark_door(from_base_room, to_base_room, from_door, false);
        self.mark_door(to_base_room, from_base_room, to_door, false);
        proof {
            let after = self.connections@;
            let n = pattern.len() as int;
            lemma_commit_keeps_pairing(
                before,
                pattern@,
                from_door,
                to_door,
                self.num_base_rooms,
                self.layer_num,
                from_base_room,
                to_base_room,
            );
            lemma_commit_shape(before, pattern@, from_door, to_door, n);
            assert forall|a: int, b: int, d: int|
                0 <= a < self.num_base_rooms && 0 <= b < self.num_base_rooms implies (
            #[trigger] bits_of(self.remaining_base_doors[a][b]).contains(d) <==> 0 <= d < 6
                && leads_back(self.problem(), after, b as usize, a as usize, d as usize)) by {
                if 0 <= d < 6 {
                    lemma_ends_in_first_layer(
                        pattern@,
                        from_door,
                        to_door,
                        self.num_base_rooms,
                        self.layer_num,
                        from_base_room,
                        to_base_room,
                        (a as usize, d as usize),
                    );
                    assert(bits_of(old(self).remaining_base_doors[a][b]).contains(d) <==> leads_back(
                        p,
                        before,
                        b as usize,
                        a as usize,
                        d as usize,
                    ));
                } else {
                    assert(!bits_of(old(self).remaining_base_doors[a][b]).contains(d));
                }
            }
        }
        true
    }

    /// Takes a committed edge out again on every layer: both ends of each
    /// pair of the pattern leave the pairing, and the two doors go back to
    /// the sets of doors that are still to be paired, as far as the base
    /// structure knows them.
    pub fn disconnect_twins(
        &mut self,
        pattern: &Vec<(usize, usize)>,
        from_door: usize,
        to_door: usize,
    )
        requires
            old(self).wf(),
            old(self).edge_ok(pattern@, from_door, to_door),
            committed(old(self).connections@, pattern@, from_door, to_door),
        ensures
            final(self).connections@ == uncommit(
                old(self).connections@,
                pattern@,
                from_door,
                to_door,
                pattern.len() as int,
            ),
            final(self).same_but_pairing(old(self)),
            final(self).wf(),
    {
        let from_base_room = self.room_id_to_base_room(pattern[0].0);
        let to_base_room = self.room_id_to_base_room(pattern[0].1);
        let ghost before = self.connections@;
        let ghost p = self.problem();
        self.remove_pairs(pattern, from_door, to_door);
        let from_known = door_map_get(&self.base_map.connections, (from_base_room, from_door)).is_some();
        let to_known = door_map_get(&self.base_map.connections, (to_base_room, to_door)).is_some();
        self.mark_door(from_base_room, to_base_room, from_door, from_known);
        self.mark_door(to_base_room, from_base_room, to_door, to_known);
        proof {
            let after = self.connections@;
            let n = pattern.len() as int;
            lemma_uncommit_keeps_pairing(
                before,
                pattern@,
                from_door,
                to_door,
                self.num_base_rooms * self.layer_num,
            );
            lemma_uncommit_shape(before, pattern@, from_door, to_door, n);
            assert forall|a: int, b: int, d: int|
                0 <= a < self.num_base_rooms && 0 <= b < self.num_base_rooms implies (
            #[trigger] bits_of(self.remaining_base_doors[a][b]).contains(d) <==> 0 <= d < 6
                && leads_back(self.problem(), after, b as usize, a as usize, d as usize)) by {
                if 0 <= d < 6 {
                    lemma_ends_in_first_layer(
                        pattern@,
                        from_door,
                        to_door,
                        self.num_base_rooms,
                        self.layer_num,
                        from_base_room,
                        to_base_room,
                        (a as usize, d as usize),
                    );
                    assert(bits_of(old(self).remaining_base_doors[a][b]).contains(d) <==> leads_back(
                        p,
                        before,
                        b as usize,
                        a as usize,
                        d as usize,
                    ));
                    if (a as usize, d as usize) == (from_base_room, from_door) {
                        let k = choose|k: int|
                            0 <= k < pattern.len() && (#[trigger] pattern[k]).0 == from_base_room;
                        assert(before.contains_key(from_end(pattern@, from_door, k)));
                    }
                    if (a as usize, d as usize) == (to_base_room, to_door) {
                        let k = choose|k: int|
                            0 <= k < pattern.len() && (#[trigger] pattern[k]).1 == to_base_room;
                        assert(before.contains_key(from_end(pattern@, from_door, k)));
                        assert(before.contains_key(to_end(pattern@, to_door, k)));
                    }
                } else {
                    assert(!bits_of(old(self).remaining_base_doors[a][b]).contains(d));
                }
            }
        }
    }
}

/// An edge that is committed on every layer and then taken out again leaves
/// the pairing and the sets of doors that are still to be paired as they
/// were.
pub proof fn lemma_connect_then_disconnect(
    before: DfsSolver,
    connected: DfsSolver,
    after: DfsSolver,
    pattern: Seq<(usize, usize)>,
    from_door: usize,
    to_door: usize,
)
    requires
        before.wf(),
        after.wf(),
        after.same_problem(&before),
        sides_distinct(pattern),
        can_commit(before.connections@, pattern, from_door, to_door),
        connected.connections@ == commit(
            before.connections@,
            pattern,
            from_door,
            to_door,
            pattern.len() as int,
        ),
        after.connections@ == uncommit(
            connected.connections@,
            pattern,
            from_door,
            to_door,
            pattern.len() as int,
        ),
    ensures
        after.connections@ == before.connections@,
        forall|a: int, b: int|
            0 <= a < before.num_base_rooms && 0 <= b < before.num_base_rooms ==> bits_of(
                #[trigger] after.remaining_base_doors[a][b],
            ) == bits_of(before.remaining_base_doors[a][b]),
{
    lemma_commit_then_uncommit(before.connections@, pattern, from_door, to_door);
    assert forall|a: int, b: int|
        0 <= a < before.num_base_rooms && 0 <= b < before.num_base_rooms implies bits_of(
        #[trigger] after.remaining_base_doors[a][b],
    ) == bits_of(before.remaining_base_doors[a][b]) by {
        let now = bits_of(after.remaining_base_doors[a][b]);
        let then = bits_of(before.remaining_base_doors[a][b]);
        assert forall|d: int| now.contains(d) <==> then.contains(d) by {
            assert(after.problem() == before.problem());
        }
        assert(now =~= then);
    }
}

/// Whether no door is an end of two pairs of a pattern with different
/// partners.
fn ends_do_agree(pattern: &Vec<(usize, usize)>, from_door: usize, to_door: usize) -> (agree: bool)
    ensures
        agree == ends_agree(pattern@, from_door, to_door),
{
    if from_door != to_door {
        return true;
    }
    let mut j: usize = 0;
    while j < pattern.len()
        invariant
            j <= pattern.len(),
            from_door == to_door,
            forall|a: int, b: int|
                0 <= a < j && 0 <= b < pattern.len() && #[trigger] from_end(pattern@, from_door, a)
                    == #[trigger] to_end(pattern@, to_door, b) ==> to_end(pattern@, to_door, a)
                    == from_end(pattern@, from_door, b),
        decreases pattern.len() - j,
    {
        let mut k: usize = 0;
        while k < pattern.len()
            invariant
                j < pattern.len(),
                k <= pattern.len(),
                from_door == to_door,
                forall|b: int|
                    0 <= b < k && from_end(pattern@, from_door, j as int) == #[trigger] to_end(
                        pattern@,
                        to_door,
                        b,
                    ) ==> to_end(pattern@, to_door, j as int) == from_end(pattern@, from_door, b),
            decreases pattern.len() - k,
        {
            if pattern[j].0 == pattern[k].1 && pattern[j].1 != pattern[k].0 {
                proof {
                    assert(from_end(pattern@, from_door, j as int) == to_end(
                        pattern@,
                        to_door,
                        k as int,
                    ));
                    assert(to_end(pattern@, to_door, j as int) != from_end(
                        pattern@,
                        from_door,
                        k as int,
                    ));
                }
                return false;
            }
            k = k + 1;
        }
        j = j + 1;
    }
    true
}

/// Makes an empty set of six doors for every pair of base rooms.
fn empty_door_sets(rooms: usize) -> (sets: Vec<Vec<FixedBitSet>>)
    ensures
        sets.len() == rooms,
        forall|a: int| 0 <= a < rooms ==> (#[trigger] sets[a]).len() == rooms,
        forall|a: int, b: int|
            0 <= a < rooms && 0 <= b < rooms ==> bit_length(#[trigger] sets[a][b]) == 6 && bits_of(
                sets[a][b],
            ) == Set::<int>::empty(),
{
    let mut sets: Vec<Vec<FixedBitSet>> = Vec::new();
    let mut a: usize = 0;
    while a < rooms
        invariant
            a <= rooms,
            sets.len() == a,
            forall|i: int| 0 <= i < a ==> (#[trigger] sets[i]).len() == rooms,
            forall|i: int, b: int|
                0 <= i < a && 0 <= b < rooms ==> bit_length(#[trigger] sets[i][b]) == 6 && bits_of(
                    sets[i][b],
                ) == Set::<int>::empty(),
        decreases rooms - a,
    {
        let mut row: Vec<FixedBitSet> = Vec::new();
        let mut b: usize = 0;
        while b < rooms
            invariant
                b <= rooms,
                row.len() == b,
                forall|j: int|
                    0 <= j < b ==> bit_length(#[trigger] row[j]) == 6 && bits_of(row[j])
                        == Set::<int>::empty(),
            decreases rooms - b,
        {
            row.push(bitset_with_capacity(6));
            b = b + 1;
        }
        sets.push(row);
        a = a + 1;
    }
    sets
}

/// Assigns the first of `n` observations to room 0 and the others to none.
fn fresh_assignment(n: usize) -> (assignment: Vec<isize>)
    ensures
        assignment@ == Seq::new(
            n as nat,
            |i: int|
                if i == 0 {
                    0isize
                } else {
                    -1isize
                },
        ),
{
    let mut assignment: Vec<isize> = Vec::new();
    let mut i: usize = 0;
    while i < n
        invariant
            i <= n,
            assignment.len() == i,
            forall|j: int|
                0 <= j < i ==> assignment[j] == if j == 0 {
                    0isize
                } else {
                    -1isize
                },
        decreases n - i,
    {
        if i == 0 {
            assignment.push(0);
        } else {
            assignment.push(-1);
        }
        i = i + 1;
    }
    proof {
        assert(assignment@ =~= Seq::new(
            n as nat,
            |i: int|
                if i == 0 {
                    0isize
                } else {
                    -1isize
                },
        ));
    }
    assignment
}

} // verus!
