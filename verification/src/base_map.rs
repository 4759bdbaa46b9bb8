//! The base structure: which room each door of each base room leads to, and
//! its completion to a map in which every door has a partner.

use crate::api::FullMap;
use crate::dfs_model::{DoorKey, lowest_door, Pairing, pairing_wf};
use crate::error::SolveError;
use crate::outside::{choose_one, door_map_entries, door_map_get, door_map_insert};
use crate::sa_model::unit;
use crate::submission::{initial_label, key_lt, list_pairs, lists_pairs_once, room_labels};
use fxhash::FxHashMap;
use vstd::prelude::*;

verus! {

/// A partial function from room and door to room, over `num_rooms` rooms.
#[derive(Debug, Clone)]
pub struct BaseMap {
    pub num_rooms: usize,
    pub starting_room: usize,
    /// (room, door) to destination room.
    pub connections: FxHashMap<(usize, usize), usize>,
}

/// A partial function from room and door to room.
pub type DoorTable = Map<DoorKey, usize>;

/// Whether door `d` of room `a` leads to room `b`.
pub open spec fn leads(m: DoorTable, a: usize, d: usize, b: usize) -> bool {
    m.contains_key((a, d)) && m[(a, d)] == b
}

/// Number of doors of room `a` that lead to room `b`.
#[verifier::opaque]
pub open spec fn doors_to(m: DoorTable, a: usize, b: usize) -> int {
    unit(leads(m, a, 0, b)) + unit(leads(m, a, 1, b)) + unit(leads(m, a, 2, b)) + unit(
        leads(m, a, 3, b),
    ) + unit(leads(m, a, 4, b)) + unit(leads(m, a, 5, b))
}

/// The lowest door of room `r` that leads nowhere yet, if there is one.
pub open spec fn free_door(m: DoorTable, r: usize) -> Option<usize> {
    lowest_door(|d: usize| !m.contains_key((r, d)))
}

/// The table after up to `n` further doors of `from`, each time the lowest
/// free one, are made to lead to `to`; fewer where `from` runs out of doors.
pub open spec fn top_up(m: DoorTable, from: usize, to: usize, n: int) -> DoorTable
    decreases n,
{
    if n <= 0 {
        m
    } else {
        match free_door(m, from) {
            None => m,
            Some(d) => top_up(m.insert((from, d), to), from, to, n - 1),
        }
    }
}

/// The table after the room that has fewer doors to the other one of `r1`
/// and `r2` got as many as the other has to it, as far as it has doors
/// left.
pub open spec fn balance_pair(m: DoorTable, r1: usize, r2: usize) -> DoorTable {
    let there = doors_to(m, r1, r2);
    let back = doors_to(m, r2, r1);
    if there > back {
        top_up(m, r2, r1, there - back)
    } else {
        top_up(m, r1, r2, back - there)
    }
}

/// The table after room `r1` is balanced with the rooms from `r1 + 1` up to
/// `upto`, in that order.
pub open spec fn balance_row(m: DoorTable, r1: usize, upto: int) -> DoorTable
    decreases upto,
{
    if upto <= r1 + 1 {
        m
    } else {
        balance_pair(balance_row(m, r1, upto - 1), r1, (upto - 1) as usize)
    }
}

/// The table after each of the first `n` rooms is balanced with every later
/// room, of `rooms` rooms in all.
pub open spec fn balance_rows(m: DoorTable, rooms: usize, n: int) -> DoorTable
    decreases n,
{
    if n <= 0 {
        m
    } else {
        balance_row(balance_rows(m, rooms, n - 1), (n - 1) as usize, rooms as int)
    }
}

/// The table in which every door below `door` of room `room`, and every
/// door of the rooms below it, that led nowhere leads back to its own room.
pub open spec fn with_self_loops(m: DoorTable, room: int, door: int) -> DoorTable {
    Map::new(
        |key: DoorKey|
            m.contains_key(key) || (key.1 < 6 && (key.0 < room || (key.0 == room && key.1
                < door))),
        |key: DoorKey|
            if m.contains_key(key) {
                m[key]
            } else {
                key.0
            },
    )
}

/// The completion of a table over `rooms` rooms: every pair of rooms is
/// balanced, in order, and what is left leads back to its own room.
pub open spec fn filled(m: DoorTable, rooms: usize) -> DoorTable {
    with_self_loops(balance_rows(m, rooms, rooms as int), rooms as int, 0)
}

/// Whether a table stays within `rooms` rooms and six doors.
pub open spec fn table_wf(m: DoorTable, rooms: usize) -> bool {
    forall|key: DoorKey| #[trigger]
        m.contains_key(key) ==> key.0 < rooms && key.1 < 6 && m[key] < rooms
}

/// Whether every door of every room leads somewhere.
pub open spec fn table_total(m: DoorTable, rooms: usize) -> bool {
    forall|r: usize, d: usize| r < rooms && d < 6 ==> #[trigger] m.contains_key((r, d))
}

/// Whether every pair of rooms has as many doors one way as the other.
pub open spec fn balanced(m: DoorTable, rooms: usize) -> bool {
    forall|a: usize, b: usize|
        a < rooms && b < rooms ==> #[trigger] doors_to(m, a, b) == doors_to(m, b, a)
}

/// Whether `large` holds every entry of `small`.
pub open spec fn table_extends(large: DoorTable, small: DoorTable) -> bool {
    forall|key: DoorKey| #[trigger]
        small.contains_key(key) ==> large.contains_key(key) && large[key] == small[key]
}

/// Topping up keeps a table within its rooms and doors and keeps what it
/// held.
pub proof fn lemma_top_up_keeps(m: DoorTable, from: usize, to: usize, n: int, rooms: usize)
    requires
        table_wf(m, rooms),
        from < rooms,
        to < rooms,
    ensures
        table_wf(top_up(m, from, to, n), rooms),
        table_extends(top_up(m, from, to, n), m),
    decreases n,
{
    if n > 0 {
        match free_door(m, from) {
            None => {},
            Some(d) => {
                let next = m.insert((from, d), to);
                assert(d < 6 && !m.contains_key((from, d)));
                lemma_top_up_keeps(next, from, to, n - 1, rooms);
                assert forall|key: DoorKey| #[trigger] m.contains_key(key) implies top_up(
                    m,
                    from,
                    to,
                    n,
                ).contains_key(key) && top_up(m, from, to, n)[key] == m[key] by {
                    assert(next.contains_key(key));
                }
            },
        }
    }
}

/// Balancing one room with the later ones keeps a table within its rooms and
/// doors and keeps what it held.
pub proof fn lemma_balance_row_keeps(m: DoorTable, r1: usize, upto: int, rooms: usize)
    requires
        table_wf(m, rooms),
        r1 < rooms,
        upto <= rooms,
    ensures
        table_wf(balance_row(m, r1, upto), rooms),
        table_extends(balance_row(m, r1, upto), m),
    decreases upto,
{
    if upto > r1 + 1 {
        lemma_balance_row_keeps(m, r1, upto - 1, rooms);
        let before = balance_row(m, r1, upto - 1);
        let r2 = (upto - 1) as usize;
        let there = doors_to(before, r1, r2);
        let back = doors_to(before, r2, r1);
        lemma_top_up_keeps(before, r2, r1, there - back, rooms);
        lemma_top_up_keeps(before, r1, r2, back - there, rooms);
    }
}

/// Balancing every pair of rooms keeps a table within its rooms and doors
/// and keeps what it held.
pub proof fn lemma_balance_rows_keeps(m: DoorTable, rooms: usize, n: int)
    requires
        table_wf(m, rooms),
        n <= rooms,
    ensures
        table_wf(balance_rows(m, rooms, n), rooms),
        table_extends(balance_rows(m, rooms, n), m),
    decreases n,
{
    if n > 0 {
        lemma_balance_rows_keeps(m, rooms, n - 1);
        lemma_balance_row_keeps(balance_rows(m, rooms, n - 1), (n - 1) as usize, rooms as int, rooms);
    }
}

/// The completion of a table holds the table, stays within its rooms and
/// doors, and leaves no door that leads nowhere.
pub proof fn lemma_filled(m: DoorTable, rooms: usize)
    requires
        table_wf(m, rooms),
    ensures
        table_wf(filled(m, rooms), rooms),
        table_total(filled(m, rooms), rooms),
        table_extends(filled(m, rooms), m),
{
    lemma_balance_rows_keeps(m, rooms, rooms as int);
}

/// Number of doors of room `a` that lead to room `b` and have no partner
/// yet.
#[verifier::opaque]
pub open spec fn unpaired_to(m: DoorTable, pairs: Pairing, a: usize, b: usize) -> int {
    unit(leads(m, a, 0, b) && !pairs.contains_key((a, 0))) + unit(
        leads(m, a, 1, b) && !pairs.contains_key((a, 1)),
    ) + unit(leads(m, a, 2, b) && !pairs.contains_key((a, 2))) + unit(
        leads(m, a, 3, b) && !pairs.contains_key((a, 3)),
    ) + unit(leads(m, a, 4, b) && !pairs.contains_key((a, 4))) + unit(
        leads(m, a, 5, b) && !pairs.contains_key((a, 5)),
    )
}

/// Whether the doors without a partner are as far from balance, for every
/// pair of rooms, as the doors of the table are.
pub open spec fn imbalance_kept(m: DoorTable, pairs: Pairing, rooms: usize) -> bool {
    forall|a: usize, b: usize|
        a < rooms && b < rooms ==> #[trigger] unpaired_to(m, pairs, a, b) - unpaired_to(
            m,
            pairs,
            b,
            a,
        ) == doors_to(m, a, b) - doors_to(m, b, a)
}

/// Giving one door a partner takes it from the doors without a partner
/// that lead where it leads, and from no others.
pub proof fn lemma_unpaired_insert(
    m: DoorTable,
    pairs: Pairing,
    x: DoorKey,
    partner: DoorKey,
    a: usize,
    b: usize,
)
    requires
        x.1 < 6,
    ensures
        unpaired_to(m, pairs.insert(x, partner), a, b) == unpaired_to(m, pairs, a, b) - unit(
            a == x.0 && leads(m, x.0, x.1, b) && !pairs.contains_key(x),
        ),
{
    reveal(unpaired_to);
}

/// Where nothing has a partner, the doors without a partner are the doors.
pub proof fn lemma_unpaired_start(m: DoorTable, a: usize, b: usize)
    ensures
        unpaired_to(m, Map::<DoorKey, DoorKey>::empty(), a, b) == doors_to(m, a, b),
{
    reveal(unpaired_to);
    reveal(doors_to);
}

/// Where every door has a partner, no door is without one.
pub proof fn lemma_unpaired_end(m: DoorTable, pairs: Pairing, a: usize, b: usize)
    requires
        forall|d: usize| d < 6 ==> pairs.contains_key((a, d)),
    ensures
        unpaired_to(m, pairs, a, b) == 0,
{
    reveal(unpaired_to);
}

/// A door without a partner that leads from `a` to `b` is counted; and
/// where the count is not zero there is such a door.
pub proof fn lemma_unpaired_witness(m: DoorTable, pairs: Pairing, a: usize, b: usize)
    ensures
        0 <= unpaired_to(m, pairs, a, b),
        forall|d: usize|
            d < 6 && leads(m, a, d, b) && !pairs.contains_key((a, d)) ==> unpaired_to(
                m,
                pairs,
                a,
                b,
            ) >= 1,
        unpaired_to(m, pairs, a, b) >= 1 ==> exists|d: usize|
            d < 6 && #[trigger] leads(m, a, d, b) && !pairs.contains_key((a, d)),
{
    reveal(unpaired_to);
    if unpaired_to(m, pairs, a, b) >= 1 {
        if leads(m, a, 0, b) && !pairs.contains_key((a, 0)) {
        } else if leads(m, a, 1, b) && !pairs.contains_key((a, 1)) {
        } else if leads(m, a, 2, b) && !pairs.contains_key((a, 2)) {
        } else if leads(m, a, 3, b) && !pairs.contains_key((a, 3)) {
        } else if leads(m, a, 4, b) && !pairs.contains_key((a, 4)) {
        } else {
            assert(leads(m, a, 5, b) && !pairs.contains_key((a, 5)));
        }
    }
}

/// Lists the doors of room `at` that lead to room `back` and have no
/// partner yet.
fn returning_doors(
    m: &FxHashMap<(usize, usize), usize>,
    pairs: &FxHashMap<(usize, usize), (usize, usize)>,
    at: usize,
    back: usize,
) -> (doors: Vec<usize>)
    ensures
        forall|d: usize|
            doors@.contains(d) <==> d < 6 && leads(m@, at, d, back) && !pairs@.contains_key(
                (at, d),
            ),
{
    let mut doors: Vec<usize> = Vec::new();
    let mut door: usize = 0;
    while door < 6
        invariant
            door <= 6,
            forall|d: usize|
                doors@.contains(d) <==> d < door && leads(m@, at, d, back)
                    && !pairs@.contains_key((at, d)),
        decreases 6 - door,
    {
        if door_map_get(pairs, (at, door)).is_none() && door_map_get(m, (at, door)) == Some(back) {
            let ghost before = doors@;
            doors.push(door);
            proof {
                assert(doors@[before.len() as int] == door);
                assert forall|d: usize|
                    doors@.contains(d) <==> d < door + 1 && leads(m@, at, d, back)
                        && !pairs@.contains_key((at, d)) by {
                    if doors@.contains(d) {
                        let i = choose|i: int| 0 <= i < doors@.len() && doors@[i] == d;
                        if i < before.len() {
                            assert(before[i] == d);
                            assert(before.contains(d));
                        }
                    }
                    if d < door && leads(m@, at, d, back) && !pairs@.contains_key((at, d)) {
                        assert(before.contains(d));
                        let i = choose|i: int| 0 <= i < before.len() && before[i] == d;
                        assert(doors@[i] == d);
                    }
                }
            }
        }
        door = door + 1;
    }
    doors
}

/// Counts the doors of room `a` that lead to room `b`.
fn count_doors_to(m: &FxHashMap<(usize, usize), usize>, a: usize, b: usize) -> (n: usize)
    ensures
        n == doors_to(m@, a, b),
        n <= 6,
{
    proof {
        reveal(doors_to);
    }
    let mut n: usize = 0;
    if door_map_get(m, (a, 0)) == Some(b) {
        n = n + 1;
    }
    if door_map_get(m, (a, 1)) == Some(b) {
        n = n + 1;
    }
    if door_map_get(m, (a, 2)) == Some(b) {
        n = n + 1;
    }
    if door_map_get(m, (a, 3)) == Some(b) {
        n = n + 1;
    }
    if door_map_get(m, (a, 4)) == Some(b) {
        n = n + 1;
    }
    if door_map_get(m, (a, 5)) == Some(b) {
        n = n + 1;
    }
    n
}

/// Finds the lowest door of room `r` that leads nowhere yet.
fn first_free_door(m: &FxHashMap<(usize, usize), usize>, r: usize) -> (door: Option<usize>)
    ensures
        door == free_door(m@, r),
        door is Some ==> door->0 < 6 && !m@.contains_key((r, door->0)),
{
    let mut d: usize = 0;
    while d < 6
        invariant
            d <= 6,
            forall|e: usize| e < d ==> m@.contains_key((r, e)),
        decreases 6 - d,
    {
        if door_map_get(m, (r, d)).is_none() {
            return Some(d);
        }
        d = d + 1;
    }
    None
}

/// Makes up to `n` further doors of `from`, each time the lowest free one,
/// lead to `to`.
fn add_doors(m: &mut FxHashMap<(usize, usize), usize>, from: usize, to: usize, n: usize)
    ensures
        final(m)@ == top_up(old(m)@, from, to, n as int),
{
    let mut left = n;
    while left > 0
        invariant
            top_up(m@, from, to, left as int) == top_up(old(m)@, from, to, n as int),
        decreases left,
    {
        match first_free_door(m, from) {
            Some(door) => {
                door_map_insert(m, (from, door), to);
                left = left - 1;
            },
            None => {
                left = 0;
            },
        }
    }
}

/// Copies a table of doors.
fn copy_table(m: &FxHashMap<(usize, usize), usize>) -> (copy: FxHashMap<(usize, usize), usize>)
    ensures
        copy@ == m@,
{
    let entries = door_map_entries(m);
    let mut copy: FxHashMap<(usize, usize), usize> = FxHashMap::default();
    let mut k: usize = 0;
    while k < entries.len()
        invariant
            k <= entries.len(),
            forall|i: int|
                0 <= i < entries.len() ==> m@.contains_key((#[trigger] entries[i]).0) && m@[entries[i].0]
                    == entries[i].1,
            forall|key: (usize, usize)|
                copy@.contains_key(key) <==> exists|i: int| 0 <= i < k && entries[i].0 == key,
            forall|key: (usize, usize)| copy@.contains_key(key) ==> copy@[key] == m@[key],
        decreases entries.len() - k,
    {
        let (key, value) = entries[k];
        let ghost before = copy@;
        door_map_insert(&mut copy, key, value);
        proof {
            assert forall|other: (usize, usize)| copy@.contains_key(other) implies exists|i: int|
                0 <= i < k + 1 && entries[i].0 == other by {
                if other == key {
                    assert(entries[k as int].0 == other);
                } else {
                    assert(before.contains_key(other));
                    let i = choose|i: int| 0 <= i < k && entries[i].0 == other;
                    assert(entries[i].0 == other);
                }
            }
        }
        k = k + 1;
    }
    proof {
        assert forall|key: (usize, usize)| m@.contains_key(key) implies copy@.contains_key(key) by {
            let i = choose|i: int| 0 <= i < entries.len() && entries[i].0 == key;
        }
        assert(copy@ =~= m@);
    }
    copy
}

impl BaseMap {
    /// Every entry names a room and a door that exist and leads to a room
    /// that exists.
    pub open spec fn wf(&self) -> bool {
        table_wf(self.connections@, self.num_rooms)
    }

    /// A base map over `num_rooms` rooms without any connection.
    pub fn new(num_rooms: usize) -> (m: BaseMap)
        ensures
            m.num_rooms == num_rooms,
            m.starting_room == 0,
            m.connections@ == Map::<(usize, usize), usize>::empty(),
    {
        BaseMap { num_rooms, starting_room: 0, connections: FxHashMap::default() }
    }

    /// Lists the doors that lead somewhere, room by room and door by door,
    /// each with the room it leads to.
    pub fn print_connections(&self) -> (list: Vec<((usize, usize), usize)>)
        ensures
            forall|i: int|
                0 <= i < list.len() ==> self.connections@.contains_key((#[trigger] list[i]).0)
                    && self.connections@[list[i].0] == list[i].1 && list[i].0.0 < self.num_rooms
                    && list[i].0.1 < 6,
            forall|room: usize, door: usize|
                room < self.num_rooms && door < 6 && #[trigger] self.connections@.contains_key(
                    (room, door),
                ) ==> exists|i: int| 0 <= i < list.len() && (#[trigger] list[i]).0 == (room, door),
            forall|i: int, j: int|
                0 <= i < j < list.len() ==> key_lt((#[trigger] list[i]).0, (#[trigger] list[j]).0),
    {
        let mut list: Vec<((usize, usize), usize)> = Vec::new();
        let ghost m = self.connections@;
        let mut from_room: usize = 0;
        while from_room < self.num_rooms
            invariant
                from_room <= self.num_rooms,
                m == self.connections@,
                forall|i: int|
                    0 <= i < list.len() ==> m.contains_key((#[trigger] list[i]).0) && m[list[i].0]
                        == list[i].1 && list[i].0.0 < from_room && list[i].0.1 < 6,
                forall|room: usize, door: usize|
                    room < from_room && door < 6 && #[trigger] m.contains_key((room, door))
                        ==> exists|i: int|
                        0 <= i < list.len() && (#[trigger] list[i]).0 == (room, door),
                forall|i: int, j: int|
                    0 <= i < j < list.len() ==> key_lt(
                        (#[trigger] list[i]).0,
                        (#[trigger] list[j]).0,
                    ),
            decreases self.num_rooms - from_room,
        {
            let mut door: usize = 0;
            while door < 6
                invariant
                    from_room < self.num_rooms,
                    door <= 6,
                    m == self.connections@,
                    forall|i: int|
                        0 <= i < list.len() ==> m.contains_key((#[trigger] list[i]).0)
                            && m[list[i].0] == list[i].1 && list[i].0.1 < 6 && (list[i].0.0
                            < from_room || (list[i].0.0 == from_room && list[i].0.1 < door)),
                    forall|room: usize, d: usize|
                        (room < from_room || (room == from_room && d < door)) && d < 6
                            && #[trigger] m.contains_key((room, d)) ==> exists|i: int|
                            0 <= i < list.len() && (#[trigger] list[i]).0 == (room, d),
                    forall|i: int, j: int|
                        0 <= i < j < list.len() ==> key_lt(
                            (#[trigger] list[i]).0,
                            (#[trigger] list[j]).0,
                        ),
                decreases 6 - door,
            {
                match door_map_get(&self.connections, (from_room, door)) {
                    Some(to_room) => {
                        let ghost before = list@;
                        list.push(((from_room, door), to_room));
                        proof {
                            assert(list[before.len() as int].0 == (from_room, door));
                            assert forall|room: usize, d: usize|
                                (room < from_room || (room == from_room && d < door + 1)) && d < 6
                                    && #[trigger] m.contains_key((room, d)) implies exists|i: int|
                                0 <= i < list.len() && (#[trigger] list[i]).0 == (room, d) by {
                                if room == from_room && d == door {
                                    assert(list[before.len() as int].0 == (room, d));
                                } else {
                                    let i = choose|i: int|
                                        0 <= i < before.len() && (#[trigger] before[i]).0 == (
                                            room,
                                            d,
                                        );
                                    assert(list[i].0 == (room, d));
                                }
                            }
                        }
                    },
                    None => {},
                }
                door = door + 1;
            }
            from_room = from_room + 1;
        }
        list
    }

    /// Completes the map: wherever one room has more doors to another than
    /// the other has back, the other gets doors back at its lowest free
    /// doors, as far as it has any; every door that then still leads nowhere
    /// leads back to its own room.
    pub fn fill_missing_connections(&self) -> (full: BaseMap)
        requires
            self.wf(),
        ensures
            full.num_rooms == self.num_rooms,
            full.starting_room == self.starting_room,
            full.connections@ == filled(self.connections@, self.num_rooms),
            full.wf(),
            table_total(full.connections@, self.num_rooms),
            table_extends(full.connections@, self.connections@),
    {
        let rooms = self.num_rooms;
        let mut full_connections = copy_table(&self.connections);
        let ghost start = self.connections@;
        let mut r1: usize = 0;
        while r1 < rooms
            invariant
                r1 <= rooms,
                start == self.connections@,
                full_connections@ == balance_rows(start, rooms, r1 as int),
            decreases rooms - r1,
        {
            let ghost row_start = full_connections@;
            let mut r2: usize = r1 + 1;
            while r2 < rooms
                invariant
                    r1 < rooms,
                    r1 + 1 <= r2 <= rooms,
                    full_connections@ == balance_row(row_start, r1, r2 as int),
                decreases rooms - r2,
            {
                let there = count_doors_to(&full_connections, r1, r2);
                let back = count_doors_to(&full_connections, r2, r1);
                if there > back {
                    add_doors(&mut full_connections, r2, r1, there - back);
                } else {
                    add_doors(&mut full_connections, r1, r2, back - there);
                }
                r2 = r2 + 1;
            }
            proof {
                if r1 + 1 >= rooms {
                    assert(balance_row(row_start, r1, rooms as int) == row_start);
                }
            }
            r1 = r1 + 1;
        }
        let ghost even = full_connections@;
        let mut room: usize = 0;
        proof {
            assert(full_connections@ =~= with_self_loops(even, 0, 0));
        }
        while room < rooms
            invariant
                room <= rooms,
                full_connections@ == with_self_loops(even, room as int, 0),
            decreases rooms - room,
        {
            let mut door: usize = 0;
            while door < 6
                invariant
                    room < rooms,
                    door <= 6,
                    full_connections@ == with_self_loops(even, room as int, door as int),
                decreases 6 - door,
            {
                if door_map_get(&full_connections, (room, door)).is_none() {
                    door_map_insert(&mut full_connections, (room, door), room);
                }
                proof {
                    assert(full_connections@ =~= with_self_loops(even, room as int, door + 1));
                }
                door = door + 1;
            }
            proof {
                assert(full_connections@ =~= with_self_loops(even, room + 1, 0));
            }
            room = room + 1;
        }
        proof {
            lemma_filled(start, rooms);
        }
        BaseMap {
            num_rooms: self.num_rooms,
            starting_room: self.starting_room,
            connections: full_connections,
        }
    }

    /// Pairs every door with a door of the room it leads to that leads back
    /// and has no partner yet; where several do, one of them is drawn. That
    /// works out, whichever doors are drawn, exactly where every pair of
    /// rooms has as many doors one way as the other.
    pub fn build_bidirectional_door_map(&self) -> (r: Result<
        FxHashMap<(usize, usize), (usize, usize)>,
        SolveError,
    >)
        requires
            self.wf(),
            table_total(self.connections@, self.num_rooms),
        ensures
            match r {
                Ok(pairs) => {
                    &&& balanced(self.connections@, self.num_rooms)
                    &&& pairing_wf(pairs@, self.num_rooms as int)
                    &&& forall|room: usize, door: usize|
                        room < self.num_rooms && door < 6 ==> #[trigger] pairs@.contains_key(
                            (room, door),
                        )
                    &&& forall|key: DoorKey| #[trigger]
                        pairs@.contains_key(key) ==> pairs@[key].0 == self.connections@[key]
                },
                Err(e) => e == SolveError::BaseMapInconsistent && !balanced(
                    self.connections@,
                    self.num_rooms,
                ),
            },
    {
        let rooms = self.num_rooms;
        let ghost m = self.connections@;
        let mut door_map: FxHashMap<(usize, usize), (usize, usize)> = FxHashMap::default();
        proof {
            assert forall|a: usize, b: usize| a < rooms && b < rooms implies #[trigger] unpaired_to(
                m,
                door_map@,
                a,
                b,
            ) - unpaired_to(m, door_map@, b, a) == doors_to(m, a, b) - doors_to(m, b, a) by {
                lemma_unpaired_start(m, a, b);
                lemma_unpaired_start(m, b, a);
            }
        }
        let mut from_room: usize = 0;
        while from_room < rooms
            invariant
                from_room <= rooms,
                rooms == self.num_rooms,
                m == self.connections@,
                table_wf(m, rooms),
                table_total(m, rooms),
                pairing_wf(door_map@, rooms as int),
                imbalance_kept(m, door_map@, rooms),
                forall|key: DoorKey| #[trigger]
                    door_map@.contains_key(key) ==> door_map@[key].0 == m[key],
                forall|r: usize, d: usize|
                    r < from_room && d < 6 ==> #[trigger] door_map@.contains_key((r, d)),
            decreases rooms - from_room,
        {
            let mut from_door: usize = 0;
            while from_door < 6
                invariant
                    from_room < rooms,
                    from_door <= 6,
                    rooms == self.num_rooms,
                    m == self.connections@,
                    table_wf(m, rooms),
                    table_total(m, rooms),
                    pairing_wf(door_map@, rooms as int),
                    imbalance_kept(m, door_map@, rooms),
                    forall|key: DoorKey| #[trigger]
                        door_map@.contains_key(key) ==> door_map@[key].0 == m[key],
                    forall|r: usize, d: usize|
                        (r < from_room || (r == from_room && d < from_door)) && d < 6
                            ==> #[trigger] door_map@.contains_key((r, d)),
                decreases 6 - from_door,
            {
                let from_rd = (from_room, from_door);
                if door_map_get(&door_map, from_rd).is_none() {
                    assert(m.contains_key((from_room, from_door)));
                    let to_room = match door_map_get(&self.connections, from_rd) {
                        Some(room) => room,
                        None => from_room,
                    };
                    let candidates = returning_doors(
                        &self.connections,
                        &door_map,
                        to_room,
                        from_room,
                    );
                    let ghost before = door_map@;
                    proof {
                        lemma_unpaired_witness(m, before, from_room, to_room);
                        lemma_unpaired_witness(m, before, to_room, from_room);
                        assert(leads(m, from_room, from_door, to_room));
                        assert(!before.contains_key((from_room, from_door)));
                        assert(unpaired_to(m, before, from_room, to_room) >= 1);
                    }
                    let to_door = match choose_one(&candidates) {
                        Some(door) => door,
                        None => {
                            proof {
                                if balanced(m, rooms) {
                                    assert(unpaired_to(m, before, from_room, to_room)
                                        - unpaired_to(m, before, to_room, from_room) == doors_to(
                                        m,
                                        from_room,
                                        to_room,
                                    ) - doors_to(m, to_room, from_room));
                                    assert(doors_to(m, from_room, to_room) == doors_to(
                                        m,
                                        to_room,
                                        from_room,
                                    ));
                                    let d = choose|d: usize|
                                        d < 6 && #[trigger] leads(m, to_room, d, from_room)
                                            && !before.contains_key((to_room, d));
                                    assert(candidates@.contains(d));
                                }
                            }
                            return Err(SolveError::BaseMapInconsistent);
                        },
                    };
                    let to_rd = (to_room, to_door);
                    proof {
                        assert(candidates@.contains(to_door));
                    }
                    door_map_insert(&mut door_map, from_rd, to_rd);
                    let ghost middle = door_map@;
                    door_map_insert(&mut door_map, to_rd, from_rd);
                    proof {
                        assert forall|a: usize, b: usize|
                            a < rooms && b < rooms implies #[trigger] unpaired_to(
                            m,
                            door_map@,
                            a,
                            b,
                        ) - unpaired_to(m, door_map@, b, a) == doors_to(m, a, b) - doors_to(
                            m,
                            b,
                            a,
                        ) by {
                            lemma_unpaired_insert(m, before, from_rd, to_rd, a, b);
                            lemma_unpaired_insert(m, before, from_rd, to_rd, b, a);
                            lemma_unpaired_insert(m, middle, to_rd, from_rd, a, b);
                            lemma_unpaired_insert(m, middle, to_rd, from_rd, b, a);
                            assert(unpaired_to(m, before, a, b) - unpaired_to(m, before, b, a)
                                == doors_to(m, a, b) - doors_to(m, b, a));
                        }
                        assert forall|key: DoorKey| #[trigger]
                            door_map@.contains_key(key) implies {
                            &&& key.0 < rooms
                            &&& key.1 < 6
                            &&& door_map@[key].0 < rooms
                            &&& door_map@[key].1 < 6
                            &&& door_map@.contains_key(door_map@[key])
                            &&& door_map@[door_map@[key]] == key
                        } by {
                            if key != from_rd && key != to_rd {
                                assert(before.contains_key(key));
                                assert(before.contains_key(before[key]));
                            }
                        }
                    }
                }
                from_door = from_door + 1;
            }
            from_room = from_room + 1;
        }
        proof {
            assert forall|a: usize, b: usize| a < rooms && b < rooms implies #[trigger] doors_to(
                m,
                a,
                b,
            ) == doors_to(m, b, a) by {
                lemma_unpaired_end(m, door_map@, a, b);
                lemma_unpaired_end(m, door_map@, b, a);
                assert(unpaired_to(m, door_map@, a, b) - unpaired_to(m, door_map@, b, a)
                    == doors_to(m, a, b) - doors_to(m, b, a));
            }
        }
        Ok(door_map)
    }

    /// Builds the map that is submitted for this base map alone: the map is
    /// completed, its doors are paired, and every pair is listed once.
    pub fn to_submission_map(&self) -> (r: Result<FullMap, SolveError>)
        requires
            self.wf(),
        ensures
            match r {
                Ok(map) => balanced(filled(self.connections@, self.num_rooms), self.num_rooms)
                    && exists|pairs: Pairing|
                    {
                        &&& pairing_wf(pairs, self.num_rooms as int)
                        &&& forall|room: usize, door: usize|
                            room < self.num_rooms && door < 6 ==> #[trigger] pairs.contains_key(
                                (room, door),
                            )
                        &&& forall|key: DoorKey| #[trigger]
                            pairs.contains_key(key) ==> pairs[key].0 == filled(
                                self.connections@,
                                self.num_rooms,
                            )[key]
                        &&& lists_pairs_once(map.connections@, pairs, self.num_rooms as int)
                    } && map.starting_room == self.starting_room && map.rooms@ == Seq::new(
                    self.num_rooms as nat,
                    |i: int| initial_label(i, self.num_rooms as int) as usize,
                ),
                Err(e) => e == SolveError::BaseMapInconsistent && !balanced(
                    filled(self.connections@, self.num_rooms),
                    self.num_rooms,
                ),
            },
    {
        let full_connections = self.fill_missing_connections();
        match full_connections.build_bidirectional_door_map() {
            Ok(door_map) => Ok(
                FullMap {
                    rooms: room_labels(self.num_rooms, self.num_rooms),
                    starting_room: self.starting_room,
                    connections: list_pairs(&door_map, self.num_rooms),
                },
            ),
            Err(e) => Err(e),
        }
    }
}

} // verus!
