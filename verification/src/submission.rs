//! The map in the form in which it is submitted: the label of every room,
//! the starting room, and every pair of doors once.

use crate::api::{Connection, FullMap, RoomAndDoor};
use crate::dfs_model::{DoorKey, Pairing, pairing_wf};
use crate::outside::door_map_get;
use fxhash::FxHashMap;
use vstd::prelude::*;

verus! {

/// The label that room `i` of a layered map over `rooms` base rooms
/// carries at the start.
pub open spec fn initial_label(i: int, rooms: int) -> int {
    (i % rooms) % 4
}

/// The room and door of a door of the submission.
pub open spec fn key_of(rd: RoomAndDoor) -> DoorKey {
    (rd.room, rd.door)
}

/// Whether door `a` comes no later than door `b`, by room and then by door.
pub open spec fn key_le(a: DoorKey, b: DoorKey) -> bool {
    a.0 < b.0 || (a.0 == b.0 && a.1 <= b.1)
}

/// Whether door `a` comes before door `b`, by room and then by door.
pub open spec fn key_lt(a: DoorKey, b: DoorKey) -> bool {
    a.0 < b.0 || (a.0 == b.0 && a.1 < b.1)
}

/// Whether a list names each pair of a pairing once: from the earlier of
/// its two doors to the later one, the pairs in the order of their earlier
/// doors.
pub open spec fn lists_pairs_once(list: Seq<Connection>, conn: Pairing, total: int) -> bool {
    &&& forall|i: int|
        0 <= i < list.len() ==> conn.contains_key(key_of((#[trigger] list[i]).from)) && conn[key_of(
            list[i].from,
        )] == key_of(list[i].to) && key_le(key_of(list[i].from), key_of(list[i].to))
    &&& forall|room: usize, door: usize|
        room < total && door < 6 && #[trigger] conn.contains_key((room, door)) && key_le(
            (room, door),
            conn[(room, door)],
        ) ==> exists|i: int| 0 <= i < list.len() && key_of((#[trigger] list[i]).from) == (room, door)
    &&& forall|i: int, j: int|
        0 <= i < j < list.len() ==> key_lt(
            key_of((#[trigger] list[i]).from),
            key_of((#[trigger] list[j]).from),
        )
}

/// Whether a map is the submission for a pairing over `total` rooms, lifted
/// from `rooms` base rooms: room 0 first, every room with the label of its
/// base room, every pair of doors once.
pub open spec fn is_submission(map: FullMap, conn: Pairing, rooms: usize, total: int) -> bool {
    &&& map.starting_room == 0
    &&& map.rooms@ == Seq::new(total as nat, |i: int| initial_label(i, rooms as int) as usize)
    &&& lists_pairs_once(map.connections@, conn, total)
}

/// Whether a listed pair has door `key` at one of its ends.
pub open spec fn names(c: Connection, key: DoorKey) -> bool {
    key_of(c.from) == key || key_of(c.to) == key
}

/// A list that names each pair of a pairing once names every paired door in
/// exactly one of its entries.
pub proof fn lemma_every_door_listed_once(
    list: Seq<Connection>,
    conn: Pairing,
    total: int,
    key: DoorKey,
)
    requires
        lists_pairs_once(list, conn, total),
        pairing_wf(conn, total),
        conn.contains_key(key),
    ensures
        exists|i: int| 0 <= i < list.len() && names(#[trigger] list[i], key),
        forall|i: int, j: int|
            0 <= i < list.len() && 0 <= j < list.len() && names(#[trigger] list[i], key) && names(
                #[trigger] list[j],
                key,
            ) ==> i == j,
{
    let partner = conn[key];
    assert(conn.contains_key(partner) && conn[partner] == key);
    if key_le(key, partner) {
        assert(conn.contains_key((key.0, key.1)));
        let i = choose|i: int| 0 <= i < list.len() && key_of((#[trigger] list[i]).from) == key;
        assert(names(list[i], key));
    } else {
        assert(key_le(partner, key));
        assert(conn.contains_key((partner.0, partner.1)));
        let i = choose|i: int|
            0 <= i < list.len() && key_of((#[trigger] list[i]).from) == partner;
        assert(key_of(list[i].to) == key);
        assert(names(list[i], key));
    }
    assert forall|i: int, j: int|
        0 <= i < list.len() && 0 <= j < list.len() && names(#[trigger] list[i], key) && names(
            #[trigger] list[j],
            key,
        ) implies i == j by {
        let fi = key_of(list[i].from);
        let fj = key_of(list[j].from);
        assert(conn.contains_key(fi) && conn[fi] == key_of(list[i].to));
        assert(conn.contains_key(fj) && conn[fj] == key_of(list[j].to));
        assert(conn[conn[fi]] == fi);
        assert(conn[conn[fj]] == fj);
        assert(fi == fj);
        if i < j {
            assert(key_lt(key_of(list[i].from), key_of(list[j].from)));
        }
        if j < i {
            assert(key_lt(key_of(list[j].from), key_of(list[i].from)));
        }
    }
}

/// Gives every room of the layered map the label of its base room.
pub fn room_labels(rooms: usize, total: usize) -> (labels: Vec<usize>)
    requires
        1 <= rooms || total == 0,
    ensures
        labels@ == Seq::new(total as nat, |i: int| initial_label(i, rooms as int) as usize),
{
    let mut labels: Vec<usize> = Vec::new();
    let mut i: usize = 0;
    while i < total
        invariant
            i <= total,
            1 <= rooms || total == 0,
            labels.len() == i,
            forall|j: int| 0 <= j < i ==> labels[j] == initial_label(j, rooms as int) as usize,
        decreases total - i,
    {
        labels.push((i % rooms) % 4);
        i = i + 1;
    }
    proof {
        assert(labels@ =~= Seq::new(total as nat, |i: int| initial_label(i, rooms as int) as usize));
    }
    labels
}

/// Lists every pair of a pairing over `total` rooms once, in the order of
/// its earlier door.
pub fn list_pairs(pairing: &FxHashMap<(usize, usize), (usize, usize)>, total: usize) -> (connections:
    Vec<Connection>)
    ensures
        lists_pairs_once(connections@, pairing@, total as int),
{
    let mut connections: Vec<Connection> = Vec::new();
    let ghost conn = pairing@;
    let mut room: usize = 0;
    while room < total
        invariant
            room <= total,
            conn == pairing@,
            forall|i: int|
                0 <= i < connections.len() ==> conn.contains_key(
                    key_of((#[trigger] connections[i]).from),
                ) && conn[key_of(connections[i].from)] == key_of(connections[i].to) && key_le(
                    key_of(connections[i].from),
                    key_of(connections[i].to),
                ) && connections[i].from.room < room,
            forall|r: usize, d: usize|
                r < room && d < 6 && #[trigger] conn.contains_key((r, d)) && key_le(
                    (r, d),
                    conn[(r, d)],
                ) ==> exists|i: int|
                    0 <= i < connections.len() && key_of((#[trigger] connections[i]).from) == (
                        r,
                        d,
                    ),
            forall|i: int, j: int|
                0 <= i < j < connections.len() ==> key_lt(
                    key_of((#[trigger] connections[i]).from),
                    key_of((#[trigger] connections[j]).from),
                ),
        decreases total - room,
    {
        let mut door: usize = 0;
        while door < 6
            invariant
                room < total,
                door <= 6,
                conn == pairing@,
                forall|i: int|
                    0 <= i < connections.len() ==> conn.contains_key(
                        key_of((#[trigger] connections[i]).from),
                    ) && conn[key_of(connections[i].from)] == key_of(connections[i].to)
                        && key_le(key_of(connections[i].from), key_of(connections[i].to)) && (
                    connections[i].from.room < room || (connections[i].from.room == room
                        && connections[i].from.door < door)),
                forall|r: usize, d: usize|
                    (r < room || (r == room && d < door)) && d < 6 && #[trigger] conn.contains_key(
                        (r, d),
                    ) && key_le((r, d), conn[(r, d)]) ==> exists|i: int|
                        0 <= i < connections.len() && key_of((#[trigger] connections[i]).from)
                            == (r, d),
                forall|i: int, j: int|
                    0 <= i < j < connections.len() ==> key_lt(
                        key_of((#[trigger] connections[i]).from),
                        key_of((#[trigger] connections[j]).from),
                    ),
            decreases 6 - door,
        {
            match door_map_get(pairing, (room, door)) {
                Some((to_room, to_door)) => {
                    if room < to_room || (room == to_room && door <= to_door) {
                        let ghost before = connections@;
                        connections.push(
                            Connection {
                                from: RoomAndDoor { room, door },
                                to: RoomAndDoor { room: to_room, door: to_door },
                            },
                        );
                        proof {
                            assert(key_of(connections[before.len() as int].from) == (room, door));
                            assert forall|r: usize, d: usize|
                                (r < room || (r == room && d < door + 1)) && d < 6
                                    && #[trigger] conn.contains_key((r, d)) && key_le(
                                    (r, d),
                                    conn[(r, d)],
                                ) implies exists|i: int|
                                0 <= i < connections.len() && key_of(
                                    (#[trigger] connections[i]).from,
                                ) == (r, d) by {
                                if r == room && d == door {
                                    assert(key_of(connections[before.len() as int].from) == (
                                        r,
                                        d,
                                    ));
                                } else {
                                    let i = choose|i: int|
                                        0 <= i < before.len() && key_of(
                                            (#[trigger] before[i]).from,
                                        ) == (r, d);
                                    assert(key_of(connections[i].from) == (r, d));
                                }
                            }
                        }
                    }
                },
                None => {},
            }
            door = door + 1;
        }
        room = room + 1;
    }
    connections
}

/// Builds the submission for a pairing over `total` rooms, lifted from
/// `rooms` base rooms: room 0 as the start, every room with the label of its
/// base room, every pair of doors once.
pub fn build_submission(
    pairing: &FxHashMap<(usize, usize), (usize, usize)>,
    rooms: usize,
    total: usize,
) -> (map: FullMap)
    requires
        1 <= rooms || total == 0,
    ensures
        is_submission(map, pairing@, rooms, total as int),
{
    FullMap {
        rooms: room_labels(rooms, total),
        starting_room: 0,
        connections: list_pairs(pairing, total),
    }
}

} // verus!
