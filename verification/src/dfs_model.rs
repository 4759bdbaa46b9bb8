//! The layered search as a mathematical function: what a committed pattern
//! does to the pairing of doors, and which outcome the search has from a
//! given state.

use crate::plan::PlanStep;
use vstd::prelude::*;

verus! {

/// A door of a room: room, then door.
pub type DoorKey = (usize, usize);

/// A pairing of doors, as far as it is known.
pub type Pairing = Map<DoorKey, DoorKey>;

/// What the search is given and never changes.
pub struct Problem {
    /// Number of base rooms.
    pub rooms: usize,
    /// Number of layers.
    pub layers: usize,
    /// The base structure: (base room, door) to base room.
    pub base: Map<DoorKey, usize>,
    /// The labelled plan.
    pub plan: Seq<PlanStep>,
    /// The label seen before the first step and after each step.
    pub observed: Seq<usize>,
}

/// What the search changes along a branch.
pub struct SearchState {
    /// The pairing of doors committed so far.
    pub connections: Pairing,
    /// The label that each room carries now.
    pub labels: Seq<usize>,
    /// The room of each observation, or -1.
    pub assignment: Seq<isize>,
}

/// How a search ends.
pub enum Outcome {
    /// The plan was walked to its end; the state is that of the end.
    Found(SearchState),
    /// Every branch ran into a label that does not match.
    Dead,
    /// The base structure has no destination for a door that the plan takes.
    Abort,
}

/// The room that lies `k` layers above `room`, going round after the last
/// layer.
pub open spec fn layer_point(room: usize, rooms: usize, layers: usize, k: int) -> usize {
    ((room + rooms * k) % (rooms * layers)) as usize
}

/// The ways to order the layers, in lexicographic order.
pub open spec fn layer_orders(layers: usize) -> Seq<Seq<int>> {
    if layers == 1 {
        seq![seq![0int]]
    } else if layers == 2 {
        seq![seq![0int, 1int], seq![1int, 0int]]
    } else {
        seq![
            seq![0int, 1int, 2int],
            seq![0int, 2int, 1int],
            seq![1int, 0int, 2int],
            seq![1int, 2int, 0int],
            seq![2int, 0int, 1int],
            seq![2int, 1int, 0int],
        ]
    }
}

/// The twin pattern of one order of the layers: the room `k` layers above
/// `from_room` goes to the room `order[k]` layers above `to_base`.
pub open spec fn pattern_of(
    order: Seq<int>,
    from_room: usize,
    to_base: usize,
    rooms: usize,
    layers: usize,
) -> Seq<(usize, usize)> {
    Seq::new(
        order.len(),
        |k: int|
            (layer_point(from_room, rooms, layers, k), layer_point(to_base, rooms, layers, order[k])),
    )
}

/// The twin patterns of an edge from `from_room` to base room `to_base`, one
/// per order of the layers; with one layer, the edge itself.
pub open spec fn twin_patterns(layers: usize, from_room: usize, to_base: usize, rooms: usize) -> Seq<
    Seq<(usize, usize)>,
> {
    if layers == 1 {
        seq![seq![(from_room, to_base)]]
    } else {
        Seq::new(
            layer_orders(layers).len(),
            |i: int| pattern_of(layer_orders(layers)[i], from_room, to_base, rooms, layers),
        )
    }
}

/// Whether a pattern joins the copies of base room `from_base` to the
/// copies of base room `to_base`, each copy once, the copies in the first
/// layer among them.
pub open spec fn twin_pattern_ok(
    pat: Seq<(usize, usize)>,
    rooms: usize,
    layers: usize,
    from_base: usize,
    to_base: usize,
) -> bool {
    &&& pat.len() == layers
    &&& forall|k: int|
        0 <= k < pat.len() ==> (#[trigger] pat[k]).0 < rooms * layers && pat[k].0 % rooms
            == from_base && pat[k].1 < rooms * layers && pat[k].1 % rooms == to_base
    &&& sides_distinct(pat)
    &&& exists|k: int| 0 <= k < pat.len() && (#[trigger] pat[k]).0 == from_base
    &&& exists|k: int| 0 <= k < pat.len() && (#[trigger] pat[k]).1 == to_base
}

/// The lowest of the six doors that `fits` admits, if it admits any.
pub open spec fn lowest_door(fits: spec_fn(usize) -> bool) -> Option<usize> {
    if fits(0) {
        Some(0usize)
    } else if fits(1) {
        Some(1usize)
    } else if fits(2) {
        Some(2usize)
    } else if fits(3) {
        Some(3usize)
    } else if fits(4) {
        Some(4usize)
    } else if fits(5) {
        Some(5usize)
    } else {
        None
    }
}

/// Whether door `d` of base room `to_base` leads back to `from_base` in the
/// base structure and is not paired yet.
pub open spec fn leads_back(p: Problem, conn: Pairing, from_base: usize, to_base: usize, d: usize) -> bool {
    p.base.contains_key((to_base, d)) && p.base[(to_base, d)] == from_base && !conn.contains_key(
        (to_base, d),
    )
}

/// Whether door `d` of base room `to_base` is used neither by the base
/// structure nor by the pairing.
pub open spec fn is_spare(p: Problem, conn: Pairing, to_base: usize, d: usize) -> bool {
    !p.base.contains_key((to_base, d)) && !conn.contains_key((to_base, d))
}

/// The door of `to_base` that takes a new edge from `from_base`: the lowest
/// that leads back there, else the lowest spare one.
pub open spec fn pick_door(p: Problem, conn: Pairing, from_base: usize, to_base: usize) -> Option<
    usize,
> {
    match lowest_door(|d: usize| leads_back(p, conn, from_base, to_base, d)) {
        Some(d) => Some(d),
        None => lowest_door(|d: usize| is_spare(p, conn, to_base, d)),
    }
}

/// Whether two states hold the same pairing, labels and assignment.
pub open spec fn same_state(a: SearchState, b: SearchState) -> bool {
    a.connections =~= b.connections && a.labels =~= b.labels && a.assignment =~= b.assignment
}

/// The outcome of the search that stands in `room` before step `i`.
pub open spec fn search(p: Problem, st: SearchState, i: int, room: usize) -> Outcome
    decreases p.plan.len() - i, 2int, 0int,
{
    let here = SearchState { assignment: st.assignment.update(i, room as isize), ..st };
    if i < 0 || i >= p.plan.len() {
        Outcome::Found(here)
    } else {
        match p.plan[i] {
            PlanStep::ChangeLabel(k) => search(
                p,
                SearchState { labels: here.labels.update(room as int, k), ..here },
                i + 1,
                room,
            ),
            PlanStep::Move(d) => step_move(p, here, i, room, d),
        }
    }
}

/// The outcome of the move of step `i` out of `room` through door `d`: an
/// edge that is committed is followed; a new edge goes where the base
/// structure says, through the door that `pick_door` gives, in the first
/// twin pattern that leads on to the end of the plan.
pub open spec fn step_move(p: Problem, here: SearchState, i: int, room: usize, d: usize) -> Outcome
    decreases p.plan.len() - i, 1int, 0int,
{
    if i < 0 || i >= p.plan.len() {
        Outcome::Dead
    } else if here.connections.contains_key((room, d)) {
        let to = here.connections[(room, d)].0;
        if here.labels[to as int] == p.observed[i + 1] {
            search(p, here, i + 1, to)
        } else {
            Outcome::Dead
        }
    } else {
        let from_base = (room % p.rooms) as usize;
        if !p.base.contains_key((from_base, d)) {
            Outcome::Abort
        } else {
            let to_base = p.base[(from_base, d)];
            match pick_door(p, here.connections, from_base, to_base) {
                None => Outcome::Dead,
                Some(td) => try_patterns(
                    p,
                    here,
                    i,
                    d,
                    td,
                    twin_patterns(p.layers, room, to_base, p.rooms),
                    0,
                ),
            }
        }
    }
}

/// The outcome of trying the patterns from number `k` on for the move of
/// step `i` through door `fd`, with `td` as the door on the other side.
pub open spec fn try_patterns(
    p: Problem,
    st: SearchState,
    i: int,
    fd: usize,
    td: usize,
    pats: Seq<Seq<(usize, usize)>>,
    k: int,
) -> Outcome
    decreases p.plan.len() - i, 0int, pats.len() - k,
{
    if k < 0 || k >= pats.len() || i < 0 || i >= p.plan.len() {
        Outcome::Dead
    } else {
        let pat = pats[k];
        let to = pat[0].1;
        if st.labels[to as int] == p.observed[i + 1] && can_commit(st.connections, pat, fd, td) {
            let committed = SearchState {
                connections: commit(st.connections, pat, fd, td, pat.len() as int),
                ..st
            };
            match search(p, committed, i + 1, to) {
                Outcome::Found(end) => Outcome::Found(end),
                Outcome::Abort => Outcome::Abort,
                Outcome::Dead => try_patterns(p, st, i, fd, td, pats, k + 1),
            }
        } else {
            try_patterns(p, st, i, fd, td, pats, k + 1)
        }
    }
}

/// The rooms `k` layers above a room, in closed form.
pub proof fn lemma_layer_point(base: int, layer: int, k: int, rooms: int, layers: int)
    requires
        0 <= base < rooms,
        0 <= layer < layers,
        0 <= k < layers,
    ensures
        (base + layer * rooms + rooms * k) % (rooms * layers) == base + ((layer + k) % layers)
            * rooms,
        (layer + k) % layers == if layer + k < layers {
            layer + k
        } else {
            layer + k - layers
        },
        (base + ((layer + k) % layers) * rooms) % rooms == base,
        base + ((layer + k) % layers) * rooms < rooms * layers,
{
    let s = layer + k;
    let m = rooms * layers;
    let x = base + layer * rooms + rooms * k;
    let w = if s < layers {
        s
    } else {
        s - layers
    };
    vstd::arithmetic::div_mod::lemma_fundamental_div_mod_converse(
        s,
        layers,
        if s < layers {
            0
        } else {
            1
        },
        w,
    );
    assert(s % layers == w);
    assert(0 <= base + w * rooms < m) by (nonlinear_arith)
        requires
            0 <= base < rooms,
            0 <= w < layers,
            m == rooms * layers,
    ;
    assert(x == (if s < layers {
        0int
    } else {
        1int
    }) * m + (base + w * rooms)) by (nonlinear_arith)
        requires
            x == base + layer * rooms + rooms * k,
            s == layer + k,
            w == if s < layers {
                s
            } else {
                s - layers
            },
            m == rooms * layers,
    ;
    vstd::arithmetic::div_mod::lemma_fundamental_div_mod_converse(
        x,
        m,
        if s < layers {
            0
        } else {
            1
        },
        base + w * rooms,
    );
    vstd::arithmetic::div_mod::lemma_fundamental_div_mod_converse(base + w * rooms, rooms, w, base);
}

/// The room `k` layers above a room of the layered map, in closed form.
pub proof fn lemma_point_of_room(room: usize, rooms: usize, layers: usize, k: int) -> (w: int)
    requires
        1 <= rooms,
        1 <= layers,
        room < rooms * layers <= usize::MAX,
        0 <= k < layers,
    ensures
        0 <= w < layers,
        w == if room / rooms + k < layers {
            room / rooms + k
        } else {
            room / rooms + k - layers
        },
        0 <= room / rooms < layers,
        layer_point(room, rooms, layers, k) == room % rooms + w * rooms,
        layer_point(room, rooms, layers, k) % rooms == room % rooms,
        layer_point(room, rooms, layers, k) < rooms * layers,
{
    let base = (room % rooms) as int;
    let layer = (room / rooms) as int;
    vstd::arithmetic::div_mod::lemma_fundamental_div_mod(room as int, rooms as int);
    assert(0 <= layer < layers) by (nonlinear_arith)
        requires
            room == rooms * layer + base,
            0 <= base < rooms,
            room < rooms * layers,
            0 <= room,
    ;
    lemma_layer_point(base, layer, k, rooms as int, layers as int);
    assert(room + rooms * k == base + layer * rooms + rooms * k) by (nonlinear_arith)
        requires
            room == rooms * layer + base,
    ;
    (layer + k) % (layers as int)
}

/// The rooms above a room of the layered map are its copies in the other
/// layers: as many as there are layers, all different, the one in the first
/// layer among them.
pub proof fn lemma_points(room: usize, rooms: usize, layers: usize)
    requires
        1 <= rooms,
        1 <= layers <= 3,
        room < rooms * layers <= usize::MAX,
    ensures
        layer_point(room, rooms, layers, 0) == room,
        forall|k: int|
            0 <= k < layers ==> #[trigger] layer_point(room, rooms, layers, k) < rooms * layers
                && layer_point(room, rooms, layers, k) % rooms == room % rooms,
        forall|j: int, k: int|
            0 <= j < k < layers ==> #[trigger] layer_point(room, rooms, layers, j)
                != #[trigger] layer_point(room, rooms, layers, k),
        exists|k: int| 0 <= k < layers && #[trigger] layer_point(room, rooms, layers, k) == room % rooms,
{
    vstd::arithmetic::div_mod::lemma_fundamental_div_mod(room as int, rooms as int);
    let layer = (room / rooms) as int;
    let w0 = lemma_point_of_room(room, rooms, layers, 0);
    assert(w0 * rooms == rooms * layer) by (nonlinear_arith)
        requires
            w0 == layer,
    ;
    assert forall|k: int| 0 <= k < layers implies #[trigger] layer_point(room, rooms, layers, k)
        < rooms * layers && layer_point(room, rooms, layers, k) % rooms == room % rooms by {
        lemma_point_of_room(room, rooms, layers, k);
    }
    assert forall|j: int, k: int| 0 <= j < k < layers implies #[trigger] layer_point(
        room,
        rooms,
        layers,
        j,
    ) != #[trigger] layer_point(room, rooms, layers, k) by {
        let wj = lemma_point_of_room(room, rooms, layers, j);
        let wk = lemma_point_of_room(room, rooms, layers, k);
        assert(wj * rooms != wk * rooms) by (nonlinear_arith)
            requires
                wj != wk,
                rooms >= 1,
        ;
    }
    let k0 = if layer == 0 {
        0int
    } else {
        layers - layer
    };
    let wz = lemma_point_of_room(room, rooms, layers, k0);
    assert(wz * rooms == 0) by (nonlinear_arith)
        requires
            wz == 0,
    ;
    assert(layer_point(room, rooms, layers, k0) == room % rooms);
}

/// Every twin pattern of an edge joins the copies of the two base rooms,
/// each copy once, and starts at the room the edge leaves from.
pub proof fn lemma_twins_ok(layers: usize, from_room: usize, to_base: usize, rooms: usize, i: int)
    requires
        1 <= layers <= 3,
        1 <= rooms,
        from_room < rooms * layers <= usize::MAX,
        to_base < rooms,
        0 <= i < twin_patterns(layers, from_room, to_base, rooms).len(),
    ensures
        twin_pattern_ok(
            twin_patterns(layers, from_room, to_base, rooms)[i],
            rooms,
            layers,
            (from_room % rooms) as usize,
            to_base,
        ),
        twin_patterns(layers, from_room, to_base, rooms)[i][0].0 == from_room,
{
    let pat = twin_patterns(layers, from_room, to_base, rooms)[i];
    assert(to_base < rooms * layers) by (nonlinear_arith)
        requires
            to_base < rooms,
            1 <= layers,
    ;
    vstd::arithmetic::div_mod::lemma_small_mod(to_base as nat, rooms as nat);
    if layers == 1 {
        assert(rooms * layers == rooms) by (nonlinear_arith)
            requires
                layers == 1,
        ;
        vstd::arithmetic::div_mod::lemma_small_mod(from_room as nat, rooms as nat);
        assert(pat[0] == (from_room, to_base));
    } else {
        let order = layer_orders(layers)[i];
        assert(pat == pattern_of(order, from_room, to_base, rooms, layers));
        lemma_points(from_room, rooms, layers);
        lemma_points(to_base, rooms, layers);
        let kf = choose|k: int|
            0 <= k < layers && #[trigger] layer_point(from_room, rooms, layers, k) == from_room
                % rooms;
        let jt = choose|k: int|
            0 <= k < layers && #[trigger] layer_point(to_base, rooms, layers, k) == to_base
                % rooms;
        lemma_order_is_onto(layers, i, jt);
        let kt = choose|k: int| 0 <= k < layers && order[k] == jt;
        assert(pat[kf].0 == from_room % rooms);
        assert(pat[kt].1 == to_base);
        assert forall|j: int, k: int| 0 <= j < k < pat.len() implies (#[trigger] pat[j]).0 != (
        #[trigger] pat[k]).0 && pat[j].1 != pat[k].1 by {
            lemma_order_is_one_to_one(layers, i, j, k);
        }
    }
}

/// Each order of the layers names each layer.
pub proof fn lemma_order_is_onto(layers: usize, i: int, layer: int)
    requires
        2 <= layers <= 3,
        0 <= i < layer_orders(layers).len(),
        0 <= layer < layers,
    ensures
        layer_orders(layers)[i].len() == layers,
        exists|k: int| 0 <= k < layers && layer_orders(layers)[i][k] == layer,
{
    let order = layer_orders(layers)[i];
    if order[0] == layer {
    } else if order[1] == layer {
    } else {
        assert(order[2] == layer);
    }
}

/// Each order of the layers names no layer twice, and only layers.
pub proof fn lemma_order_is_one_to_one(layers: usize, i: int, j: int, k: int)
    requires
        2 <= layers <= 3,
        0 <= i < layer_orders(layers).len(),
        0 <= j < k < layers,
    ensures
        layer_orders(layers)[i].len() == layers,
        layer_orders(layers)[i][j] != layer_orders(layers)[i][k],
        0 <= layer_orders(layers)[i][j] < layers,
        0 <= layer_orders(layers)[i][k] < layers,
{
}

/// The two ends of pair `k` of a pattern, for the doors `fd` and `td`.
pub open spec fn from_end(pat: Seq<(usize, usize)>, fd: usize, k: int) -> DoorKey {
    (pat[k].0, fd)
}

/// The end of pair `k` of a pattern on the side that the edge arrives at.
pub open spec fn to_end(pat: Seq<(usize, usize)>, td: usize, k: int) -> DoorKey {
    (pat[k].1, td)
}

/// The pairing after the first `n` pairs of a pattern are entered, each in
/// both directions.
pub open spec fn commit(conn: Pairing, pat: Seq<(usize, usize)>, fd: usize, td: usize, n: int) -> Pairing
    decreases n,
{
    if n <= 0 {
        conn
    } else {
        commit(conn, pat, fd, td, n - 1).insert(from_end(pat, fd, n - 1), to_end(pat, td, n - 1)).insert(
            to_end(pat, td, n - 1),
            from_end(pat, fd, n - 1),
        )
    }
}

/// The pairing after both ends of the first `n` pairs of a pattern are
/// taken out.
pub open spec fn uncommit(conn: Pairing, pat: Seq<(usize, usize)>, fd: usize, td: usize, n: int) -> Pairing
    decreases n,
{
    if n <= 0 {
        conn
    } else {
        uncommit(conn, pat, fd, td, n - 1).remove(from_end(pat, fd, n - 1)).remove(
            to_end(pat, td, n - 1),
        )
    }
}

/// Whether `key` is an end of one of the first `n` pairs of a pattern.
pub open spec fn is_end(pat: Seq<(usize, usize)>, fd: usize, td: usize, n: int, key: DoorKey) -> bool
    decreases n,
{
    if n <= 0 {
        false
    } else {
        is_end(pat, fd, td, n - 1, key) || from_end(pat, fd, n - 1) == key || to_end(pat, td, n - 1)
            == key
    }
}

/// The ends of a pair are ends of the pattern.
pub proof fn lemma_is_end_at(pat: Seq<(usize, usize)>, fd: usize, td: usize, n: int, k: int)
    requires
        0 <= k < n,
    ensures
        is_end(pat, fd, td, n, from_end(pat, fd, k)),
        is_end(pat, fd, td, n, to_end(pat, td, k)),
    decreases n,
{
    if k < n - 1 {
        lemma_is_end_at(pat, fd, td, n - 1, k);
    }
}

/// An end of the pattern is an end of one of its pairs.
pub proof fn lemma_is_end_witness(
    pat: Seq<(usize, usize)>,
    fd: usize,
    td: usize,
    n: int,
    key: DoorKey,
) -> (k: int)
    requires
        is_end(pat, fd, td, n, key),
    ensures
        0 <= k < n,
        from_end(pat, fd, k) == key || to_end(pat, td, k) == key,
    decreases n,
{
    if from_end(pat, fd, n - 1) == key || to_end(pat, td, n - 1) == key {
        n - 1
    } else {
        lemma_is_end_witness(pat, fd, td, n - 1, key)
    }
}

/// No end of the pattern is paired yet.
pub open spec fn ends_free(conn: Pairing, pat: Seq<(usize, usize)>, fd: usize, td: usize) -> bool {
    forall|k: int|
        0 <= k < pat.len() ==> !conn.contains_key(#[trigger] from_end(pat, fd, k))
            && !conn.contains_key(to_end(pat, td, k))
}

/// No door is an end of two pairs of the pattern with different partners.
pub open spec fn ends_agree(pat: Seq<(usize, usize)>, fd: usize, td: usize) -> bool {
    forall|j: int, k: int|
        0 <= j < pat.len() && 0 <= k < pat.len() && #[trigger] from_end(pat, fd, j)
            == #[trigger] to_end(pat, td, k) ==> to_end(pat, td, j) == from_end(pat, fd, k)
}

/// Whether a pattern can be committed: its ends are free, and reused by the
/// pattern itself only with the same partner.
pub open spec fn can_commit(conn: Pairing, pat: Seq<(usize, usize)>, fd: usize, td: usize) -> bool {
    ends_free(conn, pat, fd, td) && ends_agree(pat, fd, td)
}

/// The rooms on either side of a pattern are pairwise different.
pub open spec fn sides_distinct(pat: Seq<(usize, usize)>) -> bool {
    forall|j: int, k: int|
        0 <= j < k < pat.len() ==> (#[trigger] pat[j]).0 != (#[trigger] pat[k]).0 && pat[j].1
            != pat[k].1
}

/// What a committed pattern looks like: its ends are paired with each other
/// and everything else is as before.
pub proof fn lemma_commit_shape(conn: Pairing, pat: Seq<(usize, usize)>, fd: usize, td: usize, n: int)
    requires
        0 <= n <= pat.len(),
        sides_distinct(pat),
        ends_agree(pat, fd, td),
    ensures
        forall|key: DoorKey| #[trigger]
            commit(conn, pat, fd, td, n).contains_key(key) <==> conn.contains_key(key) || is_end(
                pat,
                fd,
                td,
                n,
                key,
            ),
        forall|k: int|
            0 <= k < n ==> commit(conn, pat, fd, td, n)[#[trigger] from_end(pat, fd, k)] == to_end(
                pat,
                td,
                k,
            ) && commit(conn, pat, fd, td, n)[to_end(pat, td, k)] == from_end(pat, fd, k),
        forall|key: DoorKey|
            !is_end(pat, fd, td, n, key) ==> #[trigger] commit(conn, pat, fd, td, n)[key]
                == conn[key],
    decreases n,
{
    if n > 0 {
        lemma_commit_shape(conn, pat, fd, td, n - 1);
        let before = commit(conn, pat, fd, td, n - 1);
        let x = from_end(pat, fd, n - 1);
        let y = to_end(pat, td, n - 1);
        let after = commit(conn, pat, fd, td, n);
        assert(after == before.insert(x, y).insert(y, x));
        assert forall|k: int| 0 <= k < n implies after[#[trigger] from_end(pat, fd, k)] == to_end(
            pat,
            td,
            k,
        ) && after[to_end(pat, td, k)] == from_end(pat, fd, k) by {
            if k < n - 1 {
                assert(pat[k].0 != pat[n - 1].0 && pat[k].1 != pat[n - 1].1);
                if from_end(pat, fd, k) == y {
                    assert(to_end(pat, td, k) == x);
                }
                if to_end(pat, td, k) == x {
                    assert(from_end(pat, fd, n - 1) == to_end(pat, td, k));
                    assert(to_end(pat, td, n - 1) == from_end(pat, fd, k));
                }
            }
        }
    }
}

/// What taking a pattern out looks like: its ends are gone and everything
/// else is as before.
pub proof fn lemma_uncommit_shape(conn: Pairing, pat: Seq<(usize, usize)>, fd: usize, td: usize, n: int)
    requires
        0 <= n <= pat.len(),
    ensures
        forall|key: DoorKey| #[trigger]
            uncommit(conn, pat, fd, td, n).contains_key(key) <==> conn.contains_key(key) && !is_end(
                pat,
                fd,
                td,
                n,
                key,
            ),
        forall|key: DoorKey|
            !is_end(pat, fd, td, n, key) ==> #[trigger] uncommit(conn, pat, fd, td, n)[key]
                == conn[key],
    decreases n,
{
    if n > 0 {
        lemma_uncommit_shape(conn, pat, fd, td, n - 1);
        let before = uncommit(conn, pat, fd, td, n - 1);
        let x = from_end(pat, fd, n - 1);
        let y = to_end(pat, td, n - 1);
        let after = uncommit(conn, pat, fd, td, n);
        assert(after == before.remove(x).remove(y));
        assert forall|key: DoorKey| #[trigger]
            after.contains_key(key) <==> conn.contains_key(key) && !is_end(pat, fd, td, n, key) by {
            assert(before.contains_key(key) <==> conn.contains_key(key) && !is_end(
                pat,
                fd,
                td,
                n - 1,
                key,
            ));
        }
        assert forall|key: DoorKey| !is_end(pat, fd, td, n, key) implies #[trigger] after[key]
            == conn[key] by {
            assert(before[key] == conn[key]);
        }
    }
}

/// Committing a pattern whose ends are free and then taking it out again
/// gives back the pairing as it was.
pub proof fn lemma_commit_then_uncommit(conn: Pairing, pat: Seq<(usize, usize)>, fd: usize, td: usize)
    requires
        sides_distinct(pat),
        can_commit(conn, pat, fd, td),
    ensures
        uncommit(commit(conn, pat, fd, td, pat.len() as int), pat, fd, td, pat.len() as int)
            == conn,
{
    let n = pat.len() as int;
    let mid = commit(conn, pat, fd, td, n);
    let end = uncommit(mid, pat, fd, td, n);
    lemma_commit_shape(conn, pat, fd, td, n);
    lemma_uncommit_shape(mid, pat, fd, td, n);
    assert forall|key: DoorKey| end.contains_key(key) <==> conn.contains_key(key) by {
        if is_end(pat, fd, td, n, key) {
            let k = lemma_is_end_witness(pat, fd, td, n, key);
            assert(!conn.contains_key(from_end(pat, fd, k)));
        }
    }
    assert(end =~= conn);
}

/// A pairing names rooms and doors that exist and pairs doors both ways:
/// the partner of the partner of a door is the door.
pub open spec fn pairing_wf(conn: Pairing, total: int) -> bool {
    forall|key: DoorKey| #[trigger]
        conn.contains_key(key) ==> {
            &&& key.0 < total
            &&& key.1 < 6
            &&& conn[key].0 < total
            &&& conn[key].1 < 6
            &&& conn.contains_key(conn[key])
            &&& conn[conn[key]] == key
        }
}

/// Every pair of the pattern is in the pairing, both ways.
pub open spec fn committed(conn: Pairing, pat: Seq<(usize, usize)>, fd: usize, td: usize) -> bool {
    forall|k: int|
        0 <= k < pat.len() ==> conn.contains_key(#[trigger] from_end(pat, fd, k)) && conn[from_end(
            pat,
            fd,
            k,
        )] == to_end(pat, td, k) && conn.contains_key(to_end(pat, td, k)) && conn[to_end(
            pat,
            td,
            k,
        )] == from_end(pat, fd, k)
}

/// A committed pattern leaves a pairing that pairs doors both ways.
pub proof fn lemma_commit_keeps_pairing(
    conn: Pairing,
    pat: Seq<(usize, usize)>,
    fd: usize,
    td: usize,
    rooms: usize,
    layers: usize,
    from_base: usize,
    to_base: usize,
)
    requires
        pairing_wf(conn, rooms * layers),
        twin_pattern_ok(pat, rooms, layers, from_base, to_base),
        fd < 6,
        td < 6,
        can_commit(conn, pat, fd, td),
    ensures
        pairing_wf(commit(conn, pat, fd, td, pat.len() as int), rooms * layers),
        committed(commit(conn, pat, fd, td, pat.len() as int), pat, fd, td),
{
    let n = pat.len() as int;
    let after = commit(conn, pat, fd, td, n);
    lemma_commit_shape(conn, pat, fd, td, n);
    assert forall|key: DoorKey| #[trigger] after.contains_key(key) implies {
        &&& key.0 < rooms * layers
        &&& key.1 < 6
        &&& after[key].0 < rooms * layers
        &&& after[key].1 < 6
        &&& after.contains_key(after[key])
        &&& after[after[key]] == key
    } by {
        if is_end(pat, fd, td, n, key) {
            let k = lemma_is_end_witness(pat, fd, td, n, key);
            lemma_is_end_at(pat, fd, td, n, k);
            assert(after[from_end(pat, fd, k)] == to_end(pat, td, k));
            assert(pat[k].0 < rooms * layers);
        } else {
            let other = conn[key];
            assert(conn.contains_key(other));
            if is_end(pat, fd, td, n, other) {
                let k = lemma_is_end_witness(pat, fd, td, n, other);
                assert(!conn.contains_key(from_end(pat, fd, k)));
            }
        }
    }
    assert forall|k: int| 0 <= k < pat.len() implies after.contains_key(
        #[trigger] from_end(pat, fd, k),
    ) && after[from_end(pat, fd, k)] == to_end(pat, td, k) && after.contains_key(
        to_end(pat, td, k),
    ) && after[to_end(pat, td, k)] == from_end(pat, fd, k) by {
        lemma_is_end_at(pat, fd, td, n, k);
    }
}

/// Taking a committed pattern out leaves a pairing that pairs doors both
/// ways.
pub proof fn lemma_uncommit_keeps_pairing(
    conn: Pairing,
    pat: Seq<(usize, usize)>,
    fd: usize,
    td: usize,
    total: int,
)
    requires
        pairing_wf(conn, total),
        committed(conn, pat, fd, td),
    ensures
        pairing_wf(uncommit(conn, pat, fd, td, pat.len() as int), total),
{
    let n = pat.len() as int;
    let after = uncommit(conn, pat, fd, td, n);
    lemma_uncommit_shape(conn, pat, fd, td, n);
    assert forall|key: DoorKey| #[trigger] after.contains_key(key) implies {
        &&& key.0 < total
        &&& key.1 < 6
        &&& after[key].0 < total
        &&& after[key].1 < 6
        &&& after.contains_key(after[key])
        &&& after[after[key]] == key
    } by {
        let other = conn[key];
        assert(conn.contains_key(key));
        assert(conn.contains_key(other));
        if is_end(pat, fd, td, n, other) {
            let k = lemma_is_end_witness(pat, fd, td, n, other);
            assert(conn[from_end(pat, fd, k)] == to_end(pat, td, k));
            lemma_is_end_at(pat, fd, td, n, k);
        }
    }
}

/// Among the doors of the first layer, the ends of a twin pattern are the
/// door it leaves through at its base room and the door it arrives through
/// at the other base room.
pub proof fn lemma_ends_in_first_layer(
    pat: Seq<(usize, usize)>,
    fd: usize,
    td: usize,
    rooms: usize,
    layers: usize,
    from_base: usize,
    to_base: usize,
    key: DoorKey,
)
    requires
        twin_pattern_ok(pat, rooms, layers, from_base, to_base),
        1 <= rooms,
        key.0 < rooms,
    ensures
        is_end(pat, fd, td, pat.len() as int, key) <==> key == (from_base, fd) || key == (
            to_base,
            td,
        ),
{
    let n = pat.len() as int;
    if is_end(pat, fd, td, n, key) {
        let k = lemma_is_end_witness(pat, fd, td, n, key);
        vstd::arithmetic::div_mod::lemma_small_mod(key.0 as nat, rooms as nat);
        assert(pat[k].0 % rooms == from_base);
    }
    if key == (from_base, fd) {
        let k = choose|k: int| 0 <= k < pat.len() && (#[trigger] pat[k]).0 == from_base;
        lemma_is_end_at(pat, fd, td, n, k);
    }
    if key == (to_base, td) {
        let k = choose|k: int| 0 <= k < pat.len() && (#[trigger] pat[k]).1 == to_base;
        lemma_is_end_at(pat, fd, td, n, k);
    }
}

/// A pairing made total over `total` rooms: every door that has no partner
/// is paired with itself.
pub open spec fn completed(conn: Pairing, total: int) -> Pairing {
    completed_to(conn, total, 0)
}

/// As `completed`, for the doors of the rooms below `room` and the doors
/// below `door` of `room` itself.
pub open spec fn completed_to(conn: Pairing, room: int, door: int) -> Pairing {
    Map::new(
        |key: DoorKey|
            conn.contains_key(key) || (key.1 < 6 && (key.0 < room || (key.0 == room && key.1
                < door))),
        |key: DoorKey|
            if conn.contains_key(key) {
                conn[key]
            } else {
                key
            },
    )
}

/// Completing a pairing keeps it paired both ways and leaves no door of
/// any room without a partner.
pub proof fn lemma_completed(conn: Pairing, total: int)
    requires
        pairing_wf(conn, total),
    ensures
        pairing_wf(completed(conn, total), total),
        forall|room: usize, door: usize|
            room < total && door < 6 ==> #[trigger] completed(conn, total).contains_key(
                (room, door),
            ),
        forall|key: DoorKey|
            conn.contains_key(key) ==> #[trigger] completed(conn, total)[key] == conn[key],
{
    let after = completed(conn, total);
    assert forall|key: DoorKey| #[trigger] after.contains_key(key) implies {
        &&& key.0 < total
        &&& key.1 < 6
        &&& after[key].0 < total
        &&& after[key].1 < 6
        &&& after.contains_key(after[key])
        &&& after[after[key]] == key
    } by {
        if conn.contains_key(key) {
            assert(conn.contains_key(conn[key]));
        }
    }
}

/// Whether walking the plan from step `i` on, standing in `room`, through a
/// pairing that holds every door taken, sees the labels observed after each
/// move.
pub open spec fn walk_matches(
    p: Problem,
    conn: Pairing,
    labels: Seq<usize>,
    i: int,
    room: usize,
) -> bool
    decreases p.plan.len() - i,
{
    if i < 0 || i >= p.plan.len() {
        true
    } else {
        match p.plan[i] {
            PlanStep::ChangeLabel(k) => walk_matches(
                p,
                conn,
                labels.update(room as int, k),
                i + 1,
                room,
            ),
            PlanStep::Move(d) => conn.contains_key((room, d)) && labels[conn[(room, d)].0 as int]
                == p.observed[i + 1] && walk_matches(p, conn, labels, i + 1, conn[(room, d)].0),
        }
    }
}

/// Whether every pair of `small` is a pair of `large`.
pub open spec fn extends(large: Pairing, small: Pairing) -> bool {
    forall|key: DoorKey| #[trigger]
        small.contains_key(key) ==> large.contains_key(key) && large[key] == small[key]
}

/// A walk that matches keeps matching when pairs are added.
pub proof fn lemma_walk_extends(
    p: Problem,
    small: Pairing,
    large: Pairing,
    labels: Seq<usize>,
    i: int,
    room: usize,
)
    requires
        walk_matches(p, small, labels, i, room),
        extends(large, small),
    ensures
        walk_matches(p, large, labels, i, room),
    decreases p.plan.len() - i,
{
    if i < 0 || i >= p.plan.len() {
    } else {
        match p.plan[i] {
            PlanStep::ChangeLabel(k) => {
                lemma_walk_extends(p, small, large, labels.update(room as int, k), i + 1, room);
            },
            PlanStep::Move(d) => {
                assert(small.contains_key((room, d)));
                lemma_walk_extends(p, small, large, labels, i + 1, small[(room, d)].0);
            },
        }
    }
}

/// Whether a problem is one that the search can take: rooms and layers in
/// range, one observation per step and one more, a base structure that
/// stays within its rooms and doors.
pub open spec fn problem_ok(p: Problem) -> bool {
    &&& 1 <= p.rooms
    &&& 1 <= p.layers <= 3
    &&& p.rooms * p.layers <= isize::MAX
    &&& p.observed.len() == p.plan.len() + 1
    &&& forall|key: DoorKey| #[trigger]
        p.base.contains_key(key) ==> key.0 < p.rooms && key.1 < 6 && p.base[key] < p.rooms
}

/// The room in which the walk of the plan stands before step `j`, when it
/// stands in `room` before step `i` and every door taken is paired.
pub open spec fn walk_room(p: Problem, conn: Pairing, i: int, room: usize, j: int) -> usize
    decreases j - i,
{
    if j <= i || j - 1 >= p.plan.len() || j - 1 < 0 {
        room
    } else {
        let before = walk_room(p, conn, i, room, j - 1);
        match p.plan[j - 1] {
            PlanStep::ChangeLabel(_) => before,
            PlanStep::Move(d) => conn[(before, d)].0,
        }
    }
}

/// Whether a pairing follows the base structure: a door whose base room
/// and number the base structure knows is paired with a door of a copy of
/// the room that the base structure names.
pub open spec fn follows_base(p: Problem, conn: Pairing) -> bool {
    forall|key: DoorKey| #[trigger]
        conn.contains_key(key) && p.base.contains_key(((key.0 % p.rooms) as usize, key.1))
            ==> conn[key].0 % p.rooms == p.base[((key.0 % p.rooms) as usize, key.1)]
}

/// The room after step `i`, taken in `room`.
pub open spec fn room_after_step(p: Problem, conn: Pairing, i: int, room: usize) -> usize {
    match p.plan[i] {
        PlanStep::ChangeLabel(_) => room,
        PlanStep::Move(d) => conn[(room, d)].0,
    }
}

/// A walk from step `i` is its first step and then the walk from step
/// `i + 1`.
pub proof fn lemma_walk_room_shift(p: Problem, conn: Pairing, i: int, room: usize, j: int)
    requires
        0 <= i < j <= p.plan.len(),
    ensures
        walk_room(p, conn, i, room, j) == walk_room(
            p,
            conn,
            i + 1,
            room_after_step(p, conn, i, room),
            j,
        ),
    decreases j - i,
{
    if j > i + 1 {
        lemma_walk_room_shift(p, conn, i, room, j - 1);
    } else {
        assert(walk_room(p, conn, i, room, i) == room);
        assert(walk_room(p, conn, i + 1, room_after_step(p, conn, i, room), i + 1)
            == room_after_step(p, conn, i, room));
    }
}

/// What holds of the state in which a search ends that walked the plan to
/// its end from step `i` in `room`: the pairing it started from is still
/// there, doors are paired both ways, the walk through the pairing sees the
/// labels observed after each move, every observation from number `i` on
/// is assigned to the room in which the walk stands then, and the pairing
/// still follows the base structure if it did before.
pub open spec fn sound_end(p: Problem, st: SearchState, i: int, room: usize, end: SearchState) -> bool {
    &&& extends(end.connections, st.connections)
    &&& pairing_wf(end.connections, p.rooms * p.layers)
    &&& walk_matches(p, end.connections, st.labels, i, room)
    &&& end.assignment.len() == st.assignment.len()
    &&& forall|j: int| 0 <= j < i && j < st.assignment.len() ==> end.assignment[j] == st.assignment[j]
    &&& forall|j: int|
        i <= j <= p.plan.len() ==> #[trigger] end.assignment[j] == walk_room(
            p,
            end.connections,
            i,
            room,
            j,
        )
    &&& follows_base(p, st.connections) ==> follows_base(p, end.connections)
}

/// A search that finds the end of the plan ends in a sound state.
pub proof fn lemma_search_sound(p: Problem, st: SearchState, i: int, room: usize)
    requires
        problem_ok(p),
        pairing_wf(st.connections, p.rooms * p.layers),
        room < p.rooms * p.layers,
        0 <= i <= p.plan.len(),
        st.assignment.len() == p.observed.len(),
        search(p, st, i, room) is Found,
    ensures
        sound_end(p, st, i, room, search(p, st, i, room)->Found_0),
    decreases p.plan.len() - i, 2int, 0int,
{
    let here = SearchState { assignment: st.assignment.update(i, room as isize), ..st };
    let end = search(p, st, i, room)->Found_0;
    if i >= p.plan.len() {
    } else {
        match p.plan[i] {
            PlanStep::ChangeLabel(k) => {
                let next = SearchState { labels: here.labels.update(room as int, k), ..here };
                lemma_search_sound(p, next, i + 1, room);
            },
            PlanStep::Move(d) => {
                lemma_step_move_sound(p, here, i, room, d);
            },
        }
        assert forall|j: int| i <= j <= p.plan.len() implies #[trigger] end.assignment[j]
            == walk_room(p, end.connections, i, room, j) by {
            if j > i {
                lemma_walk_room_shift(p, end.connections, i, room, j);
            }
        }
    }
}

/// What holds of the state in which the move of step `i` ends, where the
/// search goes on from it to the end of the plan.
pub open spec fn sound_move(
    p: Problem,
    here: SearchState,
    i: int,
    room: usize,
    d: usize,
    end: SearchState,
) -> bool {
    &&& extends(end.connections, here.connections)
    &&& pairing_wf(end.connections, p.rooms * p.layers)
    &&& end.connections.contains_key((room, d))
    &&& here.labels[end.connections[(room, d)].0 as int] == p.observed[i + 1]
    &&& walk_matches(p, end.connections, here.labels, i + 1, end.connections[(room, d)].0)
    &&& end.assignment.len() == here.assignment.len()
    &&& forall|j: int|
        0 <= j <= i && j < here.assignment.len() ==> end.assignment[j] == here.assignment[j]
    &&& forall|j: int|
        i + 1 <= j <= p.plan.len() ==> #[trigger] end.assignment[j] == walk_room(
            p,
            end.connections,
            i + 1,
            end.connections[(room, d)].0,
            j,
        )
    &&& follows_base(p, here.connections) ==> follows_base(p, end.connections)
}

/// A move from which the search reaches the end of the plan ends in a
/// sound state.
pub proof fn lemma_step_move_sound(p: Problem, here: SearchState, i: int, room: usize, d: usize)
    requires
        problem_ok(p),
        pairing_wf(here.connections, p.rooms * p.layers),
        room < p.rooms * p.layers,
        0 <= i < p.plan.len(),
        here.assignment.len() == p.observed.len(),
        step_move(p, here, i, room, d) is Found,
    ensures
        sound_move(p, here, i, room, d, step_move(p, here, i, room, d)->Found_0),
    decreases p.plan.len() - i, 1int, 0int,
{
    if here.connections.contains_key((room, d)) {
        let to = here.connections[(room, d)].0;
        lemma_search_sound(p, here, i + 1, to);
    } else {
        let from_base = (room % p.rooms) as usize;
        let to_base = p.base[(from_base, d)];
        let td = pick_door(p, here.connections, from_base, to_base)->0;
        assert(leads_back(p, here.connections, from_base, to_base, td) || is_spare(
            p,
            here.connections,
            to_base,
            td,
        ));
        lemma_try_patterns_sound(p, here, i, room, d, td, to_base, 0);
    }
}

/// A twin pattern from which the search reaches the end of the plan ends in
/// a sound state.
pub proof fn lemma_try_patterns_sound(
    p: Problem,
    st: SearchState,
    i: int,
    room: usize,
    fd: usize,
    td: usize,
    to_base: usize,
    k: int,
)
    requires
        problem_ok(p),
        pairing_wf(st.connections, p.rooms * p.layers),
        room < p.rooms * p.layers,
        to_base < p.rooms,
        fd < 6,
        td < 6,
        0 <= i < p.plan.len(),
        st.assignment.len() == p.observed.len(),
        0 <= k,
        p.base.contains_key(((room % p.rooms) as usize, fd)),
        p.base[((room % p.rooms) as usize, fd)] == to_base,
        p.base.contains_key((to_base, td)) ==> p.base[(to_base, td)] == room % p.rooms,
        try_patterns(p, st, i, fd, td, twin_patterns(p.layers, room, to_base, p.rooms), k) is Found,
    ensures
        sound_move(
            p,
            st,
            i,
            room,
            fd,
            try_patterns(p, st, i, fd, td, twin_patterns(p.layers, room, to_base, p.rooms), k)->Found_0,
        ),
    decreases p.plan.len() - i, 0int, twin_patterns(p.layers, room, to_base, p.rooms).len() - k,
{
    let pats = twin_patterns(p.layers, room, to_base, p.rooms);
    let pat = pats[k];
    let to = pat[0].1;
    let n = pat.len() as int;
    if st.labels[to as int] == p.observed[i + 1] && can_commit(st.connections, pat, fd, td) {
        let after = commit(st.connections, pat, fd, td, n);
        let committed_state = SearchState { connections: after, ..st };
        if search(p, committed_state, i + 1, to) is Found {
            lemma_twins_ok(p.layers, room, to_base, p.rooms, k);
            lemma_commit_keeps_pairing(
                st.connections,
                pat,
                fd,
                td,
                p.rooms,
                p.layers,
                (room % p.rooms) as usize,
                to_base,
            );
            lemma_commit_shape(st.connections, pat, fd, td, n);
            lemma_search_sound(p, committed_state, i + 1, to);
            lemma_is_end_at(pat, fd, td, n, 0);
            assert(from_end(pat, fd, 0) == (room, fd));
            assert(after[from_end(pat, fd, 0)] == to_end(pat, td, 0));
            assert(after.contains_key((room, fd)));
            assert forall|key: DoorKey| #[trigger] st.connections.contains_key(key) implies after.contains_key(
                key,
            ) && after[key] == st.connections[key] by {
                if is_end(pat, fd, td, n, key) {
                    let j = lemma_is_end_witness(pat, fd, td, n, key);
                    assert(!st.connections.contains_key(from_end(pat, fd, j)));
                }
            }
            if follows_base(p, st.connections) {
                assert forall|key: DoorKey| #[trigger]
                    after.contains_key(key) && p.base.contains_key(
                        ((key.0 % p.rooms) as usize, key.1),
                    ) implies after[key].0 % p.rooms == p.base[(
                    (key.0 % p.rooms) as usize,
                    key.1,
                )] by {
                    if is_end(pat, fd, td, n, key) {
                        let j = lemma_is_end_witness(pat, fd, td, n, key);
                        assert(after[from_end(pat, fd, j)] == to_end(pat, td, j));
                        assert(pat[j].0 % p.rooms == room % p.rooms);
                        assert(pat[j].1 % p.rooms == to_base);
                    } else {
                        assert(st.connections.contains_key(key));
                    }
                }
            }
        } else {
            lemma_try_patterns_sound(p, st, i, room, fd, td, to_base, k + 1);
        }
    } else {
        lemma_try_patterns_sound(p, st, i, room, fd, td, to_base, k + 1);
    }
}

} // verus!
