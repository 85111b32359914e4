use chickenwire::hexgrid::HexGrid;
use vstd::prelude::*;
use vstd::set_lib::{lemma_int_range, lemma_len_subset, set_int_range};

use crate::coord::{abs, neighbors_fit, spec_neighbors, HexCoord};
use crate::hexgrid::{grid_accepts, grid_get, grid_tiles};
use crate::tile::{Terrain, Tile};
use crate::units::{
    after_fight, fight_defined, first_index, lemma_first_index, locations, unit_at, Itinerary, Unit,
};

verus! {

/// The state of the movement search: the queue of hexes seen so far with
/// their distances (those before the head index have been expanded), and
/// the itineraries reported so far.
pub type SearchState = (Seq<(HexCoord, i32)>, int, Seq<Itinerary>);

/// The cost of stepping onto a terrain: coast and mountain are 999,
/// plain and forest 1.
pub open spec fn terrain_cost(t: Terrain) -> int {
    match t {
        Terrain::Coast => 999,
        Terrain::Plain => 1,
        Terrain::Mountain => 999,
        Terrain::Forest => 1,
    }
}

/// The cost of stepping onto hex `n`: 999 where an enemy stands on a map
/// hex, the terrain cost on other map hexes, and 1 off the map.
pub open spec fn step_cost(tiles: Map<HexCoord, Tile>, enemies: Seq<HexCoord>, n: HexCoord) -> int {
    if tiles.dom().contains(n) {
        if enemies.contains(n) {
            999
        } else {
            terrain_cost(tiles[n].terrain)
        }
    } else {
        1
    }
}

/// Hex `n` already sits in the queue.
pub open spec fn queued(queue: Seq<(HexCoord, i32)>, n: HexCoord) -> bool {
    exists|i: int| 0 <= i < queue.len() && queue[i].0 == n
}

/// Looks at neighbour `n` of a hex at distance `cd`. A hex already queued is
/// skipped. Otherwise, with `dist` its step cost and `nd = cd + dist`: if
/// `nd` is within `range` the hex is queued at `nd` and an itinerary at `nd`
/// is reported; in any case an itinerary at `dist` is reported after it.
pub open spec fn visit(
    st: SearchState,
    n: HexCoord,
    cd: int,
    range: int,
    tiles: Map<HexCoord, Tile>,
    enemies: Seq<HexCoord>,
) -> SearchState {
    if queued(st.0, n) {
        st
    } else {
        let dist = step_cost(tiles, enemies, n);
        let nd = cd + dist;
        if nd <= range {
            (
                st.0.push((n, nd as i32)),
                st.1,
                st.2.push(Itinerary { coordinate: n, distance: nd as i32 }).push(
                    Itinerary { coordinate: n, distance: dist as i32 },
                ),
            )
        } else {
            (st.0, st.1, st.2.push(Itinerary { coordinate: n, distance: dist as i32 }))
        }
    }
}

/// Looks at the first `k` hexes of `nbrs`, in order.
pub open spec fn visit_all(
    st: SearchState,
    nbrs: Seq<HexCoord>,
    cd: int,
    range: int,
    tiles: Map<HexCoord, Tile>,
    enemies: Seq<HexCoord>,
    k: int,
) -> SearchState
    decreases k,
{
    if k <= 0 {
        st
    } else {
        visit(visit_all(st, nbrs, cd, range, tiles, enemies, k - 1), nbrs[k - 1], cd, range, tiles, enemies)
    }
}

/// Takes the hex at the head of the queue and looks at its six neighbours.
pub open spec fn search_step(
    st: SearchState,
    range: int,
    tiles: Map<HexCoord, Tile>,
    enemies: Seq<HexCoord>,
) -> SearchState {
    let cur = st.0[st.1];
    visit_all((st.0, st.1 + 1, st.2), spec_neighbors(cur.0), cur.1 as int, range, tiles, enemies, 6)
}

/// Runs up to `fuel` search steps, stopping when the queue is exhausted.
pub open spec fn explore(
    st: SearchState,
    range: int,
    tiles: Map<HexCoord, Tile>,
    enemies: Seq<HexCoord>,
    fuel: nat,
) -> SearchState
    decreases fuel,
{
    if fuel == 0 || st.1 >= st.0.len() {
        st
    } else {
        explore(search_step(st, range, tiles, enemies), range, tiles, enemies, (fuel - 1) as nat)
    }
}

/// Number of hexes that fit in the square of side `2 * range + 1`.
pub open spec fn square_size(range: int) -> int {
    (2 * range + 1) * (2 * range + 1)
}

/// A number of steps after which the search has always exhausted its queue.
pub open spec fn search_bound(range: int) -> nat {
    (2 * square_size(range)) as nat
}

/// An itinerary whose hex holds an allied unit, set to distance 999.
pub open spec fn mark_with(it: Itinerary, allies: Seq<HexCoord>) -> Itinerary {
    if allies.contains(it.coordinate) {
        Itinerary { coordinate: it.coordinate, distance: 999 }
    } else {
        it
    }
}

/// The itineraries with every one that lands on an allied unit set to 999.
pub open spec fn mark_allies(found: Seq<Itinerary>, allies: Seq<HexCoord>) -> Seq<Itinerary> {
    found.map_values(|it: Itinerary| mark_with(it, allies))
}

/// The result of the movement search from `origin` with `range` movement:
/// starting from a queue holding only the origin at distance 0, the hexes
/// are expanded in queue order until the queue is exhausted, and the
/// itineraries reported on the way are returned with those on allied units
/// set to 999.
pub open spec fn spec_bfs(
    origin: HexCoord,
    range: int,
    tiles: Map<HexCoord, Tile>,
    enemies: Seq<HexCoord>,
    allies: Seq<HexCoord>,
) -> Seq<Itinerary> {
    let init: SearchState = (seq![(origin, 0i32)], 0, seq![]);
    mark_allies(explore(init, range, tiles, enemies, search_bound(range)).2, allies)
}

/// The search from `origin` with `range` movement stays within the integer
/// ranges: `range` plus the largest step cost fits in an `i32`, and every
/// hex within `range + 1` steps of the origin has coordinates in the `i32`
/// range, its first coordinate above the smallest `i32` (so that the map can
/// look it up).
pub open spec fn search_fits(origin: HexCoord, range: int) -> bool {
    &&& 0 <= range
    &&& range + 999 <= i32::MAX
    &&& origin.on_plane()
    &&& i32::MIN + range + 1 < origin.q <= i32::MAX - range - 1
    &&& i32::MIN + range + 1 <= origin.r <= i32::MAX - range - 1
    &&& i32::MIN + range + 1 <= origin.s <= i32::MAX - range - 1
}

/// What holds of every queue the search builds.
pub open spec fn queue_inv(queue: Seq<(HexCoord, i32)>, head: int, origin: HexCoord, range: int) -> bool {
    &&& 1 <= queue.len()
    &&& 0 <= head <= queue.len()
    &&& queue[0] == (origin, 0i32)
    &&& forall|i: int|
        0 <= i < queue.len() ==> {
            let e = #[trigger] queue[i];
            &&& 0 <= e.1 <= range
            &&& e.0.on_plane()
            &&& abs(e.0.q - origin.q) <= e.1
            &&& abs(e.0.r - origin.r) <= e.1
            &&& abs(e.0.s - origin.s) <= e.1
        }
    &&& forall|i: int, j: int| 0 <= i < j < queue.len() ==> queue[i].0 != queue[j].0
}

/// What holds of every itinerary the search reports: a positive distance,
/// a hex other than the origin and within `range + 1` steps of it.
pub open spec fn found_inv(found: Seq<Itinerary>, origin: HexCoord, range: int) -> bool {
    forall|i: int|
        0 <= i < found.len() ==> {
            let it = #[trigger] found[i];
            &&& it.distance >= 1
            &&& it.coordinate != origin
            &&& abs(it.coordinate.q - origin.q) <= range + 1
            &&& abs(it.coordinate.r - origin.r) <= range + 1
            &&& abs(it.coordinate.s - origin.s) <= range + 1
        }
}

pub(crate) proof fn lemma_square_size(range: int)
    requires
        range >= 0,
    ensures
        square_size(range) >= 1,
{
    assert((2 * range + 1) * (2 * range + 1) >= 1) by (nonlinear_arith)
        requires
            range >= 0,
    ;
}

proof fn lemma_pack_injective(a1: int, b1: int, a2: int, b2: int, w: int)
    requires
        0 <= a1,
        0 <= a2,
        0 <= b1 < w,
        0 <= b2 < w,
        a1 * w + b1 == a2 * w + b2,
    ensures
        a1 == a2,
        b1 == b2,
{
    if a1 < a2 {
        assert(a1 * w + w <= a2 * w) by (nonlinear_arith)
            requires
                a1 < a2,
                w > 0,
        ;
    } else if a2 < a1 {
        assert(a2 * w + w <= a1 * w) by (nonlinear_arith)
            requires
                a2 < a1,
                w > 0,
        ;
    }
}

proof fn lemma_pack_range(a: int, b: int, w: int)
    requires
        0 <= a < w,
        0 <= b < w,
    ensures
        0 <= a * w + b < w * w,
{
    assert(0 <= a * w + b < w * w) by (nonlinear_arith)
        requires
            0 <= a < w,
            0 <= b < w,
    ;
}

/// A queue of distinct hexes within `range` of the origin holds at most
/// `square_size(range)` entries.
pub(crate) proof fn lemma_queue_bound(queue: Seq<(HexCoord, i32)>, head: int, origin: HexCoord, range: int)
    requires
        queue_inv(queue, head, origin, range),
        origin.on_plane(),
    ensures
        queue.len() <= square_size(range),
{
    let w = 2 * range + 1;
    let key = |e: (HexCoord, i32)| (e.0.q - origin.q + range) * w + (e.0.r - origin.r + range);
    let keys = queue.map_values(key);
    assert forall|i: int| 0 <= i < keys.len() implies 0 <= #[trigger] keys[i] < w * w by {
        let e = queue[i];
        assert(keys[i] == key(e));
        lemma_pack_range(e.0.q - origin.q + range, e.0.r - origin.r + range, w);
    }
    assert forall|i: int, j: int| 0 <= i < keys.len() && 0 <= j < keys.len() && i != j implies keys[i]
        != keys[j] by {
        let ei = queue[i];
        let ej = queue[j];
        if keys[i] == keys[j] {
            assert(keys[i] == key(ei));
            assert(keys[j] == key(ej));
            lemma_pack_injective(
                ei.0.q - origin.q + range,
                ei.0.r - origin.r + range,
                ej.0.q - origin.q + range,
                ej.0.r - origin.r + range,
                w,
            );
            assert(ei.0 == ej.0);
            if i < j {
                assert(queue[i].0 != queue[j].0);
            } else {
                assert(queue[j].0 != queue[i].0);
            }
        }
    }
    assert(keys.no_duplicates());
    keys.unique_seq_to_set();
    lemma_int_range(0, w * w);
    assert(keys.to_set().subset_of(set_int_range(0, w * w))) by {
        assert forall|x: int| keys.to_set().contains(x) implies set_int_range(0, w * w).contains(x) by {
            let i = choose|i: int| 0 <= i < keys.len() && keys[i] == x;
        }
    }
    lemma_len_subset(keys.to_set(), set_int_range(0, w * w));
}

pub(crate) proof fn lemma_visit_inv(
    st: SearchState,
    n: HexCoord,
    cd: int,
    range: int,
    tiles: Map<HexCoord, Tile>,
    enemies: Seq<HexCoord>,
    origin: HexCoord,
)
    requires
        search_fits(origin, range),
        queue_inv(st.0, st.1, origin, range),
        found_inv(st.2, origin, range),
        0 <= cd <= range,
        n.on_plane(),
        abs(n.q - origin.q) <= cd + 1,
        abs(n.r - origin.r) <= cd + 1,
        abs(n.s - origin.s) <= cd + 1,
    ensures
        queue_inv(visit(st, n, cd, range, tiles, enemies).0, visit(st, n, cd, range, tiles, enemies).1, origin, range),
        found_inv(visit(st, n, cd, range, tiles, enemies).2, origin, range),
        visit(st, n, cd, range, tiles, enemies).1 == st.1,
        visit(st, n, cd, range, tiles, enemies).0.len() >= st.0.len(),
        forall|i: int| 0 <= i < st.0.len() ==> visit(st, n, cd, range, tiles, enemies).0[i] == st.0[i],
{
    let next = visit(st, n, cd, range, tiles, enemies);
    if !queued(st.0, n) {
        assert(n != origin) by {
            assert(st.0[0].0 == origin);
        }
        let dist = step_cost(tiles, enemies, n);
        assert forall|i: int| 0 <= i < next.2.len() implies {
            let it = #[trigger] next.2[i];
            &&& it.distance >= 1
            &&& it.coordinate != origin
            &&& abs(it.coordinate.q - origin.q) <= range + 1
            &&& abs(it.coordinate.r - origin.r) <= range + 1
            &&& abs(it.coordinate.s - origin.s) <= range + 1
        } by {
            if i < st.2.len() {
                assert(next.2[i] == st.2[i]);
            }
        }
        assert forall|i: int, j: int| 0 <= i < j < next.0.len() implies next.0[i].0 != next.0[j].0 by {
            if j >= st.0.len() {
                assert(next.0[i] == st.0[i]);
            } else {
                assert(next.0[i] == st.0[i]);
                assert(next.0[j] == st.0[j]);
            }
        }
        assert forall|i: int| 0 <= i < next.0.len() implies {
            let e = #[trigger] next.0[i];
            &&& 0 <= e.1 <= range
            &&& e.0.on_plane()
            &&& abs(e.0.q - origin.q) <= e.1
            &&& abs(e.0.r - origin.r) <= e.1
            &&& abs(e.0.s - origin.s) <= e.1
        } by {
            if i < st.0.len() {
                assert(next.0[i] == st.0[i]);
            }
        }
    }
}

pub(crate) proof fn lemma_visit_all_inv(
    st: SearchState,
    cur: (HexCoord, i32),
    range: int,
    tiles: Map<HexCoord, Tile>,
    enemies: Seq<HexCoord>,
    origin: HexCoord,
    k: int,
)
    requires
        search_fits(origin, range),
        queue_inv(st.0, st.1, origin, range),
        found_inv(st.2, origin, range),
        0 <= cur.1 <= range,
        cur.0.on_plane(),
        abs(cur.0.q - origin.q) <= cur.1,
        abs(cur.0.r - origin.r) <= cur.1,
        abs(cur.0.s - origin.s) <= cur.1,
        0 <= k <= 6,
    ensures
        ({
            let next = visit_all(st, spec_neighbors(cur.0), cur.1 as int, range, tiles, enemies, k);
            &&& queue_inv(next.0, next.1, origin, range)
            &&& found_inv(next.2, origin, range)
            &&& next.1 == st.1
        }),
    decreases k,
{
    if k > 0 {
        lemma_visit_all_inv(st, cur, range, tiles, enemies, origin, k - 1);
        let prev = visit_all(st, spec_neighbors(cur.0), cur.1 as int, range, tiles, enemies, k - 1);
        let n = spec_neighbors(cur.0)[k - 1];
        lemma_visit_inv(prev, n, cur.1 as int, range, tiles, enemies, origin);
    }
}

/// Every itinerary the movement search reports has a distance of at least
/// 1, and lies on a hex other than the unit's own, within one more step
/// than the unit's remaining movement.
pub proof fn lemma_search_reports(
    origin: HexCoord,
    range: int,
    tiles: Map<HexCoord, Tile>,
    enemies: Seq<HexCoord>,
    allies: Seq<HexCoord>,
)
    requires
        search_fits(origin, range),
    ensures
        found_inv(spec_bfs(origin, range, tiles, enemies, allies), origin, range),
{
    let init: SearchState = (seq![(origin, 0i32)], 0, seq![]);
    lemma_explore_inv(init, range, tiles, enemies, origin, search_bound(range));
    let found = explore(init, range, tiles, enemies, search_bound(range)).2;
    let marked = spec_bfs(origin, range, tiles, enemies, allies);
    assert forall|i: int| 0 <= i < marked.len() implies {
        let it = #[trigger] marked[i];
        &&& it.distance >= 1
        &&& it.coordinate != origin
        &&& abs(it.coordinate.q - origin.q) <= range + 1
        &&& abs(it.coordinate.r - origin.r) <= range + 1
        &&& abs(it.coordinate.s - origin.s) <= range + 1
    } by {
        assert(marked[i] == mark_with(found[i], allies));
    }
}

pub(crate) proof fn lemma_explore_inv(
    st: SearchState,
    range: int,
    tiles: Map<HexCoord, Tile>,
    enemies: Seq<HexCoord>,
    origin: HexCoord,
    fuel: nat,
)
    requires
        search_fits(origin, range),
        queue_inv(st.0, st.1, origin, range),
        found_inv(st.2, origin, range),
    ensures
        ({
            let next = explore(st, range, tiles, enemies, fuel);
            &&& queue_inv(next.0, next.1, origin, range)
            &&& found_inv(next.2, origin, range)
        }),
    decreases fuel,
{
    if fuel > 0 && st.1 < st.0.len() {
        let cur = st.0[st.1];
        let st0: SearchState = (st.0, st.1 + 1, st.2);
        lemma_visit_all_inv(st0, cur, range, tiles, enemies, origin, 6);
        lemma_explore_inv(search_step(st, range, tiles, enemies), range, tiles, enemies, origin, (fuel - 1) as nat);
    }
}

/// Every itinerary on a hex that costs 999 to step onto is at distance 999.
pub open spec fn blocked_inv(found: Seq<Itinerary>, tiles: Map<HexCoord, Tile>, enemies: Seq<HexCoord>) -> bool {
    forall|i: int|
        0 <= i < found.len() && step_cost(tiles, enemies, (#[trigger] found[i]).coordinate) == 999
            ==> found[i].distance == 999
}

proof fn lemma_visit_all_blocked(
    st: SearchState,
    nbrs: Seq<HexCoord>,
    cd: int,
    range: int,
    tiles: Map<HexCoord, Tile>,
    enemies: Seq<HexCoord>,
    k: int,
)
    requires
        0 <= cd,
        range < 999,
        blocked_inv(st.2, tiles, enemies),
    ensures
        blocked_inv(visit_all(st, nbrs, cd, range, tiles, enemies, k).2, tiles, enemies),
    decreases k,
{
    if k > 0 {
        lemma_visit_all_blocked(st, nbrs, cd, range, tiles, enemies, k - 1);
        let prev = visit_all(st, nbrs, cd, range, tiles, enemies, k - 1);
        let next = visit(prev, nbrs[k - 1], cd, range, tiles, enemies);
        assert forall|i: int|
            0 <= i < next.2.len() && step_cost(tiles, enemies, (#[trigger] next.2[i]).coordinate) == 999
                implies next.2[i].distance == 999 by {
            if i < prev.2.len() {
                assert(next.2[i] == prev.2[i]);
            }
        }
    }
}

proof fn lemma_explore_blocked(
    st: SearchState,
    range: int,
    tiles: Map<HexCoord, Tile>,
    enemies: Seq<HexCoord>,
    origin: HexCoord,
    fuel: nat,
)
    requires
        search_fits(origin, range),
        range < 999,
        queue_inv(st.0, st.1, origin, range),
        found_inv(st.2, origin, range),
        blocked_inv(st.2, tiles, enemies),
    ensures
        blocked_inv(explore(st, range, tiles, enemies, fuel).2, tiles, enemies),
    decreases fuel,
{
    if fuel > 0 && st.1 < st.0.len() {
        let cur = st.0[st.1];
        let st0: SearchState = (st.0, st.1 + 1, st.2);
        lemma_visit_all_blocked(st0, spec_neighbors(cur.0), cur.1 as int, range, tiles, enemies, 6);
        lemma_visit_all_inv(st0, cur, range, tiles, enemies, origin, 6);
        lemma_explore_blocked(search_step(st, range, tiles, enemies), range, tiles, enemies, origin, (fuel - 1) as nat);
    }
}

/// While the movement left is below 999, every itinerary the search reports
/// on a hex that blocks movement (a map hex of coast or mountain, or one an
/// enemy stands on) or on a hex an ally stands on is at distance 999.
pub proof fn lemma_blocked_hexes_cost_999(
    origin: HexCoord,
    range: int,
    tiles: Map<HexCoord, Tile>,
    enemies: Seq<HexCoord>,
    allies: Seq<HexCoord>,
)
    requires
        search_fits(origin, range),
        range < 999,
    ensures
        forall|i: int|
            0 <= i < spec_bfs(origin, range, tiles, enemies, allies).len() && (step_cost(
                tiles,
                enemies,
                (#[trigger] spec_bfs(origin, range, tiles, enemies, allies)[i]).coordinate,
            ) == 999 || allies.contains(spec_bfs(origin, range, tiles, enemies, allies)[i].coordinate))
                ==> spec_bfs(origin, range, tiles, enemies, allies)[i].distance == 999,
{
    let init: SearchState = (seq![(origin, 0i32)], 0, seq![]);
    lemma_explore_blocked(init, range, tiles, enemies, origin, search_bound(range));
    let found = explore(init, range, tiles, enemies, search_bound(range)).2;
    let marked = spec_bfs(origin, range, tiles, enemies, allies);
    assert forall|i: int|
        0 <= i < marked.len() && (step_cost(tiles, enemies, (#[trigger] marked[i]).coordinate) == 999
            || allies.contains(marked[i].coordinate)) implies marked[i].distance == 999 by {
        assert(marked[i] == mark_with(found[i], allies));
    }
}

/// Whether hex `n` already sits in the queue.
fn queued_exec(queue: &Vec<(HexCoord, i32)>, n: HexCoord) -> (b: bool)
    ensures
        b == queued(queue@, n),
{
    let mut i: usize = 0;
    while i < queue.len()
        invariant
            i <= queue.len(),
            forall|j: int| 0 <= j < i ==> queue@[j].0 != n,
        decreases queue.len() - i,
    {
        if queue[i].0 == n {
            return true;
        }
        i = i + 1;
    }
    false
}

impl Unit {
    /// Searches the hexes this unit can reach with its remaining movement.
    /// Hexes are expanded in the order they were queued, starting from the
    /// unit's own hex at distance 0. For each neighbour not yet queued, with
    /// `dist` its step cost (999 on coast, mountain or an enemy, 1 on plain,
    /// forest or off the map) and `nd` the neighbour's distance plus `dist`:
    /// when `nd` is within the remaining movement the neighbour is queued and
    /// an itinerary at `nd` is reported; an itinerary at `dist` is reported
    /// for it in any case. Finally every itinerary on an allied unit is set
    /// to 999.
    pub fn bfs(&self, grid: &HexGrid<Tile>, enemy_units: &Vec<Unit>, allied_units: &Vec<Unit>) -> (result: Vec<Itinerary>)
        requires
            search_fits(self.location, self.remaining_movement as int),
        ensures
            result@ == spec_bfs(
                self.location,
                self.remaining_movement as int,
                grid_tiles(*grid),
                locations(enemy_units@),
                locations(allied_units@),
            ),
            found_inv(result@, self.location, self.remaining_movement as int),
            forall|i: int|
                0 <= i < result@.len() && locations(allied_units@).contains(
                    (#[trigger] result@[i]).coordinate,
                ) ==> result@[i].distance == 999,
    {
        let origin = self.location;
        let range: i32 = self.remaining_movement as i32;
        let ghost tiles = grid_tiles(*grid);
        let ghost enemies = locations(enemy_units@);
        let ghost fuel = search_bound(range as int);
        let ghost init: SearchState = (seq![(origin, 0i32)], 0, seq![]);

        let mut queue: Vec<(HexCoord, i32)> = Vec::new();
        queue.push((origin, 0));
        let mut head: usize = 0;
        let mut result: Vec<Itinerary> = Vec::new();
        let ghost mut iters: int = 0;
        proof {
            lemma_square_size(range as int);
            assert(queue@ =~= init.0);
            assert(result@ =~= init.2);
        }

        while head < queue.len()
            invariant
                search_fits(origin, range as int),
                origin.on_plane(),
                tiles == grid_tiles(*grid),
                enemies == locations(enemy_units@),
                fuel == search_bound(range as int),
                square_size(range as int) >= 1,
                queue_inv(queue@, head as int, origin, range as int),
                queue@.len() <= square_size(range as int),
                found_inv(result@, origin, range as int),
                0 <= iters,
                iters + 2 * square_size(range as int) - queue@.len() - head <= fuel - 1,
                explore((queue@, head as int, result@), range as int, tiles, enemies, (fuel - iters) as nat)
                    == explore(init, range as int, tiles, enemies, fuel),
            decreases 2 * square_size(range as int) - queue@.len() - head,
        {
            let ghost before: SearchState = (queue@, head as int, result@);
            let cur = queue[head].0;
            let cd: i32 = queue[head].1;
            head = head + 1;
            let ghost st0: SearchState = (queue@, head as int, result@);
            assert(neighbors_fit(cur)) by {
                assert(queue@[head - 1] == before.0[before.1]);
            }
            let nbrs = cur.neighbors();
            let mut k: usize = 0;
            while k < 6
                invariant
                    search_fits(origin, range as int),
                    origin.on_plane(),
                    tiles == grid_tiles(*grid),
                    enemies == locations(enemy_units@),
                    square_size(range as int) >= 1,
                    k <= 6,
                    nbrs@ == spec_neighbors(cur),
                    cur.on_plane(),
                    0 <= cd <= range,
                    abs(cur.q - origin.q) <= cd,
                    abs(cur.r - origin.r) <= cd,
                    abs(cur.s - origin.s) <= cd,
                    st0.0.len() <= queue@.len(),
                    queue_inv(queue@, head as int, origin, range as int),
                    queue@.len() <= square_size(range as int),
                    found_inv(result@, origin, range as int),
                    (queue@, head as int, result@) == visit_all(
                        st0,
                        spec_neighbors(cur),
                        cd as int,
                        range as int,
                        tiles,
                        enemies,
                        k as int,
                    ),
                decreases 6 - k,
            {
                let n = nbrs[k];
                let ghost st_k: SearchState = (queue@, head as int, result@);
                assert(n.on_plane() && abs(n.q - cur.q) <= 1 && abs(n.r - cur.r) <= 1 && abs(n.s - cur.s)
                    <= 1);
                if !queued_exec(&queue, n) {
                    let mut dist: i32 = 1;
                    assert(grid_accepts(n));
                    match grid_get(grid, n) {
                        Some(tile) => {
                            match tile.terrain {
                                Terrain::Coast => {
                                    dist = 999;
                                },
                                Terrain::Plain => {
                                    dist = 1;
                                },
                                Terrain::Mountain => {
                                    dist = 999;
                                },
                                Terrain::Forest => {
                                    dist = 1;
                                },
                            }
                            // an enemy on the hex blocks it
                            let enemy = unit_at(enemy_units, n);
                            proof {
                                lemma_first_index(locations(enemy_units@), n);
                            }
                            if enemy.is_some() {
                                dist = 999;
                            }
                        },
                        None => {},
                    }
                    assert(dist == step_cost(tiles, enemies, n));
                    let neighbor_distance: i32 = cd + dist;
                    if neighbor_distance <= range {
                        queue.push((n, neighbor_distance));
                        result.push(Itinerary { coordinate: n, distance: neighbor_distance });
                    }
                    result.push(Itinerary { coordinate: n, distance: dist });
                    proof {
                        lemma_visit_inv(st_k, n, cd as int, range as int, tiles, enemies, origin);
                        assert((queue@, head as int, result@) == visit(
                            st_k,
                            n,
                            cd as int,
                            range as int,
                            tiles,
                            enemies,
                        ));
                        lemma_queue_bound(queue@, head as int, origin, range as int);
                    }
                }
                k = k + 1;
            }
            proof {
                assert(search_step(before, range as int, tiles, enemies) == (
                    queue@,
                    head as int,
                    result@,
                ));
                assert(explore(before, range as int, tiles, enemies, (fuel - iters) as nat) == explore(
                    search_step(before, range as int, tiles, enemies),
                    range as int,
                    tiles,
                    enemies,
                    (fuel - iters - 1) as nat,
                ));
                iters = iters + 1;
            }
        }
        let ghost found = result@;
        assert(explore(init, range as int, tiles, enemies, fuel) == (queue@, head as int, result@));

        // allied units make their hexes unavailable
        let ghost allies = locations(allied_units@);
        let mut j: usize = 0;
        while j < allied_units.len()
            invariant
                j <= allied_units.len(),
                allies == locations(allied_units@),
                result@.len() == found.len(),
                forall|x: int|
                    0 <= x < found.len() ==> #[trigger] result@[x] == mark_with(found[x], allies.take(j as int)),
            decreases allied_units.len() - j,
        {
            let loc = allied_units[j].location;
            proof {
                let t0 = allies.take(j as int);
                let t1 = allies.take(j + 1);
                assert(t1 =~= t0.push(loc));
                assert forall|c: HexCoord| #[trigger] t1.contains(c) <==> t0.contains(c) || c == loc by {
                    if t1.contains(c) && c != loc {
                        let i = choose|i: int| 0 <= i < t1.len() && t1[i] == c;
                        assert(t0[i] == c);
                    }
                    if t0.contains(c) {
                        let i = choose|i: int| 0 <= i < t0.len() && t0[i] == c;
                        assert(t1[i] == c);
                    }
                    if c == loc {
                        assert(t1[j as int] == c);
                    }
                }
            }
            let mut i: usize = 0;
            while i < result.len()
                invariant
                    j < allied_units.len(),
                    loc == allies[j as int],
                    allies == locations(allied_units@),
                    i <= result@.len(),
                    result@.len() == found.len(),
                    forall|c: HexCoord| #[trigger] allies.take(j + 1).contains(c) <==> allies.take(
                        j as int,
                    ).contains(c) || c == loc,
                    forall|x: int|
                        0 <= x < i ==> #[trigger] result@[x] == mark_with(found[x], allies.take(j + 1)),
                    forall|x: int|
                        i <= x < found.len() ==> #[trigger] result@[x] == mark_with(found[x], allies.take(j as int)),
                decreases result.len() - i,
            {
                if result[i].coordinate == loc {
                    result.set(i, Itinerary { coordinate: loc, distance: 999 });
                }
                i = i + 1;
            }
            j = j + 1;
        }
        proof {
            assert(allies.take(allied_units@.len() as int) == allies);
            assert(result@ =~= mark_allies(found, allies));
            assert forall|i: int| 0 <= i < result@.len() implies {
                let it = #[trigger] result@[i];
                &&& it.distance >= 1
                &&& it.coordinate != origin
                &&& abs(it.coordinate.q - origin.q) <= range + 1
                &&& abs(it.coordinate.r - origin.r) <= range + 1
                &&& abs(it.coordinate.s - origin.s) <= range + 1
            } by {
                assert(result@[i] == mark_with(found[i], allies));
            }
        }
        result
    }
}

/// `u` standing at `c`.
pub open spec fn moved_to(u: Unit, c: HexCoord) -> Unit {
    Unit { location: c, ..u }
}

/// The positions of a list of itineraries, in list order.
pub open spec fn itinerary_hexes(found: Seq<Itinerary>) -> Seq<HexCoord> {
    found.map_values(|it: Itinerary| it.coordinate)
}

/// The outcome of ordering a unit to `dest`: the unit, the enemy list, and
/// whether the unit died. The movement search is run; if no itinerary lands
/// on `dest` nothing happens. Otherwise, with the first such itinerary, the
/// unit moves to `dest` when its remaining movement covers that itinerary's
/// distance. Then, if an enemy stands on `dest`, the unit fights the first
/// such enemy. An enemy left at zero hit points is removed from the list
/// (the others keep their order), and the unit, if it is not at zero hit
/// points itself, takes the enemy's hex. The unit died when the fight
/// leaves it at zero hit points.
pub open spec fn spec_move_unit(
    u: Unit,
    dest: HexCoord,
    enemies: Seq<Unit>,
    allies: Seq<Unit>,
    tiles: Map<HexCoord, Tile>,
) -> (Unit, Seq<Unit>, bool) {
    let itins = spec_bfs(u.location, u.remaining_movement as int, tiles, locations(enemies), locations(allies));
    let k = first_index(itinerary_hexes(itins), dest);
    if k < 0 {
        (u, enemies, false)
    } else {
        let moved = if u.remaining_movement >= itins[k].distance {
            moved_to(u, dest)
        } else {
            u
        };
        let e = first_index(locations(enemies), dest);
        if e < 0 {
            (moved, enemies, false)
        } else {
            let fought = after_fight(moved);
            let dies = fought.hp == 0;
            if enemies[e].hp == 0 {
                let unit = if dies {
                    fought
                } else {
                    moved_to(fought, dest)
                };
                (unit, enemies.remove(e), dies)
            } else {
                (fought, enemies, dies)
            }
        }
    }
}

/// The fight that ordering `u` to `dest` may start computes without
/// overflow: if an enemy stands on `dest`, the fight against the first such
/// enemy is defined.
pub open spec fn move_fight_defined(u: Unit, dest: HexCoord, enemies: Seq<Unit>) -> bool {
    let e = first_index(locations(enemies), dest);
    e >= 0 ==> fight_defined(u, enemies[e])
}

/// Finds the first itinerary landing on `c`.
fn itinerary_at(found: &Vec<Itinerary>, c: HexCoord) -> (idx: Option<usize>)
    ensures
        match idx {
            Some(i) => i as int == first_index(itinerary_hexes(found@), c),
            None => first_index(itinerary_hexes(found@), c) < 0,
        },
{
    let mut i: usize = 0;
    while i < found.len()
        invariant
            i <= found.len(),
            forall|j: int| 0 <= j < i ==> found@[j].coordinate != c,
        decreases found.len() - i,
    {
        if found[i].coordinate == c {
            proof {
                lemma_first_index(itinerary_hexes(found@), c);
                let k = first_index(itinerary_hexes(found@), c);
                assert(itinerary_hexes(found@)[i as int] == c);
                if k < 0 {
                    assert(itinerary_hexes(found@).contains(c));
                }
                if 0 <= k < i {
                    assert(itinerary_hexes(found@)[k] == found@[k].coordinate);
                }
            }
            return Some(i);
        }
        i = i + 1;
    }
    proof {
        lemma_first_index(itinerary_hexes(found@), c);
        let k = first_index(itinerary_hexes(found@), c);
        if k >= 0 {
            assert(itinerary_hexes(found@)[k] == found@[k].coordinate);
        }
    }
    None
}

impl Unit {
    /// Orders this unit to `destination`, as `spec_move_unit` describes.
    /// Returns whether the unit died in a fight.
    pub fn move_unit(
        &mut self,
        destination: HexCoord,
        enemy_units: &mut Vec<Unit>,
        allied_units: Vec<Unit>,
        grid: &HexGrid<Tile>,
    ) -> (dies: bool)
        requires
            search_fits(old(self).location, old(self).remaining_movement as int),
            move_fight_defined(*old(self), destination, old(enemy_units)@),
        ensures
            (*final(self), final(enemy_units)@, dies) == spec_move_unit(
                *old(self),
                destination,
                old(enemy_units)@,
                allied_units@,
                grid_tiles(*grid),
            ),
    {
        let itin = self.bfs(grid, enemy_units, &allied_units);
        proof {
            lemma_first_index(itinerary_hexes(itin@), destination);
            lemma_first_index(locations(enemy_units@), destination);
        }
        // if reachable
        if let Some(pos) = itinerary_at(&itin, destination) {
            assert(itin@[pos as int].distance >= 1);
            let match_distance: i32 = itin[pos].distance;
            if self.remaining_movement >= match_distance as usize {
                self.location = destination;
            }
            // now check if an enemy is at the destination
            if let Some(index) = unit_at(enemy_units, destination) {
                let (dies, enemy_dies) = self.fight(&mut enemy_units[index]);
                if enemy_dies {
                    enemy_units.remove(index);
                    if !dies {
                        self.location = destination;
                    }
                }
                return dies;
            }
        }
        false
    }
}

/// A unit that has fought has no movement left: ordered to move, it stays
/// on its hex, unless the order makes it fight an enemy at zero hit points
/// while it is not at zero itself (which puts it on the enemy's hex).
pub proof fn lemma_no_move_after_fight(
    u: Unit,
    dest: HexCoord,
    enemies: Seq<Unit>,
    allies: Seq<Unit>,
    tiles: Map<HexCoord, Tile>,
)
    requires
        search_fits(u.location, 0),
    ensures
        ({
            let fought = after_fight(u);
            let r = spec_move_unit(fought, dest, enemies, allies, tiles);
            let e = first_index(locations(enemies), dest);
            r.0.location == u.location || (u.hp > 0 && e >= 0 && enemies[e].hp == 0)
        }),
{
    let fought = after_fight(u);
    lemma_search_reports(u.location, 0, tiles, locations(enemies), locations(allies));
    let itins = spec_bfs(u.location, 0, tiles, locations(enemies), locations(allies));
    lemma_first_index(itinerary_hexes(itins), dest);
    lemma_first_index(locations(enemies), dest);
    let k = first_index(itinerary_hexes(itins), dest);
    if k >= 0 {
        assert(itins[k].distance >= 1);
    }
}

} // verus!
