//! What the movement search computes, stated over walks on the map: a hex
//! reached in `k` steps and no fewer is first reported at distance `k`.

use vstd::prelude::*;

use crate::coord::{abs, neighbors_fit, spec_neighbors, HexCoord};
use crate::movement::{
    explore, lemma_blocked_hexes_cost_999, found_inv, itinerary_hexes, lemma_queue_bound, lemma_search_reports, lemma_square_size,
    lemma_visit_inv, mark_with, moved_to, queue_inv, queued, search_bound, search_fits, search_step,
    spec_bfs, spec_move_unit, square_size, step_cost, visit, visit_all, SearchState,
};
use crate::tile::{Terrain, Tile};
use crate::units::{first_index, lemma_first_index, locations, Itinerary, Unit};

verus! {

/// A unit can step onto hex `h`: a hex off the map, or a map hex of plain
/// or forest on which no enemy stands.
pub open spec fn passable(tiles: Map<HexCoord, Tile>, enemies: Seq<HexCoord>, h: HexCoord) -> bool {
    !tiles.dom().contains(h) || (!enemies.contains(h) && (tiles[h].terrain == Terrain::Plain
        || tiles[h].terrain == Terrain::Forest))
}

/// `b` is one of the six hexes next to `a`.
pub open spec fn adjacent(a: HexCoord, b: HexCoord) -> bool {
    let dq = b.q - a.q;
    let dr = b.r - a.r;
    let ds = b.s - a.s;
    ||| (dq == 1 && dr == 0 && ds == -1)
    ||| (dq == 1 && dr == -1 && ds == 0)
    ||| (dq == 0 && dr == -1 && ds == 1)
    ||| (dq == -1 && dr == 0 && ds == 1)
    ||| (dq == -1 && dr == 1 && ds == 0)
    ||| (dq == 0 && dr == 1 && ds == -1)
}

/// `p` is a walk from `origin`: it starts there, and each later hex lies
/// next to the one before it and can be stepped onto at cost 1.
pub open spec fn is_walk(
    origin: HexCoord,
    tiles: Map<HexCoord, Tile>,
    enemies: Seq<HexCoord>,
    p: Seq<HexCoord>,
) -> bool {
    &&& 1 <= p.len()
    &&& p[0] == origin
    &&& forall|i: int|
        1 <= i < p.len() ==> adjacent(p[i - 1], #[trigger] p[i]) && passable(tiles, enemies, p[i])
}

/// Hex `h` can be reached from `origin` in at most `k` steps: some walk
/// from `origin` of at most `k` steps ends on `h`.
pub open spec fn reachable(
    origin: HexCoord,
    tiles: Map<HexCoord, Tile>,
    enemies: Seq<HexCoord>,
    h: HexCoord,
    k: int,
) -> bool {
    exists|p: Seq<HexCoord>|
        #[trigger] is_walk(origin, tiles, enemies, p) && p.last() == h && p.len() <= k + 1
}

proof fn lemma_reachable_mono(
    origin: HexCoord,
    tiles: Map<HexCoord, Tile>,
    enemies: Seq<HexCoord>,
    h: HexCoord,
    j: int,
    k: int,
)
    requires
        j <= k,
        reachable(origin, tiles, enemies, h, j),
    ensures
        reachable(origin, tiles, enemies, h, k),
{
    let p = choose|p: Seq<HexCoord>|
        #[trigger] is_walk(origin, tiles, enemies, p) && p.last() == h && p.len() <= j + 1;
    assert(is_walk(origin, tiles, enemies, p));
}

proof fn lemma_reach_origin(origin: HexCoord, tiles: Map<HexCoord, Tile>, enemies: Seq<HexCoord>, k: int)
    requires
        0 <= k,
    ensures
        reachable(origin, tiles, enemies, origin, k),
{
    let p = seq![origin];
    assert(is_walk(origin, tiles, enemies, p));
}

proof fn lemma_reach_zero(origin: HexCoord, tiles: Map<HexCoord, Tile>, enemies: Seq<HexCoord>, h: HexCoord)
    requires
        reachable(origin, tiles, enemies, h, 0),
    ensures
        h == origin,
{
    let p = choose|p: Seq<HexCoord>|
        #[trigger] is_walk(origin, tiles, enemies, p) && p.last() == h && p.len() <= 1;
}

proof fn lemma_reach_step(
    origin: HexCoord,
    tiles: Map<HexCoord, Tile>,
    enemies: Seq<HexCoord>,
    m: HexCoord,
    h: HexCoord,
    d: int,
)
    requires
        reachable(origin, tiles, enemies, m, d),
        adjacent(m, h),
        passable(tiles, enemies, h),
    ensures
        reachable(origin, tiles, enemies, h, d + 1),
{
    let p = choose|p: Seq<HexCoord>|
        #[trigger] is_walk(origin, tiles, enemies, p) && p.last() == m && p.len() <= d + 1;
    let p2 = p.push(h);
    assert forall|i: int| 1 <= i < p2.len() implies adjacent(p2[i - 1], #[trigger] p2[i]) && passable(
        tiles,
        enemies,
        p2[i],
    ) by {
        if i < p.len() {
            assert(p2[i] == p[i]);
            assert(p2[i - 1] == p[i - 1]);
        }
    }
    assert(is_walk(origin, tiles, enemies, p2));
}

/// A hex reached in `k` steps and not in fewer lies next to a hex reached in
/// `k - 1` steps, and can be stepped onto.
proof fn lemma_reach_back(
    origin: HexCoord,
    tiles: Map<HexCoord, Tile>,
    enemies: Seq<HexCoord>,
    h: HexCoord,
    k: int,
) -> (m: HexCoord)
    requires
        1 <= k,
        reachable(origin, tiles, enemies, h, k),
        !reachable(origin, tiles, enemies, h, k - 1),
    ensures
        adjacent(m, h),
        passable(tiles, enemies, h),
        reachable(origin, tiles, enemies, m, k - 1),
{
    let p = choose|p: Seq<HexCoord>|
        #[trigger] is_walk(origin, tiles, enemies, p) && p.last() == h && p.len() <= k + 1;
    if p.len() == 1 {
        lemma_reach_origin(origin, tiles, enemies, k - 1);
    }
    let i = p.len() - 1;
    let p1 = p.drop_last();
    assert(adjacent(p[i - 1], p[i]) && passable(tiles, enemies, p[i]));
    assert forall|j: int| 1 <= j < p1.len() implies adjacent(p1[j - 1], #[trigger] p1[j]) && passable(
        tiles,
        enemies,
        p1[j],
    ) by {
        assert(p1[j] == p[j]);
        assert(p1[j - 1] == p[j - 1]);
    }
    assert(is_walk(origin, tiles, enemies, p1));
    p[i - 1]
}

proof fn lemma_neighbors_adjacent(c: HexCoord)
    requires
        neighbors_fit(c),
    ensures
        forall|j: int| 0 <= j < 6 ==> adjacent(c, #[trigger] spec_neighbors(c)[j]),
        forall|h: HexCoord| adjacent(c, h) ==> spec_neighbors(c).contains(h),
{
    assert forall|h: HexCoord| adjacent(c, h) implies spec_neighbors(c).contains(h) by {
        let n = spec_neighbors(c);
        if h == n[0] {
        } else if h == n[1] {
            assert(n[1] == h);
        } else if h == n[2] {
            assert(n[2] == h);
        } else if h == n[3] {
            assert(n[3] == h);
        } else if h == n[4] {
            assert(n[4] == h);
        } else {
            assert(n[5] == h);
        }
    }
}

proof fn lemma_first_index_push(s: Seq<HexCoord>, x: HexCoord, c: HexCoord)
    ensures
        first_index(s.push(x), c) == if first_index(s, c) >= 0 {
            first_index(s, c)
        } else if x == c {
            s.len() as int
        } else {
            -1
        },
{
    lemma_first_index(s, c);
    lemma_first_index(s.push(x), c);
    let f = first_index(s, c);
    let g = first_index(s.push(x), c);
    let t = s.push(x);
    if f >= 0 {
        assert(t[f] == c);
        assert(t.contains(c));
        if g < f {
            assert(s[g] == t[g]);
        }
    } else if x == c {
        assert(t[s.len() as int] == c);
        assert(t.contains(c));
        if g < s.len() {
            assert(s[g] == t[g]);
            assert(s.contains(c));
        }
    } else {
        if t.contains(c) {
            let i = choose|i: int| 0 <= i < t.len() && t[i] == c;
            assert(s[i] == t[i]);
            assert(s.contains(c));
        }
    }
}

proof fn lemma_hexes_push(res: Seq<Itinerary>, it: Itinerary)
    ensures
        itinerary_hexes(res.push(it)) == itinerary_hexes(res).push(it.coordinate),
{
    assert(itinerary_hexes(res.push(it)) =~= itinerary_hexes(res).push(it.coordinate));
}

/// The movement search's cost of stepping onto a hex is 1 where a unit can
/// step onto it (off the map, or a map hex of plain or forest on which no
/// enemy of the list stands) and 999 everywhere else.
pub proof fn lemma_step_cost(tiles: Map<HexCoord, Tile>, enemies: Seq<HexCoord>, n: HexCoord)
    ensures
        step_cost(tiles, enemies, n) == if passable(tiles, enemies, n) {
            1int
        } else {
            999int
        },
{
}

/// Queue entry `i` has been expanded: unless its distance has used up the
/// range, every neighbour a unit can step onto sits in the queue.
spec fn expanded(
    q: Seq<(HexCoord, i32)>,
    i: int,
    range: int,
    tiles: Map<HexCoord, Tile>,
    enemies: Seq<HexCoord>,
) -> bool {
    q[i].1 < range ==> forall|j: int|
        0 <= j < 6 && passable(tiles, enemies, #[trigger] spec_neighbors(q[i].0)[j]) ==> queued(
            q,
            spec_neighbors(q[i].0)[j],
        )
}

/// The first `k` neighbours of `cur` have been looked at.
spec fn partly_expanded(
    q: Seq<(HexCoord, i32)>,
    cur: (HexCoord, i32),
    range: int,
    tiles: Map<HexCoord, Tile>,
    enemies: Seq<HexCoord>,
    k: int,
) -> bool {
    cur.1 < range ==> forall|j: int|
        0 <= j < k && passable(tiles, enemies, #[trigger] spec_neighbors(cur.0)[j]) ==> queued(
            q,
            spec_neighbors(cur.0)[j],
        )
}

/// The first report of queue entry `j`'s hex carries that entry's distance.
spec fn first_report_ok(res: Seq<Itinerary>, q: Seq<(HexCoord, i32)>, j: int) -> bool {
    let f = first_index(itinerary_hexes(res), q[j].0);
    &&& 0 <= f < res.len()
    &&& res[f].distance == q[j].1
}

/// What the search keeps while the distance being expanded is `lp` and the
/// first `done` queue entries are expanded: distances in the queue rise and
/// stay within `lp + 1`, each is the fewest steps to its hex, every hex
/// within `lp` steps is queued, every hex reported but not queued costs 999
/// or was reported once the range was used up, and each queued hex other
/// than the origin was first reported at its distance.
spec fn bfs_inv(
    st: SearchState,
    origin: HexCoord,
    range: int,
    tiles: Map<HexCoord, Tile>,
    enemies: Seq<HexCoord>,
    lp: int,
    done: int,
) -> bool {
    let q = st.0;
    let res = st.2;
    &&& queue_inv(q, st.1, origin, range)
    &&& found_inv(res, origin, range)
    &&& 0 <= lp
    &&& 0 <= done <= q.len()
    &&& forall|i: int, j: int| #![trigger q[i], q[j]] 0 <= i < j < q.len() ==> q[i].1 <= q[j].1
    &&& forall|j: int| 0 <= j < q.len() ==> (#[trigger] q[j]).1 <= lp + 1
    &&& forall|j: int|
        0 <= j < q.len() ==> reachable(origin, tiles, enemies, (#[trigger] q[j]).0, q[j].1 as int) && (
        q[j].1 == 0 || !reachable(origin, tiles, enemies, q[j].0, (q[j].1 - 1)))
    &&& forall|i: int| 0 <= i < done ==> #[trigger] expanded(q, i, range, tiles, enemies)
    &&& forall|i: int|
        0 <= i < res.len() && !queued(q, (#[trigger] res[i]).coordinate) ==> step_cost(
            tiles,
            enemies,
            res[i].coordinate,
        ) == 999 || lp >= range
    &&& forall|j: int| 1 <= j < q.len() ==> #[trigger] first_report_ok(res, q, j)
    &&& forall|h: HexCoord| #[trigger] reachable(origin, tiles, enemies, h, lp) ==> queued(q, h)
}

proof fn lemma_queued_push(q: Seq<(HexCoord, i32)>, e: (HexCoord, i32), h: HexCoord)
    requires
        queued(q, h),
    ensures
        queued(q.push(e), h),
{
    let i = choose|i: int| 0 <= i < q.len() && q[i].0 == h;
    assert(q.push(e)[i] == q[i]);
}

proof fn lemma_first_report_push(res: Seq<Itinerary>, q: Seq<(HexCoord, i32)>, j: int, it: Itinerary)
    requires
        0 <= j < q.len(),
        first_report_ok(res, q, j),
    ensures
        first_report_ok(res.push(it), q, j),
{
    lemma_hexes_push(res, it);
    lemma_first_index_push(itinerary_hexes(res), it.coordinate, q[j].0);
}


proof fn lemma_min_dist(
    origin: HexCoord,
    tiles: Map<HexCoord, Tile>,
    enemies: Seq<HexCoord>,
    x: HexCoord,
    e: int,
    d: int,
)
    requires
        0 <= d,
        0 <= e,
        reachable(origin, tiles, enemies, x, d),
        e == 0 || !reachable(origin, tiles, enemies, x, (e - 1)),
    ensures
        e <= d,
{
    if e > d {
        lemma_reachable_mono(origin, tiles, enemies, x, d, (e - 1));
    }
}

proof fn lemma_expanded_push(
    q: Seq<(HexCoord, i32)>,
    i: int,
    e: (HexCoord, i32),
    range: int,
    tiles: Map<HexCoord, Tile>,
    enemies: Seq<HexCoord>,
)
    requires
        0 <= i < q.len(),
        expanded(q, i, range, tiles, enemies),
    ensures
        expanded(q.push(e), i, range, tiles, enemies),
{
    assert(q.push(e)[i] == q[i]);
    if q[i].1 < range {
        assert forall|j: int|
            0 <= j < 6 && passable(tiles, enemies, #[trigger] spec_neighbors(q[i].0)[j]) implies queued(
            q.push(e),
            spec_neighbors(q[i].0)[j],
        ) by {
            lemma_queued_push(q, e, spec_neighbors(q[i].0)[j]);
        }
    }
}

proof fn lemma_not_queued_push(q: Seq<(HexCoord, i32)>, e: (HexCoord, i32), h: HexCoord)
    requires
        !queued(q.push(e), h),
    ensures
        !queued(q, h),
{
    if queued(q, h) {
        lemma_queued_push(q, e, h);
    }
}

/// The neighbours of a hex within `range` steps of the origin are computed
/// without wrapping and lie next to it.
proof fn lemma_inner_hex(origin: HexCoord, range: int, c: HexCoord, d: int)
    requires
        search_fits(origin, range),
        0 <= d <= range,
        c.on_plane(),
        abs(c.q - origin.q) <= d,
        abs(c.r - origin.r) <= d,
        abs(c.s - origin.s) <= d,
    ensures
        neighbors_fit(c),
        forall|j: int|
            0 <= j < 6 ==> {
                let n = #[trigger] spec_neighbors(c)[j];
                &&& n.on_plane()
                &&& abs(n.q - origin.q) <= d + 1
                &&& abs(n.r - origin.r) <= d + 1
                &&& abs(n.s - origin.s) <= d + 1
                &&& adjacent(c, n)
            },
        forall|h: HexCoord| adjacent(c, h) ==> spec_neighbors(c).contains(h),
{
    lemma_neighbors_adjacent(c);
}



proof fn lemma_visit_bfs(
    st: SearchState,
    cur: (HexCoord, i32),
    k: int,
    range: int,
    tiles: Map<HexCoord, Tile>,
    enemies: Seq<HexCoord>,
    origin: HexCoord,
)
    requires
        search_fits(origin, range),
        range < 999,
        1 <= st.1 <= st.0.len(),
        st.0[st.1 - 1] == cur,
        bfs_inv(st, origin, range, tiles, enemies, cur.1 as int, st.1 - 1),
        partly_expanded(st.0, cur, range, tiles, enemies, k),
        0 <= k < 6,
    ensures
        ({
            let next = visit(st, spec_neighbors(cur.0)[k], cur.1 as int, range, tiles, enemies);
            &&& bfs_inv(next, origin, range, tiles, enemies, cur.1 as int, st.1 - 1)
            &&& partly_expanded(next.0, cur, range, tiles, enemies, k + 1)
            &&& next.1 == st.1
            &&& next.0.len() >= st.0.len()
            &&& forall|i: int| 0 <= i < st.0.len() ==> next.0[i] == st.0[i]
        }),
{
    let q = st.0;
    let res = st.2;
    let cd = cur.1 as int;
    let done = st.1 - 1;
    let n = spec_neighbors(cur.0)[k];
    let next = visit(st, n, cd, range, tiles, enemies);
    assert(q[done] == cur);
    lemma_inner_hex(origin, range, cur.0, cd);
    lemma_visit_inv(st, n, cd, range, tiles, enemies, origin);
    if queued(q, n) {
        assert(next == st);
    } else {
        let dist = step_cost(tiles, enemies, n);
        lemma_step_cost(tiles, enemies, n);
        if cd + dist <= range {
            assert(dist == 1);
            let e = (n, (cd + 1) as i32);
            let q2 = q.push(e);
            let it1 = Itinerary { coordinate: n, distance: (cd + 1) as i32 };
            let it2 = Itinerary { coordinate: n, distance: dist as i32 };
            let res2 = res.push(it1).push(it2);
            assert(next.0 == q2);
            assert(next.2 == res2);
            assert(q2[q.len() as int] == e);
            assert(queued(q2, n));
            // distances rise and stay within cd + 1
            assert forall|i: int, j: int| #![trigger q2[i], q2[j]] 0 <= i < j < q2.len() implies q2[i].1
                <= q2[j].1 by {
                assert(q2[i] == q[i]);
                if j < q.len() {
                    assert(q2[j] == q[j]);
                }
            }
            assert forall|j: int| 0 <= j < q2.len() implies (#[trigger] q2[j]).1 <= cd + 1 by {
                if j < q.len() {
                    assert(q2[j] == q[j]);
                }
            }
            // each queued distance is the fewest steps
            assert(reachable(origin, tiles, enemies, cur.0, cd));
            assert(adjacent(cur.0, n));
            lemma_reach_step(origin, tiles, enemies, cur.0, n, cd);
            assert(!reachable(origin, tiles, enemies, n, cd));
            assert forall|j: int| 0 <= j < q2.len() implies reachable(
                origin,
                tiles,
                enemies,
                (#[trigger] q2[j]).0,
                q2[j].1 as int,
            ) && (q2[j].1 == 0 || !reachable(origin, tiles, enemies, q2[j].0, (q2[j].1 - 1))) by {
                if j < q.len() {
                    assert(q2[j] == q[j]);
                }
            }
            assert forall|i: int| 0 <= i < done implies #[trigger] expanded(q2, i, range, tiles, enemies) by {
                assert(expanded(q, i, range, tiles, enemies));
                lemma_expanded_push(q, i, e, range, tiles, enemies);
            }
            // hexes reported and not queued
            assert forall|i: int| 0 <= i < res2.len() && !queued(q2, (#[trigger] res2[i]).coordinate) implies step_cost(
                tiles,
                enemies,
                res2[i].coordinate,
            ) == 999 || cd >= range by {
                if i < res.len() {
                    assert(res2[i] == res[i]);
                    lemma_not_queued_push(q, e, res[i].coordinate);
                } else if i == res.len() {
                    assert(res2[i] == it1);
                } else {
                    assert(res2[i] == it2);
                }
            }
            // first reports
            lemma_hexes_push(res, it1);
            lemma_hexes_push(res.push(it1), it2);
            lemma_first_index(itinerary_hexes(res), n);
            if itinerary_hexes(res).contains(n) {
                let i = choose|i: int| 0 <= i < itinerary_hexes(res).len() && itinerary_hexes(res)[i] == n;
                assert(res[i].coordinate == n);
                assert(!queued(q, res[i].coordinate));
            }
            lemma_first_index_push(itinerary_hexes(res), n, n);
            lemma_first_index_push(itinerary_hexes(res.push(it1)), n, n);
            assert(res2[res.len() as int] == it1);
            assert forall|j: int| 1 <= j < q2.len() implies #[trigger] first_report_ok(res2, q2, j) by {
                if j < q.len() {
                    assert(q2[j] == q[j]);
                    assert(first_report_ok(res, q, j));
                    lemma_first_report_push(res, q, j, it1);
                    lemma_first_report_push(res.push(it1), q, j, it2);
                }
            }
            assert forall|h: HexCoord| #[trigger] reachable(origin, tiles, enemies, h, cd) implies queued(
                q2,
                h,
            ) by {
                lemma_queued_push(q, e, h);
            }
            assert forall|j: int|
                0 <= j < k + 1 && passable(tiles, enemies, #[trigger] spec_neighbors(cur.0)[j]) implies queued(
                q2,
                spec_neighbors(cur.0)[j],
            ) by {
                if j < k {
                    lemma_queued_push(q, e, spec_neighbors(cur.0)[j]);
                }
            }
            assert forall|j: int| 0 <= j < q.len() implies next.0[j] == q[j] by {
                assert(q2[j] == q[j]);
            }
        } else {
            let it = Itinerary { coordinate: n, distance: dist as i32 };
            let res2 = res.push(it);
            assert(next.2 == res2);
            assert(next.0 == q);
            assert forall|i: int| 0 <= i < res2.len() && !queued(q, (#[trigger] res2[i]).coordinate) implies step_cost(
                tiles,
                enemies,
                res2[i].coordinate,
            ) == 999 || cd >= range by {
                if i < res.len() {
                    assert(res2[i] == res[i]);
                } else {
                    assert(res2[i] == it);
                }
            }
            assert forall|j: int| 1 <= j < q.len() implies #[trigger] first_report_ok(res2, q, j) by {
                assert(first_report_ok(res, q, j));
                lemma_first_report_push(res, q, j, it);
            }
        }
    }
}


/// A passable hex next to an expanded queue entry whose distance is below
/// the range is queued.
proof fn lemma_expanded_neighbor(
    q: Seq<(HexCoord, i32)>,
    i: int,
    range: int,
    tiles: Map<HexCoord, Tile>,
    enemies: Seq<HexCoord>,
    origin: HexCoord,
    h: HexCoord,
)
    requires
        search_fits(origin, range),
        0 <= i < q.len(),
        0 <= q[i].1 < range,
        q[i].0.on_plane(),
        abs(q[i].0.q - origin.q) <= q[i].1,
        abs(q[i].0.r - origin.r) <= q[i].1,
        abs(q[i].0.s - origin.s) <= q[i].1,
        expanded(q, i, range, tiles, enemies),
        adjacent(q[i].0, h),
        passable(tiles, enemies, h),
    ensures
        queued(q, h),
{
    let m = q[i].0;
    lemma_inner_hex(origin, range, m, q[i].1 as int);
    let j = choose|j: int| 0 <= j < 6 && spec_neighbors(m)[j] == h;
    assert(passable(tiles, enemies, spec_neighbors(q[i].0)[j]));
}

/// When the distance being expanded rises by one, every hex reachable
/// within the new distance is queued.
proof fn lemma_cover_next(
    q: Seq<(HexCoord, i32)>,
    hd: int,
    range: int,
    tiles: Map<HexCoord, Tile>,
    enemies: Seq<HexCoord>,
    origin: HexCoord,
    lp: int,
    h: HexCoord,
)
    requires
        search_fits(origin, range),
        queue_inv(q, hd, origin, range),
        0 <= hd < q.len(),
        0 <= lp,
        q[hd].1 == lp + 1,
        forall|i: int, j: int| #![trigger q[i], q[j]] 0 <= i < j < q.len() ==> q[i].1 <= q[j].1,
        forall|j: int|
            0 <= j < q.len() ==> reachable(origin, tiles, enemies, (#[trigger] q[j]).0, q[j].1 as int) && (
            q[j].1 == 0 || !reachable(origin, tiles, enemies, q[j].0, q[j].1 - 1)),
        forall|i: int| 0 <= i < hd ==> #[trigger] expanded(q, i, range, tiles, enemies),
        forall|x: HexCoord| #[trigger] reachable(origin, tiles, enemies, x, lp) ==> queued(q, x),
        reachable(origin, tiles, enemies, h, lp + 1),
    ensures
        queued(q, h),
{
    if !reachable(origin, tiles, enemies, h, lp) {
        let m = lemma_reach_back(origin, tiles, enemies, h, lp + 1);
        assert(queued(q, m));
        let i = choose|i: int| 0 <= i < q.len() && q[i].0 == m;
        assert(reachable(origin, tiles, enemies, q[i].0, q[i].1 as int));
        lemma_min_dist(origin, tiles, enemies, m, q[i].1 as int, lp);
        if i > hd {
            assert(q[hd].1 <= q[i].1);
        }
        assert(expanded(q, i, range, tiles, enemies));
        assert(q[hd].1 <= range);
        lemma_expanded_neighbor(q, i, range, tiles, enemies, origin, h);
    }
}

proof fn lemma_visit_all_bfs(
    st: SearchState,
    cur: (HexCoord, i32),
    k: int,
    range: int,
    tiles: Map<HexCoord, Tile>,
    enemies: Seq<HexCoord>,
    origin: HexCoord,
)
    requires
        search_fits(origin, range),
        range < 999,
        1 <= st.1 <= st.0.len(),
        st.0[st.1 - 1] == cur,
        bfs_inv(st, origin, range, tiles, enemies, cur.1 as int, st.1 - 1),
        0 <= k <= 6,
    ensures
        ({
            let next = visit_all(st, spec_neighbors(cur.0), cur.1 as int, range, tiles, enemies, k);
            &&& bfs_inv(next, origin, range, tiles, enemies, cur.1 as int, st.1 - 1)
            &&& partly_expanded(next.0, cur, range, tiles, enemies, k)
            &&& next.1 == st.1
            &&& next.0.len() >= st.0.len()
            &&& forall|i: int| 0 <= i < st.0.len() ==> next.0[i] == st.0[i]
        }),
    decreases k,
{
    if k > 0 {
        lemma_visit_all_bfs(st, cur, k - 1, range, tiles, enemies, origin);
        let prev = visit_all(st, spec_neighbors(cur.0), cur.1 as int, range, tiles, enemies, k - 1);
        assert(prev.0[st.1 - 1] == st.0[st.1 - 1]);
        lemma_visit_bfs(prev, cur, k - 1, range, tiles, enemies, origin);
        let next = visit_all(st, spec_neighbors(cur.0), cur.1 as int, range, tiles, enemies, k);
        assert forall|i: int| 0 <= i < st.0.len() implies next.0[i] == st.0[i] by {
            assert(prev.0[i] == st.0[i]);
        }
    }
}

/// The distance being expanded: that of the last queue entry taken.
spec fn last_taken(st: SearchState) -> int {
    if st.1 <= 0 {
        0
    } else {
        st.0[st.1 - 1].1 as int
    }
}

proof fn lemma_step_bfs(
    st: SearchState,
    range: int,
    tiles: Map<HexCoord, Tile>,
    enemies: Seq<HexCoord>,
    origin: HexCoord,
)
    requires
        search_fits(origin, range),
        range < 999,
        st.1 < st.0.len(),
        bfs_inv(st, origin, range, tiles, enemies, last_taken(st), st.1),
    ensures
        ({
            let next = search_step(st, range, tiles, enemies);
            &&& bfs_inv(next, origin, range, tiles, enemies, last_taken(next), next.1)
            &&& next.1 == st.1 + 1
        }),
{
    let q = st.0;
    let hd = st.1;
    let res = st.2;
    let cur = q[hd];
    let lp = last_taken(st);
    let lp2 = cur.1 as int;
    let st0: SearchState = (q, hd + 1, res);
    if hd > 0 {
        assert(q[hd - 1].1 <= q[hd].1);
    }
    assert(lp <= lp2 <= lp + 1);
    assert forall|h: HexCoord| #[trigger] reachable(origin, tiles, enemies, h, lp2) implies queued(q, h) by {
        if lp2 != lp {
            lemma_cover_next(q, hd, range, tiles, enemies, origin, lp, h);
        }
    }
    assert(bfs_inv(st0, origin, range, tiles, enemies, lp2, hd));
    lemma_visit_all_bfs(st0, cur, 6, range, tiles, enemies, origin);
    let next = search_step(st, range, tiles, enemies);
    assert(next.0[hd] == cur);
    assert(expanded(next.0, hd, range, tiles, enemies));
    assert(last_taken(next) == lp2);
}

proof fn lemma_explore_bfs(
    st: SearchState,
    range: int,
    tiles: Map<HexCoord, Tile>,
    enemies: Seq<HexCoord>,
    origin: HexCoord,
    fuel: nat,
)
    requires
        search_fits(origin, range),
        range < 999,
        bfs_inv(st, origin, range, tiles, enemies, last_taken(st), st.1),
        fuel + st.1 >= square_size(range),
    ensures
        ({
            let fin = explore(st, range, tiles, enemies, fuel);
            &&& bfs_inv(fin, origin, range, tiles, enemies, last_taken(fin), fin.1)
            &&& fin.1 == fin.0.len()
        }),
    decreases fuel,
{
    if fuel == 0 || st.1 >= st.0.len() {
        lemma_queue_bound(st.0, st.1, origin, range);
    } else {
        lemma_step_bfs(st, range, tiles, enemies, origin);
        lemma_explore_bfs(search_step(st, range, tiles, enemies), range, tiles, enemies, origin, (fuel - 1) as nat);
    }
}

/// Once every queue entry is expanded, every hex within `range` steps is
/// queued.
proof fn lemma_complete(
    st: SearchState,
    range: int,
    tiles: Map<HexCoord, Tile>,
    enemies: Seq<HexCoord>,
    origin: HexCoord,
    lp: int,
    h: HexCoord,
    k: int,
)
    requires
        search_fits(origin, range),
        bfs_inv(st, origin, range, tiles, enemies, lp, st.0.len() as int),
        0 <= k <= range,
        reachable(origin, tiles, enemies, h, k),
    ensures
        queued(st.0, h),
    decreases k,
{
    let q = st.0;
    if k == 0 {
        lemma_reach_zero(origin, tiles, enemies, h);
        assert(q[0].0 == h);
    } else if reachable(origin, tiles, enemies, h, k - 1) {
        lemma_complete(st, range, tiles, enemies, origin, lp, h, k - 1);
    } else {
        let m = lemma_reach_back(origin, tiles, enemies, h, k);
        lemma_complete(st, range, tiles, enemies, origin, lp, m, k - 1);
        let i = choose|i: int| 0 <= i < q.len() && q[i].0 == m;
        assert(reachable(origin, tiles, enemies, q[i].0, q[i].1 as int));
        lemma_min_dist(origin, tiles, enemies, m, q[i].1 as int, k - 1);
        assert(expanded(q, i, range, tiles, enemies));
        lemma_expanded_neighbor(q, i, range, tiles, enemies, origin, h);
    }
}

/// While the movement left is below 999, a hex that no allied unit stands
/// on, and that takes `k` steps (and no fewer) to reach from the unit's hex
/// over hexes costing 1, with `k` within the movement left, is reported by
/// the movement search, and the first itinerary reported for it is at
/// distance `k`.
pub proof fn lemma_fewest_steps(
    origin: HexCoord,
    range: int,
    tiles: Map<HexCoord, Tile>,
    enemies: Seq<HexCoord>,
    allies: Seq<HexCoord>,
    h: HexCoord,
    k: int,
)
    requires
        search_fits(origin, range),
        range < 999,
        1 <= k <= range,
        reachable(origin, tiles, enemies, h, k),
        !reachable(origin, tiles, enemies, h, k - 1),
        !allies.contains(h),
    ensures
        ({
            let found = spec_bfs(origin, range, tiles, enemies, allies);
            let f = first_index(itinerary_hexes(found), h);
            &&& 0 <= f < found.len()
            &&& found[f].distance == k
        }),
{
    let init: SearchState = (seq![(origin, 0i32)], 0, seq![]);
    lemma_reach_origin(origin, tiles, enemies, 0);
    assert forall|x: HexCoord| #[trigger] reachable(origin, tiles, enemies, x, 0) implies queued(init.0, x) by {
        lemma_reach_zero(origin, tiles, enemies, x);
        assert(init.0[0].0 == x);
    }
    assert(bfs_inv(init, origin, range, tiles, enemies, last_taken(init), init.1));
    lemma_square_size(range);
    lemma_explore_bfs(init, range, tiles, enemies, origin, search_bound(range));
    let fin = explore(init, range, tiles, enemies, search_bound(range));
    let q = fin.0;
    let res = fin.2;
    lemma_complete(fin, range, tiles, enemies, origin, last_taken(fin), h, k);
    let i = choose|i: int| 0 <= i < q.len() && q[i].0 == h;
    assert(reachable(origin, tiles, enemies, q[i].0, q[i].1 as int));
    lemma_min_dist(origin, tiles, enemies, h, q[i].1 as int, k);
    if q[i].1 < k {
        lemma_reachable_mono(origin, tiles, enemies, h, q[i].1 as int, k - 1);
    }
    lemma_reach_origin(origin, tiles, enemies, k - 1);
    assert(i != 0);
    assert(first_report_ok(res, q, i));
    let found = spec_bfs(origin, range, tiles, enemies, allies);
    assert(itinerary_hexes(found) =~= itinerary_hexes(res));
    let f = first_index(itinerary_hexes(res), h);
    lemma_first_index(itinerary_hexes(res), h);
    assert(res[f].coordinate == h);
    assert(found[f] == mark_with(res[f], allies));
}


/// A hex other than the origin reached within `k` steps is reached in some
/// fewest number of steps, between 1 and `k`.
proof fn lemma_fewest_exists(
    origin: HexCoord,
    tiles: Map<HexCoord, Tile>,
    enemies: Seq<HexCoord>,
    h: HexCoord,
    k: int,
) -> (j: int)
    requires
        1 <= k,
        h != origin,
        reachable(origin, tiles, enemies, h, k),
    ensures
        1 <= j <= k,
        reachable(origin, tiles, enemies, h, j),
        !reachable(origin, tiles, enemies, h, j - 1),
    decreases k,
{
    if !reachable(origin, tiles, enemies, h, k - 1) {
        k
    } else if k == 1 {
        lemma_reach_zero(origin, tiles, enemies, h);
        k
    } else {
        lemma_fewest_exists(origin, tiles, enemies, h, k - 1)
    }
}

/// While its movement left is below 999, a unit ordered to a hex that no
/// unit stands on, and that it can reach within its movement left over
/// hexes costing 1, moves there: the enemy list stays as it was and the unit
/// is not reported dead.
pub proof fn lemma_move_within_reach(
    u: Unit,
    dest: HexCoord,
    enemies: Seq<Unit>,
    allies: Seq<Unit>,
    tiles: Map<HexCoord, Tile>,
)
    requires
        search_fits(u.location, u.remaining_movement as int),
        u.remaining_movement < 999,
        reachable(u.location, tiles, locations(enemies), dest, u.remaining_movement as int),
        !locations(enemies).contains(dest),
        !locations(allies).contains(dest),
    ensures
        spec_move_unit(u, dest, enemies, allies, tiles) == (moved_to(u, dest), enemies, false),
{
    let origin = u.location;
    let range = u.remaining_movement as int;
    let es = locations(enemies);
    let itins = spec_bfs(origin, range, tiles, es, locations(allies));
    lemma_first_index(es, dest);
    lemma_first_index(itinerary_hexes(itins), dest);
    if dest == origin {
        lemma_search_reports(origin, range, tiles, es, locations(allies));
        let f = first_index(itinerary_hexes(itins), dest);
        if f >= 0 {
            assert(itins[f].coordinate == itinerary_hexes(itins)[f]);
        }
        assert(moved_to(u, dest) == u);
    } else {
        if range == 0 {
            lemma_reach_zero(origin, tiles, es, dest);
        }
        let k = lemma_fewest_exists(origin, tiles, es, dest, range);
        lemma_fewest_steps(origin, range, tiles, es, locations(allies), dest, k);
    }
}


/// While the movement left is between 1 and 998, a hex next to the unit's
/// hex that a unit can step onto (off the map, or a map hex of plain or
/// forest with no enemy on it) and on which no ally stands is reported by
/// the movement search, its first itinerary at distance 1.
pub proof fn lemma_free_neighbour_at_one(
    origin: HexCoord,
    range: int,
    tiles: Map<HexCoord, Tile>,
    enemies: Seq<HexCoord>,
    allies: Seq<HexCoord>,
    h: HexCoord,
)
    requires
        search_fits(origin, range),
        1 <= range < 999,
        adjacent(origin, h),
        passable(tiles, enemies, h),
        !allies.contains(h),
    ensures
        ({
            let found = spec_bfs(origin, range, tiles, enemies, allies);
            let f = first_index(itinerary_hexes(found), h);
            &&& 0 <= f < found.len()
            &&& found[f].distance == 1
        }),
{
    lemma_reach_origin(origin, tiles, enemies, 0);
    lemma_reach_step(origin, tiles, enemies, origin, h, 0);
    if reachable(origin, tiles, enemies, h, 0) {
        lemma_reach_zero(origin, tiles, enemies, h);
    }
    lemma_fewest_steps(origin, range, tiles, enemies, allies, h, 1);
}

/// While the movement left is below 999, every itinerary the search reports
/// on a map hex of coast or mountain, on a map hex where any enemy stands,
/// or on a hex where an ally stands, is at distance 999.
pub proof fn lemma_blocked_map_hexes_cost_999(
    origin: HexCoord,
    range: int,
    tiles: Map<HexCoord, Tile>,
    enemies: Seq<HexCoord>,
    allies: Seq<HexCoord>,
)
    requires
        search_fits(origin, range),
        range < 999,
    ensures
        forall|i: int|
            0 <= i < spec_bfs(origin, range, tiles, enemies, allies).len() && ({
                let c = (#[trigger] spec_bfs(origin, range, tiles, enemies, allies)[i]).coordinate;
                ||| (tiles.dom().contains(c) && (enemies.contains(c) || tiles[c].terrain == Terrain::Coast
                    || tiles[c].terrain == Terrain::Mountain))
                ||| allies.contains(c)
            }) ==> spec_bfs(origin, range, tiles, enemies, allies)[i].distance == 999,
{
    lemma_blocked_hexes_cost_999(origin, range, tiles, enemies, allies);
}

/// A unit ordered to a hex that the movement search does not report, or
/// whose first reported itinerary is longer than the unit's movement left,
/// keeps its location, unless the order makes it win a fight there: the
/// first enemy standing on that hex is at zero hit points and the unit is
/// not.
pub proof fn lemma_move_beyond_reach_stays(
    u: Unit,
    dest: HexCoord,
    enemies: Seq<Unit>,
    allies: Seq<Unit>,
    tiles: Map<HexCoord, Tile>,
)
    ensures
        ({
            let itins = spec_bfs(
                u.location,
                u.remaining_movement as int,
                tiles,
                locations(enemies),
                locations(allies),
            );
            let k = first_index(itinerary_hexes(itins), dest);
            let e = first_index(locations(enemies), dest);
            let r = spec_move_unit(u, dest, enemies, allies, tiles);
            (k < 0 || itins[k].distance > u.remaining_movement) ==> (r.0.location == u.location || (e
                >= 0 && enemies[e].hp == 0 && u.hp > 0))
        }),
{
}

/// While its movement left is below 999, a unit ordered to a map hex of
/// coast or mountain, to a hex an ally stands on, or to a map hex an enemy
/// stands on keeps its location, unless the order makes it win a fight
/// there: the first enemy on that hex is at zero hit points and the unit is
/// not.
pub proof fn lemma_move_to_blocked_hex_stays(
    u: Unit,
    dest: HexCoord,
    enemies: Seq<Unit>,
    allies: Seq<Unit>,
    tiles: Map<HexCoord, Tile>,
)
    requires
        search_fits(u.location, u.remaining_movement as int),
        u.remaining_movement < 999,
        (tiles.dom().contains(dest) && (locations(enemies).contains(dest) || tiles[dest].terrain
            == Terrain::Coast || tiles[dest].terrain == Terrain::Mountain)) || locations(allies).contains(
            dest,
        ),
    ensures
        ({
            let e = first_index(locations(enemies), dest);
            let r = spec_move_unit(u, dest, enemies, allies, tiles);
            r.0.location == u.location || (e >= 0 && enemies[e].hp == 0 && u.hp > 0)
        }),
{
    let range = u.remaining_movement as int;
    let es = locations(enemies);
    let al = locations(allies);
    let itins = spec_bfs(u.location, range, tiles, es, al);
    lemma_blocked_map_hexes_cost_999(u.location, range, tiles, es, al);
    lemma_first_index(itinerary_hexes(itins), dest);
    let k = first_index(itinerary_hexes(itins), dest);
    if k >= 0 {
        assert(itins[k].coordinate == itinerary_hexes(itins)[k]);
        assert(itins[k].distance == 999);
    }
    lemma_move_beyond_reach_stays(u, dest, enemies, allies, tiles);
}


/// What a move order does to the enemies and to the unit's own state. When
/// the movement search reports the destination and an enemy stands there,
/// the unit fights the first such enemy: it is left with no movement,
/// marked as having fought, with its hit points unchanged, and it is
/// reported dead exactly when it is at zero hit points; that enemy leaves
/// the list (the others keeping their order) exactly when it is at zero hit
/// points. In every other case the enemy list is unchanged, the unit is not
/// reported dead, and only its location may change.
pub proof fn lemma_move_fight_outcome(
    u: Unit,
    dest: HexCoord,
    enemies: Seq<Unit>,
    allies: Seq<Unit>,
    tiles: Map<HexCoord, Tile>,
)
    ensures
        ({
            let itins = spec_bfs(
                u.location,
                u.remaining_movement as int,
                tiles,
                locations(enemies),
                locations(allies),
            );
            let k = first_index(itinerary_hexes(itins), dest);
            let e = first_index(locations(enemies), dest);
            let r = spec_move_unit(u, dest, enemies, allies, tiles);
            &&& r.0.hp == u.hp
            &&& if k >= 0 && e >= 0 {
                &&& r.0.remaining_movement == 0
                &&& r.0.has_fought
                &&& r.2 == (u.hp == 0)
                &&& r.1 == if enemies[e].hp == 0 {
                    enemies.remove(e)
                } else {
                    enemies
                }
            } else {
                &&& r.1 == enemies
                &&& !r.2
                &&& r.0 == (Unit { location: r.0.location, ..u })
            }
        }),
{
}

} // verus!
