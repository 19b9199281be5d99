//! Grid shortest-path search excluding blocked tiles, with
//! 8-directional movement and a fixed direction priority so equal-cost
//! ties break the same way every run. Any search meeting the contract
//! (a path is returned exactly when one exists, and none shorter
//! exists) would do; this one is a breadth-first search by layers.

use vstd::prelude::*;
use crate::map::GameMap;

verus! {

/// King-move adjacency between two tile indices of the map.
pub open spec fn adjacent(map: GameMap, a: int, b: int) -> bool {
    let w = map.width as int;
    let ax = a % w;
    let ay = a / w;
    let bx = b % w;
    let by = b / w;
    &&& 0 <= a < map.area()
    &&& 0 <= b < map.area()
    &&& -1 <= bx - ax <= 1
    &&& -1 <= by - ay <= 1
    &&& a != b
}

/// `q` walks the grid from `s` to `g`: one king move at a time, never
/// entering a blocked tile (the starting tile itself may be blocked,
/// as a mover blocks the tile it stands on).
pub open spec fn is_path(map: GameMap, q: Seq<usize>, s: int, g: int) -> bool {
    &&& q.len() >= 1
    &&& q[0] == s
    &&& q[q.len() - 1] == g
    &&& forall|i: int| 0 <= i < q.len() - 1 ==> #[trigger] adjacent(map, q[i] as int, q[i + 1] as int)
    &&& forall|i: int| 1 <= i < q.len() ==> !map.blocked[#[trigger] q[i] as int]
}

/// One step may reach an unblocked neighbour.
pub open spec fn step_ok(map: GameMap, v: int, w: int) -> bool {
    adjacent(map, v, w) && !map.blocked[w]
}

/// Each consecutive pair of a walk is one legal step.
pub proof fn lemma_path_step(map: GameMap, q: Seq<usize>, s: int, g: int, i: int)
    requires
        is_path(map, q, s, g),
        0 <= i < q.len() - 1,
    ensures
        adjacent(map, q[i] as int, q[i + 1] as int),
        step_ok(map, q[i] as int, q[i + 1] as int),
{
    assert(adjacent(map, q[i] as int, q[i + 1] as int));
    assert(!map.blocked[q[i + 1] as int]);
}

/// All tiles reachable from those of `s` in at most one step.
pub open spec fn expand(map: GameMap, s: Set<int>) -> Set<int> {
    s.union(Set::new(|w: int| exists|v: int| s.contains(v) && step_ok(map, v, w)))
}

/// All tiles reachable from `st` in at most `k` steps.
pub open spec fn reach(map: GameMap, st: int, k: nat) -> Set<int>
    decreases k,
{
    if k == 0 {
        Set::new(|v: int| v == st)
    } else {
        expand(map, reach(map, st, (k - 1) as nat))
    }
}

/// Reachability only grows with the step budget.
pub proof fn lemma_reach_mono(map: GameMap, st: int, j: nat, k: nat)
    requires
        j <= k,
    ensures
        reach(map, st, j).subset_of(reach(map, st, k)),
    decreases k,
{
    if j < k {
        lemma_reach_mono(map, st, j, (k - 1) as nat);
        assert(reach(map, st, k) == expand(map, reach(map, st, (k - 1) as nat)));
        assert forall|v: int| reach(map, st, (k - 1) as nat).contains(v) implies reach(
            map,
            st,
            k,
        ).contains(v) by {}
    }
}

/// Once one step adds nothing, no number of steps ever will.
pub proof fn lemma_reach_saturates(map: GameMap, st: int, k: nat, m: nat)
    requires
        reach(map, st, k + 1) == reach(map, st, k),
        m >= k,
    ensures
        reach(map, st, m) == reach(map, st, k),
    decreases m,
{
    if m > k {
        lemma_reach_saturates(map, st, k, (m - 1) as nat);
        assert(reach(map, st, m) == expand(map, reach(map, st, (m - 1) as nat)));
    }
}

/// The end of a walk of `n` steps lies within `n` steps' reach.
pub proof fn lemma_path_in_reach(map: GameMap, q: Seq<usize>, s: int, g: int)
    requires
        is_path(map, q, s, g),
    ensures
        reach(map, s, (q.len() - 1) as nat).contains(g),
    decreases q.len(),
{
    if q.len() == 1 {
        assert(reach(map, s, 0).contains(s));
    } else {
        let q2 = q.drop_last();
        let g2 = q[q.len() - 2] as int;
        assert(is_path(map, q2, s, g2)) by {
            assert(q2[0] == q[0]);
            assert forall|i: int| 0 <= i < q2.len() - 1 implies #[trigger] adjacent(
                map,
                q2[i] as int,
                q2[i + 1] as int,
            ) by {
                lemma_path_step(map, q, s, g, i);
                assert(q2[i] == q[i] && q2[i + 1] == q[i + 1]);
            }
            assert forall|i: int| 1 <= i < q2.len() implies !map.blocked[#[trigger] q2[i] as int] by {
                assert(q2[i] == q[i]);
            }
        }
        lemma_path_in_reach(map, q2, s, g2);
        let k2 = (q2.len() - 1) as nat;
        lemma_path_step(map, q, s, g, q.len() - 2);
        assert(!map.blocked[g]);
        assert(step_ok(map, g2, g));
        assert(reach(map, s, (q.len() - 1) as nat) == expand(map, reach(map, s, k2)));
        assert(expand(map, reach(map, s, k2)).contains(g)) by {
            assert(Set::new(
                |w: int| exists|v: int| reach(map, s, k2).contains(v) && step_ok(map, v, w),
            ).contains(g)) by {
                assert(reach(map, s, k2).contains(g2) && step_ok(map, g2, g));
            }
        }
    }
}

/// How many tiles have been given a distance label.
pub open spec fn num_labeled(d: Seq<Option<usize>>) -> int
    decreases d.len(),
{
    if d.len() == 0 {
        0
    } else {
        num_labeled(d.drop_last()) + if d.last() is Some {
            1int
        } else {
            0int
        }
    }
}

proof fn lemma_num_labeled_le_len(d: Seq<Option<usize>>)
    ensures
        0 <= num_labeled(d) <= d.len(),
    decreases d.len(),
{
    if d.len() > 0 {
        lemma_num_labeled_le_len(d.drop_last());
    }
}

proof fn lemma_num_labeled_update(d: Seq<Option<usize>>, i: int, x: usize)
    requires
        0 <= i < d.len(),
        d[i] is None,
    ensures
        num_labeled(d.update(i, Some(x))) == num_labeled(d) + 1,
    decreases d.len(),
{
    let du = d.update(i, Some(x));
    if i == d.len() - 1 {
        assert(du.drop_last() =~= d.drop_last());
        assert(du.last() == Some(x));
    } else {
        assert(du.drop_last() =~= d.drop_last().update(i, Some(x)));
        assert(du.last() == d.last());
        lemma_num_labeled_update(d.drop_last(), i, x);
    }
}

/// The coordinate deltas of the 8 directions, in priority order.
pub open spec fn dir_dx(di: int) -> int {
    if di == 0 || di == 3 || di == 5 {
        -1
    } else if di == 2 || di == 4 || di == 7 {
        1
    } else {
        0
    }
}

pub open spec fn dir_dy(di: int) -> int {
    if di == 0 || di == 1 || di == 2 {
        -1
    } else if di == 5 || di == 6 || di == 7 {
        1
    } else {
        0
    }
}

fn dir_delta(di: usize) -> (d: (i32, i32))
    requires
        di < 8,
    ensures
        d.0 == dir_dx(di as int),
        d.1 == dir_dy(di as int),
{
    match di {
        0 => (-1, -1),
        1 => (0, -1),
        2 => (1, -1),
        3 => (-1, 0),
        4 => (1, 0),
        5 => (-1, 1),
        6 => (0, 1),
        _ => (1, 1),
    }
}

/// Tile `w` is the neighbour of `v` in direction `di`, and may be
/// stepped onto.
pub open spec fn dir_step_ok(map: GameMap, v: int, di: int, w: int) -> bool {
    let ww = map.width as int;
    let nx = v % ww + dir_dx(di);
    let ny = v / ww + dir_dy(di);
    &&& map.in_bounds(nx, ny)
    &&& w == map.idx_of(nx, ny)
    &&& !map.blocked[w]
}

/// The 8 directions enumerate exactly the king moves: stepping is
/// possible in some direction iff the two tiles are adjacent and the
/// target is free.
proof fn lemma_dir_step_vs_step(map: GameMap, v: int, w: int)
    requires
        map.wf(),
        0 <= v < map.area(),
    ensures
        (exists|di: int| 0 <= di < 8 && dir_step_ok(map, v, di, w)) <==> step_ok(map, v, w),
{
    let ww = map.width as int;
    let vx = v % ww;
    let vy = v / ww;
    map.lemma_coords_of_idx(v);
    if exists|di: int| 0 <= di < 8 && dir_step_ok(map, v, di, w) {
        let di = choose|di: int| 0 <= di < 8 && dir_step_ok(map, v, di, w);
        let nx = vx + dir_dx(di);
        let ny = vy + dir_dy(di);
        map.lemma_idx_of_in_range(nx, ny);
        map.lemma_idx_coords(nx, ny);
        assert(w != v) by {
            if w == v {
                assert(nx == vx && ny == vy);
                assert(dir_dx(di) == 0 && dir_dy(di) == 0);
            }
        }
        assert(step_ok(map, v, w));
    }
    if step_ok(map, v, w) {
        map.lemma_coords_of_idx(w);
        let wx = w % ww;
        let wy = w / ww;
        let dx = wx - vx;
        let dy = wy - vy;
        assert(!(dx == 0 && dy == 0)) by {
            if dx == 0 && dy == 0 {
                assert(v == w);
            }
        }
        let di: int = if dy == -1 {
            dx + 1
        } else if dy == 0 {
            if dx == -1 {
                3
            } else {
                4
            }
        } else {
            dx + 6
        };
        assert(0 <= di < 8 && dir_dx(di) == dx && dir_dy(di) == dy);
        assert(dir_step_ok(map, v, di, w));
    }
}

/// A shortest path from `start` to `goal`, if any path exists at all:
/// breadth-first search by layers, neighbours taken in the fixed
/// direction priority. `Some(p)` is a valid path no other path beats;
/// `None` means no path exists. Searching from a blocked start tile is
/// fine (a mover blocks its own tile); the goal must be free to enter.
#[verifier::rlimit(100)]
#[verifier::spinoff_prover]
pub fn shortest_path(map: &GameMap, start: usize, goal: usize) -> (r: Option<Vec<usize>>)
    requires
        map.wf(),
        (start as int) < map.area(),
        (goal as int) < map.area(),
    ensures
        match r {
            Some(p) => {
                &&& is_path(*map, p@, start as int, goal as int)
                &&& forall|q: Seq<usize>|
                    is_path(*map, q, start as int, goal as int) ==> p@.len() <= q.len()
            },
            None => forall|q: Seq<usize>| !is_path(*map, q, start as int, goal as int),
        },
{
    let area = map.tiles.len();
    let mut dist: Vec<Option<usize>> = Vec::new();
    let mut parent: Vec<usize> = Vec::new();
    let mut i: usize = 0;
    while i < area
        invariant
            i <= area,
            dist@.len() == i,
            parent@.len() == i,
            forall|v: int| 0 <= v < i ==> #[trigger] dist@[v] is None,
            num_labeled(dist@) == 0,
        decreases area - i,
    {
        let ghost dist_old = dist@;
        dist.push(None);
        parent.push(0);
        proof {
            assert(dist@.drop_last() =~= dist_old);
        }
        i = i + 1;
    }
    let ghost d0 = dist@;
    dist[start] = Some(0);
    proof {
        lemma_num_labeled_update(d0, start as int, 0);
    }
    let mut labeled_count: usize = 1;
    let mut cur: Vec<usize> = Vec::new();
    cur.push(start);
    let mut layer: usize = 0;
    let ghost st = start as int;
    proof {
        assert(reach(*map, st, 0).contains(st));
        assert(cur@[0] == start);
        assert forall|v: usize| (v as int) < area implies (#[trigger] cur@.contains(v) <==> dist@[
            v as int
        ] == Some(0usize)) by {
            if cur@.contains(v) {
                let j = choose|j: int| 0 <= j < cur@.len() && cur@[j] == v;
                assert(j == 0);
            }
            if dist@[v as int] == Some(0usize) {
                assert(v as int == st);
                assert(cur@.contains(v)) by {
                    assert(cur@[0] == v);
                }
            }
        }
        assert forall|v: int| 0 <= v < area implies ((#[trigger] dist@[v]) is Some <==> reach(
            *map,
            st,
            0,
        ).contains(v)) by {
            if dist@[v] is Some {
                assert(v == st);
            }
            if reach(*map, st, 0).contains(v) {
                assert(v == st);
            }
        }
    }
    while cur.len() > 0
        invariant
            map.wf(),
            area == map.area(),
            (start as int) < area,
            (goal as int) < area,
            st == start as int,
            dist@.len() == area,
            parent@.len() == area,
            dist@[st] == Some(0usize),
            labeled_count == num_labeled(dist@),
            labeled_count <= area,
            cur.len() > 0 ==> labeled_count >= layer + 1,
            cur.len() == 0 ==> layer >= 1,
            forall|j: int| 0 <= j < cur@.len() ==> (#[trigger] cur@[j] as int) < area,
            forall|v: int|
                0 <= v < area ==> ((#[trigger] dist@[v]) is Some <==> reach(
                    *map,
                    st,
                    layer as nat,
                ).contains(v)),
            forall|v: int|
                0 <= v < area && (#[trigger] dist@[v]) is Some ==> dist@[v]->0 <= layer && reach(
                    *map,
                    st,
                    dist@[v]->0 as nat,
                ).contains(v) && (dist@[v]->0 > 0 ==> !reach(
                    *map,
                    st,
                    (dist@[v]->0 - 1) as nat,
                ).contains(v)),
            forall|v: usize|
                (v as int) < area ==> (#[trigger] cur@.contains(v) <==> dist@[v as int] == Some(
                    layer,
                )),
            forall|v: int|
                0 <= v < area && (#[trigger] dist@[v]) is Some && dist@[v]->0 > 0 ==> (
                parent@[v] as int) < area && dist@[parent@[v] as int] is Some && dist@[parent@[v] as int]->0
                    + 1 == dist@[v]->0 && step_ok(*map, parent@[v] as int, v),
        decreases area - labeled_count, cur.len(),
    {
        let ghost reach_base = reach(*map, st, layer as nat);
        let ghost count_entry = labeled_count;
        let mut next: Vec<usize> = Vec::new();
        let mut ci: usize = 0;
        while ci < cur.len()
            invariant
                map.wf(),
                area == map.area(),
                (start as int) < area,
                st == start as int,
                dist@.len() == area,
                parent@.len() == area,
                dist@[st] == Some(0usize),
                labeled_count == num_labeled(dist@),
                labeled_count >= layer + 1,
                labeled_count <= area,
                ci <= cur.len(),
                reach_base == reach(*map, st, layer as nat),
                count_entry >= layer + 1,
                labeled_count == count_entry + next@.len(),
                forall|j: int| 0 <= j < cur@.len() ==> (#[trigger] cur@[j] as int) < area,
                forall|j: int| 0 <= j < next@.len() ==> (#[trigger] next@[j] as int) < area,
                forall|v: usize|
                    (v as int) < area ==> (#[trigger] cur@.contains(v) <==> dist@[v as int] == Some(
                        layer,
                    )),
                forall|v: int|
                    0 <= v < area ==> ((#[trigger] dist@[v]) is Some <==> reach_base.contains(v)
                        || exists|j: int|
                        0 <= j < ci && step_ok(*map, cur@[j] as int, v)),
                forall|v: usize|
                    (v as int) < area ==> (#[trigger] next@.contains(v) <==> dist@[v as int]
                        == Some((layer + 1) as usize)),
                forall|v: int|
                    0 <= v < area && (#[trigger] dist@[v]) is Some ==> dist@[v]->0 <= layer + 1
                        && reach(*map, st, dist@[v]->0 as nat).contains(v) && (dist@[v]->0 > 0
                        ==> !reach(*map, st, (dist@[v]->0 - 1) as nat).contains(v)),
                forall|v: int|
                    0 <= v < area && (#[trigger] dist@[v]) is Some && dist@[v]->0 > 0 ==> (
                    parent@[v] as int) < area && dist@[parent@[v] as int] is Some && dist@[parent@[
                        v
                    ] as int]->0 + 1 == dist@[v]->0 && step_ok(*map, parent@[v] as int, v),
            decreases cur.len() - ci,
        {
            let v = cur[ci];
            proof {
                assert(cur@.contains(cur@[ci as int]));
                map.lemma_coords_of_idx(v as int);
            }
            let wu = map.width as usize;
            let vx = (v % wu) as i32;
            let vy = (v / wu) as i32;
            let mut di: usize = 0;
            while di < 8
                invariant
                    map.wf(),
                    area == map.area(),
                    (start as int) < area,
                    st == start as int,
                    dist@.len() == area,
                    parent@.len() == area,
                    dist@[st] == Some(0usize),
                    labeled_count == num_labeled(dist@),
                    labeled_count >= layer + 1,
                    labeled_count <= area,
                    ci < cur.len(),
                    di <= 8,
                    v == cur@[ci as int],
                    (v as int) < area,
                    forall|j: int| 0 <= j < cur@.len() ==> (#[trigger] cur@[j] as int) < area,
                    forall|j: int| 0 <= j < next@.len() ==> (#[trigger] next@[j] as int) < area,
                    dist@[v as int] == Some(layer),
                    vx as int == (v as int) % (map.width as int),
                    vy as int == (v as int) / (map.width as int),
                    map.in_bounds(vx as int, vy as int),
                    reach_base == reach(*map, st, layer as nat),
                    count_entry >= layer + 1,
                    labeled_count == count_entry + next@.len(),
                    forall|u: usize|
                        (u as int) < area ==> (#[trigger] cur@.contains(u) <==> dist@[u as int]
                            == Some(layer)),
                    forall|u: int|
                        0 <= u < area ==> ((#[trigger] dist@[u]) is Some <==> reach_base.contains(u)
                            || (exists|j: int| 0 <= j < ci && step_ok(*map, cur@[j] as int, u)) || (
                        exists|dj: int| 0 <= dj < di && dir_step_ok(*map, v as int, dj, u))),
                    forall|u: usize|
                        (u as int) < area ==> (#[trigger] next@.contains(u) <==> dist@[u as int]
                            == Some((layer + 1) as usize)),
                    forall|u: int|
                        0 <= u < area && (#[trigger] dist@[u]) is Some ==> dist@[u]->0 <= layer + 1
                            && reach(*map, st, dist@[u]->0 as nat).contains(u) && (dist@[u]->0 > 0
                            ==> !reach(*map, st, (dist@[u]->0 - 1) as nat).contains(u)),
                    forall|u: int|
                        0 <= u < area && (#[trigger] dist@[u]) is Some && dist@[u]->0 > 0 ==> (
                        parent@[u] as int) < area && dist@[parent@[u] as int] is Some && dist@[
                            parent@[u] as int
                        ]->0 + 1 == dist@[u]->0 && step_ok(*map, parent@[u] as int, u),
                decreases 8 - di,
            {
                let (ddx, ddy) = dir_delta(di);
                let nx = vx + ddx;
                let ny = vy + ddy;
                if 0 <= nx && nx < map.width && 0 <= ny && ny < map.height {
                    let w_idx = map.idx(nx, ny);
                    if !map.blocked[w_idx] {
                        proof {
                            assert(dir_step_ok(*map, v as int, di as int, w_idx as int));
                            lemma_dir_step_vs_step(*map, v as int, w_idx as int);
                        }
                        let labeled_here = match dist[w_idx] {
                            Some(_) => true,
                            None => false,
                        };
                        if !labeled_here {
                            let ghost dist_before = dist@;
                            let ghost next_before = next@;
                            dist[w_idx] = Some(layer + 1);
                            parent[w_idx] = v;
                            next.push(w_idx);
                            proof {
                                lemma_num_labeled_update(
                                    dist_before,
                                    w_idx as int,
                                    (layer + 1) as usize,
                                );
                                lemma_num_labeled_le_len(dist@);
                                assert(next@[next@.len() - 1] == w_idx);
                                assert forall|u: usize|
                                    (u as int) < area implies (#[trigger] next@.contains(u)
                                    <==> dist@[u as int] == Some((layer + 1) as usize)) by {
                                    vstd::seq_lib::lemma_seq_contains_after_push(
                                        next_before,
                                        w_idx,
                                        u,
                                    );
                                }
                                assert(reach(*map, st, (layer + 1) as nat) == expand(
                                    *map,
                                    reach_base,
                                ));
                                assert(reach(*map, st, (layer + 1) as nat).contains(
                                    w_idx as int,
                                )) by {
                                    assert(reach_base.contains(v as int) && step_ok(
                                        *map,
                                        v as int,
                                        w_idx as int,
                                    ));
                                    assert(Set::new(
                                        |w: int|
                                            exists|u: int|
                                                reach_base.contains(u) && step_ok(*map, u, w),
                                    ).contains(w_idx as int));
                                }
                            }
                            labeled_count = labeled_count + 1;
                        }
                    }
                }
                di = di + 1;
            }
            proof {
                assert forall|u: int|
                    0 <= u < area implies ((#[trigger] dist@[u]) is Some <==> reach_base.contains(u)
                    || (exists|j: int| 0 <= j < ci + 1 && step_ok(*map, cur@[j] as int, u))) by {
                    lemma_dir_step_vs_step(*map, v as int, u);
                    if exists|j: int| 0 <= j < ci + 1 && step_ok(*map, cur@[j] as int, u) {
                        let j = choose|j: int| 0 <= j < ci + 1 && step_ok(*map, cur@[j] as int, u);
                        if j < ci {
                            assert(dist@[u] is Some);
                        } else {
                            assert(step_ok(*map, v as int, u));
                        }
                    }
                    if dist@[u] is Some {
                        if !reach_base.contains(u) && !(exists|j: int|
                            0 <= j < ci && step_ok(*map, cur@[j] as int, u)) {
                            let dj = choose|dj: int| 0 <= dj < 8 && dir_step_ok(*map, v as int, dj, u);
                            assert(step_ok(*map, v as int, u));
                            assert(0 <= ci < ci + 1 && step_ok(*map, cur@[ci as int] as int, u));
                        }
                    }
                }
            }
            ci = ci + 1;
        }
        proof {
            let r1 = reach(*map, st, (layer + 1) as nat);
            assert(r1 == expand(*map, reach_base));
            assert forall|u: int| 0 <= u < area implies (r1.contains(u) <==> (
            #[trigger] dist@[u]) is Some) by {
                if r1.contains(u) && !reach_base.contains(u) {
                    let w0 = choose|w0: int|
                        reach_base.contains(w0) && #[trigger] step_ok(*map, w0, u);
                    assert(dist@[w0] is Some && dist@[w0]->0 <= layer);
                    if dist@[w0]->0 < layer {
                        lemma_reach_mono(*map, st, (dist@[w0]->0 + 1) as nat, layer as nat);
                        assert(reach(*map, st, (dist@[w0]->0 + 1) as nat).contains(u)) by {
                            assert(reach(*map, st, (dist@[w0]->0 + 1) as nat) == expand(
                                *map,
                                reach(*map, st, dist@[w0]->0 as nat),
                            ));
                            assert(Set::new(
                                |w: int|
                                    exists|q0: int|
                                        reach(*map, st, dist@[w0]->0 as nat).contains(q0) && step_ok(
                                            *map,
                                            q0,
                                            w,
                                        ),
                            ).contains(u)) by {
                                assert(reach(*map, st, dist@[w0]->0 as nat).contains(w0) && step_ok(
                                    *map,
                                    w0,
                                    u,
                                ));
                            }
                        }
                        assert(reach_base.contains(u));
                    } else {
                        assert(dist@[w0 as int] == Some(layer));
                        assert(w0 == w0 as usize as int);
                        assert(cur@.contains(w0 as usize));
                        let j = choose|j: int| 0 <= j < cur@.len() && cur@[j] == w0 as usize;
                        assert(step_ok(*map, cur@[j] as int, u));
                        assert(dist@[u] is Some);
                    }
                }
                if dist@[u] is Some && !reach_base.contains(u) {
                    let j = choose|j: int|
                        0 <= j < cur@.len() && #[trigger] step_ok(*map, cur@[j] as int, u);
                    assert(cur@.contains(cur@[j]));
                    assert(dist@[cur@[j] as int] == Some(layer));
                    assert(reach_base.contains(cur@[j] as int));
                    assert(r1.contains(u)) by {
                        assert(Set::new(
                            |w: int|
                                exists|q0: int| reach_base.contains(q0) && step_ok(*map, q0, w),
                        ).contains(u)) by {
                            assert(reach_base.contains(cur@[j] as int) && step_ok(
                                *map,
                                cur@[j] as int,
                                u,
                            ));
                        }
                    }
                }
                if reach_base.contains(u) {
                    assert(r1.contains(u));
                    assert(dist@[u] is Some);
                }
            }
        }
        cur = next;
        layer = layer + 1;
    }
    let dgoal = dist[goal];
    match dgoal {
        None => {
            proof {
                assert(reach(*map, st, (layer + 1) as nat) =~= reach(*map, st, layer as nat)) by {
                    let r1 = reach(*map, st, (layer + 1) as nat);
                    let r0 = reach(*map, st, layer as nat);
                    assert(r1 == expand(*map, r0));
                    assert forall|u: int| r1.contains(u) implies r0.contains(u) by {
                        if !r0.contains(u) {
                            let w0 = choose|w0: int|
                                r0.contains(w0) && #[trigger] step_ok(*map, w0, u);
                            assert(0 <= w0 < area);
                            assert(dist@[w0] is Some);
                            assert(dist@[w0]->0 < layer) by {
                                if dist@[w0]->0 == layer {
                                    assert(cur@.contains(w0 as usize));
                                }
                            }
                            lemma_reach_mono(*map, st, (dist@[w0]->0 + 1) as nat, layer as nat);
                            assert(reach(*map, st, (dist@[w0]->0 + 1) as nat).contains(u)) by {
                                assert(reach(*map, st, (dist@[w0]->0 + 1) as nat) == expand(
                                    *map,
                                    reach(*map, st, dist@[w0]->0 as nat),
                                ));
                                assert(Set::new(
                                    |w: int|
                                        exists|q0: int|
                                            reach(*map, st, dist@[w0]->0 as nat).contains(q0)
                                                && step_ok(*map, q0, w),
                                ).contains(u)) by {
                                    assert(reach(*map, st, dist@[w0]->0 as nat).contains(w0)
                                        && step_ok(*map, w0, u));
                                }
                            }
                        }
                    }
                }
                assert forall|q: Seq<usize>| !is_path(*map, q, st, goal as int) by {
                    if is_path(*map, q, st, goal as int) {
                        lemma_path_in_reach(*map, q, st, goal as int);
                        let m = (q.len() - 1) as nat;
                        if m <= layer as nat {
                            lemma_reach_mono(*map, st, m, layer as nat);
                        } else {
                            lemma_reach_saturates(*map, st, layer as nat, m);
                        }
                        assert(reach(*map, st, layer as nat).contains(goal as int));
                        assert(dist@[goal as int] is Some);
                    }
                }
            }
            None
        },
        Some(d) => {
            let mut rev: Vec<usize> = Vec::new();
            rev.push(goal);
            let mut v = goal;
            let mut dv = d;
            while dv > 0
                invariant
                    map.wf(),
                    area == map.area(),
                    st == start as int,
                    dist@.len() == area,
                    parent@.len() == area,
                    dist@[st] == Some(0usize),
                    (v as int) < area,
                    (goal as int) < area,
                    dist@[v as int] == Some(dv),
                    dv <= d,
                    rev@.len() == d - dv + 1,
                    rev@[0] == goal,
                    rev@[rev@.len() - 1] == v,
                    forall|i: int|
                        0 <= i < rev@.len() - 1 ==> step_ok(
                            *map,
                            #[trigger] rev@[i + 1] as int,
                            rev@[i] as int,
                        ),
                    forall|v0: int|
                        0 <= v0 < area && (#[trigger] dist@[v0]) is Some && dist@[v0]->0 > 0 ==> (
                        parent@[v0] as int) < area && dist@[parent@[v0] as int] is Some && dist@[
                            parent@[v0] as int
                        ]->0 + 1 == dist@[v0]->0 && step_ok(*map, parent@[v0] as int, v0),
                decreases dv,
            {
                let pv = parent[v];
                rev.push(pv);
                v = pv;
                dv = dv - 1;
            }
            proof {
                assert(reach(*map, st, 0).contains(v as int));
                assert(v as int == st);
            }
            let mut p: Vec<usize> = Vec::new();
            let mut i = rev.len();
            while i > 0
                invariant
                    i <= rev@.len(),
                    p@.len() == rev@.len() - i,
                    forall|j: int| 0 <= j < p@.len() ==> p@[j] == rev@[rev@.len() - 1 - j],
                decreases i,
            {
                i = i - 1;
                p.push(rev[i]);
            }
            proof {
                let pl = p@.len();
                assert(pl == d + 1);
                assert(p@[0] == rev@[pl - 1]);
                assert(p@[pl - 1] == rev@[0]);
                assert forall|j: int| 0 <= j < pl - 1 implies adjacent(
                    *map,
                    #[trigger] p@[j] as int,
                    p@[j + 1] as int,
                ) by {
                    assert(p@[j] == rev@[pl - 1 - j]);
                    assert(p@[j + 1] == rev@[pl - 2 - j]);
                    assert(step_ok(*map, rev@[(pl - 2 - j) + 1] as int, rev@[pl - 2 - j] as int));
                }
                assert forall|j: int| 1 <= j < pl implies !map.blocked[#[trigger] p@[j] as int] by {
                    assert(p@[j] == rev@[pl - 1 - j]);
                    assert(step_ok(*map, rev@[(pl - 1 - j) + 1] as int, rev@[pl - 1 - j] as int));
                }
                assert(is_path(*map, p@, st, goal as int));
                assert forall|q: Seq<usize>|
                    is_path(*map, q, st, goal as int) implies p@.len() <= q.len() by {
                    lemma_path_in_reach(*map, q, st, goal as int);
                    if q.len() < p@.len() {
                        assert(q.len() - 1 < d);
                        if d > 0 {
                            lemma_reach_mono(*map, st, (q.len() - 1) as nat, (d - 1) as nat);
                            assert(reach(*map, st, (d - 1) as nat).contains(goal as int));
                        }
                    }
                }
            }
            Some(p)
        },
    }
}

} // verus!
