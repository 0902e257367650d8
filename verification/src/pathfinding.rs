//! Shortest walks over the walkable cells of a map, moving one cell at a time along
//! the four cardinal directions.
use vstd::prelude::*;
use std::collections::VecDeque;
use crate::map::{lemma_cell_at_index, lemma_index_in_bounds, lemma_index_of_cell, GameMap, MapView};
use crate::protocol::GridPosition;

verus! {

/// Two cells are adjacent when they differ by one step along exactly one axis.
pub open spec fn adjacent(a: GridPosition, b: GridPosition) -> bool {
    ||| a.x == b.x && (a.y - b.y == 1 || b.y - a.y == 1)
    ||| a.y == b.y && (a.x - b.x == 1 || b.x - a.x == 1)
}

/// The cell a walk stands on before its `i`-th step.
pub open spec fn before_step(start: GridPosition, path: Seq<GridPosition>, i: int) -> GridPosition {
    if i == 0 {
        start
    } else {
        path[i - 1]
    }
}

/// Every step of `path` leads from the previous cell (`start` for the first step)
/// to an adjacent walkable cell.
pub open spec fn is_walk(m: MapView, start: GridPosition, path: Seq<GridPosition>) -> bool {
    forall|i: int|
        0 <= i < path.len() ==> m.walkable(#[trigger] path[i]) && adjacent(
            before_step(start, path, i),
            path[i],
        )
}

/// `path` lists the cells entered, in order, on a walk over walkable cells from
/// `start` (not listed) to `goal` (listed last); the empty path when `start == goal`.
pub open spec fn is_path(
    m: MapView,
    start: GridPosition,
    goal: GridPosition,
    path: Seq<GridPosition>,
) -> bool {
    &&& m.walkable(start)
    &&& is_walk(m, start, path)
    &&& if path.len() == 0 {
        goal == start
    } else {
        path.last() == goal
    }
}

/// A path from `start` to `goal` that no other such path undercuts in length.
pub open spec fn is_shortest_path(
    m: MapView,
    start: GridPosition,
    goal: GridPosition,
    path: Seq<GridPosition>,
) -> bool {
    &&& is_path(m, start, goal, path)
    &&& forall|q: Seq<GridPosition>| #[trigger] is_path(m, start, goal, q) ==> path.len() <= q.len()
}

/// Some path leads from `start` to `goal`.
pub open spec fn path_exists(m: MapView, start: GridPosition, goal: GridPosition) -> bool {
    exists|q: Seq<GridPosition>| #[trigger] is_path(m, start, goal, q)
}

/// The walkable cells one step away from some cell of `s`.
spec fn one_step(m: MapView, s: Set<GridPosition>) -> Set<GridPosition> {
    Set::new(
        |p: GridPosition| m.walkable(p) && exists|q: GridPosition| #[trigger]
            s.contains(q) && adjacent(q, p),
    )
}

/// From a walkable cell to itself the empty path is the only shortest path.
pub proof fn lemma_path_to_self(m: MapView, p: GridPosition)
    requires
        m.walkable(p),
    ensures
        path_exists(m, p, p),
        forall|q: Seq<GridPosition>| #[trigger] is_shortest_path(m, p, p, q) ==> q.len() == 0,
{
    assert(is_path(m, p, p, Seq::<GridPosition>::empty()));
}

/// No path starts or ends on a cell that is off the map or under water.
pub proof fn lemma_no_path_to_unwalkable(m: MapView, start: GridPosition, goal: GridPosition)
    requires
        !m.walkable(start) || !m.walkable(goal),
    ensures
        !path_exists(m, start, goal),
{
    assert forall|q: Seq<GridPosition>| !is_path(m, start, goal, q) by {
        if is_path(m, start, goal, q) && q.len() > 0 {
            assert(m.walkable(q[q.len() - 1]));
        }
    }
}

/// A path never enters a cell that is off the map or under water.
pub proof fn lemma_path_stays_walkable(
    m: MapView,
    start: GridPosition,
    goal: GridPosition,
    path: Seq<GridPosition>,
    c: GridPosition,
)
    requires
        is_path(m, start, goal, path),
        path.contains(c),
    ensures
        m.walkable(c),
{
}

/// A path is at least as long as the number of rows plus columns between its ends.
pub proof fn lemma_path_at_least_distance(
    m: MapView,
    start: GridPosition,
    goal: GridPosition,
    path: Seq<GridPosition>,
)
    requires
        is_path(m, start, goal, path),
    ensures
        path.len() >= abs_diff(start.x as int, goal.x as int) + abs_diff(start.y as int, goal.y as int),
{
    lemma_walk_distance(m, start, path);
}

pub open spec fn abs_diff(a: int, b: int) -> int {
    if a >= b {
        a - b
    } else {
        b - a
    }
}

proof fn lemma_walk_distance(m: MapView, start: GridPosition, path: Seq<GridPosition>)
    requires
        is_walk(m, start, path),
    ensures
        ({
            let end = if path.len() == 0 {
                start
            } else {
                path.last()
            };
            path.len() >= abs_diff(start.x as int, end.x as int) + abs_diff(start.y as int, end.y as int)
        }),
    decreases path.len(),
{
    if path.len() > 0 {
        let shorter = path.drop_last();
        assert forall|i: int| 0 <= i < shorter.len() implies m.walkable(#[trigger] shorter[i])
            && adjacent(before_step(start, shorter, i), shorter[i]) by {
            assert(path[i] == shorter[i]);
            if i > 0 {
                assert(path[i - 1] == shorter[i - 1]);
            }
        }
        lemma_walk_distance(m, start, shorter);
        assert(adjacent(before_step(start, path, path.len() - 1), path[path.len() - 1]));
    }
}

/// The cells that a walk of at most `k` steps from `start` can end on.
spec fn reach(m: MapView, start: GridPosition, k: nat) -> Set<GridPosition>
    decreases k,
{
    if k == 0 {
        Set::empty().insert(start)
    } else {
        let prev = reach(m, start, (k - 1) as nat);
        prev.union(one_step(m, prev))
    }
}

proof fn lemma_reach_grows(m: MapView, start: GridPosition, a: nat, b: nat)
    requires
        a <= b,
    ensures
        reach(m, start, a).subset_of(reach(m, start, b)),
    decreases b,
{
    if a < b {
        lemma_reach_grows(m, start, a, (b - 1) as nat);
    }
}

/// Once a round of steps adds nothing, no later round does.
proof fn lemma_reach_settles(m: MapView, start: GridPosition, k: nat, j: nat)
    requires
        reach(m, start, k + 1) == reach(m, start, k),
    ensures
        reach(m, start, k + j) == reach(m, start, k),
    decreases j,
{
    if j > 0 {
        lemma_reach_settles(m, start, k, (j - 1) as nat);
        assert(reach(m, start, k + j) == reach(m, start, k + 1));
    }
}

/// The cell a walk ends on lies within the reach of its length.
proof fn lemma_walk_in_reach(m: MapView, start: GridPosition, path: Seq<GridPosition>)
    requires
        is_walk(m, start, path),
    ensures
        reach(m, start, path.len()).contains(if path.len() == 0 { start } else { path.last() }),
    decreases path.len(),
{
    if path.len() > 0 {
        let shorter = path.drop_last();
        assert forall|i: int| 0 <= i < shorter.len() implies m.walkable(#[trigger] shorter[i])
            && adjacent(before_step(start, shorter, i), shorter[i]) by {
            assert(path[i] == shorter[i]);
            if i > 0 {
                assert(path[i - 1] == shorter[i - 1]);
            }
        }
        lemma_walk_in_reach(m, start, shorter);
        let k = path.len() - 1;
        let prev = if shorter.len() == 0 {
            start
        } else {
            shorter.last()
        };
        assert(before_step(start, path, k) == prev);
        assert(m.walkable(path[k]));
        assert(one_step(m, reach(m, start, k as nat)).contains(path.last()));
    }
}

/// Any path to `goal` is at least as long as the first round of the reach that contains it.
proof fn lemma_path_not_shorter(
    m: MapView,
    start: GridPosition,
    goal: GridPosition,
    d: nat,
    q: Seq<GridPosition>,
)
    requires
        is_path(m, start, goal, q),
        d > 0 ==> !reach(m, start, (d - 1) as nat).contains(goal),
    ensures
        d <= q.len(),
{
    lemma_walk_in_reach(m, start, q);
    if q.len() < d {
        lemma_reach_grows(m, start, q.len(), (d - 1) as nat);
    }
}

/// Number of `true` flags.
spec fn count_true(s: Seq<bool>) -> nat
    decreases s.len(),
{
    if s.len() == 0 {
        0
    } else {
        count_true(s.drop_last()) + if s.last() {
            1nat
        } else {
            0nat
        }
    }
}

proof fn lemma_count_true_bound(s: Seq<bool>)
    ensures
        count_true(s) <= s.len(),
    decreases s.len(),
{
    if s.len() > 0 {
        lemma_count_true_bound(s.drop_last());
    }
}

proof fn lemma_count_true_all_false(s: Seq<bool>)
    requires
        forall|i: int| 0 <= i < s.len() ==> !s[i],
    ensures
        count_true(s) == 0,
    decreases s.len(),
{
    if s.len() > 0 {
        lemma_count_true_all_false(s.drop_last());
    }
}

proof fn lemma_count_true_set(s: Seq<bool>, i: int)
    requires
        0 <= i < s.len(),
        !s[i],
    ensures
        count_true(s.update(i, true)) == count_true(s) + 1,
    decreases s.len(),
{
    let t = s.update(i, true);
    if i == s.len() - 1 {
        assert(t.drop_last() =~= s.drop_last());
    } else {
        assert(t.drop_last() =~= s.drop_last().update(i, true));
        lemma_count_true_set(s.drop_last(), i);
    }
}

/// What the search has recorded about the flagged cell with index `i`: it is walkable,
/// `dist[i]` is the first round of the reach that contains it, and unless it is the
/// start it names a flagged adjacent predecessor one round earlier.
spec fn flag_facts(
    m: MapView,
    start: GridPosition,
    visited: Seq<bool>,
    dist: Seq<usize>,
    parent: Seq<usize>,
    bound: nat,
    i: int,
) -> bool {
    let n = m.width * m.height;
    &&& m.walkable(m.cell_at(i))
    &&& dist[i] <= bound
    &&& reach(m, start, dist[i] as nat).contains(m.cell_at(i))
    &&& (dist[i] > 0 ==> !reach(m, start, (dist[i] - 1) as nat).contains(m.cell_at(i)))
    &&& (dist[i] == 0 ==> i == m.index_of(start))
    &&& (dist[i] > 0 ==> {
        &&& parent[i] < n
        &&& visited[parent[i] as int]
        &&& dist[parent[i] as int] == dist[i] - 1
        &&& adjacent(m.cell_at(parent[i] as int), m.cell_at(i))
    })
}

/// The bookkeeping of the search: the flags mark exactly the cells of `vis`, and every
/// flagged cell satisfies `flag_facts`.
#[verifier::opaque]
spec fn search_state(
    m: MapView,
    start: GridPosition,
    visited: Seq<bool>,
    dist: Seq<usize>,
    parent: Seq<usize>,
    vis: Set<GridPosition>,
    bound: nat,
) -> bool {
    let n = m.width * m.height;
    &&& m.wf()
    &&& m.walkable(start)
    &&& visited.len() == n
    &&& dist.len() == n
    &&& parent.len() == n
    &&& forall|i: int| 0 <= i < n ==> (visited[i] <==> vis.contains(#[trigger] m.cell_at(i)))
    &&& forall|c: GridPosition| #[trigger] vis.contains(c) ==> m.inside(c)
    &&& forall|i: int|
        #![trigger visited[i]]
        0 <= i < n && visited[i] ==> flag_facts(m, start, visited, dist, parent, bound, i)
}

proof fn lemma_state_basics(
    m: MapView,
    start: GridPosition,
    visited: Seq<bool>,
    dist: Seq<usize>,
    parent: Seq<usize>,
    vis: Set<GridPosition>,
    bound: nat,
)
    requires
        search_state(m, start, visited, dist, parent, vis, bound),
    ensures
        m.wf(),
        m.walkable(start),
        visited.len() == m.width * m.height,
        dist.len() == m.width * m.height,
        parent.len() == m.width * m.height,
        forall|c: GridPosition| #[trigger] vis.contains(c) ==> m.inside(c),
{
    reveal(search_state);
}

proof fn lemma_state_at(
    m: MapView,
    start: GridPosition,
    visited: Seq<bool>,
    dist: Seq<usize>,
    parent: Seq<usize>,
    vis: Set<GridPosition>,
    bound: nat,
    i: int,
)
    requires
        search_state(m, start, visited, dist, parent, vis, bound),
        0 <= i < m.width * m.height,
    ensures
        visited[i] <==> vis.contains(m.cell_at(i)),
        visited[i] ==> flag_facts(m, start, visited, dist, parent, bound, i),
        m.inside(m.cell_at(i)),
        m.index_of(m.cell_at(i)) == i,
{
    reveal(search_state);
    lemma_index_of_cell(m, i);
}

proof fn lemma_state_cell(
    m: MapView,
    start: GridPosition,
    visited: Seq<bool>,
    dist: Seq<usize>,
    parent: Seq<usize>,
    vis: Set<GridPosition>,
    bound: nat,
    c: GridPosition,
)
    requires
        search_state(m, start, visited, dist, parent, vis, bound),
        m.inside(c),
    ensures
        0 <= m.index_of(c) < m.width * m.height,
        m.cell_at(m.index_of(c)) == c,
        visited[m.index_of(c)] <==> vis.contains(c),
        visited[m.index_of(c)] ==> flag_facts(m, start, visited, dist, parent, bound, m.index_of(c)),
{
    reveal(search_state);
    lemma_index_in_bounds(m, c);
    lemma_cell_at_index(m, c);
}

proof fn lemma_state_weaken(
    m: MapView,
    start: GridPosition,
    visited: Seq<bool>,
    dist: Seq<usize>,
    parent: Seq<usize>,
    vis: Set<GridPosition>,
    bound: nat,
    larger: nat,
)
    requires
        search_state(m, start, visited, dist, parent, vis, bound),
        bound <= larger,
    ensures
        search_state(m, start, visited, dist, parent, vis, larger),
{
    reveal(search_state);
}

/// Flagging one more cell, reached from a flagged predecessor one round earlier,
/// keeps the bookkeeping sound.
proof fn lemma_state_mark(
    m: MapView,
    start: GridPosition,
    visited: Seq<bool>,
    dist: Seq<usize>,
    parent: Seq<usize>,
    vis: Set<GridPosition>,
    bound: nat,
    ni: int,
    d: usize,
    pi: usize,
)
    requires
        search_state(m, start, visited, dist, parent, vis, bound),
        0 <= ni < m.width * m.height,
        !visited[ni],
        m.walkable(m.cell_at(ni)),
        0 < d <= bound,
        reach(m, start, d as nat).contains(m.cell_at(ni)),
        !reach(m, start, (d - 1) as nat).contains(m.cell_at(ni)),
        pi < m.width * m.height,
        visited[pi as int],
        dist[pi as int] == d - 1,
        adjacent(m.cell_at(pi as int), m.cell_at(ni)),
    ensures
        search_state(
            m,
            start,
            visited.update(ni, true),
            dist.update(ni, d),
            parent.update(ni, pi),
            vis.insert(m.cell_at(ni)),
            bound,
        ),
{
    reveal(search_state);
    let n = m.width * m.height;
    let v2 = visited.update(ni, true);
    let d2 = dist.update(ni, d);
    let p2 = parent.update(ni, pi);
    let vis2 = vis.insert(m.cell_at(ni));
    lemma_index_of_cell(m, ni);
    assert forall|i: int| 0 <= i < n implies (v2[i] <==> vis2.contains(#[trigger] m.cell_at(i))) by {
        lemma_index_of_cell(m, i);
    }
    assert forall|i: int|
        #![trigger v2[i]]
        0 <= i < n && v2[i] implies flag_facts(m, start, v2, d2, p2, bound, i) by {
        if i != ni {
            assert(flag_facts(m, start, visited, dist, parent, bound, i));
        }
    }
}

/// The list of cells flagged in the current round: it holds every cell of `vis` beyond
/// `reach(depth)`, and only such cells, each carrying `depth + 1`.
spec fn next_ok(
    m: MapView,
    start: GridPosition,
    depth: nat,
    vis: Set<GridPosition>,
    next: Seq<GridPosition>,
    dist: Seq<usize>,
) -> bool {
    &&& forall|c: GridPosition|
        #[trigger] vis.contains(c) && !reach(m, start, depth).contains(c) ==> next.contains(c)
    &&& forall|t: int|
        0 <= t < next.len() ==> {
            &&& vis.contains(#[trigger] next[t])
            &&& !reach(m, start, depth).contains(next[t])
            &&& m.inside(next[t])
            &&& dist[m.index_of(next[t])] == depth + 1
        }
}

/// The four cells adjacent to `position`: east, west, south, north.
fn cardinal_neighbors(position: GridPosition) -> (neighbors: [GridPosition; 4])
    requires
        i32::MIN < position.x < i32::MAX,
        i32::MIN < position.y < i32::MAX,
    ensures
        neighbors@ == seq![
            GridPosition { x: (position.x + 1) as i32, y: position.y },
            GridPosition { x: (position.x - 1) as i32, y: position.y },
            GridPosition { x: position.x, y: (position.y + 1) as i32 },
            GridPosition { x: position.x, y: (position.y - 1) as i32 },
        ],
        forall|c: GridPosition|
            adjacent(position, c) <==> (c == neighbors@[0] || c == neighbors@[1] || c
                == neighbors@[2] || c == neighbors@[3]),
{
    let neighbors = [
        GridPosition::new(position.x + 1, position.y),
        GridPosition::new(position.x - 1, position.y),
        GridPosition::new(position.x, position.y + 1),
        GridPosition::new(position.x, position.y - 1),
    ];
    assert(neighbors@ =~= seq![
        GridPosition { x: (position.x + 1) as i32, y: position.y },
        GridPosition { x: (position.x - 1) as i32, y: position.y },
        GridPosition { x: position.x, y: (position.y + 1) as i32 },
        GridPosition { x: position.x, y: (position.y - 1) as i32 },
    ]);
    neighbors
}

/// The cell with row-major index `i`.
fn cell_of_index(map: &GameMap, i: usize) -> (cell: GridPosition)
    requires
        map@.wf(),
        i < map@.width * map@.height,
    ensures
        cell == map@.cell_at(i as int),
        map@.inside(cell),
        map@.index_of(cell) == i,
{
    proof {
        lemma_index_of_cell(map@, i as int);
    }
    let w = map.width() as usize;
    GridPosition::new((i % w) as i32, (i / w) as i32)
}

/// Flags every walkable neighbor of `current` not flagged yet, recording `current` as its
/// predecessor and `depth + 1` as its round, and appends it to `next`.
fn expand(
    map: &GameMap,
    start: GridPosition,
    current: GridPosition,
    current_index: usize,
    depth: usize,
    visited: &mut Vec<bool>,
    dist: &mut Vec<usize>,
    parent: &mut Vec<usize>,
    next: &mut Vec<GridPosition>,
    count: &mut usize,
    Ghost(vis): Ghost<Set<GridPosition>>,
) -> (grown: Ghost<Set<GridPosition>>)
    requires
        search_state(map@, start, old(visited)@, old(dist)@, old(parent)@, vis, (depth + 1) as nat),
        depth < map@.width * map@.height,
        reach(map@, start, depth as nat).contains(current),
        map@.inside(current),
        current_index == map@.index_of(current),
        old(visited)@[current_index as int],
        old(dist)@[current_index as int] == depth,
        forall|c: GridPosition| #[trigger] reach(map@, start, depth as nat).contains(c) ==> vis.contains(c),
        forall|c: GridPosition| #[trigger] vis.contains(c) ==> reach(map@, start, (depth + 1) as nat).contains(c),
        next_ok(map@, start, depth as nat, vis, old(next)@, old(dist)@),
        *old(count) == count_true(old(visited)@),
    ensures
        search_state(map@, start, final(visited)@, final(dist)@, final(parent)@, grown@, (depth + 1) as nat),
        vis.subset_of(grown@),
        forall|c: GridPosition| #[trigger] grown@.contains(c) ==> reach(map@, start, (depth + 1) as nat).contains(c),
        forall|c: GridPosition| map@.walkable(c) && #[trigger] adjacent(current, c) ==> grown@.contains(c),
        next_ok(map@, start, depth as nat, grown@, final(next)@, final(dist)@),
        *final(count) == count_true(final(visited)@),
        final(next)@.len() >= old(next)@.len(),
        *final(count) == *old(count) + final(next)@.len() - old(next)@.len(),
        forall|i: int|
            0 <= i < old(visited)@.len() && #[trigger] old(visited)@[i] ==> final(visited)@[i]
                && final(dist)@[i] == old(dist)@[i],
{
    let ghost m = map@;
    let ghost mut g = vis;
    let ghost visited0 = visited@;
    let ghost dist0 = dist@;
    let ghost next0 = next@;
    let ghost count0 = *count;
    proof {
        lemma_state_basics(m, start, visited@, dist@, parent@, g, (depth + 1) as nat);
    }
    let neighbors = cardinal_neighbors(current);
    let mut k: usize = 0;
    while k < 4
        invariant
            m == map@,
            m.wf(),
            search_state(m, start, visited@, dist@, parent@, g, (depth + 1) as nat),
            depth < m.width * m.height,
            reach(m, start, depth as nat).contains(current),
            m.inside(current),
            current_index == m.index_of(current),
            visited@[current_index as int],
            dist@[current_index as int] == depth,
            neighbors@ == seq![
                GridPosition { x: (current.x + 1) as i32, y: current.y },
                GridPosition { x: (current.x - 1) as i32, y: current.y },
                GridPosition { x: current.x, y: (current.y + 1) as i32 },
                GridPosition { x: current.x, y: (current.y - 1) as i32 },
            ],
            forall|c: GridPosition|
                adjacent(current, c) <==> (c == neighbors@[0] || c == neighbors@[1] || c
                    == neighbors@[2] || c == neighbors@[3]),
            0 <= k <= 4,
            forall|c: GridPosition| #[trigger] reach(m, start, depth as nat).contains(c) ==> vis.contains(c),
            vis.subset_of(g),
            forall|c: GridPosition| #[trigger] g.contains(c) ==> reach(m, start, (depth + 1) as nat).contains(c),
            forall|kk: int|
                0 <= kk < k && m.walkable(#[trigger] neighbors@[kk]) ==> g.contains(neighbors@[kk]),
            next_ok(m, start, depth as nat, g, next@, dist@),
            *count == count_true(visited@),
            next@.len() >= next0.len(),
            *count == count0 + next@.len() - next0.len(),
            visited@.len() == visited0.len(),
            forall|i: int|
                0 <= i < visited0.len() && #[trigger] visited0[i] ==> visited@[i] && dist@[i]
                    == dist0[i],
        decreases 4 - k,
    {
        let neighbor = neighbors[k];
        if map.is_walkable(neighbor) {
            let neighbor_index = map.index(neighbor).unwrap();
            proof {
                lemma_state_basics(m, start, visited@, dist@, parent@, g, (depth + 1) as nat);
                lemma_state_cell(m, start, visited@, dist@, parent@, g, (depth + 1) as nat, neighbor);
            }
            if !visited[neighbor_index] {
                proof {
                    lemma_state_basics(m, start, visited@, dist@, parent@, g, (depth + 1) as nat);
                    lemma_index_in_bounds(m, current);
                    lemma_count_true_set(visited@, neighbor_index as int);
                    lemma_count_true_bound(visited@.update(neighbor_index as int, true));
                    lemma_cell_at_index(m, current);
                    assert(adjacent(current, neighbor));
                    assert(one_step(m, reach(m, start, depth as nat)).contains(neighbor));
                    assert(!reach(m, start, depth as nat).contains(neighbor));
                    lemma_state_mark(
                        m,
                        start,
                        visited@,
                        dist@,
                        parent@,
                        g,
                        (depth + 1) as nat,
                        neighbor_index as int,
                        (depth + 1) as usize,
                        current_index,
                    );
                }
                let ghost dist_before = dist@;
                let ghost visited_before = visited@;
                let ghost parent_before = parent@;
                let ghost g_before = g;
                visited.set(neighbor_index, true);
                dist.set(neighbor_index, depth + 1);
                parent.set(neighbor_index, current_index);
                *count = *count + 1;
                proof {
                    g = g.insert(neighbor);
                }
                let ghost next_before = next@;
                next.push(neighbor);
                proof {
                    assert(next@ == next_before.push(neighbor));
                    assert forall|t: int| 0 <= t < next@.len() implies {
                        &&& g.contains(#[trigger] next@[t])
                        &&& !reach(m, start, depth as nat).contains(next@[t])
                        &&& m.inside(next@[t])
                        &&& dist@[m.index_of(next@[t])] == depth + 1
                    } by {
                        if t < next@.len() - 1 {
                            lemma_state_cell(m, start, visited_before, dist_before, parent_before, g_before, (depth + 1) as nat, next@[t]);
                        }
                    }
                    assert forall|c: GridPosition|
                        #[trigger] g.contains(c) && !reach(m, start, depth as nat).contains(c)
                            implies next@.contains(c) by {
                        if c != neighbor {
                            assert(g_before.contains(c));
                            assert(next_before.contains(c));
                            let t = choose|t: int| 0 <= t < next_before.len() && next_before[t] == c;
                            assert(next@[t] == c);
                        } else {
                            assert(next@[next@.len() - 1] == c);
                        }
                    }
                }
            }
        }
        k = k + 1;
    }
    proof {
        assert forall|c: GridPosition| m.walkable(c) && #[trigger] adjacent(current, c) implies g.contains(c) by {
            if c == neighbors@[0] {
            } else if c == neighbors@[1] {
            } else if c == neighbors@[2] {
            } else {
                assert(c == neighbors@[3]);
            }
        }
    }
    Ghost(g)
}

/// Walks the predecessor links back from `goal_index` to the start and returns the
/// cells entered on the way forward, the goal's cell last.
fn reconstruct_path(
    map: &GameMap,
    visited: &Vec<bool>,
    dist: &Vec<usize>,
    parent: &Vec<usize>,
    start: GridPosition,
    goal_index: usize,
    Ghost(vis): Ghost<Set<GridPosition>>,
    Ghost(bound): Ghost<nat>,
) -> (path: VecDeque<GridPosition>)
    requires
        search_state(map@, start, visited@, dist@, parent@, vis, bound),
        goal_index < map@.width * map@.height,
        visited@[goal_index as int],
    ensures
        is_walk(map@, start, path@),
        path@.len() == dist@[goal_index as int],
        if path@.len() == 0 {
            map@.cell_at(goal_index as int) == start
        } else {
            path@.last() == map@.cell_at(goal_index as int)
        },
{
    let ghost m = map@;
    proof {
        lemma_state_basics(m, start, visited@, dist@, parent@, vis, bound);
    }
    let start_index = map.index(start).unwrap();
    let mut path: VecDeque<GridPosition> = VecDeque::new();
    let mut current = goal_index;
    while current != start_index
        invariant
            search_state(m, start, visited@, dist@, parent@, vis, bound),
            m == map@,
            m.wf(),
            start_index == m.index_of(start),
            goal_index < m.width * m.height,
            current < m.width * m.height,
            visited@[current as int],
            path@.len() + dist@[current as int] == dist@[goal_index as int],
            is_walk(m, m.cell_at(current as int), path@),
            path@.len() == 0 ==> current == goal_index,
            path@.len() > 0 ==> path@.last() == m.cell_at(goal_index as int),
        decreases dist@[current as int],
    {
        proof {
            lemma_state_basics(m, start, visited@, dist@, parent@, vis, bound);
            lemma_state_at(m, start, visited@, dist@, parent@, vis, bound, current as int);
        }
        let cell = cell_of_index(map, current);
        let ghost old_path = path@;
        path.push_front(cell);
        let previous = parent[current];
        proof {
            let np = path@;
            assert(np =~= seq![cell] + old_path);
            assert forall|i: int| 0 <= i < np.len() implies m.walkable(#[trigger] np[i])
                && adjacent(before_step(m.cell_at(previous as int), np, i), np[i]) by {
                if i > 0 {
                    assert(np[i] == old_path[i - 1]);
                    assert(before_step(m.cell_at(previous as int), np, i) == before_step(
                        cell,
                        old_path,
                        i - 1,
                    ));
                }
            }
        }
        current = previous;
    }
    proof {
        lemma_index_in_bounds(m, start);
        lemma_cell_at_index(m, start);
        lemma_state_at(m, start, visited@, dist@, parent@, vis, bound, start_index as int);
        let d = dist@[start_index as int];
        if d > 0 {
            lemma_reach_grows(m, start, 0, (d - 1) as nat);
        }
    }
    path
}

/// A shortest path from `start` to `goal`, found by breadth-first search over the walkable
/// cells; `None` when no path exists (in particular when either end is not walkable).
pub fn find_path(map: &GameMap, start: GridPosition, goal: GridPosition) -> (found: Option<
    VecDeque<GridPosition>,
>)
    requires
        map@.wf(),
    ensures
        match found {
            Some(path) => is_shortest_path(map@, start, goal, path@),
            None => !path_exists(map@, start, goal),
        },
{
    let ghost m = map@;
    if !map.is_walkable(start) || !map.is_walkable(goal) {
        proof {
            lemma_no_path_to_unwalkable(m, start, goal);
        }
        return None;
    }
    let n = (map.width() * map.height()) as usize;
    let start_index = map.index(start).unwrap();
    let goal_index = map.index(goal).unwrap();

    let mut visited: Vec<bool> = vec![false; n];
    let mut dist: Vec<usize> = vec![0; n];
    let mut parent: Vec<usize> = vec![0; n];
    proof {
        assert forall|i: int| 0 <= i < n implies !visited@[i] by {
            assert(cloned(false, visited@[i]));
        }
        lemma_count_true_all_false(visited@);
        lemma_count_true_set(visited@, start_index as int);
        assert(cloned(0usize, dist@[start_index as int]));
    }
    visited.set(start_index, true);
    let ghost mut vis: Set<GridPosition> = Set::empty().insert(start);
    let mut count: usize = 1;
    let mut level: Vec<GridPosition> = vec![start];
    let mut depth: usize = 0;
    proof {
        lemma_cell_at_index(m, start);
        reveal(search_state);
        assert forall|i: int| 0 <= i < n implies (visited@[i] <==> vis.contains(
            #[trigger] m.cell_at(i),
        )) by {
            lemma_index_of_cell(m, i);
        }
        assert forall|i: int|
            #![trigger visited@[i]]
            0 <= i < n && visited@[i] implies flag_facts(m, start, visited@, dist@, parent@, 0, i) by {
            lemma_index_of_cell(m, i);
        }
        assert(search_state(m, start, visited@, dist@, parent@, vis, 0));
        assert(vis =~= reach(m, start, 0));
        lemma_index_in_bounds(m, start);
    }
    loop
        invariant
            m == map@,
            search_state(m, start, visited@, dist@, parent@, vis, depth as nat),
            n == m.width * m.height,
            m.wf(),
            m.walkable(goal),
            start_index == m.index_of(start),
            goal_index == m.index_of(goal),
            start_index < n,
            goal_index < n,
            vis == reach(m, start, depth as nat),
            forall|j: int|
                0 <= j < level@.len() ==> {
                    &&& reach(m, start, depth as nat).contains(#[trigger] level@[j])
                    &&& m.inside(level@[j])
                    &&& visited@[m.index_of(level@[j])]
                    &&& dist@[m.index_of(level@[j])] == depth
                },
            forall|c: GridPosition|
                #[trigger] reach(m, start, depth as nat).contains(c) ==> level@.contains(c) || (
                depth > 0 && reach(m, start, (depth - 1) as nat).contains(c)),
            count == count_true(visited@),
            depth <= count,
            level@.len() > 0 ==> depth < count,
        decreases n - count, level@.len(),
    {
        proof {
            lemma_state_basics(m, start, visited@, dist@, parent@, vis, depth as nat);
            lemma_count_true_bound(visited@);
        }
        if visited[goal_index] {
            let path = reconstruct_path(
                map,
                &visited,
                &dist,
                &parent,
                start,
                goal_index,
                Ghost(vis),
                Ghost(depth as nat),
            );
            proof {
                lemma_state_cell(m, start, visited@, dist@, parent@, vis, depth as nat, goal);
                let d = dist@[goal_index as int];
                assert forall|q: Seq<GridPosition>| #[trigger]
                    is_path(m, start, goal, q) implies path@.len() <= q.len() by {
                    lemma_path_not_shorter(m, start, goal, d as nat, q);
                }
                assert(is_path(m, start, goal, path@));
            }
            return Some(path);
        }
        if level.len() == 0 {
            proof {
                lemma_state_cell(m, start, visited@, dist@, parent@, vis, depth as nat, goal);
                assert(!vis.contains(goal));
                if depth == 0 {
                    assert(reach(m, start, 0).contains(start));
                    assert(level@.contains(start));
                }
                let k = (depth - 1) as nat;
                lemma_reach_grows(m, start, k, depth as nat);
                assert(reach(m, start, k + 1) =~= reach(m, start, k));
                assert forall|q: Seq<GridPosition>| !is_path(m, start, goal, q) by {
                    if is_path(m, start, goal, q) {
                        lemma_walk_in_reach(m, start, q);
                        if q.len() >= k {
                            lemma_reach_settles(m, start, k, (q.len() - k) as nat);
                        } else {
                            lemma_reach_grows(m, start, q.len(), k);
                        }
                        assert(reach(m, start, k).contains(goal));
                    }
                }
            }
            return None;
        }
        let ghost count0 = count;
        let mut next: Vec<GridPosition> = Vec::new();
        proof {
            lemma_state_weaken(m, start, visited@, dist@, parent@, vis, depth as nat, (depth + 1) as nat);
            lemma_reach_grows(m, start, depth as nat, (depth + 1) as nat);
        }
        let mut j: usize = 0;
        while j < level.len()
            invariant
                m == map@,
                m.wf(),
                search_state(m, start, visited@, dist@, parent@, vis, (depth + 1) as nat),
                n == m.width * m.height,
                depth < n,
                0 <= j <= level@.len(),
                forall|jj: int|
                    0 <= jj < level@.len() ==> {
                        &&& reach(m, start, depth as nat).contains(#[trigger] level@[jj])
                        &&& m.inside(level@[jj])
                        &&& visited@[m.index_of(level@[jj])]
                        &&& dist@[m.index_of(level@[jj])] == depth
                    },
                forall|c: GridPosition|
                    #[trigger] reach(m, start, depth as nat).contains(c) ==> vis.contains(c),
                forall|c: GridPosition|
                    #[trigger] vis.contains(c) ==> reach(m, start, (depth + 1) as nat).contains(c),
                forall|jj: int, c: GridPosition|
                    0 <= jj < j && m.walkable(c) && #[trigger] adjacent(level@[jj], c)
                        ==> vis.contains(c),
                next_ok(m, start, depth as nat, vis, next@, dist@),
                count == count_true(visited@),
                count == count0 + next@.len(),
            decreases level@.len() - j,
        {
            let current = level[j];
            let current_index = map.index(current).unwrap();
            let ghost vis_before = vis;
            let ghost visited_before = visited@;
            proof {
                lemma_state_basics(m, start, visited@, dist@, parent@, vis, (depth + 1) as nat);
            }
            let grown = expand(
                map,
                start,
                current,
                current_index,
                depth,
                &mut visited,
                &mut dist,
                &mut parent,
                &mut next,
                &mut count,
                Ghost(vis),
            );
            proof {
                vis = grown@;
                lemma_state_basics(m, start, visited@, dist@, parent@, vis, (depth + 1) as nat);
                assert forall|jj: int|
                    0 <= jj < level@.len() implies {
                        &&& visited@[m.index_of(#[trigger] level@[jj])]
                        &&& dist@[m.index_of(level@[jj])] == depth
                    } by {
                    lemma_index_in_bounds(m, level@[jj]);
                    assert(reach(m, start, depth as nat).contains(level@[jj]));
                    assert(visited_before[m.index_of(level@[jj])]);
                }
                assert forall|jj: int, c: GridPosition|
                    0 <= jj < j + 1 && m.walkable(c) && #[trigger] adjacent(level@[jj], c)
                        implies vis.contains(c) by {
                    if jj < j {
                        assert(vis_before.contains(c));
                    }
                }
            }
            j = j + 1;
        }
        proof {
            let r0 = reach(m, start, depth as nat);
            let r1 = reach(m, start, (depth + 1) as nat);
            assert forall|c: GridPosition| #[trigger] r1.contains(c) implies vis.contains(c) by {
                if !r0.contains(c) {
                    assert(one_step(m, r0).contains(c));
                    let q = choose|q: GridPosition| #[trigger] r0.contains(q) && adjacent(q, c);
                    if level@.contains(q) {
                        let jj = choose|jj: int| 0 <= jj < level@.len() && level@[jj] == q;
                        assert(adjacent(level@[jj], c));
                    } else {
                        assert(depth > 0);
                        let rp = reach(m, start, (depth - 1) as nat);
                        assert(rp.contains(q));
                        assert(one_step(m, rp).contains(c));
                    }
                }
            }
            assert(vis =~= r1);
            lemma_count_true_bound(visited@);
            lemma_state_basics(m, start, visited@, dist@, parent@, vis, (depth + 1) as nat);
            assert forall|t: int| 0 <= t < next@.len() implies visited@[m.index_of(#[trigger] next@[t])] by {
                lemma_state_cell(m, start, visited@, dist@, parent@, vis, (depth + 1) as nat, next@[t]);
            }
        }
        level = next;
        depth = depth + 1;
        proof {
            assert forall|c: GridPosition| #[trigger]
                reach(m, start, depth as nat).contains(c) implies level@.contains(c) || (depth > 0
                && reach(m, start, (depth - 1) as nat).contains(c)) by {
                assert(vis.contains(c));
            }
        }
    }
}

} // verus!
