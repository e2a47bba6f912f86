//! Reachability between cells of a level, decided by flood fill.

use vstd::prelude::*;
use crate::grid::{cell_index, in_bounds, tile_at, Grid, CELL_COUNT, GRID_SIZE};
use crate::tiles::TileType;

verus! {

/// Whether the two places are different and at most one step apart along
/// each axis: the eight places around a place are adjacent to it.
pub open spec fn adjacent(c: (int, int), n: (int, int)) -> bool {
    &&& c != n
    &&& -1 <= n.0 - c.0 <= 1
    &&& -1 <= n.1 - c.1 <= 1
}

/// Whether the flood fill may step onto `c`: a cell of the grid whose tile
/// does not block passage.
pub open spec fn enterable(cells: Seq<TileType>, c: (int, int)) -> bool {
    in_bounds(c.0, c.1) && !tile_at(cells, c.0, c.1).blocks_passage()
}

/// Whether `path` is a walk of the flood fill: it starts on a cell of the
/// grid, whatever that cell holds, and every further place is enterable and
/// adjacent to the place before it.
pub open spec fn is_walk(cells: Seq<TileType>, path: Seq<(int, int)>) -> bool {
    &&& path.len() >= 1
    &&& in_bounds(path[0].0, path[0].1)
    &&& forall|i: int|
        1 <= i < path.len() ==> adjacent(path[i - 1], #[trigger] path[i]) && enterable(
            cells,
            path[i],
        )
}

/// Whether a walk leads from `start` to `goal`.
pub open spec fn reachable(cells: Seq<TileType>, goal: (int, int), start: (int, int)) -> bool {
    exists|path: Seq<(int, int)>|
        #[trigger] is_walk(cells, path) && path[0] == start && path.last() == goal
}

/// Whether `region` holds every enterable place next to one of its places.
pub open spec fn closed_region(cells: Seq<TileType>, region: Set<(int, int)>) -> bool {
    forall|c: (int, int), n: (int, int)|
        region.contains(c) && #[trigger] adjacent(c, n) && enterable(cells, n)
            ==> #[trigger] region.contains(n)
}

/// Every cell of the grid is reachable from itself.
pub proof fn lemma_reachable_from_itself(cells: Seq<TileType>, c: (int, int))
    requires
        in_bounds(c.0, c.1),
    ensures
        reachable(cells, c, c),
{
    assert(is_walk(cells, seq![c]));
}

/// What is reachable stays reachable over one more step onto an enterable
/// place.
pub proof fn lemma_reachable_step(
    cells: Seq<TileType>,
    c: (int, int),
    n: (int, int),
    start: (int, int),
)
    requires
        reachable(cells, c, start),
        adjacent(c, n),
        enterable(cells, n),
    ensures
        reachable(cells, n, start),
{
    let path = choose|path: Seq<(int, int)>|
        #[trigger] is_walk(cells, path) && path[0] == start && path.last() == c;
    assert(is_walk(cells, path.push(n)));
}

/// A walk that starts in a closed region ends in it.
proof fn lemma_walk_stays_in_region(
    cells: Seq<TileType>,
    region: Set<(int, int)>,
    path: Seq<(int, int)>,
)
    requires
        closed_region(cells, region),
        is_walk(cells, path),
        region.contains(path[0]),
    ensures
        region.contains(path.last()),
    decreases path.len(),
{
    if path.len() > 1 {
        let shorter = path.drop_last();
        assert(is_walk(cells, shorter));
        lemma_walk_stays_in_region(cells, region, shorter);
    }
}

/// Nothing outside a closed region is reachable from a place inside it.
pub proof fn lemma_region_encloses(
    cells: Seq<TileType>,
    region: Set<(int, int)>,
    goal: (int, int),
    start: (int, int),
)
    requires
        closed_region(cells, region),
        region.contains(start),
        !region.contains(goal),
    ensures
        !reachable(cells, goal, start),
{
    if reachable(cells, goal, start) {
        let path = choose|path: Seq<(int, int)>|
            #[trigger] is_walk(cells, path) && path[0] == start && path.last() == goal;
        lemma_walk_stays_in_region(cells, region, path);
    }
}

/// Whether `(x, y)` lies on the border of the rectangle with the corners
/// `(x0, y0)` and `(x1, y1)`.
pub open spec fn on_ring(x0: int, y0: int, x1: int, y1: int, x: int, y: int) -> bool {
    &&& x0 <= x <= x1
    &&& y0 <= y <= y1
    &&& x == x0 || x == x1 || y == y0 || y == y1
}

/// Whether `(x, y)` lies inside the rectangle, off its border.
pub open spec fn within_ring(x0: int, y0: int, x1: int, y1: int, x: int, y: int) -> bool {
    x0 < x < x1 && y0 < y < y1
}

/// Whether every cell of the grid on the border of the rectangle blocks
/// passage, as a ring of `Wall` does.
pub open spec fn ring_blocks(cells: Seq<TileType>, x0: int, y0: int, x1: int, y1: int) -> bool {
    forall|x: int, y: int|
        in_bounds(x, y) && on_ring(x0, y0, x1, y1, x, y) ==> (#[trigger] tile_at(
            cells,
            x,
            y,
        )).blocks_passage()
}

/// A closed ring of blocking cells keeps the flood fill in: from a place
/// inside the ring nothing is reachable but places inside the ring.
pub proof fn lemma_ring_keeps_in(
    cells: Seq<TileType>,
    x0: int,
    y0: int,
    x1: int,
    y1: int,
    inside: (int, int),
    other: (int, int),
)
    requires
        ring_blocks(cells, x0, y0, x1, y1),
        within_ring(x0, y0, x1, y1, inside.0, inside.1),
        !within_ring(x0, y0, x1, y1, other.0, other.1),
    ensures
        !reachable(cells, other, inside),
{
    let region = Set::new(|c: (int, int)| within_ring(x0, y0, x1, y1, c.0, c.1));
    assert(closed_region(cells, region));
    lemma_region_encloses(cells, region, other, inside);
}

/// A closed ring of blocking cells keeps the flood fill out: from a place
/// outside the ring and off it, no place inside the ring is reachable.
pub proof fn lemma_ring_keeps_out(
    cells: Seq<TileType>,
    x0: int,
    y0: int,
    x1: int,
    y1: int,
    inside: (int, int),
    outside: (int, int),
)
    requires
        ring_blocks(cells, x0, y0, x1, y1),
        within_ring(x0, y0, x1, y1, inside.0, inside.1),
        !(x0 <= outside.0 <= x1 && y0 <= outside.1 <= y1),
    ensures
        !reachable(cells, inside, outside),
{
    let region = Set::new(|c: (int, int)| !(x0 <= c.0 <= x1 && y0 <= c.1 <= y1));
    assert(closed_region(cells, region));
    lemma_region_encloses(cells, region, inside, outside);
}

/// Opening cells up keeps reachable what was reachable: a walk of `before`
/// is a walk of `after` where every cell that lets pass in `before` lets
/// pass in `after`.
pub proof fn lemma_reachable_when_opened(
    before: Seq<TileType>,
    after: Seq<TileType>,
    goal: (int, int),
    start: (int, int),
)
    requires
        forall|c: (int, int)| enterable(before, c) ==> #[trigger] enterable(after, c),
        reachable(before, goal, start),
    ensures
        reachable(after, goal, start),
{
    let path = choose|path: Seq<(int, int)>|
        #[trigger] is_walk(before, path) && path[0] == start && path.last() == goal;
    assert(is_walk(after, path));
}

/// A walk to `via` and a walk on from `via` make a walk.
pub proof fn lemma_reachable_onwards(
    cells: Seq<TileType>,
    goal: (int, int),
    via: (int, int),
    start: (int, int),
)
    requires
        reachable(cells, via, start),
        reachable(cells, goal, via),
    ensures
        reachable(cells, goal, start),
{
    let first = choose|path: Seq<(int, int)>|
        #[trigger] is_walk(cells, path) && path[0] == start && path.last() == via;
    let second = choose|path: Seq<(int, int)>|
        #[trigger] is_walk(cells, path) && path[0] == via && path.last() == goal;
    let whole = first + second.drop_first();
    assert(is_walk(cells, whole));
}

/// A walk can be gone backwards where its start is enterable.
pub proof fn lemma_reachable_both_ways(cells: Seq<TileType>, goal: (int, int), start: (int, int))
    requires
        reachable(cells, goal, start),
        enterable(cells, start),
    ensures
        reachable(cells, start, goal),
{
    let path = choose|path: Seq<(int, int)>|
        #[trigger] is_walk(cells, path) && path[0] == start && path.last() == goal;
    let back = Seq::new(path.len(), |i: int| path[path.len() - 1 - i]);
    assert(is_walk(cells, back));
}

/// Whether `v` lies between `a` and `b`, whichever of the two is smaller,
/// both included.
pub open spec fn between(a: int, b: int, v: int) -> bool {
    a <= v <= b || b <= v <= a
}

/// Whether `c` lies on the elbow from `p` to `q`: along the row of `p`
/// between the columns of `p` and `q`, or along the column of `q` between
/// the rows of `p` and `q`.
pub open spec fn on_elbow(p: (int, int), q: (int, int), c: (int, int)) -> bool {
    ||| c.1 == p.1 && between(p.0, q.0, c.0)
    ||| c.0 == q.0 && between(p.1, q.1, c.1)
}

/// Along a row of enterable cells the one end is reachable from the other.
pub proof fn lemma_row_run(cells: Seq<TileType>, y: int, from_x: int, to_x: int)
    requires
        forall|x: int| between(from_x, to_x, x) ==> #[trigger] enterable(cells, (x, y)),
    ensures
        reachable(cells, (to_x, y), (from_x, y)),
    decreases
            if to_x >= from_x {
                to_x - from_x
            } else {
                from_x - to_x
            },
{
    assert(enterable(cells, (from_x, y)));
    if to_x == from_x {
        lemma_reachable_from_itself(cells, (from_x, y));
    } else {
        let before = if to_x > from_x { to_x - 1 } else { to_x + 1 };
        lemma_row_run(cells, y, from_x, before);
        lemma_reachable_step(cells, (before, y), (to_x, y), (from_x, y));
    }
}

/// Along a column of enterable cells the one end is reachable from the
/// other.
pub proof fn lemma_column_run(cells: Seq<TileType>, x: int, from_y: int, to_y: int)
    requires
        forall|y: int| between(from_y, to_y, y) ==> #[trigger] enterable(cells, (x, y)),
    ensures
        reachable(cells, (x, to_y), (x, from_y)),
    decreases
            if to_y >= from_y {
                to_y - from_y
            } else {
                from_y - to_y
            },
{
    assert(enterable(cells, (x, from_y)));
    if to_y == from_y {
        lemma_reachable_from_itself(cells, (x, from_y));
    } else {
        let before = if to_y > from_y { to_y - 1 } else { to_y + 1 };
        lemma_column_run(cells, x, from_y, before);
        lemma_reachable_step(cells, (x, before), (x, to_y), (x, from_y));
    }
}

/// Over an elbow of enterable cells the far end is reachable from the near
/// end.
pub proof fn lemma_elbow_run(cells: Seq<TileType>, p: (int, int), q: (int, int))
    requires
        forall|c: (int, int)| on_elbow(p, q, c) ==> #[trigger] enterable(cells, c),
    ensures
        reachable(cells, q, p),
{
    let corner = (q.0, p.1);
    lemma_row_run(cells, p.1, p.0, q.0);
    lemma_column_run(cells, q.0, p.1, q.1);
    lemma_reachable_onwards(cells, q, corner, p);
}

/// How many entries of `visited` are still `false`.
spec fn unmarked(visited: Seq<bool>) -> nat
    decreases visited.len(),
{
    if visited.len() == 0 {
        0
    } else {
        unmarked(visited.drop_last()) + if visited.last() { 0nat } else { 1nat }
    }
}

/// Marking an unmarked entry leaves one unmarked entry fewer.
proof fn lemma_mark(visited: Seq<bool>, k: int)
    requires
        0 <= k < visited.len(),
        !visited[k],
    ensures
        unmarked(visited.update(k, true)) + 1 == unmarked(visited),
    decreases visited.len(),
{
    let marked = visited.update(k, true);
    if k == visited.len() - 1 {
        assert(marked.drop_last() =~= visited.drop_last());
    } else {
        lemma_mark(visited.drop_last(), k);
        assert(marked.drop_last() =~= visited.drop_last().update(k, true));
    }
}

/// Whether the fill has marked the place `c`.
spec fn marked(visited: Seq<bool>, c: (int, int)) -> bool {
    in_bounds(c.0, c.1) && visited[cell_index(c.0, c.1)]
}

/// Whether the place `c` waits on the stack.
spec fn pending(stack: Seq<(usize, usize)>, c: (int, int)) -> bool {
    exists|i: int| 0 <= i < stack.len() && #[trigger] stack[i] == (c.0 as usize, c.1 as usize)
}

/// Whether every enterable place next to `c` is marked.
spec fn closed_at(cells: Seq<TileType>, visited: Seq<bool>, c: (int, int)) -> bool {
    forall|n: (int, int)| #[trigger] adjacent(c, n) && enterable(cells, n) ==> marked(visited, n)
}

/// The invariant of the fill: the stack holds marked cells, the start is
/// marked, every marked place is reachable from the start, and every marked
/// place either waits on the stack, is the one in work, or is done: it is
/// not the goal and all its enterable neighbours are marked.
spec fn fill_ok(
    cells: Seq<TileType>,
    visited: Seq<bool>,
    stack: Seq<(usize, usize)>,
    goal: (int, int),
    start: (int, int),
    in_work: Option<(int, int)>,
) -> bool {
    &&& visited.len() == CELL_COUNT
    &&& marked(visited, start)
    &&& forall|i: int| 0 <= i < stack.len() ==> marked(visited, (#[trigger] stack[i].0 as int, stack[i].1 as int))
    &&& forall|c: (int, int)| #[trigger] marked(visited, c) ==> reachable(cells, c, start)
    &&& forall|c: (int, int)| #[trigger]
        marked(visited, c) ==> pending(stack, c) || in_work == Some(c) || (c != goal && closed_at(
            cells,
            visited,
            c,
        ))
}

/// Marking and pushing an enterable neighbour of the place in work keeps the
/// invariant of the fill.
proof fn lemma_fill_push(
    cells: Seq<TileType>,
    visited: Seq<bool>,
    stack: Seq<(usize, usize)>,
    goal: (int, int),
    start: (int, int),
    current: (int, int),
    n: (usize, usize),
)
    requires
        fill_ok(cells, visited, stack, goal, start, Some(current)),
        marked(visited, current),
        adjacent(current, (n.0 as int, n.1 as int)),
        enterable(cells, (n.0 as int, n.1 as int)),
    ensures
        fill_ok(
            cells,
            visited.update(cell_index(n.0 as int, n.1 as int), true),
            stack.push(n),
            goal,
            start,
            Some(current),
        ),
{
    let place = (n.0 as int, n.1 as int);
    let visited2 = visited.update(cell_index(place.0, place.1), true);
    let stack2 = stack.push(n);
    lemma_reachable_step(cells, current, place, start);
    assert forall|c: (int, int)| #[trigger] marked(visited2, c) implies marked(visited, c) || c
        == place by {}
    assert forall|i: int| 0 <= i < stack2.len() implies marked(
        visited2,
        (#[trigger] stack2[i].0 as int, stack2[i].1 as int),
    ) by {}
    assert forall|c: (int, int)| #[trigger] marked(visited2, c) implies pending(stack2, c)
        || Some(current) == Some(c) || (c != goal && closed_at(cells, visited2, c)) by {
        if c == place {
            assert(stack2[stack.len() as int] == n);
        } else if pending(stack, c) {
            let i = choose|i: int|
                0 <= i < stack.len() && #[trigger] stack[i] == (c.0 as usize, c.1 as usize);
            assert(stack2[i] == stack[i]);
        } else if c != current {
            assert(closed_at(cells, visited, c));
        }
    }
}

impl Grid {
    /// Whether `a` is reachable from `b`: whether a flood fill that starts
    /// on `b` and spreads over the eight neighbours of each cell it has
    /// reached, wherever the neighbour does not block passage, comes to `a`.
    ///
    /// The start itself may hold any tile. A place outside the grid is
    /// neither a start nor reachable.
    pub fn is_a_reachable_from_b(&self, a: (usize, usize), b: (usize, usize)) -> (found: bool)
        ensures
            found == reachable(self@, (a.0 as int, a.1 as int), (b.0 as int, b.1 as int)),
    {
        let ghost cells = self@;
        let ghost goal = (a.0 as int, a.1 as int);
        let ghost start = (b.0 as int, b.1 as int);
        if b.0 >= GRID_SIZE || b.1 >= GRID_SIZE {
            return false;
        }
        let mut visited: Vec<bool> = Vec::new();
        let mut k: usize = 0;
        while k < CELL_COUNT
            invariant
                k <= CELL_COUNT,
                visited@.len() == k,
                forall|i: int| 0 <= i < k ==> !visited@[i],
            decreases CELL_COUNT - k,
        {
            visited.push(false);
            k += 1;
        }
        let mut stack: Vec<(usize, usize)> = Vec::new();
        proof {
            lemma_reachable_from_itself(cells, start);
            assert(seq![b][0] == b);
        }
        visited.set(b.1 * GRID_SIZE + b.0, true);
        stack.push(b);
        while stack.len() > 0
            invariant
                cells == self@,
                goal == (a.0 as int, a.1 as int),
                start == (b.0 as int, b.1 as int),
                fill_ok(cells, visited@, stack@, goal, start, None),
            decreases 2 * unmarked(visited@) + stack@.len(),
        {
            let ghost measure = 2 * unmarked(visited@) + stack@.len();
            let ghost stack_before = stack@;
            let current = stack.pop().unwrap();
            let ghost here = (current.0 as int, current.1 as int);
            assert(marked(visited@, here));
            if current.0 == a.0 && current.1 == a.1 {
                return true;
            }
            proof {
                assert forall|c: (int, int)| #[trigger] marked(visited@, c) implies pending(
                    stack@,
                    c,
                ) || Some(here) == Some(c) || (c != goal && closed_at(cells, visited@, c)) by {
                    if pending(stack_before, c) {
                        let i = choose|i: int|
                            0 <= i < stack_before.len() && #[trigger] stack_before[i] == (
                                c.0 as usize,
                                c.1 as usize,
                            );
                        if i < stack@.len() {
                            assert(stack@[i] == stack_before[i]);
                        }
                    }
                }
            }
            let mut x_offset: i32 = -1;
            while x_offset <= 1
                invariant
                    -1 <= x_offset <= 2,
                    cells == self@,
                    in_bounds(here.0, here.1),
                    here == (current.0 as int, current.1 as int),
                    here != goal,
                    marked(visited@, here),
                    fill_ok(cells, visited@, stack@, goal, start, Some(here)),
                    2 * unmarked(visited@) + stack@.len() < measure,
                    forall|n: (int, int)| #[trigger]
                        adjacent(here, n) && enterable(cells, n) && n.0 - here.0 < x_offset
                            ==> marked(visited@, n),
                decreases 2 - x_offset,
            {
                let mut y_offset: i32 = -1;
                while y_offset <= 1
                    invariant
                        -1 <= x_offset <= 1,
                        -1 <= y_offset <= 2,
                        cells == self@,
                        in_bounds(here.0, here.1),
                        here == (current.0 as int, current.1 as int),
                        here != goal,
                        marked(visited@, here),
                        fill_ok(cells, visited@, stack@, goal, start, Some(here)),
                        2 * unmarked(visited@) + stack@.len() < measure,
                        forall|n: (int, int)| #[trigger]
                            adjacent(here, n) && enterable(cells, n) && (n.0 - here.0 < x_offset
                                || (n.0 - here.0 == x_offset && n.1 - here.1 < y_offset))
                                ==> marked(visited@, n),
                    decreases 2 - y_offset,
                {
                    let x_pos = current.0 as i32 + x_offset;
                    let y_pos = current.1 as i32 + y_offset;
                    if !(x_offset == 0 && y_offset == 0) && !(x_pos < 0 || x_pos >= GRID_SIZE as i32
                        || y_pos < 0 || y_pos >= GRID_SIZE as i32) {
                        let next = (x_pos as usize, y_pos as usize);
                        let index = next.1 * GRID_SIZE + next.0;
                        if !visited[index] && !self.tile(next.0, next.1).is_blocking() {
                            proof {
                                lemma_mark(visited@, index as int);
                                lemma_fill_push(cells, visited@, stack@, goal, start, here, next);
                            }
                            visited.set(index, true);
                            stack.push(next);
                        }
                    }
                    y_offset += 1;
                }
                x_offset += 1;
            }
        }
        proof {
            let region = Set::new(|c: (int, int)| marked(visited@, c));
            assert(closed_region(cells, region));
            lemma_region_encloses(cells, region, goal, start);
        }
        false
    }
}

} // verus!
