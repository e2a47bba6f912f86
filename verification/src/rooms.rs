//! Room-and-corridor levels: rectangular rooms that keep clear of each other,
//! joined in a chain by L-shaped corridors.

use vstd::prelude::*;
use rand::rngs::StdRng;
use crate::dice::{roll, seeded_rng, shuffle};
use crate::error::DungeonError;
use crate::grid::{
    cells_from, in_bounds, in_rect, lemma_cells_equal, lemma_cells_from, tile_at,
    wall_and_floor_only, Grid, CELL_COUNT, GRID_SIZE,
};
use crate::reach::{
    between, enterable, lemma_elbow_run, lemma_reachable_both_ways, lemma_reachable_onwards,
    on_elbow, reachable,
};
use crate::tiles::TileType;

verus! {

/// How many candidate rooms one generation tries before it settles for the
/// rooms it has.
pub const MAX_PLACEMENT_ATTEMPTS: u32 = 1000;

/// A rectangular room: the cells of the columns `x .. x + width` and the rows
/// `y .. y + height`.
#[derive(Copy, Clone, PartialEq, Eq, Debug, Hash, Structural)]
pub struct Room {
    pub x: usize,
    pub y: usize,
    pub width: usize,
    pub height: usize,
}

/// An L-shaped corridor: a run along the row `from_y` between the columns
/// `from_x` and `to_x`, then a run along the column `to_x` between the rows
/// `from_y` and `to_y`, all ends and the corner included.
#[derive(Copy, Clone, PartialEq, Eq, Debug, Hash, Structural)]
pub struct Corridor {
    pub from_x: usize,
    pub from_y: usize,
    pub to_x: usize,
    pub to_y: usize,
}

/// What a generation laid out: the rooms in the order in which they are
/// chained, the corridor between each room and the next, and the number of
/// candidate rooms that were tried.
#[derive(Debug)]
pub struct RoomPlan {
    pub rooms: Vec<Room>,
    pub corridors: Vec<Corridor>,
    pub attempts: u32,
}

/// `a < b + c`, on the mathematical integers.
fn below_sum(a: usize, b: usize, c: usize) -> (r: bool)
    ensures
        r == (a < b + c),
{
    a < b || a - b < c
}

impl Room {
    /// Whether the cell `(x, y)` belongs to the room.
    pub open spec fn contains(self, x: int, y: int) -> bool {
        self.x <= x < self.x + self.width && self.y <= y < self.y + self.height
    }

    /// Whether the room has at least one cell and lies inside the grid, clear
    /// of its last column and its last row.
    pub open spec fn in_grid(self) -> bool {
        &&& self.width >= 1
        &&& self.height >= 1
        &&& self.x + self.width < GRID_SIZE
        &&& self.y + self.height < GRID_SIZE
    }

    /// Whether the two rectangles intersect.
    pub open spec fn overlaps(self, other: Room) -> bool {
        &&& self.x < other.x + other.width
        &&& self.x + self.width > other.x
        &&& self.y < other.y + other.height
        &&& self.y + self.height > other.y
    }

    /// Whether the width lies in `min.0 .. max.0` and the height in
    /// `min.1 .. max.1`.
    pub open spec fn sized_within(self, min: (usize, usize), max: (usize, usize)) -> bool {
        min.0 <= self.width < max.0 && min.1 <= self.height < max.1
    }

    /// Whether the cell `(x, y)` belongs to the room.
    pub fn has_cell(self, x: usize, y: usize) -> (r: bool)
        ensures
            r == self.contains(x as int, y as int),
    {
        self.x <= x && below_sum(x, self.x, self.width) && self.y <= y && below_sum(
            y,
            self.y,
            self.height,
        )
    }

    /// Whether the two rectangles intersect.
    #[verifier::when_used_as_spec(overlaps)]
    pub fn intersects(self, other: Room) -> (r: bool)
        ensures
            r == self.overlaps(other),
    {
        below_sum(self.x, other.x, other.width) && below_sum(other.x, self.x, self.width)
            && below_sum(self.y, other.y, other.height) && below_sum(other.y, self.y, self.height)
    }

    /// Two rooms overlap exactly when some cell belongs to both.
    pub proof fn lemma_overlap_is_shared_cell(self, other: Room)
        requires
            self.width >= 1 && self.height >= 1,
            other.width >= 1 && other.height >= 1,
        ensures
            self.overlaps(other) <==> exists|x: int, y: int|
                self.contains(x, y) && #[trigger] other.contains(x, y),
    {
        if self.overlaps(other) {
            let x = if self.x >= other.x { self.x as int } else { other.x as int };
            let y = if self.y >= other.y { self.y as int } else { other.y as int };
            assert(self.contains(x, y) && other.contains(x, y));
        }
    }
}

impl Corridor {
    /// Whether the cell `(x, y)` lies on the corridor.
    pub open spec fn covers(self, x: int, y: int) -> bool {
        on_elbow((self.from_x as int, self.from_y as int), (self.to_x as int, self.to_y as int), (x, y))
    }

    /// Whether the corridor starts in `first` and ends in `second`.
    pub open spec fn joins(self, first: Room, second: Room) -> bool {
        first.contains(self.from_x as int, self.from_y as int) && second.contains(
            self.to_x as int,
            self.to_y as int,
        )
    }
}

/// Whether both size ranges are non-empty, start at one cell or more and end
/// within the side of the grid.
pub open spec fn valid_room_sizes(min: (usize, usize), max: (usize, usize)) -> bool {
    &&& 1 <= min.0 < max.0 <= GRID_SIZE
    &&& 1 <= min.1 < max.1 <= GRID_SIZE
}

/// Whether every room lies in the grid with a size from the given ranges.
pub open spec fn rooms_placed(rooms: Seq<Room>, min: (usize, usize), max: (usize, usize)) -> bool {
    forall|i: int|
        0 <= i < rooms.len() ==> (#[trigger] rooms[i]).in_grid() && rooms[i].sized_within(min, max)
}

/// Whether no two of the rooms overlap.
pub open spec fn rooms_apart(rooms: Seq<Room>) -> bool {
    forall|i: int, j: int|
        0 <= i < rooms.len() && 0 <= j < rooms.len() && i != j ==> !(#[trigger] rooms[i]).overlaps(
            #[trigger] rooms[j],
        )
}

/// Whether the corridors chain the rooms: one corridor between each room and
/// the next, from a cell of the one to a cell of the other.
pub open spec fn rooms_chained(rooms: Seq<Room>, corridors: Seq<Corridor>) -> bool {
    &&& corridors.len() == if rooms.len() == 0 { 0 } else { rooms.len() - 1 }
    &&& forall|j: int|
        0 <= j < corridors.len() ==> (#[trigger] corridors[j]).joins(rooms[j], rooms[j + 1])
}

/// Whether one of the first `n` rooms contains the cell `(x, y)`.
pub open spec fn room_at(rooms: Seq<Room>, n: int, x: int, y: int) -> bool {
    exists|i: int| 0 <= i < n && i < rooms.len() && (#[trigger] rooms[i]).contains(x, y)
}

/// Whether one of the first `n` corridors covers the cell `(x, y)`.
pub open spec fn corridor_at(corridors: Seq<Corridor>, n: int, x: int, y: int) -> bool {
    exists|j: int| 0 <= j < n && j < corridors.len() && (#[trigger] corridors[j]).covers(x, y)
}

/// The level that the rooms and corridors carve out of solid wall: `Floor`
/// in every cell of a room or a corridor, `Wall` everywhere else.
pub open spec fn carved(rooms: Seq<Room>, corridors: Seq<Corridor>) -> Seq<TileType> {
    cells_from(
        |x: int, y: int|
            if room_at(rooms, rooms.len() as int, x, y) || corridor_at(
                corridors,
                corridors.len() as int,
                x,
                y,
            ) {
                TileType::Floor
            } else {
                TileType::Wall
            },
    )
}

/// The links of the chain over `n` rooms: `(0, 1)`, `(1, 2)` and so on.
pub open spec fn chain_links(n: int) -> Seq<(usize, usize)> {
    Seq::new(
        if n <= 0 { 0nat } else { (n - 1) as nat },
        |j: int| (j as usize, (j + 1) as usize),
    )
}

/// In the carved level every cell of a room and of a corridor is `Floor`,
/// every other cell is `Wall`, and no cell is anything else.
pub proof fn lemma_carved(rooms: Seq<Room>, corridors: Seq<Corridor>)
    ensures
        carved(rooms, corridors).len() == CELL_COUNT,
        wall_and_floor_only(carved(rooms, corridors)),
        forall|i: int, x: int, y: int|
            0 <= i < rooms.len() && in_bounds(x, y) && (#[trigger] rooms[i]).contains(x, y)
                ==> #[trigger] tile_at(carved(rooms, corridors), x, y) == TileType::Floor,
        forall|j: int, x: int, y: int|
            0 <= j < corridors.len() && in_bounds(x, y) && (#[trigger] corridors[j]).covers(x, y)
                ==> #[trigger] tile_at(carved(rooms, corridors), x, y) == TileType::Floor,
        forall|x: int, y: int|
            in_bounds(x, y) && !room_at(rooms, rooms.len() as int, x, y) && !corridor_at(
                corridors,
                corridors.len() as int,
                x,
                y,
            ) ==> #[trigger] tile_at(carved(rooms, corridors), x, y) == TileType::Wall,
{
    let cells = carved(rooms, corridors);
    lemma_cells_from(
        |x: int, y: int|
            if room_at(rooms, rooms.len() as int, x, y) || corridor_at(
                corridors,
                corridors.len() as int,
                x,
                y,
            ) {
                TileType::Floor
            } else {
                TileType::Wall
            },
    );
    assert forall|k: int| 0 <= k < cells.len() implies #[trigger] cells[k] == TileType::Wall
        || cells[k] == TileType::Floor by {
        let x = k % (GRID_SIZE as int);
        let y = k / (GRID_SIZE as int);
        assert(in_bounds(x, y));
        assert(cells[k] == tile_at(cells, x, y));
    }
}

/// Whether every cell of every room is reachable from every cell of every
/// room.
pub open spec fn rooms_connected(cells: Seq<TileType>, rooms: Seq<Room>) -> bool {
    forall|i: int, j: int, ax: int, ay: int, bx: int, by: int|
        0 <= i < rooms.len() && 0 <= j < rooms.len() && #[trigger] rooms[i].contains(ax, ay)
            && #[trigger] rooms[j].contains(bx, by) ==> reachable(cells, (ax, ay), (bx, by))
}

/// In the level carved from rooms in the grid and corridors that chain
/// them, the flood fill may step onto every cell of a room and of a
/// corridor.
proof fn lemma_carved_is_open(rooms: Seq<Room>, corridors: Seq<Corridor>)
    requires
        forall|i: int| 0 <= i < rooms.len() ==> (#[trigger] rooms[i]).in_grid(),
        rooms_chained(rooms, corridors),
    ensures
        forall|i: int, c: (int, int)|
            0 <= i < rooms.len() && (#[trigger] rooms[i]).contains(c.0, c.1) ==> #[trigger] enterable(
                carved(rooms, corridors),
                c,
            ),
        forall|j: int, c: (int, int)|
            0 <= j < corridors.len() && (#[trigger] corridors[j]).covers(c.0, c.1)
                ==> #[trigger] enterable(carved(rooms, corridors), c),
{
    lemma_carved(rooms, corridors);
    let cells = carved(rooms, corridors);
    assert forall|i: int, c: (int, int)|
        0 <= i < rooms.len() && (#[trigger] rooms[i]).contains(c.0, c.1) implies #[trigger] enterable(
        cells,
        c,
    ) by {
        assert(rooms[i].in_grid());
        assert(in_bounds(c.0, c.1));
        assert(tile_at(cells, c.0, c.1) == TileType::Floor);
    }
    assert forall|j: int, c: (int, int)|
        0 <= j < corridors.len() && (#[trigger] corridors[j]).covers(
            c.0,
            c.1,
        ) implies #[trigger] enterable(cells, c) by {
        assert(corridors[j].joins(rooms[j], rooms[j + 1]));
        assert(rooms[j].in_grid() && rooms[j + 1].in_grid());
        assert(in_bounds(c.0, c.1));
        assert(tile_at(cells, c.0, c.1) == TileType::Floor);
    }
}

/// Within one room every cell is reachable from every cell.
proof fn lemma_room_is_connected(
    rooms: Seq<Room>,
    corridors: Seq<Corridor>,
    i: int,
    a: (int, int),
    b: (int, int),
)
    requires
        forall|i: int| 0 <= i < rooms.len() ==> (#[trigger] rooms[i]).in_grid(),
        rooms_chained(rooms, corridors),
        0 <= i < rooms.len(),
        rooms[i].contains(a.0, a.1),
        rooms[i].contains(b.0, b.1),
    ensures
        reachable(carved(rooms, corridors), a, b),
{
    lemma_carved_is_open(rooms, corridors);
    let cells = carved(rooms, corridors);
    assert forall|c: (int, int)| on_elbow(b, a, c) implies #[trigger] enterable(cells, c) by {
        assert(rooms[i].contains(c.0, c.1));
    }
    lemma_elbow_run(cells, b, a);
}

/// A cell of a room is reachable from every cell of a room that comes
/// earlier in the chain, or is the same.
proof fn lemma_chain_leads_on(
    rooms: Seq<Room>,
    corridors: Seq<Corridor>,
    i: int,
    j: int,
    a: (int, int),
    b: (int, int),
)
    requires
        forall|i: int| 0 <= i < rooms.len() ==> (#[trigger] rooms[i]).in_grid(),
        rooms_chained(rooms, corridors),
        0 <= i <= j < rooms.len(),
        rooms[j].contains(a.0, a.1),
        rooms[i].contains(b.0, b.1),
    ensures
        reachable(carved(rooms, corridors), a, b),
    decreases j - i,
{
    let cells = carved(rooms, corridors);
    if i == j {
        lemma_room_is_connected(rooms, corridors, i, a, b);
    } else {
        let run = corridors[i];
        let from = (run.from_x as int, run.from_y as int);
        let to = (run.to_x as int, run.to_y as int);
        assert(run.joins(rooms[i], rooms[i + 1]));
        lemma_room_is_connected(rooms, corridors, i, from, b);
        lemma_carved_is_open(rooms, corridors);
        assert forall|c: (int, int)| on_elbow(from, to, c) implies #[trigger] enterable(
            cells,
            c,
        ) by {
            assert(corridors[i].covers(c.0, c.1));
        }
        lemma_elbow_run(cells, from, to);
        lemma_reachable_onwards(cells, to, from, b);
        lemma_chain_leads_on(rooms, corridors, i + 1, j, a, to);
        lemma_reachable_onwards(cells, a, to, b);
    }
}

/// The level carved from rooms in the grid and corridors that chain them
/// is connected: every cell of every room is reachable from every cell of
/// every room.
pub proof fn lemma_rooms_connected(rooms: Seq<Room>, corridors: Seq<Corridor>)
    requires
        forall|i: int| 0 <= i < rooms.len() ==> (#[trigger] rooms[i]).in_grid(),
        rooms_chained(rooms, corridors),
    ensures
        rooms_connected(carved(rooms, corridors), rooms),
{
    let cells = carved(rooms, corridors);
    assert forall|i: int, j: int, ax: int, ay: int, bx: int, by: int|
        0 <= i < rooms.len() && 0 <= j < rooms.len() && #[trigger] rooms[i].contains(ax, ay)
            && #[trigger] rooms[j].contains(bx, by) implies reachable(cells, (ax, ay), (bx, by)) by {
        let a = (ax, ay);
        let b = (bx, by);
        if j <= i {
            lemma_chain_leads_on(rooms, corridors, j, i, a, b);
        } else {
            lemma_chain_leads_on(rooms, corridors, i, j, b, a);
            lemma_carved_is_open(rooms, corridors);
            assert(enterable(cells, a));
            lemma_reachable_both_ways(cells, b, a);
        }
    }
}

/// Of rooms that lie apart no two share a cell.
pub proof fn lemma_rooms_share_no_cell(rooms: Seq<Room>, i: int, j: int, x: int, y: int)
    requires
        rooms_apart(rooms),
        0 <= i < rooms.len(),
        0 <= j < rooms.len(),
        i != j,
    ensures
        !(rooms[i].contains(x, y) && rooms[j].contains(x, y)),
{
    assert(!rooms[i].overlaps(rooms[j]));
}

/// Rearranging rooms that lie apart leaves them apart, placed and as many.
pub proof fn lemma_rearranged_rooms(
    before: Seq<Room>,
    after: Seq<Room>,
    min: (usize, usize),
    max: (usize, usize),
)
    requires
        before.to_multiset() == after.to_multiset(),
        rooms_placed(before, min, max),
        rooms_apart(before),
    ensures
        after.len() == before.len(),
        rooms_placed(after, min, max),
        rooms_apart(after),
{
    before.to_multiset_ensures();
    after.to_multiset_ensures();
    assert forall|i: int| 0 <= i < after.len() implies (#[trigger] after[i]).in_grid()
        && after[i].sized_within(min, max) by {
        assert(after.contains(after[i]));
        assert(after.to_multiset().count(after[i]) > 0);
        assert(before.contains(after[i]));
        let k = before.lemma_contains_to_index(after[i]);
        assert(before[k].in_grid());
    }
    assert(before.no_duplicates()) by {
        assert forall|i: int, j: int|
            0 <= i < before.len() && 0 <= j < before.len() && i != j implies before[i]
            != before[j] by {
            assert(before[i].in_grid());
            assert(!before[i].overlaps(before[j]));
        }
    }
    before.lemma_multiset_has_no_duplicates();
    after.lemma_multiset_has_no_duplicates_conv();
    assert forall|i: int, j: int|
        0 <= i < after.len() && 0 <= j < after.len() && i != j implies !(#[trigger] after[i]).overlaps(
        #[trigger] after[j],
    ) by {
        assert(after.contains(after[i]));
        assert(after.contains(after[j]));
        assert(after.to_multiset().count(after[i]) > 0);
        assert(after.to_multiset().count(after[j]) > 0);
        assert(before.contains(after[i]));
        assert(before.contains(after[j]));
        let p = before.lemma_contains_to_index(after[i]);
        let q = before.lemma_contains_to_index(after[j]);
        assert(after[i] != after[j]);
        assert(p != q);
        assert(!before[p].overlaps(before[q]));
    }
}

/// Whether `candidate` overlaps one of `rooms`.
pub fn overlaps_any(rooms: &Vec<Room>, candidate: Room) -> (hit: bool)
    ensures
        hit == exists|i: int| 0 <= i < rooms@.len() && (#[trigger] rooms@[i]).overlaps(candidate),
{
    let mut i: usize = 0;
    while i < rooms.len()
        invariant
            i <= rooms@.len(),
            forall|k: int| 0 <= k < i ==> !(#[trigger] rooms@[k]).overlaps(candidate),
        decreases rooms@.len() - i,
    {
        if rooms[i].intersects(candidate) {
            return true;
        }
        i += 1;
    }
    false
}

/// Keeps `candidate` as the last of `rooms` where it overlaps none of them,
/// and says whether it did.
pub fn keep_if_apart(rooms: &mut Vec<Room>, candidate: Room) -> (kept: bool)
    ensures
        kept == !exists|i: int|
            0 <= i < old(rooms)@.len() && (#[trigger] old(rooms)@[i]).overlaps(candidate),
        final(rooms)@ == if kept {
            old(rooms)@.push(candidate)
        } else {
            old(rooms)@
        },
{
    if overlaps_any(rooms, candidate) {
        false
    } else {
        rooms.push(candidate);
        true
    }
}

/// The links that join `n` rooms into one connected structure.
///
/// Starting from room 0, the room that was reached last is linked to the
/// first room not reached yet, until none is left: the chain over the rooms
/// in their order.
pub fn spanning_links(n: usize) -> (links: Vec<(usize, usize)>)
    ensures
        links@ == chain_links(n as int),
{
    let mut links: Vec<(usize, usize)> = Vec::new();
    if n == 0 {
        assert(links@ =~= chain_links(0));
        return links;
    }
    let mut visited: Vec<bool> = Vec::new();
    let mut k: usize = 0;
    while k < n
        invariant
            k <= n,
            visited@.len() == k,
            forall|i: int| 0 <= i < k ==> !visited@[i],
        decreases n - k,
    {
        visited.push(false);
        k += 1;
    }
    let mut frontier: Vec<usize> = Vec::new();
    frontier.push(0);
    let ghost mut done: int = 0;
    while frontier.len() > 0
        invariant
            n >= 1,
            visited@.len() == n,
            0 <= done <= n,
            forall|i: int| 0 <= i < n ==> visited@[i] == (i < done),
            done < n ==> frontier@ == seq![done as usize],
            done == n ==> frontier@.len() == 0,
            links@.len() == (if done == n { n - 1 } else { done }),
            forall|j: int| 0 <= j < links@.len() ==> links@[j] == (j as usize, (j + 1) as usize),
        decreases n - done,
    {
        let current = frontier.pop().unwrap();
        assert(current == done);
        visited.set(current, true);
        let mut i: usize = 0;
        let mut linked = false;
        while i < n && !linked
            invariant
                i <= n,
                current == done,
                done < n,
                visited@.len() == n,
                forall|m: int| 0 <= m < n ==> visited@[m] == (m <= done),
                !linked ==> i <= done + 1 && frontier@.len() == 0 && links@.len() == done,
                linked ==> done + 1 < n && frontier@ == seq![(done + 1) as usize] && links@.len()
                    == done + 1,
                forall|j: int| 0 <= j < links@.len() ==> links@[j] == (j as usize, (j + 1) as usize),
            decreases n - i, if linked { 0int } else { 1int },
        {
            if i != current && !visited[i] {
                assert(i == done + 1);
                frontier.push(i);
                links.push((current, i));
                linked = true;
            } else {
                i += 1;
            }
        }
        proof {
            if !linked {
                assert(i == n);
                assert(done + 1 == n);
            }
            done = done + 1;
        }
    }
    assert(links@ =~= chain_links(n as int));
    links
}

/// Tries candidate rooms of random size at random places, and keeps each one
/// that overlaps none kept before, until `room_count` rooms are kept or
/// `MAX_PLACEMENT_ATTEMPTS` candidates were tried.
fn place_rooms(rng: &mut StdRng, room_count: u32, min: (usize, usize), max: (usize, usize)) -> (placed:
    (Vec<Room>, u32))
    requires
        valid_room_sizes(min, max),
    ensures
        rooms_placed(placed.0@, min, max),
        rooms_apart(placed.0@),
        placed.0@.len() <= room_count,
        room_count >= 1 ==> placed.0@.len() >= 1,
        placed.0@.len() <= placed.1 <= MAX_PLACEMENT_ATTEMPTS,
        placed.0@.len() < room_count ==> placed.1 == MAX_PLACEMENT_ATTEMPTS,
{
    let mut rooms: Vec<Room> = Vec::new();
    let mut attempts: u32 = 0;
    while rooms.len() < room_count as usize && attempts < MAX_PLACEMENT_ATTEMPTS
        invariant
            valid_room_sizes(min, max),
            rooms_placed(rooms@, min, max),
            rooms_apart(rooms@),
            rooms@.len() <= room_count,
            rooms@.len() <= attempts <= MAX_PLACEMENT_ATTEMPTS,
            attempts >= 1 ==> rooms@.len() >= 1,
        decreases MAX_PLACEMENT_ATTEMPTS - attempts,
    {
        let width = roll(rng, min.0, max.0);
        let height = roll(rng, min.1, max.1);
        let x = roll(rng, 0, GRID_SIZE - width);
        let y = roll(rng, 0, GRID_SIZE - height);
        let candidate = Room { x, y, width, height };
        let ghost before = rooms@;
        if keep_if_apart(&mut rooms, candidate) {
            assert forall|i: int, j: int|
                0 <= i < rooms@.len() && 0 <= j < rooms@.len() && i != j implies !(
            #[trigger] rooms@[i]).overlaps(#[trigger] rooms@[j]) by {
                if i < before.len() && j < before.len() {
                    assert(!before[i].overlaps(before[j]));
                } else if i < before.len() {
                    assert(!before[i].overlaps(candidate));
                } else {
                    assert(!before[j].overlaps(candidate));
                }
            }
        }
        attempts += 1;
    }
    (rooms, attempts)
}

/// Joins each room to the next by a corridor between a random cell of the
/// one and a random cell of the other.
fn link_rooms(rng: &mut StdRng, rooms: &Vec<Room>) -> (corridors: Vec<Corridor>)
    requires
        forall|i: int| 0 <= i < rooms@.len() ==> (#[trigger] rooms@[i]).in_grid(),
    ensures
        rooms_chained(rooms@, corridors@),
{
    let links = spanning_links(rooms.len());
    let mut corridors: Vec<Corridor> = Vec::new();
    let mut j: usize = 0;
    while j < links.len()
        invariant
            j <= links@.len(),
            links@ == chain_links(rooms@.len() as int),
            forall|i: int| 0 <= i < rooms@.len() ==> (#[trigger] rooms@[i]).in_grid(),
            corridors@.len() == j,
            forall|k: int|
                0 <= k < j ==> (#[trigger] corridors@[k]).joins(rooms@[k], rooms@[k + 1]),
        decreases links@.len() - j,
    {
        let link = links[j];
        let first = rooms[link.0];
        let second = rooms[link.1];
        assert(first.in_grid() && second.in_grid());
        let from_x = roll(rng, first.x, first.x + first.width);
        let from_y = roll(rng, first.y, first.y + first.height);
        let to_x = roll(rng, second.x, second.x + second.width);
        let to_y = roll(rng, second.y, second.y + second.height);
        corridors.push(Corridor { from_x, from_y, to_x, to_y });
        j += 1;
    }
    corridors
}

impl RoomPlan {
    /// Whether the plan is one that a generation of up to `room_count` rooms
    /// with sizes from `min .. max` may lay out: the rooms lie in the grid
    /// and apart, each is joined to the next, and fewer rooms than were
    /// asked for stand only where every attempt was used.
    pub open spec fn laid_out(self, room_count: u32, min: (usize, usize), max: (usize, usize)) -> bool {
        &&& rooms_placed(self.rooms@, min, max)
        &&& rooms_apart(self.rooms@)
        &&& rooms_chained(self.rooms@, self.corridors@)
        &&& self.rooms@.len() <= room_count
        &&& room_count >= 1 ==> self.rooms@.len() >= 1
        &&& self.rooms@.len() <= self.attempts <= MAX_PLACEMENT_ATTEMPTS
        &&& self.rooms@.len() < room_count ==> self.attempts == MAX_PLACEMENT_ATTEMPTS
    }

    /// Whether the plan holds fewer rooms than the `room_count` that was
    /// asked for.
    pub fn fell_short(&self, room_count: u32) -> (short: bool)
        ensures
            short == (self.rooms@.len() < room_count),
    {
        self.rooms.len() < room_count as usize
    }

    /// The level that the plan carves out of solid wall.
    pub fn to_grid(&self) -> (grid: Grid)
        ensures
            grid@ == carved(self.rooms@, self.corridors@),
    {
        let mut grid = Grid::new_filled(TileType::Wall);
        let ghost rooms = self.rooms@;
        let ghost corridors = self.corridors@;
        proof {
            grid.lemma_view_len();
        }
        let mut i: usize = 0;
        while i < self.rooms.len()
            invariant
                i <= rooms.len(),
                rooms == self.rooms@,
                grid@.len() == CELL_COUNT,
                forall|x: int, y: int|
                    in_bounds(x, y) ==> #[trigger] tile_at(grid@, x, y) == if room_at(
                        rooms,
                        i as int,
                        x,
                        y,
                    ) {
                        TileType::Floor
                    } else {
                        TileType::Wall
                    },
            decreases rooms.len() - i,
        {
            let room = self.rooms[i];
            let x_end = room.x.saturating_add(room.width);
            let y_end = room.y.saturating_add(room.height);
            let ghost before = grid@;
            grid.fill_rect(room.x, room.y, x_end, y_end, TileType::Floor);
            proof {
                grid.lemma_view_len();
                lemma_cells_from(
                    |x: int, y: int|
                        if in_rect(room.x as int, room.y as int, x_end as int, y_end as int, x, y) {
                            TileType::Floor
                        } else {
                            tile_at(before, x, y)
                        },
                );
                assert forall|x: int, y: int| in_bounds(x, y) implies #[trigger] tile_at(
                    grid@,
                    x,
                    y,
                ) == if room_at(rooms, i + 1, x, y) {
                    TileType::Floor
                } else {
                    TileType::Wall
                } by {
                    assert(in_rect(room.x as int, room.y as int, x_end as int, y_end as int, x, y)
                        == rooms[i as int].contains(x, y));
                    if room_at(rooms, i as int, x, y) {
                        let w = choose|w: int|
                            0 <= w < i && w < rooms.len() && (#[trigger] rooms[w]).contains(x, y);
                        assert(rooms[w].contains(x, y));
                    }
                    if room_at(rooms, i + 1, x, y) && !room_at(rooms, i as int, x, y) {
                        let w = choose|w: int|
                            0 <= w < i + 1 && w < rooms.len() && (#[trigger] rooms[w]).contains(
                                x,
                                y,
                            );
                        assert(w == i);
                    }
                }
            }
            i += 1;
        }
        let mut j: usize = 0;
        while j < self.corridors.len()
            invariant
                j <= corridors.len(),
                corridors == self.corridors@,
                grid@.len() == CELL_COUNT,
                forall|x: int, y: int|
                    in_bounds(x, y) ==> #[trigger] tile_at(grid@, x, y) == if room_at(
                        rooms,
                        rooms.len() as int,
                        x,
                        y,
                    ) || corridor_at(corridors, j as int, x, y) {
                        TileType::Floor
                    } else {
                        TileType::Wall
                    },
            decreases corridors.len() - j,
        {
            let c = self.corridors[j];
            let (x_low, x_high) = if c.from_x <= c.to_x {
                (c.from_x, c.to_x)
            } else {
                (c.to_x, c.from_x)
            };
            let (y_low, y_high) = if c.from_y <= c.to_y {
                (c.from_y, c.to_y)
            } else {
                (c.to_y, c.from_y)
            };
            let ghost before = grid@;
            grid.fill_rect(
                x_low,
                c.from_y,
                x_high.saturating_add(1),
                c.from_y.saturating_add(1),
                TileType::Floor,
            );
            let ghost middle = grid@;
            grid.fill_rect(
                c.to_x,
                y_low,
                c.to_x.saturating_add(1),
                y_high.saturating_add(1),
                TileType::Floor,
            );
            proof {
                grid.lemma_view_len();
                lemma_cells_from(
                    |x: int, y: int|
                        if in_rect(
                            x_low as int,
                            c.from_y as int,
                            x_high.saturating_add(1) as int,
                            c.from_y.saturating_add(1) as int,
                            x,
                            y,
                        ) {
                            TileType::Floor
                        } else {
                            tile_at(before, x, y)
                        },
                );
                lemma_cells_from(
                    |x: int, y: int|
                        if in_rect(
                            c.to_x as int,
                            y_low as int,
                            c.to_x.saturating_add(1) as int,
                            y_high.saturating_add(1) as int,
                            x,
                            y,
                        ) {
                            TileType::Floor
                        } else {
                            tile_at(middle, x, y)
                        },
                );
                assert forall|x: int, y: int| in_bounds(x, y) implies #[trigger] tile_at(
                    grid@,
                    x,
                    y,
                ) == if room_at(rooms, rooms.len() as int, x, y) || corridor_at(
                    corridors,
                    j + 1,
                    x,
                    y,
                ) {
                    TileType::Floor
                } else {
                    TileType::Wall
                } by {
                    let on_run = in_rect(
                        x_low as int,
                        c.from_y as int,
                        x_high.saturating_add(1) as int,
                        c.from_y.saturating_add(1) as int,
                        x,
                        y,
                    ) || in_rect(
                        c.to_x as int,
                        y_low as int,
                        c.to_x.saturating_add(1) as int,
                        y_high.saturating_add(1) as int,
                        x,
                        y,
                    );
                    assert(on_run == corridors[j as int].covers(x, y));
                    if corridor_at(corridors, j as int, x, y) {
                        let w = choose|w: int|
                            0 <= w < j && w < corridors.len() && (#[trigger] corridors[w]).covers(
                                x,
                                y,
                            );
                        assert(corridors[w].covers(x, y));
                    }
                    if corridor_at(corridors, j + 1, x, y) && !corridor_at(
                        corridors,
                        j as int,
                        x,
                        y,
                    ) {
                        let w = choose|w: int|
                            0 <= w < j + 1 && w < corridors.len() && (
                            #[trigger] corridors[w]).covers(x, y);
                        assert(w == j);
                    }
                }
            }
            j += 1;
        }
        proof {
            lemma_cells_from(
                |x: int, y: int|
                    if room_at(rooms, rooms.len() as int, x, y) || corridor_at(
                        corridors,
                        corridors.len() as int,
                        x,
                        y,
                    ) {
                        TileType::Floor
                    } else {
                        TileType::Wall
                    },
            );
            lemma_cells_equal(grid@, carved(rooms, corridors));
        }
        grid
    }
}

impl Clone for RoomPlan {
    fn clone(&self) -> (copy: RoomPlan)
        ensures
            copy.rooms@ == self.rooms@,
            copy.corridors@ == self.corridors@,
            copy.attempts == self.attempts,
    {
        let mut rooms: Vec<Room> = Vec::new();
        let mut i: usize = 0;
        while i < self.rooms.len()
            invariant
                i <= self.rooms@.len(),
                rooms@ == self.rooms@.take(i as int),
            decreases self.rooms@.len() - i,
        {
            rooms.push(self.rooms[i]);
            assert(self.rooms@.take(i + 1) =~= self.rooms@.take(i as int).push(self.rooms@[i as int]));
            i += 1;
        }
        let mut corridors: Vec<Corridor> = Vec::new();
        let mut j: usize = 0;
        while j < self.corridors.len()
            invariant
                j <= self.corridors@.len(),
                corridors@ == self.corridors@.take(j as int),
            decreases self.corridors@.len() - j,
        {
            corridors.push(self.corridors[j]);
            assert(self.corridors@.take(j + 1) =~= self.corridors@.take(j as int).push(
                self.corridors@[j as int],
            ));
            j += 1;
        }
        assert(self.rooms@.take(self.rooms@.len() as int) =~= self.rooms@);
        assert(self.corridors@.take(self.corridors@.len() as int) =~= self.corridors@);
        RoomPlan { rooms, corridors, attempts: self.attempts }
    }
}

/// Whether the two size limits make a valid request.
pub fn sizes_are_valid(min: (usize, usize), max: (usize, usize)) -> (ok: bool)
    ensures
        ok == valid_room_sizes(min, max),
{
    1 <= min.0 && min.0 < max.0 && max.0 <= GRID_SIZE && 1 <= min.1 && min.1 < max.1 && max.1
        <= GRID_SIZE
}

impl Grid {
    /// A level of up to `room_count` rooms joined by corridors, drawn from
    /// the random sequence that `seed` starts, together with its plan.
    ///
    /// Fails on size limits that are not valid and on nothing else. Which
    /// rooms are drawn is not fixed here; whatever is drawn, the plan is laid
    /// out as asked and the level is what the plan carves.
    pub fn new_room_based_grid(
        seed: u64,
        room_count: u32,
        min_room_size: (usize, usize),
        max_room_size: (usize, usize),
    ) -> (result: Result<(Grid, RoomPlan), DungeonError>)
        ensures
            result is Ok <==> valid_room_sizes(min_room_size, max_room_size),
            result matches Err(e) ==> e == DungeonError::InvalidConfiguration,
            result matches Ok((grid, plan)) ==> {
                &&& plan.laid_out(room_count, min_room_size, max_room_size)
                &&& grid@ == carved(plan.rooms@, plan.corridors@)
                &&& wall_and_floor_only(grid@)
                &&& rooms_connected(grid@, plan.rooms@)
            },
    {
        if !sizes_are_valid(min_room_size, max_room_size) {
            return Err(DungeonError::InvalidConfiguration);
        }
        let mut rng = seeded_rng(seed);
        let (mut rooms, attempts) = place_rooms(&mut rng, room_count, min_room_size, max_room_size);
        let ghost placed = rooms@;
        shuffle(&mut rng, &mut rooms);
        proof {
            lemma_rearranged_rooms(placed, rooms@, min_room_size, max_room_size);
        }
        let corridors = link_rooms(&mut rng, &rooms);
        let plan = RoomPlan { rooms, corridors, attempts };
        let grid = plan.to_grid();
        proof {
            lemma_carved(plan.rooms@, plan.corridors@);
            lemma_rooms_connected(plan.rooms@, plan.corridors@);
        }
        Ok((grid, plan))
    }
}

} // verus!
