//! Tile coordinates and the occupancy grid.
//!
//! The grid is a bounded rectangle of tiles; each tile holds at most one
//! occupying unit, recorded by its unit id. Bounds are fixed when the grid
//! is created and never change during a match.

use vstd::prelude::*;

verus! {

/// A tile coordinate on the grid.
#[derive(Clone, Copy, PartialEq, Eq, Hash, Structural, Debug)]
pub struct Pos {
    pub x: usize,
    pub y: usize,
}

/// Largest accepted grid side; keeps coordinate arithmetic far from overflow.
pub const MAX_SIDE: usize = 0x10000;

/// A facing or movement direction in tile space: `North` is `+y`, `South`
/// `-y`, `East` `+x`, `West` `-x`.
#[derive(Clone, Copy, PartialEq, Eq, Structural, Debug)]
pub enum Direction {
    East,
    South,
    West,
    North,
}

/// The direction a roster record's facing column spells, if any.
pub open spec fn dir_from_chars(s: Seq<char>) -> Option<Direction> {
    if s == "East"@ {
        Some(Direction::East)
    } else if s == "South"@ {
        Some(Direction::South)
    } else if s == "West"@ {
        Some(Direction::West)
    } else if s == "North"@ {
        Some(Direction::North)
    } else {
        None
    }
}

impl Direction {
    /// Reads a direction from its roster-record spelling.
    pub fn from_string(s: &String) -> (r: Option<Direction>)
        ensures
            r == dir_from_chars(s@),
    {
        proof {
            reveal_strlit("East");
            reveal_strlit("South");
            reveal_strlit("West");
            reveal_strlit("North");
            assert("East"@.len() == 4 && "West"@.len() == 4);
            assert("South"@.len() == 5 && "North"@.len() == 5);
            assert("East"@[0] == 'E' && "West"@[0] == 'W');
            assert("South"@[0] == 'S' && "North"@[0] == 'N');
        }
        if s.eq(&"East".to_owned()) {
            Some(Direction::East)
        } else if s.eq(&"South".to_owned()) {
            Some(Direction::South)
        } else if s.eq(&"West".to_owned()) {
            Some(Direction::West)
        } else if s.eq(&"North".to_owned()) {
            Some(Direction::North)
        } else {
            None
        }
    }
}

impl Default for Direction {
    /// Units face east until the roster says otherwise.
    fn default() -> (r: Direction)
        ensures
            r == Direction::East,
    {
        Direction::East
    }
}

/// The occupancy grid: `cells[x][y]` holds the id of the occupying unit,
/// if any.
pub struct Grid {
    pub width: usize,
    pub height: usize,
    pub cells: Vec<Vec<Option<usize>>>,
}

impl Grid {
    /// The grid is a full `width` by `height` rectangle within size limits.
    pub open spec fn wf(self) -> bool {
        &&& 1 <= self.width <= MAX_SIDE
        &&& 1 <= self.height <= MAX_SIDE
        &&& self.cells@.len() == self.width
        &&& forall|x: int|
            0 <= x < self.width ==> (#[trigger] self.cells@[x])@.len() == self.height
    }

    /// Occupant of the tile at integer coordinates; `None` off the grid.
    pub open spec fn occ(self, x: int, y: int) -> Option<usize> {
        if 0 <= x < self.width && 0 <= y < self.height {
            self.cells@[x]@[y]
        } else {
            None
        }
    }

    /// Occupant of the tile at `p`; `None` off the grid.
    pub open spec fn occ_at(self, p: Pos) -> Option<usize> {
        self.occ(p.x as int, p.y as int)
    }

    pub open spec fn spec_in_bounds(self, p: Pos) -> bool {
        p.x < self.width && p.y < self.height
    }

    /// A fresh grid with every tile vacant.
    pub fn new(width: usize, height: usize) -> (g: Grid)
        requires
            1 <= width <= MAX_SIDE,
            1 <= height <= MAX_SIDE,
        ensures
            g.wf(),
            g.width == width,
            g.height == height,
            forall|x: int, y: int| g.occ(x, y) is None,
    {
        let mut cells: Vec<Vec<Option<usize>>> = Vec::new();
        let mut x: usize = 0;
        while x < width
            invariant
                x <= width,
                cells@.len() == x,
                forall|i: int|
                    0 <= i < x ==> (#[trigger] cells@[i])@.len() == height,
                forall|i: int, j: int|
                    0 <= i < x && 0 <= j < height ==> #[trigger] cells@[i]@[j] is None,
            decreases width - x,
        {
            let mut row: Vec<Option<usize>> = Vec::new();
            let mut y: usize = 0;
            while y < height
                invariant
                    y <= height,
                    row@.len() == y,
                    forall|j: int| 0 <= j < y ==> row@[j] is None,
                decreases height - y,
            {
                row.push(None);
                y = y + 1;
            }
            cells.push(row);
            x = x + 1;
        }
        Grid { width, height, cells }
    }

    pub fn in_bounds(&self, p: Pos) -> (r: bool)
        ensures
            r == self.spec_in_bounds(p),
    {
        p.x < self.width && p.y < self.height
    }

    /// Occupant of `p`, or `None` when the tile is vacant or off the grid.
    pub fn occupant_at(&self, p: Pos) -> (r: Option<usize>)
        requires
            self.wf(),
        ensures
            r == self.occ_at(p),
    {
        if p.x < self.width && p.y < self.height {
            self.cells[p.x][p.y]
        } else {
            None
        }
    }

    /// Place unit `unit` on tile `p`. Rejected (returning `false`, grid
    /// unchanged) when `p` is off the grid or already occupied.
    pub fn place(&mut self, p: Pos, unit: usize) -> (ok: bool)
        requires
            old(self).wf(),
        ensures
            final(self).wf(),
            final(self).width == old(self).width,
            final(self).height == old(self).height,
            ok == (old(self).spec_in_bounds(p) && old(self).occ_at(p) is None),
            ok ==> final(self).occ_at(p) == Some(unit),
            ok ==> forall|x: int, y: int|
                !(x == p.x && y == p.y) ==> final(self).occ(x, y) == old(self).occ(x, y),
            !ok ==> *final(self) == *old(self),
    {
        if p.x < self.width && p.y < self.height {
            if self.cells[p.x][p.y].is_none() {
                self.cells[p.x][p.y] = Some(unit);
                assert(forall|x: int, y: int|
                    !(x == p.x && y == p.y) ==> final(self).occ(x, y) == old(self).occ(x, y));
                true
            } else {
                false
            }
        } else {
            false
        }
    }

    /// Clear tile `p`, returning its previous occupant. Off the grid this
    /// does nothing and returns `None`.
    pub fn vacate(&mut self, p: Pos) -> (prev: Option<usize>)
        requires
            old(self).wf(),
        ensures
            final(self).wf(),
            final(self).width == old(self).width,
            final(self).height == old(self).height,
            prev == old(self).occ_at(p),
            final(self).occ_at(p) is None,
            forall|x: int, y: int|
                !(x == p.x && y == p.y) ==> final(self).occ(x, y) == old(self).occ(x, y),
    {
        if p.x < self.width && p.y < self.height {
            let prev = self.cells[p.x][p.y];
            self.cells[p.x][p.y] = None;
            prev
        } else {
            None
        }
    }
}

} // verus!
