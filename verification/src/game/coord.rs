//! Axial coordinates on the hexagonal grid.

use vstd::prelude::*;

verus! {

/// A cell of the hexagonal grid, in axial coordinates.
#[derive(Copy, Clone, PartialEq, Eq, Structural, Hash, Debug)]
pub struct Coord {
    pub x: i32,
    pub y: i32,
}

/// Two cells are adjacent when they share an edge: each cell has six such
/// cells around it.
pub open spec fn adjacent(a: Coord, b: Coord) -> bool {
    let dx = b.x - a.x;
    let dy = b.y - a.y;
    ||| dx == 0 && dy == 1
    ||| dx == 1 && dy == 0
    ||| dx == 1 && dy == -1
    ||| dx == 0 && dy == -1
    ||| dx == -1 && dy == 0
    ||| dx == -1 && dy == 1
}

/// `hex2d::Coordinate::neighbors` on the cell `(x, y)`: the six cells around
/// it, as hex2d orders its directions (+y, +x, +x-y, -y, -x, -x+y). hex2d adds
/// the offsets with plain `+`, so cells on the rim of the `i32` range are left
/// out.
#[verifier::external_body]
fn hex_neighbors(x: i32, y: i32) -> (cells: [(i32, i32); 6])
    requires
        i32::MIN < x < i32::MAX,
        i32::MIN < y < i32::MAX,
    ensures
        cells[0] == (x, (y + 1) as i32),
        cells[1] == ((x + 1) as i32, y),
        cells[2] == ((x + 1) as i32, (y - 1) as i32),
        cells[3] == (x, (y - 1) as i32),
        cells[4] == ((x - 1) as i32, y),
        cells[5] == ((x - 1) as i32, (y + 1) as i32),
{
    let n = hex2d::Coordinate::new(x, y).neighbors();
    [
        (n[0].x, n[0].y),
        (n[1].x, n[1].y),
        (n[2].x, n[2].y),
        (n[3].x, n[3].y),
        (n[4].x, n[4].y),
        (n[5].x, n[5].y),
    ]
}

/// The largest coordinate, either way, from which hex2d is asked for a line
/// or a range. Up to here its sums and differences stay within `i32`, and
/// the `f32` numbers that it rounds to coordinates do so too.
pub const REACH_LIMIT: i32 = 8_000_000;

/// The largest radius of a range that hex2d is asked for: it counts the
/// cells of the range in a `usize`, which may have 32 bits.
pub const RANGE_LIMIT: i32 = 30_000;

/// The distance between two numbers.
pub open spec fn span(a: int, b: int) -> int {
    if a >= b {
        a - b
    } else {
        b - a
    }
}

/// The number of steps from the cell `(ax, ay)` to the cell `(bx, by)`.
pub open spec fn hex_distance(ax: int, ay: int, bx: int, by: int) -> int {
    (span(ax, bx) + span(ay, by) + span(ax + ay, bx + by)) / 2
}

/// The cells of the straight line from the cell `(ax, ay)` to the cell
/// `(bx, by)`, as hex2d draws it.
pub uninterp spec fn line_cells(ax: i32, ay: i32, bx: i32, by: i32) -> Seq<(i32, i32)>;

/// `hex2d::Coordinate::line_to_iter` from the cell `(ax, ay)` to the cell
/// `(bx, by)`, collected. hex2d steps along the line with `f32` numbers and
/// rounds each point to a cell, so the cells only get a name here. What is
/// stated of them is their number: one for each step of the distance between
/// the two ends, and one more.
#[verifier::external_body]
pub(crate) fn hex_line(ax: i32, ay: i32, bx: i32, by: i32) -> (cells: Vec<(i32, i32)>)
    requires
        -REACH_LIMIT <= ax <= REACH_LIMIT,
        -REACH_LIMIT <= ay <= REACH_LIMIT,
        -REACH_LIMIT <= bx <= REACH_LIMIT,
        -REACH_LIMIT <= by <= REACH_LIMIT,
    ensures
        cells@ == line_cells(ax, ay, bx, by),
        cells@.len() == hex_distance(ax as int, ay as int, bx as int, by as int) + 1,
{
    let to = hex2d::Coordinate::new(bx, by);
    hex2d::Coordinate::new(ax, ay).line_to_iter(to).map(|c| (c.x, c.y)).collect()
}

/// The lowest and the highest `y` of the column `dx` of a range of radius
/// `r` around the cell `(0, 0)`.
pub open spec fn column_low(r: int, dx: int) -> int {
    if dx < 0 {
        -dx - r
    } else {
        -r
    }
}

pub open spec fn column_high(r: int, dx: int) -> int {
    if dx < 0 {
        r
    } else {
        r - dx
    }
}

/// The cells of the column `dx` of the range of radius `r` around the cell
/// `(x, y)`, with `y` going up.
pub open spec fn column(x: int, y: int, r: int, dx: int) -> Seq<(i32, i32)> {
    Seq::new(
        (column_high(r, dx) - column_low(r, dx) + 1) as nat,
        |k: int| ((x + dx) as i32, (y + column_low(r, dx) + k) as i32),
    )
}

/// The first `columns` columns of the range of radius `r` around the cell
/// `(x, y)`, with `x` going up from `x - r`.
pub open spec fn disc(x: int, y: int, r: int, columns: nat) -> Seq<(i32, i32)>
    decreases columns,
{
    if columns == 0 {
        Seq::empty()
    } else {
        disc(x, y, r, (columns - 1) as nat) + column(x, y, r, columns - 1 - r)
    }
}

/// `hex2d::Coordinate::range_iter` around the cell `(x, y)`, collected: all
/// cells that are at most `r` steps away. hex2d goes through them column by
/// column, with `x` going up from `x - r` to `x + r`, and with `y` going up
/// within each column.
#[verifier::external_body]
pub(crate) fn hex_range(x: i32, y: i32, r: i32) -> (cells: Vec<(i32, i32)>)
    requires
        -REACH_LIMIT <= x <= REACH_LIMIT,
        -REACH_LIMIT <= y <= REACH_LIMIT,
        0 <= r <= RANGE_LIMIT,
    ensures
        cells@ == disc(x as int, y as int, r as int, (2 * r + 1) as nat),
{
    hex2d::Coordinate::new(x, y).range_iter(r).map(|c| (c.x, c.y)).collect()
}

/// A column of a range has at most `2 * r + 1` cells, and so a range has at
/// most `columns` times as many.
pub proof fn lemma_disc_len(x: int, y: int, r: int, columns: nat)
    requires
        0 <= r,
        columns <= 2 * r + 1,
    ensures
        disc(x, y, r, columns).len() <= columns * (2 * r + 1),
    decreases columns,
{
    if columns > 0 {
        lemma_disc_len(x, y, r, (columns - 1) as nat);
        assert(column(x, y, r, columns - 1 - r).len() <= 2 * r + 1);
        assert(columns * (2 * r + 1) == (columns - 1) * (2 * r + 1) + (2 * r + 1))
            by (nonlinear_arith);
    }
}

impl Coord {
    pub fn new(x: i32, y: i32) -> (c: Self)
        ensures
            c == (Coord { x, y }),
    {
        Coord { x, y }
    }

    /// A cell is inner when all six cells around it have coordinates too,
    /// that is when it does not lie on the rim of the `i32` range.
    pub open spec fn is_inner(self) -> bool {
        &&& i32::MIN < self.x < i32::MAX
        &&& i32::MIN < self.y < i32::MAX
    }

    pub fn check_inner(self) -> (inner: bool)
        ensures
            inner == self.is_inner(),
    {
        i32::MIN < self.x && self.x < i32::MAX && i32::MIN < self.y && self.y < i32::MAX
    }

    /// The cell next to this one in direction `d`, counted from 0 to 5.
    pub open spec fn neighbor(self, d: int) -> Coord {
        if d == 0 {
            Coord { x: self.x, y: (self.y + 1) as i32 }
        } else if d == 1 {
            Coord { x: (self.x + 1) as i32, y: self.y }
        } else if d == 2 {
            Coord { x: (self.x + 1) as i32, y: (self.y - 1) as i32 }
        } else if d == 3 {
            Coord { x: self.x, y: (self.y - 1) as i32 }
        } else if d == 4 {
            Coord { x: (self.x - 1) as i32, y: self.y }
        } else {
            Coord { x: (self.x - 1) as i32, y: (self.y + 1) as i32 }
        }
    }

    /// The six cells around this one, in the order of the directions.
    pub fn neighbors(&self) -> (cells: [Coord; 6])
        requires
            self.is_inner(),
        ensures
            forall|d: int| 0 <= d < 6 ==> cells[d] == #[trigger] self.neighbor(d),
    {
        let n = hex_neighbors(self.x, self.y);
        [
            Coord { x: n[0].0, y: n[0].1 },
            Coord { x: n[1].0, y: n[1].1 },
            Coord { x: n[2].0, y: n[2].1 },
            Coord { x: n[3].0, y: n[3].1 },
            Coord { x: n[4].0, y: n[4].1 },
            Coord { x: n[5].0, y: n[5].1 },
        ]
    }

    /// Whether `other` is one of the six cells around this one.
    pub fn is_adjacent(&self, other: &Coord) -> (adj: bool)
        ensures
            adj == adjacent(*self, *other),
    {
        let dx: i64 = other.x as i64 - self.x as i64;
        let dy: i64 = other.y as i64 - self.y as i64;
        (dx == 0 && dy == 1) || (dx == 1 && dy == 0) || (dx == 1 && dy == -1) || (dx == 0 && dy
            == -1) || (dx == -1 && dy == 0) || (dx == -1 && dy == 1)
    }
}

/// Adjacency is symmetric and no cell is adjacent to itself.
pub proof fn lemma_adjacent_symmetric(a: Coord, b: Coord)
    ensures
        adjacent(a, b) == adjacent(b, a),
        !adjacent(a, a),
{
}

/// The cells adjacent to an inner cell are exactly its six neighbours.
pub proof fn lemma_adjacent_is_neighbor(a: Coord, b: Coord)
    requires
        a.is_inner(),
    ensures
        adjacent(a, b) <==> exists|d: int| 0 <= d < 6 && b == #[trigger] a.neighbor(d),
{
    if adjacent(a, b) {
        let dx = b.x - a.x;
        let dy = b.y - a.y;
        let d: int = if dx == 0 && dy == 1 {
            0
        } else if dx == 1 && dy == 0 {
            1
        } else if dx == 1 && dy == -1 {
            2
        } else if dx == 0 && dy == -1 {
            3
        } else if dx == -1 && dy == 0 {
            4
        } else {
            5
        };
        assert(b == a.neighbor(d));
    }
}

/// A finite set of cells.
#[derive(Clone, PartialEq, Eq, Debug)]
pub struct CoordSet {
    items: Vec<Coord>,
}

impl View for CoordSet {
    type V = Set<Coord>;

    closed spec fn view(&self) -> Set<Coord> {
        self.items@.to_set()
    }
}

impl CoordSet {
    /// No cell is stored twice.
    pub closed spec fn wf(&self) -> bool {
        self.items@.no_duplicates()
    }

    /// The cells of the set in the order in which they were inserted.
    pub closed spec fn ordered(&self) -> Seq<Coord> {
        self.items@
    }

    /// The order lists every cell of the set once.
    pub proof fn lemma_ordered(&self)
        requires
            self.wf(),
        ensures
            self.ordered().no_duplicates(),
            self.ordered().to_set() == self@,
            self.ordered().len() == self@.len(),
            self@.finite(),
    {
        self.items@.unique_seq_to_set();
    }

    pub fn new() -> (s: Self)
        ensures
            s.wf(),
            s@ == Set::<Coord>::empty(),
            s.ordered() == Seq::<Coord>::empty(),
    {
        let s = CoordSet { items: Vec::new() };
        assert(s.items@.to_set() =~= Set::<Coord>::empty());
        s
    }

    pub fn len(&self) -> (n: usize)
        requires
            self.wf(),
        ensures
            n == self@.len(),
            n == self.ordered().len(),
    {
        proof {
            self.items@.unique_seq_to_set();
        }
        self.items.len()
    }

    pub fn is_empty(&self) -> (empty: bool)
        requires
            self.wf(),
        ensures
            empty == self@.is_empty(),
            empty == (self.ordered().len() == 0),
    {
        proof {
            self.items@.unique_seq_to_set();
            if self.items@.len() > 0 {
                assert(self.items@.to_set().contains(self.items@[0]));
            }
        }
        self.items.len() == 0
    }

    pub fn contains(&self, c: &Coord) -> (found: bool)
        ensures
            found == self@.contains(*c),
    {
        let mut i: usize = 0;
        while i < self.items.len()
            invariant
                i <= self.items.len(),
                forall|j: int| 0 <= j < i ==> self.items@[j] != *c,
            decreases self.items.len() - i,
        {
            if self.items[i] == *c {
                return true;
            }
            i += 1;
        }
        false
    }

    /// Adds a cell to the set; says whether it was new.
    pub fn insert(&mut self, c: Coord) -> (added: bool)
        requires
            old(self).wf(),
        ensures
            final(self).wf(),
            final(self)@ == old(self)@.insert(c),
            added == !old(self)@.contains(c),
            added ==> final(self).ordered() == old(self).ordered().push(c),
            !added ==> final(self).ordered() == old(self).ordered(),
    {
        if self.contains(&c) {
            assert(self.items@.to_set().insert(c) =~= self.items@.to_set());
            false
        } else {
            let ghost before = self.items@;
            self.items.push(c);
            proof {
                assert(self.items@ == before.push(c));
                assert forall|i: int, j: int|
                    0 <= i < self.items@.len() && 0 <= j < self.items@.len() && i
                        != j implies self.items@[i] != self.items@[j] by {
                    if i < before.len() {
                        assert(before.to_set().contains(before[i]));
                    }
                    if j < before.len() {
                        assert(before.to_set().contains(before[j]));
                    }
                }
                before.lemma_push_to_set_commute(c);
            }
            true
        }
    }

    /// The `i`-th cell in the order of insertion.
    pub fn get(&self, i: usize) -> (c: Coord)
        requires
            i < self.ordered().len(),
        ensures
            c == self.ordered()[i as int],
            self@.contains(c),
    {
        self.items[i]
    }

    /// All cells of the set, in the order of insertion.
    pub fn to_vec(&self) -> (cells: Vec<Coord>)
        ensures
            cells@ == self.ordered(),
    {
        self.items.clone()
    }
}

} // verus!
