//! The map and its regions.
//!
//! A `Location` owns the tiles of a map and the membership of each tile in a
//! region. It keeps every region in one piece and keeps regions of one owner
//! from touching: when a tile changes hands, regions are merged, split and
//! deleted as needed.

use vstd::prelude::*;
use super::coord::{lemma_adjacent_is_neighbor, Coord, CoordSet};
use super::ids::{IdProducer, ID};
use super::topology::{
    add_tile_error, among, lemma_claim, lemma_compose, lemma_emptied, lemma_gone_is_foreign,
    lemma_listed_run, lemma_one_piece_same, lemma_seeds, lemma_sorted, mergeable, recorded, regrouped, rest_of, seeded,
    sorted_out, sorting, split_up, summed_up, touches, free_after, issued, issued_in_a_row,
    tallied, sides, opens, pieces_upto, pieced, lemma_pieces_upto, lemma_pieced_on, others,
    joiners, relisted, relisted_once, lemma_relisted_prefix,
};
use super::layout::{
    count_set, distinct_ids, friendly, holds, in_one_piece, lemma_place_of, listed, owner_in,
    populated, region_mask, LocationView, RegionHeader, place_of,
};
use super::tile::{Player, Tile, Unit};
use super::walk::{
    count_marked, distance_is, lemma_count_marked_bound, lemma_count_marked_update,
    lemma_reach_back, lemma_reach_join, lemma_walk_longer, lemma_walk_passable,
    lemma_reach_step, lemma_walk_back, lemma_walk_settled, lemma_walk_step, lemma_walk_within,
    near, passable, reach, walk,
};

verus! {

/// The tiles of a map by their coordinates, in the order in which they were
/// inserted.
#[derive(Clone, PartialEq, Eq, Debug)]
pub struct TileMap {
    coords: Vec<Coord>,
    tiles: Vec<Tile>,
}

impl TileMap {
    /// The coordinates of the map in the order of insertion.
    pub closed spec fn cells(&self) -> Seq<Coord> {
        self.coords@
    }

    /// The tile of each coordinate, in the same order.
    pub closed spec fn contents(&self) -> Seq<Tile> {
        self.tiles@
    }

    /// Every coordinate has one tile, none occurs twice, and every one of
    /// them is an inner cell.
    pub open spec fn wf(&self) -> bool {
        &&& self.contents().len() == self.cells().len()
        &&& self.cells().len() <= u32::MAX
        &&& forall|i: int, j: int|
            0 <= i < self.cells().len() && 0 <= j < self.cells().len() && i != j
                ==> self.cells()[i] != self.cells()[j]
        &&& forall|i: int| 0 <= i < self.cells().len() ==> (#[trigger] self.cells()[i]).is_inner()
    }

    pub open spec fn has(&self, c: Coord) -> bool {
        exists|i: int| 0 <= i < self.cells().len() && self.cells()[i] == c
    }

    /// The place of coordinate `c` in the order of insertion.
    pub open spec fn slot(&self, c: Coord) -> int {
        choose|i: int| 0 <= i < self.cells().len() && self.cells()[i] == c
    }

    pub open spec fn tile_of(&self, c: Coord) -> Option<Tile> {
        if self.has(c) {
            Some(self.contents()[self.slot(c)])
        } else {
            None
        }
    }

    pub fn new() -> (map: Self)
        ensures
            map.wf(),
            map.cells() == Seq::<Coord>::empty(),
            map.contents() == Seq::<Tile>::empty(),
    {
        TileMap { coords: Vec::new(), tiles: Vec::new() }
    }

    pub fn len(&self) -> (n: usize)
        requires
            self.wf(),
        ensures
            n == self.cells().len(),
    {
        self.coords.len()
    }

    pub fn is_empty(&self) -> (empty: bool)
        requires
            self.wf(),
        ensures
            empty == (self.cells().len() == 0),
    {
        self.coords.len() == 0
    }

    /// The place of a coordinate in the order of insertion.
    pub fn index_of(&self, c: &Coord) -> (place: Option<usize>)
        requires
            self.wf(),
        ensures
            match place {
                Some(i) => i < self.cells().len() && self.cells()[i as int] == *c && self.has(*c)
                    && self.slot(*c) == i,
                None => !self.has(*c),
            },
    {
        let mut i: usize = 0;
        while i < self.coords.len()
            invariant
                self.wf(),
                i <= self.coords.len(),
                forall|j: int| 0 <= j < i ==> self.coords@[j] != *c,
            decreases self.coords.len() - i,
        {
            if self.coords[i] == *c {
                proof {
                    assert(self.has(*c));
                    let j = self.slot(*c);
                    if j != i {
                        assert(self.cells()[i as int] != self.cells()[j]);
                    }
                }
                return Some(i);
            }
            i += 1;
        }
        None
    }

    pub fn contains_key(&self, c: &Coord) -> (found: bool)
        requires
            self.wf(),
        ensures
            found == self.has(*c),
    {
        self.index_of(c).is_some()
    }

    pub fn get(&self, c: &Coord) -> (tile: Option<&Tile>)
        requires
            self.wf(),
        ensures
            tile is Some == self.has(*c),
            tile is Some ==> Some(*tile->0) == self.tile_of(*c),
    {
        match self.index_of(c) {
            Some(i) => Some(&self.tiles[i]),
            None => None,
        }
    }

    /// Puts a tile at a coordinate. A tile that was there is replaced and
    /// handed back; a new coordinate goes to the end of the order.
    pub fn insert(&mut self, c: Coord, tile: Tile) -> (previous: Option<Tile>)
        requires
            old(self).wf(),
            c.is_inner(),
            old(self).has(c) || old(self).cells().len() < u32::MAX,
        ensures
            final(self).wf(),
            previous == old(self).tile_of(c),
            final(self).has(c),
            final(self).tile_of(c) == Some(tile),
            old(self).has(c) ==> final(self).cells() == old(self).cells() && final(self).contents() == old(self).contents().update(old(self).slot(c), tile),
            !old(self).has(c) ==> final(self).cells() == old(self).cells().push(c) && final(self).contents() == old(self).contents().push(tile),
    {
        match self.index_of(&c) {
            Some(i) => {
                let previous = self.tiles[i];
                self.tiles.set(i, tile);
                assert(self.coords@[i as int] == c);
                assert(self.slot(c) == i);
                Some(previous)
            },
            None => {
                self.coords.push(c);
                self.tiles.push(tile);
                assert(self.coords@[self.coords@.len() - 1] == c);
                assert(self.slot(c) == self.coords@.len() - 1);
                None
            },
        }
    }

    /// The coordinate at a place of the order.
    pub fn coordinate(&self, i: usize) -> (c: Coord)
        requires
            i < self.cells().len(),
        ensures
            c == self.cells()[i as int],
    {
        self.coords[i]
    }

    /// The tile at a place of the order.
    pub fn tile(&self, i: usize) -> (tile: &Tile)
        requires
            self.wf(),
            i < self.cells().len(),
        ensures
            *tile == self.contents()[i as int],
    {
        &self.tiles[i]
    }

    /// All coordinates of the map, in the order of insertion.
    pub fn coordinates(&self) -> (cells: Vec<Coord>)
        ensures
            cells@ == self.cells(),
    {
        self.coords.clone()
    }
}

/// A connected set of tiles under one owner, as it is handed to a location
/// and read from it.
#[derive(Clone, PartialEq, Eq, Debug)]
pub struct Region {
    id: ID,
    owner: Player,
    coordinates: CoordSet,
}

impl Region {
    pub closed spec fn header(&self) -> RegionHeader {
        RegionHeader { id: self.id, owner: self.owner }
    }

    pub closed spec fn cells(&self) -> CoordSet {
        self.coordinates
    }

    /// A region has at least one cell.
    pub open spec fn wf(&self) -> bool {
        self.cells().wf() && self.cells().ordered().len() > 0
    }

    pub fn new(id: ID, owner: Player, coordinates: CoordSet) -> (region: Self)
        requires
            coordinates.wf(),
            coordinates.ordered().len() > 0,
        ensures
            region.wf(),
            region.header() == (RegionHeader { id, owner }),
            region.cells() == coordinates,
    {
        Self { id, owner, coordinates }
    }

    pub fn id(&self) -> (id: ID)
        ensures
            id == self.header().id,
    {
        self.id
    }

    pub fn owner(&self) -> (owner: &Player)
        ensures
            *owner == self.header().owner,
    {
        &self.owner
    }

    pub fn coordinates(&self) -> (cells: &CoordSet)
        ensures
            *cells == self.cells(),
    {
        &self.coordinates
    }
}

/// What a change of one tile's region did to the regions around it.
#[derive(Clone, PartialEq, Eq, Hash, Debug)]
pub enum RegionTransformation {
    /// Region `from` went into region `into`.
    Merge { from: ID, into: ID },
    /// The region lost its last tile.
    Delete(ID),
    /// Region `from` fell apart: `into` lists `from` itself, which one part
    /// keeps, and the new regions of the other parts.
    Split { from: ID, into: Vec<ID> },
}

#[derive(Copy, Clone, PartialEq, Eq, Hash, Debug)]
pub enum LocationValidationError {
    DuplicateRegionId(ID),
    SplitRegions(ID),
    IntersectingRegions(Coord),
    SameOwnerBorderingRegions(ID, ID),
}

#[derive(Copy, Clone, PartialEq, Eq, Hash, Debug)]
pub enum LocationModificationError {
    CoordinateOutOfLocation(Coord),
    NoUnitAtCoordinate(Coord),
    CoordinateNotAdjacentToRegion(Coord),
    NoSuchRegion(ID),
    InvalidResult(LocationValidationError),
}

impl From<LocationValidationError> for LocationModificationError {
    fn from(e: LocationValidationError) -> (error: Self) {
        LocationModificationError::InvalidResult(e)
    }
}

impl vstd::std_specs::convert::FromSpecImpl<LocationValidationError> for LocationModificationError {
    open spec fn obeys_from_spec() -> bool {
        true
    }

    open spec fn from_spec(e: LocationValidationError) -> Self {
        LocationModificationError::InvalidResult(e)
    }
}

/// A map with its regions.
#[derive(Clone, PartialEq, Eq, Debug)]
pub struct Location {
    map: TileMap,
    /// For each cell and each of the six directions, the cell that lies
    /// there, if the map has one.
    links: Vec<Vec<Option<usize>>>,
    region_of: Vec<Option<ID>>,
    regions: Vec<RegionHeader>,
}

impl View for Location {
    type V = LocationView;

    closed spec fn view(&self) -> LocationView {
        LocationView {
            cells: self.map.coords@,
            tiles: self.map.tiles@,
            region_of: self.region_of@,
            regions: self.regions@,
        }
    }
}

impl Location {
    /// The table of neighbours is that of the cells.
    pub closed spec fn linked_up(&self) -> bool {
        &&& self.links@.len() == self.map.coords@.len()
        &&& forall|i: int| 0 <= i < self.links@.len() ==> (#[trigger] self.links@[i])@.len() == 6
        &&& forall|i: int, d: int|
            0 <= i < self.links@.len() && 0 <= d < 6 ==> match (#[trigger] self.links@[i]@[d]) {
                Some(j) => j < self.map.coords@.len() && self.map.coords@[j as int]
                    == self.map.coords@[i].neighbor(d),
                None => forall|j: int|
                    0 <= j < self.map.coords@.len() ==> self.map.coords@[j]
                        != self.map.coords@[i].neighbor(d),
            }
    }

    /// The representation is in order; nothing is said of the regions.
    pub open spec fn base(&self) -> bool {
        self@.shaped() && self.linked_up()
    }

    pub open spec fn wf(&self) -> bool {
        self.base() && self@.wf()
    }

    /// The location is well formed and sound.
    pub open spec fn valid(&self) -> bool {
        self.base() && self@.valid()
    }

    /// The cells next to cell `i` are those that the table lists for it.
    proof fn lemma_links(&self, i: int, j: int)
        requires
            self.base(),
            0 <= i < self@.size(),
        ensures
            near(self@.cells, i, j) <==> exists|d: int|
                0 <= d < 6 && #[trigger] self.links@[i]@[d] == Some(j as usize) && 0 <= j
                    < self@.size(),
    {
        let cells = self@.cells;
        if near(cells, i, j) {
            lemma_adjacent_is_neighbor(cells[i], cells[j]);
            let d = choose|d: int| 0 <= d < 6 && cells[j] == #[trigger] cells[i].neighbor(d);
            assert(self.links@[i]@[d] == Some(j as usize));
        }
        if exists|d: int|
            0 <= d < 6 && #[trigger] self.links@[i]@[d] == Some(j as usize) && 0 <= j
                < self@.size() {
            let d = choose|d: int|
                0 <= d < 6 && #[trigger] self.links@[i]@[d] == Some(j as usize) && 0 <= j
                    < self@.size();
            assert(cells[j] == cells[i].neighbor(d));
            lemma_adjacent_is_neighbor(cells[i], cells[j]);
        }
    }

    /// The number of cells.
    pub fn size(&self) -> (n: usize)
        requires
            self.base(),
        ensures
            n == self@.size(),
    {
        self.map.coords.len()
    }

    /// From cell `start`, the least number of steps to every cell that can
    /// be reached over open cells, and nothing for the cells that cannot.
    pub fn spread(&self, start: usize, open: &Vec<bool>) -> (dist: Vec<Option<u32>>)
        requires
            self.base(),
            open@.len() == self@.size(),
            start < self@.size(),
        ensures
            dist@.len() == self@.size(),
            forall|i: int|
                0 <= i < self@.size() ==> match #[trigger] dist@[i] {
                    Some(d) => d < self@.size() && distance_is(
                        self@.cells,
                        open@,
                        start as int,
                        i,
                        d as nat,
                    ),
                    None => !reach(self@.cells, open@, start as int, i),
                },
    {
        let n = self.map.coords.len();
        let ghost cells = self@.cells;
        let ghost from = start as int;
        let mut dist: Vec<Option<u32>> = Vec::new();
        let mut fill: usize = 0;
        while fill < n
            invariant
                fill <= n,
                dist@.len() == fill,
                forall|j: int| 0 <= j < fill ==> dist@[j] is None,
                count_marked(dist@, fill as int) == 0,
            decreases n - fill,
        {
            dist.push(None);
            fill += 1;
            assert(count_marked(dist@, fill as int) == count_marked(dist@, fill - 1) + 0);
            assert(count_marked(dist@, fill - 1) == 0) by {
                lemma_count_marked_prefix(dist@, fill - 1);
            }
        }
        if !open[start] {
            assert forall|i: int| 0 <= i < n implies !reach(cells, open@, from, i) by {
                if reach(cells, open@, from, i) {
                    let k = choose|k: nat| walk(cells, open@, from, i, k);
                    lemma_walk_passable(cells, open@, from, i, k);
                }
            }
            return dist;
        }
        proof {
            lemma_count_marked_update(dist@, n as int, from, 0);
        }
        dist.set(start, Some(0));
        let mut marked: usize = 1;
        let mut level: u32 = 0;
        let mut done = false;
        while !done
            invariant
                self.base(),
                n == self@.size(),
                cells == self@.cells,
                from == start,
                start < n,
                open@.len() == n,
                dist@.len() == n,
                marked == count_marked(dist@, n as int),
                level < marked <= n,
                forall|j: int|
                    0 <= j < n ==> match #[trigger] dist@[j] {
                        Some(d) => d <= level && distance_is(cells, open@, from, j, d as nat),
                        None => !walk(cells, open@, from, j, level as nat),
                    },
                done ==> forall|j: int| #[trigger]
                    walk(cells, open@, from, j, (level + 1) as nat) ==> walk(
                        cells,
                        open@,
                        from,
                        j,
                        level as nat,
                    ),
            decreases n - level + (if done { 0int } else { 1int }),
        {
            let mut grew = false;
            let mut i: usize = 0;
            let ghost marked_before = marked;
            while i < n
                invariant
                    self.base(),
                    n == self@.size(),
                    cells == self@.cells,
                    from == start,
                    open@.len() == n,
                    dist@.len() == n,
                    i <= n,
                    marked == count_marked(dist@, n as int),
                    level < marked_before <= marked <= n,
                    grew ==> marked_before < marked,
                    !grew ==> forall|j: int| 0 <= j < n ==> dist@[j] != Some((level + 1) as u32),
                    forall|j: int|
                        0 <= j < n ==> match #[trigger] dist@[j] {
                            Some(d) => d <= level + 1 && (j >= i ==> d <= level) && distance_is(
                                cells,
                                open@,
                                from,
                                j,
                                d as nat,
                            ),
                            None => !walk(cells, open@, from, j, level as nat) && (j < i ==> !walk(
                                cells,
                                open@,
                                from,
                                j,
                                (level + 1) as nat,
                            )),
                        },
                decreases n - i,
            {
                if dist[i].is_none() {
                    let mut found = false;
                    let ghost mut via: int = 0;
                    if open[i] {
                        let mut d: usize = 0;
                        while d < 6
                            invariant
                                self.base(),
                                n == self@.size(),
                                cells == self@.cells,
                                dist@.len() == n,
                                i < n,
                                d <= 6,
                                found ==> near(cells, via, i as int) && 0 <= via < n && dist@[via]
                                    is Some && dist@[via]->0 <= level,
                                !found ==> forall|e: int|
                                    0 <= e < d ==> match #[trigger] self.links@[i as int]@[e] {
                                        Some(j) => !(dist@[j as int] is Some && dist@[j as int]->0
                                            <= level),
                                        None => true,
                                    },
                            decreases 6 - d,
                        {
                            if !found {
                                if let Some(j) = self.links[i][d] {
                                    if let Some(dj) = dist[j] {
                                        if dj <= level {
                                            found = true;
                                            proof {
                                                via = j as int;
                                                self.lemma_links(i as int, j as int);
                                                super::coord::lemma_adjacent_symmetric(
                                                    cells[i as int],
                                                    cells[j as int],
                                                );
                                            }
                                        }
                                    }
                                }
                            }
                            d += 1;
                        }
                    }
                    if found {
                        proof {
                            lemma_walk_longer(
                                cells,
                                open@,
                                from,
                                via,
                                dist@[via]->0 as nat,
                                level as nat,
                            );
                            lemma_walk_step(cells, open@, from, via, i as int, level as nat);
                            lemma_count_marked_update(dist@, n as int, i as int, (level + 1) as u32);
                            lemma_count_marked_bound(dist@.update(i as int, Some((level + 1) as u32)), n as int);
                        }
                        dist.set(i, Some(level + 1));
                        marked += 1;
                        grew = true;
                    } else {
                        proof {
                            if walk(cells, open@, from, i as int, (level + 1) as nat) {
                                let mid = choose|mid: int| #[trigger]
                                    near(cells, mid, i as int) && walk(
                                        cells,
                                        open@,
                                        from,
                                        mid,
                                        level as nat,
                                    );
                                super::coord::lemma_adjacent_symmetric(cells[mid], cells[i as int]);
                                self.lemma_links(i as int, mid);
                                let e = choose|e: int|
                                    0 <= e < 6 && #[trigger] self.links@[i as int]@[e] == Some(
                                        mid as usize,
                                    ) && 0 <= mid < self@.size();
                                assert(dist@[mid] is Some);
                                assert(false);
                            }
                        }
                    }
                }
                i += 1;
            }
            if grew {
                level += 1;
            } else {
                done = true;
                proof {
                    assert forall|j: int| #[trigger]
                        walk(cells, open@, from, j, (level + 1) as nat) implies walk(
                        cells,
                        open@,
                        from,
                        j,
                        level as nat,
                    ) by {
                        lemma_walk_passable(cells, open@, from, j, (level + 1) as nat);
                        assert(dist@[j] is Some);
                        lemma_walk_longer(cells, open@, from, j, dist@[j]->0 as nat, level as nat);
                    }
                }
            }
        }
        proof {
            assert forall|i: int| 0 <= i < n && dist@[i] is None implies !reach(
                cells,
                open@,
                from,
                i,
            ) by {
                if reach(cells, open@, from, i) {
                    let k = choose|k: nat| walk(cells, open@, from, i, k);
                    lemma_walk_settled(cells, open@, from, i, level as nat, k);
                }
            }
        }
        dist
    }

    pub fn map(&self) -> (map: &TileMap)
        requires
            self.base(),
        ensures
            map.wf(),
            map.cells() == self@.cells,
            map.contents() == self@.tiles,
    {
        &self.map
    }

    /// The number of the cell with this coordinate.
    pub fn index_of(&self, coordinate: Coord) -> (place: Option<usize>)
        requires
            self.base(),
        ensures
            match place {
                Some(i) => i < self@.size() && self@.cells[i as int] == coordinate
                    && self@.has_tile(coordinate) && self@.index_of(coordinate) == i,
                None => !self@.has_tile(coordinate),
            },
    {
        self.map.index_of(&coordinate)
    }

    pub fn coordinate_at(&self, i: usize) -> (c: Coord)
        requires
            self.base(),
            i < self@.size(),
        ensures
            c == self@.cells[i as int],
            self@.has_tile(c),
            self@.index_of(c) == i,
    {
        proof {
            let c = self@.cells[i as int];
            let j = self@.index_of(c);
            if j != i {
                assert(self@.cells[i as int] != self@.cells[j]);
            }
        }
        self.map.coords[i]
    }

    pub fn tile_at_index(&self, i: usize) -> (tile: &Tile)
        requires
            self.base(),
            i < self@.size(),
        ensures
            *tile == self@.tiles[i as int],
    {
        &self.map.tiles[i]
    }

    pub fn region_id_at_index(&self, i: usize) -> (id: Option<ID>)
        requires
            self.base(),
            i < self@.size(),
        ensures
            id == self@.region_of[i as int],
    {
        self.region_of[i]
    }

    /// The cell that lies next to cell `i` in direction `d`, if the map has
    /// one there.
    pub fn link(&self, i: usize, d: usize) -> (next: Option<usize>)
        requires
            self.base(),
            i < self@.size(),
            d < 6,
        ensures
            match next {
                Some(j) => j < self@.size() && self@.cells[j as int] == self@.cells[i as int].neighbor(
                    d as int,
                ) && near(self@.cells, i as int, j as int) && near(self@.cells, j as int, i as int)
                    && self@.has_tile(self@.cells[i as int].neighbor(d as int)) && self@.index_of(
                    self@.cells[i as int].neighbor(d as int),
                ) == j,
                None => !self@.has_tile(self@.cells[i as int].neighbor(d as int)),
            },
    {
        let next = self.links[i][d];
        proof {
            assert(self.links@[i as int]@[d as int] == next);
            if let Some(j) = next {
                let c = self@.cells[i as int].neighbor(d as int);
                assert(self@.cells[j as int] == c);
                let k = self@.index_of(c);
                if k != j {
                    assert(self@.cells[k] != self@.cells[j as int]);
                }
                self.lemma_links(i as int, j as int);
                super::coord::lemma_adjacent_symmetric(
                    self@.cells[i as int],
                    self@.cells[j as int],
                );
            }
        }
        next
    }

    /// Every cell next to cell `i` is found in one of the six directions.
    pub proof fn lemma_near_is_link(&self, i: int, j: int)
        requires
            self.base(),
            near(self@.cells, i, j),
        ensures
            exists|d: int| 0 <= d < 6 && self@.cells[j] == #[trigger] self@.cells[i].neighbor(d),
    {
        lemma_adjacent_is_neighbor(self@.cells[i], self@.cells[j]);
    }

    pub fn tile_at(&self, coordinate: Coord) -> (tile: Option<&Tile>)
        requires
            self.base(),
        ensures
            tile is Some == self@.has_tile(coordinate),
            tile is Some ==> Some(*tile->0) == self@.tile_at(coordinate),
    {
        match self.map.index_of(&coordinate) {
            Some(i) => Some(&self.map.tiles[i]),
            None => None,
        }
    }

    /// Where the region with this identifier is listed.
    pub fn find_region(&self, id: ID) -> (place: Option<usize>)
        requires
            self.base(),
        ensures
            match place {
                Some(h) => h < self@.regions.len() && self@.regions[h as int].id == id
                    && self@.has_region(id),
                None => !self@.has_region(id),
            },
            self@.linked() && place is Some ==> self@.regions[place->0 as int].owner
                == self@.owner_of(id),
    {
        let mut h: usize = 0;
        while h < self.regions.len()
            invariant
                h <= self.regions.len(),
                forall|g: int| 0 <= g < h ==> self.regions@[g].id != id,
            decreases self.regions.len() - h,
        {
            if self.regions[h].id == id {
                proof {
                    if self@.linked() {
                        lemma_place_of(self@.regions, h as int);
                    }
                }
                return Some(h);
            }
            h += 1;
        }
        None
    }

    pub fn has_region(&self, id: ID) -> (found: bool)
        requires
            self.base(),
        ensures
            found == self@.has_region(id),
    {
        self.find_region(id).is_some()
    }

    /// The region of the cell with this coordinate: who it is and whose.
    pub fn region_header_at(&self, coordinate: Coord) -> (header: Option<RegionHeader>)
        requires
            self.wf(),
        ensures
            match header {
                Some(h) => self@.region_id_at(coordinate) == Some(h.id) && self@.has_region(h.id)
                    && h.owner == self@.owner_of(h.id),
                None => self@.region_id_at(coordinate) is None,
            },
    {
        match self.map.index_of(&coordinate) {
            Some(i) => match self.region_of[i] {
                Some(id) => match self.find_region(id) {
                    Some(h) => Some(self.regions[h]),
                    None => {
                        assert(false);
                        None
                    },
                },
                None => None,
            },
            None => None,
        }
    }

    /// The headers of all regions, in the order in which they were made.
    pub fn region_headers(&self) -> (headers: &Vec<RegionHeader>)
        requires
            self.base(),
        ensures
            headers@ == self@.regions,
    {
        &self.regions
    }

    /// For each cell, whether it belongs to region `id`.
    pub fn mask_of(&self, id: ID) -> (mask: Vec<bool>)
        requires
            self.base(),
        ensures
            mask@ == self@.members(id),
    {
        let n = self.region_of.len();
        let mut mask: Vec<bool> = Vec::new();
        let mut i: usize = 0;
        while i < n
            invariant
                n == self.region_of@.len(),
                i <= n,
                mask@.len() == i,
                forall|j: int| 0 <= j < i ==> mask@[j] == (self.region_of@[j] == Some(id)),
            decreases n - i,
        {
            let inside = match self.region_of[i] {
                Some(r) => r == id,
                None => false,
            };
            mask.push(inside);
            i += 1;
        }
        assert(mask@ =~= self@.members(id));
        mask
    }

    /// The number of cells of region `id`.
    pub fn region_size(&self, id: ID) -> (size: usize)
        requires
            self.base(),
        ensures
            size == self@.region_size(id),
    {
        let n = self.region_of.len();
        let mut size: usize = 0;
        let mut i: usize = 0;
        while i < n
            invariant
                n == self.region_of@.len(),
                i <= n,
                size == count_set(region_mask(self.region_of@, id), i as int),
                size <= i,
            decreases n - i,
        {
            let inside = match self.region_of[i] {
                Some(r) => r == id,
                None => false,
            };
            if inside {
                size += 1;
            }
            i += 1;
        }
        size
    }

    /// The first cell of region `id` in the order of the map.
    pub fn first_cell_of(&self, id: ID) -> (first: Option<usize>)
        requires
            self.base(),
        ensures
            match first {
                Some(i) => self@.in_region(i as int, id) && forall|j: int|
                    0 <= j < i ==> !self@.in_region(j, id),
                None => forall|j: int| !self@.in_region(j, id),
            },
    {
        let n = self.region_of.len();
        let mut i: usize = 0;
        while i < n
            invariant
                n == self.region_of@.len(),
                i <= n,
                forall|j: int| 0 <= j < i ==> self.region_of@[j] != Some(id),
            decreases n - i,
        {
            let inside = match self.region_of[i] {
                Some(r) => r == id,
                None => false,
            };
            if inside {
                return Some(i);
            }
            i += 1;
        }
        None
    }

    /// Whether the cells of region `id` are in one piece.
    pub fn is_contiguous(&self, id: ID) -> (whole: bool)
        requires
            self.base(),
        ensures
            whole == self@.contiguous(id),
    {
        let ghost cells = self@.cells;
        let ghost region_of = self@.region_of;
        match self.first_cell_of(id) {
            None => {
                assert forall|a: int, b: int|
                    0 <= a < region_of.len() && 0 <= b < region_of.len() && region_of[a] == Some(
                        id,
                    ) && region_of[b] == Some(id) implies #[trigger] reach(
                    cells,
                    region_mask(region_of, id),
                    a,
                    b,
                ) by {
                    assert(self@.in_region(a, id));
                }
                true
            },
            Some(root) => {
                let mask = self.mask_of(id);
                let dist = self.spread(root, &mask);
                let n = self.region_of.len();
                let mut i: usize = 0;
                while i < n
                    invariant
                        self.base(),
                        n == self@.size(),
                        i <= n,
                        mask@ == region_mask(self@.region_of, id),
                        dist@.len() == n,
                        cells == self@.cells,
                        region_of == self@.region_of,
                        root < n,
                        region_of[root as int] == Some(id),
                        forall|j: int|
                            0 <= j < n ==> match #[trigger] dist@[j] {
                                Some(d) => distance_is(cells, mask@, root as int, j, d as nat),
                                None => !reach(cells, mask@, root as int, j),
                            },
                        forall|j: int| 0 <= j < i && region_of[j] == Some(id) ==> dist@[j] is Some,
                    decreases n - i,
                {
                    if mask[i] && dist[i].is_none() {
                        assert(!reach(cells, region_mask(region_of, id), root as int, i as int));
                        return false;
                    }
                    i += 1;
                }
                proof {
                    assert forall|a: int, b: int|
                        0 <= a < region_of.len() && 0 <= b < region_of.len() && region_of[a]
                            == Some(id) && region_of[b] == Some(id) implies #[trigger] reach(
                        cells,
                        region_mask(region_of, id),
                        a,
                        b,
                    ) by {
                        assert(dist@[a] is Some);
                        assert(dist@[b] is Some);
                        assert(reach(cells, mask@, root as int, a));
                        assert(reach(cells, mask@, root as int, b));
                        lemma_reach_back(cells, mask@, root as int, a);
                        lemma_reach_join(cells, mask@, a, root as int, b);
                    }
                }
                true
            },
        }
    }

    /// Checks that the location is sound. The first region in the order of
    /// the list that is not in one piece is reported as split. If there is
    /// none, the first cell in the order of the map that touches a region of
    /// its own region's owner is reported, with the first such neighbour in
    /// the order of the directions.
    pub fn validate(location: &Self) -> (res: Result<(), LocationValidationError>)
        requires
            location.wf(),
        ensures
            match res {
                Ok(()) => location@.all_contiguous() && location@.no_friendly_borders(),
                Err(e) => unsound(location@, e),
            },
    {
        let ghost view = location@;
        let mut h: usize = 0;
        while h < location.regions.len()
            invariant
                location.wf(),
                h <= location.regions.len(),
                forall|g: int| 0 <= g < h ==> location@.contiguous((#[trigger] location@.regions[g]).id),
            decreases location.regions.len() - h,
        {
            let id = location.regions[h].id;
            if !location.is_contiguous(id) {
                return Err(LocationValidationError::SplitRegions(id));
            }
            h += 1;
        }
        let n = location.region_of.len();
        let mut i: usize = 0;
        while i < n
            invariant
                location.wf(),
                n == location@.size(),
                i <= n,
                location@.all_contiguous(),
                forall|k: int, l: int|
                    0 <= k < i ==> !#[trigger] friendly(
                        location@.cells,
                        location@.region_of,
                        location@.regions,
                        k,
                        l,
                    ),
            decreases n - i,
        {
            if let Some(a) = location.region_of[i] {
                let mut d: usize = 0;
                while d < 6
                    invariant
                        location.wf(),
                        n == location@.size(),
                        i < n,
                        d <= 6,
                        location@.region_of[i as int] == Some(a),
                        location@.all_contiguous(),
                        forall|k: int, l: int|
                            0 <= k < i ==> !#[trigger] friendly(
                                location@.cells,
                                location@.region_of,
                                location@.regions,
                                k,
                                l,
                            ),
                        forall|e: int|
                            0 <= e < d ==> match #[trigger] location.links@[i as int]@[e] {
                                Some(j) => !friendly(
                                    location@.cells,
                                    location@.region_of,
                                    location@.regions,
                                    i as int,
                                    j as int,
                                ),
                                None => true,
                            },
                    decreases 6 - d,
                {
                    if let Some(j) = location.link(i, d) {
                        assert(location.links@[i as int]@[d as int] == Some(j));
                        if let Some(b) = location.region_of[j] {
                            if a != b {
                                let oa = location.find_region(a);
                                let ob = location.find_region(b);
                                assert(oa is Some && ob is Some);
                                if location.regions[oa.unwrap()].owner.id == location.regions[ob.unwrap()].owner.id {
                                    assert(friendly(
                                        location@.cells,
                                        location@.region_of,
                                        location@.regions,
                                        i as int,
                                        j as int,
                                    ));
                                    if a < b {
                                        return Err(
                                            LocationValidationError::SameOwnerBorderingRegions(a, b),
                                        );
                                    } else {
                                        return Err(
                                            LocationValidationError::SameOwnerBorderingRegions(b, a),
                                        );
                                    }
                                }
                            }
                        }
                    } else {
                        assert(location.links@[i as int]@[d as int] is None);
                    }
                    d += 1;
                }
                proof {
                    assert forall|l: int|
                        !#[trigger] friendly(
                            location@.cells,
                            location@.region_of,
                            location@.regions,
                            i as int,
                            l,
                        ) by {
                        if friendly(
                            location@.cells,
                            location@.region_of,
                            location@.regions,
                            i as int,
                            l,
                        ) {
                            location.lemma_links(i as int, l);
                        }
                    }
                }
            }
            i += 1;
        }
        proof {
            assert forall|k: int, l: int|
                !#[trigger] friendly(
                    location@.cells,
                    location@.region_of,
                    location@.regions,
                    k,
                    l,
                ) by {
                if friendly(location@.cells, location@.region_of, location@.regions, k, l) {
                    assert(0 <= k < n);
                }
            }
        }
        Ok(())
    }

    /// Puts a unit, or none, on cell `i`.
    pub fn put(&mut self, i: usize, unit: Option<Unit>)
        requires
            old(self).base(),
            i < old(self)@.size(),
        ensures
            final(self).base(),
            final(self)@ == old(self)@.with_unit(i as int, unit),
    {
        let tile = self.map.tiles[i];
        self.map.tiles.set(i, Tile { id: tile.id, surface: tile.surface, unit });
    }

    /// Takes the unit from the tile with this coordinate and hands it back.
    pub fn remove_unit(&mut self, coordinate: Coord) -> (res: Result<
        Option<Unit>,
        LocationModificationError,
    >)
        requires
            old(self).base(),
        ensures
            final(self).base(),
            match res {
                Ok(unit) => old(self)@.has_tile(coordinate) && unit == old(self)@.unit_at(
                    coordinate,
                ) && final(self)@ == old(self)@.with_unit(old(self)@.index_of(coordinate), None),
                Err(e) => e == LocationModificationError::CoordinateOutOfLocation(coordinate)
                    && !old(self)@.has_tile(coordinate) && final(self)@ == old(self)@,
            },
    {
        match self.map.index_of(&coordinate) {
            Some(i) => {
                let unit = self.map.tiles[i].unit;
                self.put(i, None);
                Ok(unit)
            },
            None => Err(LocationModificationError::CoordinateOutOfLocation(coordinate)),
        }
    }

    /// Puts a unit on the tile with this coordinate, in place of the one that
    /// stood there.
    pub fn place_unit(&mut self, unit: Unit, dst: Coord) -> (res: Result<
        (),
        LocationModificationError,
    >)
        requires
            old(self).base(),
        ensures
            final(self).base(),
            match res {
                Ok(()) => old(self)@.has_tile(dst) && final(self)@ == old(self)@.with_unit(
                    old(self)@.index_of(dst),
                    Some(unit),
                ),
                Err(e) => e == LocationModificationError::CoordinateOutOfLocation(dst) && !old(self)@.has_tile(dst) && final(self)@ == old(self)@,
            },
    {
        match self.map.index_of(&dst) {
            Some(i) => {
                self.put(i, Some(unit));
                Ok(())
            },
            None => Err(LocationModificationError::CoordinateOutOfLocation(dst)),
        }
    }

    /// Moves the unit of one tile to another, in place of the one that stood
    /// there. Nothing changes when the move is refused.
    pub fn move_unit(&mut self, from: Coord, to: Coord) -> (res: Result<
        (),
        LocationModificationError,
    >)
        requires
            old(self).base(),
        ensures
            final(self).base(),
            match res {
                Ok(()) => {
                    &&& old(self)@.has_tile(from)
                    &&& old(self)@.has_tile(to)
                    &&& old(self)@.unit_at(from) is Some
                    &&& final(self)@ == old(self)@.with_unit(
                        old(self)@.index_of(from),
                        None,
                    ).with_unit(old(self)@.index_of(to), old(self)@.unit_at(from))
                },
                Err(e) => {
                    &&& final(self)@ == old(self)@
                    &&& e == if !old(self)@.has_tile(to) {
                        LocationModificationError::CoordinateOutOfLocation(to)
                    } else if !old(self)@.has_tile(from) {
                        LocationModificationError::CoordinateOutOfLocation(from)
                    } else {
                        LocationModificationError::NoUnitAtCoordinate(from)
                    }
                    &&& !old(self)@.has_tile(to) || !old(self)@.has_tile(from) || old(self)@.unit_at(from) is None
                },
            },
    {
        let dst = match self.map.index_of(&to) {
            Some(i) => i,
            None => {
                return Err(LocationModificationError::CoordinateOutOfLocation(to));
            },
        };
        let src = match self.map.index_of(&from) {
            Some(i) => i,
            None => {
                return Err(LocationModificationError::CoordinateOutOfLocation(from));
            },
        };
        match self.map.tiles[src].unit {
            Some(unit) => {
                self.put(src, None);
                self.put(dst, Some(unit));
                Ok(())
            },
            None => Err(LocationModificationError::NoUnitAtCoordinate(from)),
        }
    }

    /// Writes region `region` into the memberships: its cells, all of which
    /// the map has, belong to it from now on.
    fn stamp(map: &TileMap, region_of: &mut Vec<Option<ID>>, region: &Region)
        requires
            map.wf(),
            region.wf(),
            old(region_of)@.len() == map.cells().len(),
            forall|c: Coord| region.cells()@.contains(c) ==> map.has(c),
        ensures
            final(region_of)@.len() == map.cells().len(),
            forall|i: int|
                0 <= i < map.cells().len() ==> #[trigger] final(region_of)@[i] == if region.cells()@.contains(
                    map.cells()[i],
                ) {
                    Some(region.header().id)
                } else {
                    old(region_of)@[i]
                },
    {
        let set = region.coordinates();
        let m = set.len();
        let id = region.id();
        let ghost before = region_of@;
        proof {
            set.lemma_ordered();
        }
        let mut k: usize = 0;
        while k < m
            invariant
                map.wf(),
                set.wf(),
                *set == region.cells(),
                m == set.ordered().len(),
                set.ordered().to_set() == set@,
                k <= m,
                id == region.header().id,
                region_of@.len() == map.cells().len(),
                before.len() == map.cells().len(),
                forall|c: Coord| region.cells()@.contains(c) ==> map.has(c),
                forall|i: int|
                    0 <= i < map.cells().len() ==> #[trigger] region_of@[i] == if exists|j: int|
                        0 <= j < k && set.ordered()[j] == map.cells()[i] {
                        Some(id)
                    } else {
                        before[i]
                    },
            decreases m - k,
        {
            let c = set.get(k);
            let ghost prev = region_of@;
            match map.index_of(&c) {
                Some(i) => {
                    region_of.set(i, Some(id));
                    proof {
                        assert forall|x: int| 0 <= x < map.cells().len() implies #[trigger] region_of@[x]
                            == if exists|j: int|
                            0 <= j < k + 1 && set.ordered()[j] == map.cells()[x] {
                            Some(id)
                        } else {
                            before[x]
                        } by {
                            if x == i {
                                assert(set.ordered()[k as int] == map.cells()[x]);
                            } else {
                                assert(map.cells()[x] != map.cells()[i as int]);
                                if exists|j: int|
                                    0 <= j < k + 1 && set.ordered()[j] == map.cells()[x] {
                                    let j = choose|j: int|
                                        0 <= j < k + 1 && set.ordered()[j] == map.cells()[x];
                                    assert(j < k);
                                }
                            }
                        }
                    }
                },
                None => {
                    assert(set@.contains(c));
                    assert(false);
                },
            }
            k += 1;
        }
        proof {
            assert forall|i: int| 0 <= i < map.cells().len() implies #[trigger] region_of@[i]
                == if region.cells()@.contains(map.cells()[i]) {
                Some(region.header().id)
            } else {
                before[i]
            } by {
                let c = map.cells()[i];
                if region.cells()@.contains(c) {
                    assert(set.ordered().to_set().contains(c));
                    assert(set.ordered().contains(c));
                    let j = choose|j: int| 0 <= j < set.ordered().len() && set.ordered()[j] == c;
                    assert(0 <= j < k && set.ordered()[j] == map.cells()[i]);
                } else {
                    if exists|j: int| 0 <= j < k && set.ordered()[j] == map.cells()[i] {
                        let j = choose|j: int| 0 <= j < k && set.ordered()[j] == map.cells()[i];
                        assert(set.ordered().contains(c));
                        assert(set.ordered().to_set().contains(c));
                    }
                }
            }
        }
    }

    /// For each cell of the map and each direction, the cell that lies there.
    fn build_links(map: &TileMap) -> (links: Vec<Vec<Option<usize>>>)
        requires
            map.wf(),
        ensures
            links@.len() == map.cells().len(),
            forall|i: int| 0 <= i < links@.len() ==> (#[trigger] links@[i])@.len() == 6,
            forall|i: int, d: int|
                0 <= i < links@.len() && 0 <= d < 6 ==> match (#[trigger] links@[i]@[d]) {
                    Some(j) => j < map.cells().len() && map.cells()[j as int]
                        == map.cells()[i].neighbor(d),
                    None => forall|j: int|
                        0 <= j < map.cells().len() ==> map.cells()[j] != map.cells()[i].neighbor(d),
                },
    {
        let n = map.coords.len();
        let mut links: Vec<Vec<Option<usize>>> = Vec::new();
        let mut i: usize = 0;
        while i < n
            invariant
                map.wf(),
                n == map.cells().len(),
                i <= n,
                links@.len() == i,
                forall|x: int| 0 <= x < i ==> (#[trigger] links@[x])@.len() == 6,
                forall|x: int, d: int|
                    0 <= x < i && 0 <= d < 6 ==> match (#[trigger] links@[x]@[d]) {
                        Some(j) => j < map.cells().len() && map.cells()[j as int]
                            == map.cells()[x].neighbor(d),
                        None => forall|j: int|
                            0 <= j < map.cells().len() ==> map.cells()[j] != map.cells()[x].neighbor(
                                d,
                            ),
                    },
            decreases n - i,
        {
            let here = map.coords[i];
            let ring = here.neighbors();
            let mut row: Vec<Option<usize>> = Vec::new();
            let mut d: usize = 0;
            while d < 6
                invariant
                    map.wf(),
                    n == map.cells().len(),
                    i < n,
                    here == map.cells()[i as int],
                    d <= 6,
                    row@.len() == d,
                    forall|e: int| 0 <= e < 6 ==> ring[e] == #[trigger] here.neighbor(e),
                    forall|e: int|
                        0 <= e < d ==> match (#[trigger] row@[e]) {
                            Some(j) => j < map.cells().len() && map.cells()[j as int]
                                == here.neighbor(e),
                            None => forall|j: int|
                                0 <= j < map.cells().len() ==> map.cells()[j] != here.neighbor(e),
                        },
                decreases 6 - d,
            {
                let next = ring[d];
                assert(next == here.neighbor(d as int));
                let place = map.index_of(&next);
                row.push(place);
                d += 1;
            }
            links.push(row);
            i += 1;
        }
        links
    }

    /// The identifier of the first region of the list that an earlier region
    /// has too.
    fn first_duplicate(regions_vec: &Vec<Region>) -> (found: Option<ID>)
        ensures
            match found {
                Some(id) => exists|g: int, h: int|
                    0 <= g < h < regions_vec@.len() && (#[trigger] regions_vec@[g]).header().id
                        == id && (#[trigger] regions_vec@[h]).header().id == id,
                None => unique_ids(regions_vec@),
            },
    {
        let rn = regions_vec.len();
        let ghost regions = regions_vec@;
        let mut h: usize = 0;
        while h < rn
            invariant
                rn == regions.len(),
                regions == regions_vec@,
                h <= rn,
                forall|a: int, b: int|
                    0 <= a < b < h ==> (#[trigger] regions[a]).header().id != (
                    #[trigger] regions[b]).header().id,
            decreases rn - h,
        {
            let mut g: usize = 0;
            while g < h
                invariant
                    rn == regions.len(),
                    regions == regions_vec@,
                    g <= h < rn,
                    forall|a: int|
                        0 <= a < g ==> (#[trigger] regions[a]).header().id != regions[h as int].header().id,
                decreases h - g,
            {
                if regions_vec[g].id() == regions_vec[h].id() {
                    return Some(regions_vec[h].id());
                }
                g += 1;
            }
            h += 1;
        }
        None
    }

    /// The first coordinate, in the order of the list and of each region,
    /// that an earlier region names too.
    fn first_intersection(regions_vec: &Vec<Region>) -> (found: Option<Coord>)
        requires
            unique_ids(regions_vec@),
            forall|h: int| 0 <= h < regions_vec@.len() ==> (#[trigger] regions_vec@[h]).wf(),
        ensures
            match found {
                Some(c) => exists|g: int, h: int|
                    0 <= g < h < regions_vec@.len() && (#[trigger] regions_vec@[g]).cells()@.contains(
                        c,
                    ) && (#[trigger] regions_vec@[h]).cells()@.contains(c),
                None => disjoint_regions(regions_vec@),
            },
    {
        let rn = regions_vec.len();
        let ghost regions = regions_vec@;
        let mut h: usize = 0;
        while h < rn
            invariant
                rn == regions.len(),
                regions == regions_vec@,
                h <= rn,
                unique_ids(regions),
                forall|r: int| 0 <= r < regions.len() ==> (#[trigger] regions[r]).wf(),
                forall|a: int, b: int, c: Coord|
                    0 <= a < b < h && #[trigger] claims(regions, a, c) ==> !#[trigger] claims(
                        regions,
                        b,
                        c,
                    ),
            decreases rn - h,
        {
            let set = regions_vec[h].coordinates();
            let m = set.len();
            proof {
                set.lemma_ordered();
            }
            let mut k: usize = 0;
            while k < m
                invariant
                    rn == regions.len(),
                    regions == regions_vec@,
                    h < rn,
                    unique_ids(regions),
                    *set == regions[h as int].cells(),
                    set.wf(),
                    m == set.ordered().len(),
                    k <= m,
                    forall|j: int, a: int|
                        0 <= j < k && 0 <= a < h ==> !#[trigger] claims(
                            regions,
                            a,
                            #[trigger] set.ordered()[j],
                        ),
                decreases m - k,
            {
                let c = set.get(k);
                let mut g: usize = 0;
                while g < h
                    invariant
                        rn == regions.len(),
                        regions == regions_vec@,
                        g <= h < rn,
                        unique_ids(regions),
                        set@.contains(c),
                        *set == regions[h as int].cells(),
                        forall|a: int| 0 <= a < g ==> !#[trigger] claims(regions, a, c),
                    decreases h - g,
                {
                    if regions_vec[g].coordinates().contains(&c) {
                        assert(regions_vec@[g as int].cells()@.contains(c));
                        assert(regions_vec@[h as int].cells()@.contains(c));
                        return Some(c);
                    }
                    g += 1;
                }
                k += 1;
            }
            proof {
                assert forall|a: int, b: int, c: Coord|
                    0 <= a < b < h + 1 && #[trigger] claims(regions, a, c) implies !#[trigger] claims(
                    regions,
                    b,
                    c,
                ) by {
                    if b == h && claims(regions, b, c) {
                        assert(set.ordered().to_set().contains(c));
                        assert(set.ordered().contains(c));
                        let j = choose|j: int| 0 <= j < set.ordered().len() && set.ordered()[j] == c;
                        assert(!claims(regions, a, set.ordered()[j]));
                    }
                }
            }
            h += 1;
        }
        proof {
            assert(disjoint_regions(regions)) by {
                assert forall|a: int, b: int, c: Coord|
                    a != b && #[trigger] claims(regions, a, c) implies !#[trigger] claims(
                    regions,
                    b,
                    c,
                ) by {
                    if claims(regions, b, c) {
                        if a < b {
                            assert(!claims(regions, b, c));
                        } else {
                            assert(!claims(regions, a, c));
                        }
                    }
                }
            }
        }
        None
    }

    /// The first region of the list that names a coordinate which the map
    /// lacks.
    fn first_off_map(map: &TileMap, regions_vec: &Vec<Region>) -> (found: Option<ID>)
        requires
            map.wf(),
            unique_ids(regions_vec@),
            disjoint_regions(regions_vec@),
            forall|h: int| 0 <= h < regions_vec@.len() ==> (#[trigger] regions_vec@[h]).wf(),
        ensures
            match found {
                Some(id) => !on_map(*map, regions_vec@) && exists|h: int, c: Coord|
                    #[trigger] claims(regions_vec@, h, c) && !map.has(c)
                        && regions_vec@[h].header().id == id,
                None => on_map(*map, regions_vec@),
            },
    {
        let rn = regions_vec.len();
        let ghost regions = regions_vec@;
        let mut h: usize = 0;
        while h < rn
            invariant
                map.wf(),
                rn == regions.len(),
                regions == regions_vec@,
                h <= rn,
                unique_ids(regions),
                disjoint_regions(regions),
                forall|r: int| 0 <= r < regions.len() ==> (#[trigger] regions[r]).wf(),
                forall|a: int, c: Coord| 0 <= a < h && #[trigger] claims(regions, a, c) ==> map.has(c),
            decreases rn - h,
        {
            let set = regions_vec[h].coordinates();
            let m = set.len();
            proof {
                set.lemma_ordered();
            }
            let mut k: usize = 0;
            while k < m
                invariant
                    map.wf(),
                    rn == regions.len(),
                    regions == regions_vec@,
                    h < rn,
                    unique_ids(regions),
                    disjoint_regions(regions),
                    *set == regions[h as int].cells(),
                    set.wf(),
                    m == set.ordered().len(),
                    k <= m,
                    forall|j: int| 0 <= j < k ==> map.has(#[trigger] set.ordered()[j]),
                decreases m - k,
            {
                let c = set.get(k);
                if map.index_of(&c).is_none() {
                    assert(claims(regions, h as int, c));
                    assert(!on_map(*map, regions));
                    return Some(regions_vec[h].id());
                }
                k += 1;
            }
            proof {
                assert forall|a: int, c: Coord|
                    0 <= a < h + 1 && #[trigger] claims(regions, a, c) implies map.has(c) by {
                    if a == h {
                        assert(set.ordered().to_set().contains(c));
                        assert(set.ordered().contains(c));
                        let j = choose|j: int| 0 <= j < set.ordered().len() && set.ordered()[j] == c;
                        assert(map.has(set.ordered()[j]));
                    }
                }
            }
            h += 1;
        }
        None
    }

    /// The location that the map and the regions describe.
    fn assemble(map: TileMap, regions_vec: &Vec<Region>) -> (location: Self)
        requires
            map.wf(),
            unique_ids(regions_vec@),
            disjoint_regions(regions_vec@),
            on_map(map, regions_vec@),
            forall|h: int| 0 <= h < regions_vec@.len() ==> (#[trigger] regions_vec@[h]).wf(),
        ensures
            location@ == assembled(map, regions_vec@),
            location.wf(),
    {
        let rn = regions_vec.len();
        let ghost regions = regions_vec@;
        let links = Self::build_links(&map);
        let n = map.coords.len();
        let mut region_of: Vec<Option<ID>> = Vec::new();
        let mut fill: usize = 0;
        while fill < n
            invariant
                fill <= n,
                region_of@.len() == fill,
                forall|i: int| 0 <= i < fill ==> region_of@[i] is None,
            decreases n - fill,
        {
            region_of.push(None);
            fill += 1;
        }
        let mut headers: Vec<RegionHeader> = Vec::new();
        let mut h: usize = 0;
        while h < rn
            invariant
                map.wf(),
                n == map.cells().len(),
                rn == regions.len(),
                regions == regions_vec@,
                h <= rn,
                unique_ids(regions),
                disjoint_regions(regions),
                on_map(map, regions),
                forall|r: int| 0 <= r < regions.len() ==> (#[trigger] regions[r]).wf(),
                region_of@.len() == n,
                headers@.len() == h,
                forall|a: int| 0 <= a < h ==> #[trigger] headers@[a] == regions[a].header(),
                forall|i: int, a: int|
                    0 <= i < n && 0 <= a < h && #[trigger] claims(regions, a, map.cells()[i])
                        ==> region_of@[i] == Some(regions[a].header().id),
                forall|i: int|
                    0 <= i < n && (#[trigger] region_of@[i]) is Some ==> exists|a: int|
                        0 <= a < h && #[trigger] claims(regions, a, map.cells()[i]),
            decreases rn - h,
        {
            let ghost prev = region_of@;
            proof {
                assert forall|c: Coord| regions[h as int].cells()@.contains(c) implies map.has(c) by {
                    assert(claims(regions, h as int, c));
                }
            }
            Self::stamp(&map, &mut region_of, &regions_vec[h]);
            headers.push(RegionHeader { id: regions_vec[h].id(), owner: *regions_vec[h].owner() });
            proof {
                assert forall|i: int, a: int|
                    0 <= i < n && 0 <= a < h + 1 && #[trigger] claims(
                        regions,
                        a,
                        map.cells()[i],
                    ) implies region_of@[i] == Some(regions[a].header().id) by {
                    if a < h {
                        assert(!claims(regions, h as int, map.cells()[i]));
                        assert(region_of@[i] == prev[i]);
                    } else {
                        assert(region_of@[i] == Some(regions[h as int].header().id));
                    }
                }
                assert forall|i: int| 0 <= i < n && (#[trigger] region_of@[i]) is Some implies exists|
                    a: int,
                |
                    0 <= a < h + 1 && #[trigger] claims(regions, a, map.cells()[i]) by {
                    if regions[h as int].cells()@.contains(map.cells()[i]) {
                        assert(claims(regions, h as int, map.cells()[i]));
                    } else {
                        assert(region_of@[i] == prev[i]);
                        let a = choose|a: int|
                            0 <= a < h && #[trigger] claims(regions, a, map.cells()[i]);
                        assert(claims(regions, a, map.cells()[i]));
                    }
                }
            }
            h += 1;
        }
        let location = Location { map, links, region_of, regions: headers };
        assert(location@.shaped());
        assert(location.linked_up());
        proof {
            let view = location@;
            let goal = assembled(location.map, regions);
            assert(view.region_of =~= goal.region_of) by {
                assert forall|i: int| 0 <= i < n implies view.region_of[i] == goal.region_of[i] by {
                    let c = view.cells[i];
                    if exists|a: int| #[trigger] claims(regions, a, c) {
                        let a = choose|a: int| #[trigger] claims(regions, a, c);
                        assert(claims(regions, a, view.cells[i]));
                    } else {
                        if view.region_of[i] is Some {
                            let a = choose|a: int|
                                0 <= a < rn && #[trigger] claims(regions, a, view.cells[i]);
                            assert(claims(regions, a, c));
                        }
                    }
                }
            }
            assert(view.regions =~= goal.regions);
            assert(view == goal);
            assert(distinct_ids(view.regions)) by {
                assert forall|a: int, b: int|
                    0 <= a < view.regions.len() && 0 <= b < view.regions.len() && a
                        != b implies (#[trigger] view.regions[a]).id != (
                #[trigger] view.regions[b]).id by {
                    if a < b {
                        assert(regions[a].header().id != regions[b].header().id);
                    } else {
                        assert(regions[b].header().id != regions[a].header().id);
                    }
                }
            }
            assert forall|i: int|
                0 <= i < view.region_of.len() && (#[trigger] view.region_of[i]) is Some implies listed(
                view.regions,
                view.region_of[i]->0,
            ) by {
                let a = choose|a: int| 0 <= a < rn && #[trigger] claims(regions, a, view.cells[i]);
                assert(view.regions[a].id == view.region_of[i]->0);
            }
            assert forall|a: int| 0 <= a < view.regions.len() implies populated(
                view.region_of,
                (#[trigger] view.regions[a]).id,
            ) by {
                let set = regions[a].cells();
                set.lemma_ordered();
                let c = set.ordered()[0];
                assert(set.ordered().contains(c));
                assert(set.ordered().to_set().contains(c));
                assert(claims(regions, a, c));
                let i = location.map.slot(c);
                assert(claims(regions, a, view.cells[i]));
                assert(holds(view.region_of, i, view.regions[a].id));
            }
            assert(view.linked());
            assert(view.inhabited());
        }
        location
    }

    /// Makes a location of a map and a list of regions, and checks it.
    ///
    /// The checks come in this order. Two regions with one identifier: the
    /// later one is reported. A coordinate in two regions: it is reported. A
    /// region with a coordinate that the map lacks counts as split. After
    /// that the location is checked as `validate` does.
    pub fn new(map: TileMap, regions_vec: Vec<Region>) -> (res: Result<
        Self,
        LocationValidationError,
    >)
        requires
            map.wf(),
            forall|h: int| 0 <= h < regions_vec@.len() ==> (#[trigger] regions_vec@[h]).wf(),
        ensures
            match res {
                Ok(location) => {
                    &&& unique_ids(regions_vec@)
                    &&& disjoint_regions(regions_vec@)
                    &&& on_map(map, regions_vec@)
                    &&& location@ == assembled(map, regions_vec@)
                    &&& location.valid()
                },
                Err(LocationValidationError::DuplicateRegionId(id)) => exists|g: int, h: int|
                    0 <= g < h < regions_vec@.len() && (#[trigger] regions_vec@[g]).header().id
                        == id && (#[trigger] regions_vec@[h]).header().id == id,
                Err(LocationValidationError::IntersectingRegions(c)) => unique_ids(regions_vec@)
                    && exists|g: int, h: int|
                    0 <= g < h < regions_vec@.len() && (#[trigger] regions_vec@[g]).cells()@.contains(
                        c,
                    ) && (#[trigger] regions_vec@[h]).cells()@.contains(c),
                Err(LocationValidationError::SplitRegions(id)) => {
                    &&& unique_ids(regions_vec@)
                    &&& disjoint_regions(regions_vec@)
                    &&& if on_map(map, regions_vec@) {
                        assembled(map, regions_vec@).has_region(id) && !assembled(
                            map,
                            regions_vec@,
                        ).contiguous(id)
                    } else {
                        exists|h: int, c: Coord|
                            #[trigger] claims(regions_vec@, h, c) && !map.has(c)
                                && regions_vec@[h].header().id == id
                    }
                },
                Err(LocationValidationError::SameOwnerBorderingRegions(a, b)) => {
                    &&& unique_ids(regions_vec@)
                    &&& disjoint_regions(regions_vec@)
                    &&& on_map(map, regions_vec@)
                    &&& assembled(map, regions_vec@).all_contiguous()
                    &&& !assembled(map, regions_vec@).no_friendly_borders()
                    &&& a < b
                    &&& assembled(map, regions_vec@).has_region(a)
                    &&& assembled(map, regions_vec@).has_region(b)
                },
            },
    {
        if let Some(id) = Self::first_duplicate(&regions_vec) {
            return Err(LocationValidationError::DuplicateRegionId(id));
        }
        if let Some(c) = Self::first_intersection(&regions_vec) {
            return Err(LocationValidationError::IntersectingRegions(c));
        }
        if let Some(id) = Self::first_off_map(&map, &regions_vec) {
            return Err(LocationValidationError::SplitRegions(id));
        }
        let location = Self::assemble(map, &regions_vec);
        match Self::validate(&location) {
            Ok(()) => Ok(location),
            Err(LocationValidationError::SplitRegions(id)) => Err(
                LocationValidationError::SplitRegions(id),
            ),
            Err(LocationValidationError::SameOwnerBorderingRegions(a, b)) => {
                proof {
                    let v = location@;
                    assert(unsound(v, LocationValidationError::SameOwnerBorderingRegions(a, b)));
                    let (i, j) = choose|i: int, j: int|
                        {
                            &&& #[trigger] friendly(v.cells, v.region_of, v.regions, i, j)
                            &&& (v.region_of[i] == Some(a) && v.region_of[j] == Some(b)
                                || v.region_of[i] == Some(b) && v.region_of[j] == Some(a))
                            &&& forall|k: int, l: int|
                                0 <= k < i ==> !#[trigger] friendly(
                                    v.cells,
                                    v.region_of,
                                    v.regions,
                                    k,
                                    l,
                                )
                        };
                    assert(friendly(v.cells, v.region_of, v.regions, i, j));
                }
                Err(LocationValidationError::SameOwnerBorderingRegions(a, b))
            },
            Err(e) => {
                assert(false);
                Err(e)
            },
        }
    }

    /// Makes cell `i` a cell of region `id`, or of none.
    fn set_region(&mut self, i: usize, id: Option<ID>)
        requires
            old(self).base(),
            i < old(self)@.size(),
        ensures
            final(self).base(),
            final(self)@ == (LocationView {
                region_of: old(self)@.region_of.update(i as int, id),
                ..old(self)@
            }),
    {
        self.region_of.set(i, id);
    }

    /// Makes every marked cell a cell of region `id`.
    fn relabel(&mut self, marks: &Vec<Option<u32>>, id: ID)
        requires
            old(self).base(),
            marks@.len() == old(self)@.size(),
        ensures
            final(self).base(),
            final(self)@.cells == old(self)@.cells,
            final(self)@.tiles == old(self)@.tiles,
            final(self)@.regions == old(self)@.regions,
            final(self)@.region_of.len() == old(self)@.region_of.len(),
            forall|x: int|
                0 <= x < old(self)@.size() ==> #[trigger] final(self)@.region_of[x] == if marks@[x]
                    is Some {
                    Some(id)
                } else {
                    old(self)@.region_of[x]
                },
    {
        let n = self.region_of.len();
        let mut i: usize = 0;
        while i < n
            invariant
                self.base(),
                n == self@.size(),
                marks@.len() == n,
                i <= n,
                self@.cells == old(self)@.cells,
                self@.tiles == old(self)@.tiles,
                self@.regions == old(self)@.regions,
                self@.region_of.len() == old(self)@.region_of.len(),
                forall|x: int|
                    0 <= x < n ==> #[trigger] self@.region_of[x] == if x < i && marks@[x] is Some {
                        Some(id)
                    } else {
                        old(self)@.region_of[x]
                    },
            decreases n - i,
        {
            if marks[i].is_some() {
                self.region_of.set(i, Some(id));
            }
            i += 1;
        }
    }

    /// Makes every cell of region `from` a cell of region `to`.
    fn relabel_region(&mut self, from: ID, to: ID)
        requires
            old(self).base(),
        ensures
            final(self).base(),
            final(self)@.cells == old(self)@.cells,
            final(self)@.tiles == old(self)@.tiles,
            final(self)@.regions == old(self)@.regions,
            final(self)@.region_of.len() == old(self)@.region_of.len(),
            forall|x: int|
                0 <= x < old(self)@.size() ==> #[trigger] final(self)@.region_of[x] == if old(self)@.region_of[x] == Some(from) {
                    Some(to)
                } else {
                    old(self)@.region_of[x]
                },
    {
        let n = self.region_of.len();
        let mut i: usize = 0;
        while i < n
            invariant
                self.base(),
                n == self@.size(),
                i <= n,
                self@.cells == old(self)@.cells,
                self@.tiles == old(self)@.tiles,
                self@.regions == old(self)@.regions,
                self@.region_of.len() == old(self)@.region_of.len(),
                forall|x: int|
                    0 <= x < n ==> #[trigger] self@.region_of[x] == if x < i && old(self)@.region_of[x] == Some(from) {
                        Some(to)
                    } else {
                        old(self)@.region_of[x]
                    },
            decreases n - i,
        {
            let inside = match self.region_of[i] {
                Some(r) => r == from,
                None => false,
            };
            if inside {
                self.region_of.set(i, Some(to));
            }
            i += 1;
        }
    }

    /// Takes region `id` off the list.
    fn drop_header(&mut self, id: ID)
        requires
            old(self).base(),
            distinct_ids(old(self)@.regions),
            listed(old(self)@.regions, id),
        ensures
            final(self).base(),
            final(self)@.cells == old(self)@.cells,
            final(self)@.tiles == old(self)@.tiles,
            final(self)@.region_of == old(self)@.region_of,
            distinct_ids(final(self)@.regions),
            final(self)@.regions.len() == old(self)@.regions.len() - 1,
            final(self)@.regions == old(self)@.regions.remove(place_of(old(self)@.regions, id)),
            forall|x: ID|
                #[trigger] listed(final(self)@.regions, x) <==> listed(old(self)@.regions, x) && x
                    != id,
            forall|x: ID|
                #[trigger] listed(final(self)@.regions, x) ==> owner_in(final(self)@.regions, x)
                    == owner_in(old(self)@.regions, x),
    {
        let ghost before = self@.regions;
        let place = self.find_region(id);
        let h = place.unwrap();
        self.regions.remove(h);
        proof {
            let after = self@.regions;
            assert(after == before.remove(h as int));
            lemma_place_of(before, h as int);
            assert forall|a: int, b: int|
                0 <= a < after.len() && 0 <= b < after.len() && a != b implies (
            #[trigger] after[a]).id != (#[trigger] after[b]).id by {
                let a0 = if a < h { a } else { a + 1 };
                let b0 = if b < h { b } else { b + 1 };
                assert(after[a] == before[a0] && after[b] == before[b0]);
            }
            assert forall|x: ID| #[trigger] listed(after, x) implies listed(before, x) && x != id
                && owner_in(after, x) == owner_in(before, x) by {
                let k = choose|k: int| 0 <= k < after.len() && (#[trigger] after[k]).id == x;
                let k0 = if k < h { k } else { k + 1 };
                assert(after[k] == before[k0]);
                assert(before[k0].id == x);
                assert(before[k0].id != before[h as int].id);
                lemma_place_of(after, k);
                lemma_place_of(before, k0);
            }
            assert forall|x: ID| listed(before, x) && x != id implies #[trigger] listed(after, x) by {
                let k0 = choose|k: int| 0 <= k < before.len() && (#[trigger] before[k]).id == x;
                let k = if k0 < h { k0 } else { k0 - 1 };
                assert(after[k] == before[k0]);
            }
        }
    }

    /// Puts a region on the list that is not on it.
    fn add_header(&mut self, header: RegionHeader)
        requires
            old(self).base(),
            distinct_ids(old(self)@.regions),
            !listed(old(self)@.regions, header.id),
        ensures
            final(self).base(),
            final(self)@.cells == old(self)@.cells,
            final(self)@.tiles == old(self)@.tiles,
            final(self)@.region_of == old(self)@.region_of,
            distinct_ids(final(self)@.regions),
            final(self)@.regions == old(self)@.regions.push(header),
            forall|x: ID|
                #[trigger] listed(final(self)@.regions, x) <==> listed(old(self)@.regions, x) || x
                    == header.id,
            forall|x: ID|
                #[trigger] listed(old(self)@.regions, x) ==> owner_in(final(self)@.regions, x)
                    == owner_in(old(self)@.regions, x),
            owner_in(final(self)@.regions, header.id) == header.owner,
    {
        let ghost before = self@.regions;
        self.regions.push(header);
        proof {
            let after = self@.regions;
            assert(after == before.push(header));
            assert forall|a: int, b: int|
                0 <= a < after.len() && 0 <= b < after.len() && a != b implies (
            #[trigger] after[a]).id != (#[trigger] after[b]).id by {
                if a < before.len() {
                    assert(after[a] == before[a]);
                }
                if b < before.len() {
                    assert(after[b] == before[b]);
                }
            }
            assert forall|x: ID| #[trigger] listed(after, x) implies listed(before, x) || x
                == header.id by {
                let k = choose|k: int| 0 <= k < after.len() && (#[trigger] after[k]).id == x;
                if k < before.len() {
                    assert(after[k] == before[k]);
                }
            }
            assert forall|x: ID| listed(before, x) || x == header.id implies #[trigger] listed(
                after,
                x,
            ) by {
                if listed(before, x) {
                    let k = choose|k: int| 0 <= k < before.len() && (#[trigger] before[k]).id == x;
                    assert(after[k] == before[k]);
                } else {
                    assert(after[before.len() as int] == header);
                }
            }
            assert forall|x: ID| #[trigger] listed(before, x) implies owner_in(after, x)
                == owner_in(before, x) by {
                let k = choose|k: int| 0 <= k < before.len() && (#[trigger] before[k]).id == x;
                assert(after[k] == before[k]);
                lemma_place_of(after, k);
                lemma_place_of(before, k);
            }
            assert(after[before.len() as int] == header);
            lemma_place_of(after, before.len() as int);
        }
    }

    /// The next identifier of the producer that no region has.
    fn fresh_id(&self, ids: &mut IdProducer) -> (id: ID)
        requires
            self.base(),
            old(ids).remaining() > self@.regions.len(),
        ensures
            !self@.has_region(id),
            final(ids).last_issued() == id,
            old(ids).last_issued() < id <= old(ids).last_issued() + self@.regions.len() + 1,
            free_after(self@.regions, old(ids).last_issued(), id),
    {
        let ghost start = ids.last_issued();
        let mut id = ids.next_id();
        while self.has_region(id)
            invariant
                self.base(),
                ids.last_issued() == id,
                start < id,
                start + self@.regions.len() < u32::MAX,
                forall|x: ID| start < x < id ==> #[trigger] listed(self@.regions, x),
            decreases u32::MAX - id,
        {
            proof {
                lemma_listed_run(self@.regions, start as int, id as int);
            }
            id = ids.next_id();
        }
        proof {
            lemma_listed_run(self@.regions, start as int, id - 1);
        }
        id
    }

    /// Marks what `part` has reached as claimed.
    fn mark(claimed: &mut Vec<bool>, part: &Vec<Option<u32>>)
        requires
            old(claimed)@.len() == part@.len(),
        ensures
            final(claimed)@.len() == part@.len(),
            forall|x: int|
                0 <= x < part@.len() ==> #[trigger] final(claimed)@[x] == (old(claimed)@[x]
                    || part@[x] is Some),
    {
        let n = part.len();
        let mut i: usize = 0;
        while i < n
            invariant
                n == part@.len(),
                claimed@.len() == n,
                i <= n,
                forall|x: int|
                    0 <= x < n ==> #[trigger] claimed@[x] == (old(claimed)@[x] || (x < i
                        && part@[x] is Some)),
            decreases n - i,
        {
            if part[i].is_some() {
                claimed.set(i, true);
            }
            i += 1;
        }
    }

    /// The cells of region `id` next to cell `at`, in the order of the
    /// directions.
    fn seeds(&self, at: usize, id: ID) -> (seeds: Vec<usize>)
        requires
            self.base(),
            at < self@.size(),
        ensures
            seeds@.len() <= 6,
            forall|s: int|
                0 <= s < seeds@.len() ==> (#[trigger] seeds@[s]) < self@.size() && near(
                    self@.cells,
                    at as int,
                    seeds@[s] as int,
                ) && self@.region_of[seeds@[s] as int] == Some(id),
            forall|j: int|
                near(self@.cells, at as int, j) && 0 <= j < self@.size() && self@.region_of[j]
                    == Some(id) ==> seeds@.contains(j as usize),
            seeds@.len() == sides(self@, at as int, id, 6).len(),
            forall|s: int|
                0 <= s < seeds@.len() ==> #[trigger] seeds@[s] == sides(self@, at as int, id, 6)[s],
    {
        let mut seeds: Vec<usize> = Vec::new();
        let mut d: usize = 0;
        while d < 6
            invariant
                self.base(),
                at < self@.size(),
                d <= 6,
                seeds@.len() <= d,
                seeds@.len() == sides(self@, at as int, id, d as int).len(),
                forall|s: int|
                    0 <= s < seeds@.len() ==> #[trigger] seeds@[s] == sides(
                        self@,
                        at as int,
                        id,
                        d as int,
                    )[s],
                forall|s: int|
                    0 <= s < seeds@.len() ==> (#[trigger] seeds@[s]) < self@.size() && near(
                        self@.cells,
                        at as int,
                        seeds@[s] as int,
                    ) && self@.region_of[seeds@[s] as int] == Some(id),
                forall|e: int|
                    0 <= e < d ==> match #[trigger] self.links@[at as int]@[e] {
                        Some(j) => self@.region_of[j as int] == Some(id) ==> seeds@.contains(j),
                        None => true,
                    },
            decreases 6 - d,
        {
            let ghost before = seeds@;
            if let Some(j) = self.link(at, d) {
                assert(self.links@[at as int]@[d as int] == Some(j));
                let inside = match self.region_of[j] {
                    Some(r) => r == id,
                    None => false,
                };
                if inside {
                    seeds.push(j);
                    assert(seeds@[seeds@.len() - 1] == j);
                }
            } else {
                assert(self.links@[at as int]@[d as int] is None);
            }
            proof {
                assert forall|e: int| 0 <= e < d implies match #[trigger] self.links@[at as int]@[e] {
                    Some(j) => self@.region_of[j as int] == Some(id) ==> seeds@.contains(j),
                    None => true,
                } by {
                    if let Some(j) = self.links@[at as int]@[e] {
                        if self@.region_of[j as int] == Some(id) {
                            assert(before.contains(j));
                            let s = choose|s: int| 0 <= s < before.len() && before[s] == j;
                            assert(seeds@[s] == j);
                        }
                    }
                }
            }
            d += 1;
        }
        proof {
            assert forall|j: int|
                near(self@.cells, at as int, j) && 0 <= j < self@.size() && self@.region_of[j]
                    == Some(id) implies seeds@.contains(j as usize) by {
                self.lemma_links(at as int, j);
            }
        }
        seeds
    }

    /// Claims the piece of cell `seed` for a new region.
    fn peel(
        &mut self,
        seed: usize,
        rest: &Vec<bool>,
        claimed: &mut Vec<bool>,
        oid: ID,
        owner: Player,
        ids: &mut IdProducer,
        Ghost(origin): Ghost<LocationView>,
        Ghost(fresh): Ghost<Seq<ID>>,
    ) -> (id: ID)
        requires
            old(self).base(),
            sorting(origin, old(self)@, oid, rest@, old(claimed)@, fresh),
            origin.has_region(oid),
            owner == origin.owner_of(oid),
            seed < origin.size(),
            rest@[seed as int],
            !old(claimed)@[seed as int],
            old(ids).remaining() > old(self)@.regions.len(),
            forall|q: int| 0 <= q < fresh.len() ==> #[trigger] fresh[q] <= old(ids).last_issued(),
        ensures
            final(self).base(),
            free_after(origin.regions, old(ids).last_issued(), id),
            sorting(origin, final(self)@, oid, rest@, final(claimed)@, fresh.push(id)),
            final(claimed)@[seed as int],
            final(self)@.region_of[seed as int] == Some(id),
            final(self)@.regions == old(self)@.regions.push(RegionHeader { id, owner }),
            forall|x: int|
                0 <= x < origin.size() && #[trigger] final(claimed)@[x] ==> old(claimed)@[x]
                    || reach(origin.cells, rest@, seed as int, x),
            forall|x: int|
                0 <= x < origin.size() && old(claimed)@[x] ==> #[trigger] final(claimed)@[x]
                    && final(self)@.region_of[x] == old(self)@.region_of[x],
            final(ids).last_issued() == id,
            old(ids).last_issued() < id <= old(ids).last_issued() + old(self)@.regions.len() + 1,
    {
        let ghost last = ids.last_issued();
        let id = self.fresh_id(ids);
        proof {
            assert forall|x: ID| last < x < id implies #[trigger] listed(origin.regions, x) by {
                assert(listed(self@.regions, x));
                if fresh.contains(x) {
                    let q = choose|q: int| 0 <= q < fresh.len() && fresh[q] == x;
                    assert(fresh[q] <= last);
                }
            }
            assert(!listed(self@.regions, id));
        }
        let part = self.spread(seed, rest);
        let ghost before = self@;
        let ghost claimed_before = claimed@;
        self.relabel(&part, id);
        self.add_header(RegionHeader { id, owner });
        Self::mark(claimed, &part);
        proof {
            let cells = origin.cells;
            let n = cells.len();
            let now = self@;
            let mask = Seq::new(part@.len(), |x: int| part@[x] is Some);
            let more = fresh.push(id);
            assert(listed(before.regions, oid));
            assert(id != oid);
            assert forall|x: int| 0 <= x < n implies (mask[x] <==> reach(
                cells,
                rest@,
                seed as int,
                x,
            )) by {
                if part@[x] is Some {
                    assert(distance_is(cells, rest@, seed as int, x, part@[x]->0 as nat));
                }
            }
            assert(mask[seed as int]) by {
                assert(walk(cells, rest@, seed as int, seed as int, 0));
            }
            assert forall|x: int| 0 <= x < n && #[trigger] claimed@[x] implies claimed_before[x]
                || reach(cells, rest@, seed as int, x) by {
                assert(mask[x] <==> reach(cells, rest@, seed as int, x));
            }
            assert forall|x: int| 0 <= x < n && claimed_before[x] implies before.region_of[x]
                != Some(id) by {
                assert(before.region_of[x] is Some);
                let l = before.region_of[x]->0;
                if l != oid {
                    assert(fresh.contains(l));
                    assert(listed(before.regions, l));
                }
            }
            lemma_claim(
                cells,
                rest@,
                before.region_of,
                claimed_before,
                seed as int,
                mask,
                id,
                now.region_of,
                claimed@,
            );
            assert forall|q: int| 0 <= q < more.len() implies !listed(
                origin.regions,
                #[trigger] more[q],
            ) && owner_in(now.regions, more[q]) == owner_in(origin.regions, oid) && populated(
                now.region_of,
                more[q],
            ) by {
                if q < fresh.len() {
                    assert(more[q] == fresh[q]);
                    assert(fresh.contains(fresh[q]));
                    assert(listed(before.regions, fresh[q]));
                    let i = choose|i: int| holds(before.region_of, i, fresh[q]);
                    if mask[i] {
                        assert(!claimed_before[i] && rest@[i]);
                        assert(before.region_of[i] == Some(oid));
                    }
                    assert(holds(now.region_of, i, fresh[q]));
                } else {
                    assert(more[q] == id);
                    assert(mask[seed as int]);
                    assert(holds(now.region_of, seed as int, id));
                }
            }
            assert forall|x: ID| #[trigger] listed(now.regions, x) <==> listed(origin.regions, x)
                || more.contains(x) by {
                if more.contains(x) {
                    let q = choose|q: int| 0 <= q < more.len() && more[q] == x;
                    if q < fresh.len() {
                        assert(fresh[q] == x);
                        assert(fresh.contains(x));
                    }
                }
                if fresh.contains(x) {
                    let q = choose|q: int| 0 <= q < fresh.len() && fresh[q] == x;
                    assert(more[q] == x);
                }
                assert(more[fresh.len() as int] == id);
            }
            assert forall|x: int| 0 <= x < now.region_of.len() && claimed@[x] implies (
            #[trigger] now.region_of[x]) is Some && (now.region_of[x] == Some(oid) || more.contains(
                now.region_of[x]->0,
            )) by {
                assert(more[fresh.len() as int] == id);
                if !mask[x] {
                    assert(claimed_before[x]);
                    let l = before.region_of[x]->0;
                    if l != oid {
                        assert(fresh.contains(l));
                        let q = choose|q: int| 0 <= q < fresh.len() && fresh[q] == l;
                        assert(more[q] == l);
                    }
                }
            }
            assert(more.no_duplicates()) by {
                assert forall|a: int, b: int|
                    0 <= a < more.len() && 0 <= b < more.len() && a != b implies more[a]
                    != more[b] by {
                    if a < fresh.len() {
                        assert(fresh.contains(fresh[a]));
                    }
                    if b < fresh.len() {
                        assert(fresh.contains(fresh[b]));
                    }
                }
            }
            assert forall|x: ID| #[trigger] listed(origin.regions, x) implies owner_in(
                now.regions,
                x,
            ) == owner_in(origin.regions, x) by {
                assert(listed(before.regions, x));
            }
        }
        id
    }

    /// Sorts region `oid`, which cell `at` has just left, into its connected
    /// pieces. A region without cells is deleted. Otherwise the piece of the
    /// first cell of the region next to `at`, in the order of the
    /// directions, keeps the identifier, and every other piece becomes a new
    /// region of the same owner.
    fn resettle(&mut self, at: usize, oid: ID, ids: &mut IdProducer) -> (action: Option<
        RegionTransformation,
    >)
        requires
            old(self).base(),
            old(self)@.linked(),
            at < old(self)@.size(),
            old(self)@.region_of[at as int] != Some(oid),
            old(self)@.has_region(oid),
            forall|x: int|
                0 <= x < old(self)@.size() && old(self)@.region_of[x] == Some(oid)
                    ==> #[trigger] seeded(old(self)@, at as int, oid, x),
            old(ids).remaining() >= 5 * (old(self)@.regions.len() + 6),
        ensures
            final(self).base(),
            final(self)@.linked(),
            split_up(old(self)@, final(self)@, oid),
            summed_up(old(self)@, final(self)@, oid, action),
            old(ids).last_issued() <= final(ids).last_issued() <= old(ids).last_issued() + 5 * (
            old(self)@.regions.len() + 6),
            tallied(old(self)@.regions, old(ids).last_issued(), final(ids).last_issued(), action),
            match action {
                Some(RegionTransformation::Split { from, into }) => pieced(
                    old(self)@,
                    final(self)@,
                    at as int,
                    oid,
                    into@,
                ),
                _ => true,
            },
            final(self)@.regions == match action {
                Some(change) => relisted_once(old(self)@.regions, change),
                None => old(self)@.regions,
            },
    {
        let ghost origin = self@;
        let ghost cells = origin.cells;
        let ghost start = ids.last_issued();
        let ghost unit: int = (origin.regions.len() + 6) as int;
        let n = self.region_of.len();
        let seeds = self.seeds(at, oid);
        if seeds.len() == 0 {
            proof {
                assert forall|x: int| 0 <= x < origin.region_of.len() implies origin.region_of[x]
                    != Some(oid) by {
                    if origin.region_of[x] == Some(oid) {
                        assert(seeded(origin, at as int, oid, x));
                        let side = choose|side: int|
                            #[trigger] near(origin.cells, at as int, side) && side
                                < origin.region_of.len() && origin.region_of[side] == Some(oid)
                                && reach(origin.cells, region_mask(origin.region_of, oid), side, x);
                        assert(seeds@.contains(side as usize));
                    }
                }
            }
            self.drop_header(oid);
            proof {
                lemma_emptied(origin, self@, oid);
            }
            return Some(RegionTransformation::Delete(oid));
        }
        let place = self.find_region(oid);
        let owner = self.regions[place.unwrap()].owner;
        let rest = self.mask_of(oid);
        let keeper = seeds[0];
        let first = self.spread(keeper, &rest);
        let mut claimed: Vec<bool> = Vec::new();
        let mut fill: usize = 0;
        while fill < n
            invariant
                fill <= n,
                claimed@.len() == fill,
                forall|x: int| 0 <= x < fill ==> !claimed@[x],
            decreases n - fill,
        {
            claimed.push(false);
            fill += 1;
        }
        let ghost blank = claimed@;
        Self::mark(&mut claimed, &first);
        let ghost mut fresh: Seq<ID> = Seq::empty();
        proof {
            let mask = Seq::new(first@.len(), |x: int| first@[x] is Some);
            assert forall|x: int| 0 <= x < n implies (mask[x] <==> reach(
                cells,
                rest@,
                keeper as int,
                x,
            )) by {
                if first@[x] is Some {
                    assert(distance_is(cells, rest@, keeper as int, x, first@[x]->0 as nat));
                }
            }
            assert(sorted_out(cells, rest@, origin.region_of, blank));
            assert forall|x: int| 0 <= x < n implies origin.region_of[x] == if mask[x] {
                Some(oid)
            } else {
                origin.region_of[x]
            } by {
                if mask[x] {
                    let k = choose|k: nat| walk(cells, rest@, keeper as int, x, k);
                    lemma_walk_passable(cells, rest@, keeper as int, x, k);
                }
            }
            lemma_claim(
                cells,
                rest@,
                origin.region_of,
                blank,
                keeper as int,
                mask,
                oid,
                origin.region_of,
                claimed@,
            );
            assert(sorting(origin, self@, oid, rest@, claimed@, fresh));
        }
        let mut into: Vec<ID> = Vec::new();
        into.push(oid);
        let ghost around = sides(origin, at as int, oid, 6);
        proof {
            assert(opens(cells, rest@, around, 0));
            assert(pieces_upto(cells, rest@, around, 1) == pieces_upto(cells, rest@, around, 0) + 1);
            assert forall|x: int| 0 <= x < n && claimed@[x] implies exists|s: int|
                0 <= s < 1 && #[trigger] reach(cells, rest@, around[s], x) by {
                assert(first@[x] is Some);
                assert(distance_is(cells, rest@, keeper as int, x, first@[x]->0 as nat));
                assert(reach(cells, rest@, around[0], x));
            }
        }
        let mut t: usize = 1;
        while t < seeds.len()
            invariant
                self.base(),
                around == sides(origin, at as int, oid, 6),
                seeds@.len() == around.len(),
                forall|s: int| 0 <= s < seeds@.len() ==> #[trigger] seeds@[s] == around[s],
                into@.len() == pieces_upto(cells, rest@, around, t as int),
                self@.regions == origin.regions + Seq::new(
                    fresh.len(),
                    |q: int| RegionHeader { id: fresh[q], owner },
                ),
                forall|s: int|
                    0 <= s < t && opens(cells, rest@, around, s) ==> #[trigger] self@.region_of[around[s]]
                        == Some(into@[pieces_upto(cells, rest@, around, s)]),
                forall|x: int|
                    0 <= x < n && #[trigger] claimed@[x] ==> exists|s: int|
                        0 <= s < t && #[trigger] reach(cells, rest@, around[s], x),
                sorting(origin, self@, oid, rest@, claimed@, fresh),
                origin.has_region(oid),
                origin.shaped(),
                owner == origin.owner_of(oid),
                n == origin.size(),
                cells == origin.cells,
                unit == origin.regions.len() + 6,
                1 <= t <= seeds@.len() <= 6,
                forall|s: int|
                    0 <= s < seeds@.len() ==> (#[trigger] seeds@[s]) < n && rest@[seeds@[s] as int],
                forall|s: int| 0 <= s < t ==> claimed@[(#[trigger] seeds@[s]) as int],
                keeper == seeds@[0],
                self@.region_of[keeper as int] == Some(oid),
                into@.len() == fresh.len() + 1,
                into@[0] == oid,
                forall|q: int| 0 <= q < fresh.len() ==> #[trigger] into@[q + 1] == fresh[q],
                fresh.len() <= t - 1,
                issued_in_a_row(origin.regions, start, fresh),
                forall|q: int| 0 <= q < fresh.len() ==> #[trigger] fresh[q] <= ids.last_issued(),
                ids.last_issued() == if fresh.len() == 0 {
                    start
                } else {
                    fresh[fresh.len() - 1]
                },
                start <= ids.last_issued() <= start + (t - 1) * unit,
                start + 5 * unit <= u32::MAX,
            decreases seeds@.len() - t,
        {
            let seed = seeds[t];
            if !claimed[seed] {
                proof {
                    assert((t - 1) * unit <= 4 * unit) by (nonlinear_arith)
                        requires
                            1 <= t <= 5,
                            unit >= 0,
                    ;
                }
                let ghost before = self@;
                let ghost claimed_before = claimed@;
                let ghost sooner_into = into@;
                let id = self.peel(seed, &rest, &mut claimed, oid, owner, ids, Ghost(origin), Ghost(fresh));
                into.push(id);
                proof {
                    assert(seeds@[t as int] == around[t as int]);
                    assert(opens(cells, rest@, around, t as int)) by {
                        assert forall|s: int| 0 <= s < t implies !#[trigger] reach(
                            cells,
                            rest@,
                            around[s],
                            around[t as int],
                        ) by {
                            assert(claimed_before[seeds@[s] as int]);
                            assert(seeds@[s] == around[s]);
                        }
                    }
                    assert forall|s: int|
                        0 <= s < t + 1 && opens(cells, rest@, around, s) implies #[trigger] self@.region_of[around[s]]
                        == Some(into@[pieces_upto(cells, rest@, around, s)]) by {
                        if s < t {
                            assert(seeds@[s] == around[s]);
                            assert(claimed_before[seeds@[s] as int]);
                            assert(claimed@[around[s]]);
                            lemma_pieces_upto(cells, rest@, around, s + 1, t as int);
                            lemma_pieces_upto(cells, rest@, around, s, s);
                            assert(pieces_upto(cells, rest@, around, s + 1) == pieces_upto(
                                cells,
                                rest@,
                                around,
                                s,
                            ) + 1);
                            assert(into@ == sooner_into.push(id));
                            assert(into@[pieces_upto(cells, rest@, around, s)]
                                == sooner_into[pieces_upto(cells, rest@, around, s)]);
                            assert(before.region_of[around[s]] == Some(
                                sooner_into[pieces_upto(cells, rest@, around, s)],
                            ));
                        } else {
                            assert(into@[sooner_into.len() as int] == id);
                        }
                    }
                    assert forall|x: int| 0 <= x < n && #[trigger] claimed@[x] implies exists|s: int|
                        0 <= s < t + 1 && #[trigger] reach(cells, rest@, around[s], x) by {
                        if claimed_before[x] {
                            let s = choose|s: int|
                                0 <= s < t && #[trigger] reach(cells, rest@, around[s], x);
                            assert(reach(cells, rest@, around[s], x));
                        } else {
                            assert(reach(cells, rest@, around[t as int], x));
                        }
                    }
                    assert((t - 1) * unit + unit == t * unit) by (nonlinear_arith);
                    let sooner = fresh;
                    fresh = fresh.push(id);
                    assert(self@.regions =~= origin.regions + Seq::new(
                        fresh.len(),
                        |q: int| RegionHeader { id: fresh[q], owner },
                    ));
                    assert(claimed_before[keeper as int]);
                    assert forall|q: int| 0 <= q < fresh.len() implies free_after(
                        origin.regions,
                        if q == 0 {
                            start
                        } else {
                            fresh[q - 1]
                        },
                        #[trigger] fresh[q],
                    ) by {
                        if q < sooner.len() {
                            assert(fresh[q] == sooner[q]);
                            if q > 0 {
                                assert(fresh[q - 1] == sooner[q - 1]);
                            }
                        }
                    }
                    assert forall|q: int| 0 <= q < fresh.len() implies #[trigger] fresh[q]
                        <= ids.last_issued() by {
                        if q < sooner.len() {
                            assert(fresh[q] == sooner[q]);
                        }
                    }
                }
            } else {
                proof {
                    assert((t - 1) * unit <= t * unit) by (nonlinear_arith)
                        requires
                            unit >= 0,
                    ;
                    assert(seeds@[t as int] == around[t as int]);
                    let s = choose|s: int|
                        0 <= s < t && #[trigger] reach(cells, rest@, around[s], seed as int);
                    assert(reach(cells, rest@, around[s], around[t as int]));
                    assert(!opens(cells, rest@, around, t as int));
                    assert forall|x: int| 0 <= x < n && #[trigger] claimed@[x] implies exists|r: int|
                        0 <= r < t + 1 && #[trigger] reach(cells, rest@, around[r], x) by {
                        let r = choose|r: int|
                            0 <= r < t && #[trigger] reach(cells, rest@, around[r], x);
                        assert(reach(cells, rest@, around[r], x));
                    }
                }
            }
            t += 1;
        }
        proof {
            let now = self@;
            assert(t * unit <= 6 * unit) by (nonlinear_arith)
                requires
                    t <= 6,
                    unit >= 0,
            ;
            assert((t - 1) * unit <= 5 * unit) by (nonlinear_arith)
                requires
                    1 <= t <= 6,
                    unit >= 0,
            ;
            assert forall|x: int| 0 <= x < rest@.len() && rest@[x] implies claimed@[x] by {
                assert(seeded(origin, at as int, oid, x));
                let side = choose|side: int|
                    #[trigger] near(origin.cells, at as int, side) && side
                        < origin.region_of.len() && origin.region_of[side] == Some(oid) && reach(
                        origin.cells,
                        region_mask(origin.region_of, oid),
                        side,
                        x,
                    );
                assert(seeds@.contains(side as usize));
                let s = choose|s: int| 0 <= s < seeds@.len() && seeds@[s] == side as usize;
                assert(claimed@[seeds@[s] as int]);
            }
            lemma_sorted(origin, now, oid, rest@, claimed@, fresh, keeper as int);
            assert forall|i: int|
                0 <= i < now.region_of.len() && (#[trigger] now.region_of[i]) is Some implies listed(
                now.regions,
                now.region_of[i]->0,
            ) by {
                if rest@[i] {
                    assert(claimed@[i]);
                } else {
                    assert(now.region_of[i] == origin.region_of[i]);
                    assert(listed(origin.regions, origin.region_of[i]->0));
                }
            }
            assert forall|id: ID| #[trigger] now.has_region(id) implies origin.has_region(id)
                || into@.contains(id) by {
                if fresh.contains(id) {
                    let q = choose|q: int| 0 <= q < fresh.len() && fresh[q] == id;
                    assert(into@[q + 1] == id);
                }
            }
            assert forall|q: int| 1 <= q < into@.len() implies !origin.has_region(
                #[trigger] into@[q],
            ) && now.has_region(into@[q]) by {
                assert(into@[(q - 1) + 1] == fresh[q - 1]);
                assert(fresh.contains(fresh[q - 1]));
            }
            assert(into@.no_duplicates()) by {
                assert forall|a: int, b: int|
                    0 <= a < into@.len() && 0 <= b < into@.len() && a != b implies into@[a]
                    != into@[b] by {
                    if a >= 1 {
                        assert(into@[(a - 1) + 1] == fresh[a - 1]);
                    }
                    if b >= 1 {
                        assert(into@[(b - 1) + 1] == fresh[b - 1]);
                    }
                }
            }
        }
        if into.len() > 1 {
            proof {
                assert(into@.subrange(1, into@.len() as int) =~= fresh) by {
                    assert forall|q: int| 0 <= q < fresh.len() implies into@.subrange(
                        1,
                        into@.len() as int,
                    )[q] == fresh[q] by {
                        assert(into@[q + 1] == fresh[q]);
                    }
                }
                assert(into@[(fresh.len() - 1) + 1] == fresh[fresh.len() - 1]);
                assert(rest@ =~= others(origin.region_of, at as int, oid));
                assert(Seq::new(fresh.len(), |q: int| RegionHeader { id: fresh[q], owner })
                    =~= Seq::new(
                    (into@.len() - 1) as nat,
                    |q: int| RegionHeader { id: into@[q + 1], owner: owner_in(origin.regions, oid) },
                ));
            }
            Some(RegionTransformation::Split { from: oid, into })
        } else {
            proof {
                assert(fresh.len() == 0);
                assert forall|id: ID| #[trigger] self@.has_region(id) implies origin.has_region(
                    id,
                ) by {
                    if fresh.contains(id) {
                    }
                }
            }
            None
        }
    }

    fn contains_id(list: &Vec<ID>, id: ID) -> (found: bool)
        ensures
            found == list@.contains(id),
    {
        let mut i: usize = 0;
        while i < list.len()
            invariant
                i <= list.len(),
                forall|j: int| 0 <= j < i ==> list@[j] != id,
            decreases list.len() - i,
        {
            if list[i] == id {
                return true;
            }
            i += 1;
        }
        false
    }

    /// The regions that go into region `target` when cell `at` joins it, in
    /// the order of the directions in which they lie.
    fn merge_candidates(&self, at: usize, target: RegionHeader) -> (merges: Vec<ID>)
        requires
            self.wf(),
            at < self@.size(),
            self@.has_region(target.id),
            self@.owner_of(target.id) == target.owner,
        ensures
            merges@.no_duplicates(),
            merges@.len() <= 6,
            forall|m: ID| merges@.contains(m) <==> mergeable(self@, at as int, target.id, m),
            merges@ == joiners(self@, at as int, target.id, 6),
    {
        let mut merges: Vec<ID> = Vec::new();
        let mut d: usize = 0;
        while d < 6
            invariant
                self.wf(),
                merges@ == joiners(self@, at as int, target.id, d as int),
                at < self@.size(),
                self@.has_region(target.id),
                self@.owner_of(target.id) == target.owner,
                d <= 6,
                merges@.len() <= d,
                merges@.no_duplicates(),
                forall|m: ID| merges@.contains(m) ==> mergeable(self@, at as int, target.id, m),
                forall|e: int|
                    0 <= e < d ==> match #[trigger] self.links@[at as int]@[e] {
                        Some(j) => self@.region_of[j as int] is Some ==> (merges@.contains(
                            self@.region_of[j as int]->0,
                        ) || self@.region_of[j as int]->0 == target.id || self@.owner_of(
                            self@.region_of[j as int]->0,
                        ).id != target.owner.id),
                        None => true,
                    },
            decreases 6 - d,
        {
            let ghost before = merges@;
            if let Some(j) = self.link(at, d) {
                assert(self.links@[at as int]@[d as int] == Some(j));
                if let Some(m) = self.region_of[j] {
                    if m != target.id {
                        let place = self.find_region(m);
                        assert(place is Some);
                        if self.regions[place.unwrap()].owner.id == target.owner.id
                            && !Self::contains_id(&merges, m) {
                            merges.push(m);
                            proof {
                                assert(merges@[merges@.len() - 1] == m);
                                assert(touches(self@, at as int, m));
                                assert forall|x: ID| merges@.contains(x) implies mergeable(
                                    self@,
                                    at as int,
                                    target.id,
                                    x,
                                ) by {
                                    let q = choose|q: int| 0 <= q < merges@.len() && merges@[q] == x;
                                    if q < before.len() {
                                        assert(before[q] == x);
                                        assert(before.contains(x));
                                    }
                                }
                            }
                        }
                    }
                }
            } else {
                assert(self.links@[at as int]@[d as int] is None);
            }
            proof {
                assert forall|x: ID| before.contains(x) implies merges@.contains(x) by {
                    let q = choose|q: int| 0 <= q < before.len() && before[q] == x;
                    assert(merges@[q] == x);
                }
            }
            d += 1;
        }
        proof {
            assert forall|m: ID| mergeable(self@, at as int, target.id, m) implies merges@.contains(
                m,
            ) by {
                let j = choose|j: int|
                    #[trigger] near(self@.cells, at as int, j) && j < self@.region_of.len()
                        && self@.region_of[j] == Some(m);
                self.lemma_links(at as int, j);
            }
        }
        merges
    }

    /// Makes the cell with this coordinate a cell of the region with this
    /// identifier, which it has to touch.
    ///
    /// The regions of the same owner that touch the cell go into that region,
    /// in the order of the directions in which they lie. The region that the
    /// cell leaves is deleted if the cell was its last, and sorted into its
    /// connected pieces otherwise, each piece but one under a new identifier.
    /// The list that is handed back says what was done. When the cell cannot
    /// go to the region, nothing changes and the error says why.
    pub fn add_tile_to_region(
        &mut self,
        coordinate: Coord,
        region_id: ID,
        id_producer: &mut IdProducer,
    ) -> (res: Result<Vec<RegionTransformation>, LocationModificationError>)
        requires
            old(self).valid(),
            old(id_producer).remaining() >= 5 * (old(self)@.regions.len() + 6),
        ensures
            final(self).valid(),
            old(id_producer).last_issued() <= final(id_producer).last_issued() <= old(id_producer).last_issued() + 5 * (old(self)@.regions.len() + 6),
            match res {
                Ok(actions) => {
                    &&& add_tile_error(old(self)@, coordinate, region_id) is None
                    &&& final(self)@.tiles == old(self)@.tiles
                    &&& regrouped(
                        old(self)@,
                        final(self)@,
                        old(self)@.index_of(coordinate),
                        region_id,
                    )
                    &&& recorded(
                        old(self)@,
                        final(self)@,
                        old(self)@.index_of(coordinate),
                        region_id,
                        actions@,
                    )
                    &&& issued(
                        old(self)@.regions,
                        old(id_producer).last_issued(),
                        final(id_producer).last_issued(),
                        actions@,
                    )
                },
                Err(e) => add_tile_error(old(self)@, coordinate, region_id) == Some(e) && *final(self) == *old(self) && final(id_producer).last_issued() == old(id_producer).last_issued(),
            },
    {
        let at = match self.map.index_of(&coordinate) {
            Some(i) => i,
            None => {
                return Err(LocationModificationError::CoordinateOutOfLocation(coordinate));
            },
        };
        let target = match self.find_region(region_id) {
            Some(h) => self.regions[h],
            None => {
                return Err(LocationModificationError::NoSuchRegion(region_id));
            },
        };
        let gone = self.region_of[at];
        let already = match gone {
            Some(g) => g == region_id,
            None => false,
        };
        if already {
            return Err(LocationModificationError::CoordinateNotAdjacentToRegion(coordinate));
        }
        let touching = self.seeds(at, region_id);
        if touching.len() == 0 {
            proof {
                if touches(self@, at as int, region_id) {
                    let j = choose|j: int|
                        #[trigger] near(self@.cells, at as int, j) && j < self@.region_of.len()
                            && self@.region_of[j] == Some(region_id);
                    assert(touching@.contains(j as usize));
                }
            }
            return Err(LocationModificationError::CoordinateNotAdjacentToRegion(coordinate));
        }
        let merges = self.merge_candidates(at, target);
        let ghost v0 = self@;
        proof {
            assert(near(v0.cells, at as int, touching@[0] as int));
            assert(touches(v0, at as int, region_id));
            lemma_gone_is_foreign(v0, at as int, region_id);
        }
        self.set_region(at, Some(region_id));
        let ghost v1 = self@;
        let mut actions: Vec<RegionTransformation> = Vec::new();
        let ghost mut spoken: Option<RegionTransformation> = None;
        if let Some(oid) = gone {
            proof {
                assert(v1.linked());
                assert(rest_of(v0, at as int) =~= region_mask(v1.region_of, oid));
                let g = choose|g: int| 0 <= g < v0.regions.len() && (#[trigger] v0.regions[g]).id == oid;
                assert(in_one_piece(v0.cells, v0.region_of, v0.regions[g].id));
                assert forall|x: int|
                    0 <= x < v1.size() && v1.region_of[x] == Some(oid) implies #[trigger] seeded(
                    v1,
                    at as int,
                    oid,
                    x,
                ) by {
                    lemma_seeds(v0, at as int, x);
                    let side = choose|side: int|
                        #[trigger] near(v0.cells, at as int, side) && rest_of(v0, at as int)[side]
                            && reach(v0.cells, rest_of(v0, at as int), side, x);
                    assert(near(v1.cells, at as int, side) && side < v1.region_of.len()
                        && v1.region_of[side] == Some(oid));
                }
            }
            let outcome = self.resettle(at, oid, id_producer);
            proof {
                spoken = outcome;
            }
            if let Some(action) = outcome {
                actions.push(action);
            }
        }
        let ghost v2 = self@;
        let ghost lead = actions@;
        proof {
            assert(v1.regions == v0.regions);
            assert(v2.regions == relisted(v0.regions, lead, lead.len() as int)) by {
                if lead.len() == 1 {
                    assert(relisted(v0.regions, lead, 0) == v0.regions);
                }
            }
            assert(v1.has_region(region_id));
            assert(listed(v2.regions, region_id));
            assert forall|m: ID| merges@.contains(m) implies m != region_id && listed(
                v2.regions,
                m,
            ) by {
                assert(mergeable(v0, at as int, region_id, m));
                assert(v1.has_region(m));
            }
        }
        let mut k: usize = 0;
        while k < merges.len()
            invariant
                self.base(),
                k <= merges@.len() <= 6,
                lead.len() <= 1,
                merges@.no_duplicates(),
                forall|m: ID| merges@.contains(m) ==> m != region_id && listed(v2.regions, m),
                listed(v2.regions, region_id),
                self@.cells == v2.cells,
                self@.tiles == v2.tiles,
                self@.region_of.len() == v2.region_of.len(),
                v2.region_of.len() == v2.cells.len(),
                forall|x: int|
                    0 <= x < v2.region_of.len() ==> #[trigger] self@.region_of[x] == if v2.region_of[x]
                        is Some && among(merges@, k as int, v2.region_of[x]->0) {
                        Some(region_id)
                    } else {
                        v2.region_of[x]
                    },
                distinct_ids(self@.regions),
                forall|id: ID|
                    #[trigger] listed(self@.regions, id) <==> listed(v2.regions, id) && !among(
                        merges@,
                        k as int,
                        id,
                    ),
                forall|id: ID|
                    #[trigger] listed(self@.regions, id) ==> owner_in(self@.regions, id)
                        == owner_in(v2.regions, id),
                actions@.len() == lead.len() + k,
                self@.regions == relisted(v0.regions, actions@, actions@.len() as int),
                forall|q: int| 0 <= q < lead.len() ==> actions@[q] == lead[q],
                forall|q: int|
                    0 <= q < k ==> #[trigger] actions@[lead.len() as int + q] == (
                    RegionTransformation::Merge { from: merges@[q], into: region_id }),
            decreases merges@.len() - k,
        {
            let m = merges[k];
            let ghost before = self@;
            proof {
                assert(merges@.contains(m));
                assert(!among(merges@, k as int, m)) by {
                    if among(merges@, k as int, m) {
                        let q = choose|q: int|
                            0 <= q < k && q < merges@.len() && #[trigger] merges@[q] == m;
                        assert(merges@[q] == merges@[k as int]);
                    }
                }
            }
            let ghost done = actions@;
            self.relabel_region(m, region_id);
            self.drop_header(m);
            actions.push(RegionTransformation::Merge { from: m, into: region_id });
            proof {
                lemma_relisted_prefix(v0.regions, done, actions@, done.len() as int);
                assert(actions@[done.len() as int] == (RegionTransformation::Merge {
                    from: m,
                    into: region_id,
                }));
                assert forall|id: ID| among(merges@, k + 1, id) <==> among(merges@, k as int, id)
                    || id == m by {
                    if among(merges@, k + 1, id) {
                        let q = choose|q: int|
                            0 <= q < k + 1 && q < merges@.len() && #[trigger] merges@[q] == id;
                        if q < k {
                            assert(among(merges@, k as int, id));
                        }
                    }
                    if among(merges@, k as int, id) {
                        let q = choose|q: int|
                            0 <= q < k && q < merges@.len() && #[trigger] merges@[q] == id;
                        assert(merges@[q] == id);
                    }
                    if id == m {
                        assert(merges@[k as int] == id);
                    }
                }
                assert forall|x: int|
                    0 <= x < v2.region_of.len() implies #[trigger] self@.region_of[x] == if v2.region_of[x]
                    is Some && among(merges@, k + 1, v2.region_of[x]->0) {
                    Some(region_id)
                } else {
                    v2.region_of[x]
                } by {
                    assert(before.region_of[x] == if v2.region_of[x] is Some && among(
                        merges@,
                        k as int,
                        v2.region_of[x]->0,
                    ) {
                        Some(region_id)
                    } else {
                        v2.region_of[x]
                    });
                }
            }
            k += 1;
        }
        proof {
            let v3 = self@;
            assert forall|id: ID| among(merges@, merges@.len() as int, id) <==> merges@.contains(
                id,
            ) by {
                if merges@.contains(id) {
                    let q = choose|q: int| 0 <= q < merges@.len() && merges@[q] == id;
                    assert(merges@[q] == id);
                }
            }
            lemma_compose(v0, v1, v2, v3, at as int, region_id, merges@);
            let shown = actions@;
            assert(lead.len() <= 1);
            if lead.len() == 1 {
                assert(shown[0] == lead[0]);
                assert(!(lead[0] is Merge));
            } else if shown.len() > 0 {
                assert(shown[lead.len() as int + 0] == (RegionTransformation::Merge {
                    from: merges@[0],
                    into: region_id,
                }));
            }
            let first: int = if shown.len() > 0 && !(shown[0] is Merge) {
                1
            } else {
                0
            };
            assert(first == lead.len());
            assert forall|q: int| first <= q < shown.len() implies match #[trigger] shown[q] {
                RegionTransformation::Merge { from, into } => into == region_id && mergeable(
                    v0,
                    at as int,
                    region_id,
                    from,
                ),
                _ => false,
            } by {
                assert(shown[lead.len() as int + (q - first)] == (RegionTransformation::Merge {
                    from: merges@[q - first],
                    into: region_id,
                }));
                assert(merges@.contains(merges@[q - first]));
            }
            assert forall|p: int, q: int| first <= p < q < shown.len() implies #[trigger] shown[p]
                != #[trigger] shown[q] by {
                assert(shown[lead.len() as int + (q - first)] == (RegionTransformation::Merge {
                    from: merges@[q - first],
                    into: region_id,
                }));
                assert(shown[lead.len() as int + (p - first)] == (RegionTransformation::Merge {
                    from: merges@[p - first],
                    into: region_id,
                }));
            }
            assert forall|m: ID| mergeable(v0, at as int, region_id, m) implies exists|q: int|
                first <= q < shown.len() && #[trigger] shown[q] == (RegionTransformation::Merge {
                    from: m,
                    into: region_id,
                }) by {
                assert(merges@.contains(m));
                let p = choose|p: int| 0 <= p < merges@.len() && merges@[p] == m;
                assert(shown[lead.len() as int + p] == (RegionTransformation::Merge {
                    from: merges@[p],
                    into: region_id,
                }));
            }
            assert(v1.regions == v0.regions);
            if gone is Some {
                let oid = gone->0;
                assert(summed_up(v1, v2, oid, spoken));
                assert(!merges@.contains(oid));
                match spoken {
                    None => {
                        assert(first == 0);
                        assert forall|id: ID| #[trigger] v3.has_region(id) implies v0.has_region(
                            id,
                        ) by {
                            assert(listed(v2.regions, id));
                            assert(v2.has_region(id));
                        }
                        assert(v2.has_region(oid));
                        assert(v3.has_region(oid));
                    },
                    Some(RegionTransformation::Delete(id)) => {
                        assert(shown[0] == lead[0]);
                        assert forall|other: ID| #[trigger] v3.has_region(other) implies v0.has_region(
                            other,
                        ) by {
                            assert(listed(v2.regions, other));
                            assert(v2.has_region(other));
                        }
                    },
                    Some(RegionTransformation::Split { from, into }) => {
                        assert(shown[0] == lead[0]);
                        assert(v3.has_region(oid));
                        assert forall|x: int|
                            0 <= x < v2.region_of.len() && v2.region_of[x] is Some
                                && into@.contains(v2.region_of[x]->0) implies #[trigger] v3.region_of[x]
                            == v2.region_of[x] by {
                            let r = v2.region_of[x]->0;
                            if merges@.contains(r) {
                                assert(mergeable(v0, at as int, region_id, r));
                                let q = choose|q: int| 0 <= q < into@.len() && into@[q] == r;
                                if q >= 1 {
                                    assert(!v1.has_region(into@[q]));
                                }
                            }
                        }
                        lemma_pieced_on(v0, v1, v2, v3, at as int, oid, into@);
                        assert forall|q: int| 1 <= q < into@.len() implies !v0.has_region(
                            #[trigger] into@[q],
                        ) && v3.has_region(into@[q]) by {
                            assert(!v1.has_region(into@[q]) && v2.has_region(into@[q]));
                            if merges@.contains(into@[q]) {
                                assert(mergeable(v0, at as int, region_id, into@[q]));
                            }
                        }
                        assert forall|id: ID| #[trigger] v3.has_region(id) implies v0.has_region(
                            id,
                        ) || into@.contains(id) by {
                            assert(listed(v2.regions, id));
                            assert(v2.has_region(id));
                        }
                    },
                    Some(RegionTransformation::Merge { .. }) => {},
                }
            } else {
                assert(first == 0);
                assert forall|id: ID| #[trigger] v3.has_region(id) implies v0.has_region(id) by {
                    assert(listed(v2.regions, id));
                }
            }
            assert(recorded(v0, v3, at as int, region_id, shown));
        }
        Ok(actions)
    }

    /// Region `region` is region `id` of this location as a value of its own.
    pub open spec fn shows(&self, region: Region, id: ID) -> bool {
        &&& region.wf()
        &&& region.header() == (RegionHeader { id, owner: self@.owner_of(id) })
        &&& region.cells().ordered().len() == self@.region_size(id)
        &&& forall|c: Coord| region.cells()@.contains(c) <==> self@.region_id_at(c) == Some(id)
    }

    /// The coordinates of the cells of region `id`, in the order of the map.
    fn cells_of(&self, id: ID) -> (set: CoordSet)
        requires
            self.base(),
        ensures
            set.wf(),
            set.ordered().len() == self@.region_size(id),
            forall|c: Coord| set@.contains(c) <==> self@.region_id_at(c) == Some(id),
    {
        let n = self.region_of.len();
        let mut set = CoordSet::new();
        let mut i: usize = 0;
        while i < n
            invariant
                self.base(),
                n == self@.size(),
                i <= n,
                set.wf(),
                set.ordered().len() == count_set(region_mask(self@.region_of, id), i as int),
                forall|c: Coord|
                    set@.contains(c) <==> exists|j: int|
                        0 <= j < i && self@.region_of[j] == Some(id) && #[trigger] self@.cells[j]
                            == c,
            decreases n - i,
        {
            let inside = match self.region_of[i] {
                Some(r) => r == id,
                None => false,
            };
            if inside {
                let c = self.map.coords[i];
                let ghost before = set@;
                let added = set.insert(c);
                proof {
                    if !added {
                        let j = choose|j: int|
                            0 <= j < i && self@.region_of[j] == Some(id) && #[trigger] self@.cells[j]
                                == c;
                        assert(self@.cells[j] != self@.cells[i as int]);
                    }
                    assert forall|x: Coord|
                        set@.contains(x) <==> exists|j: int|
                            0 <= j < i + 1 && self@.region_of[j] == Some(id)
                                && #[trigger] self@.cells[j] == x by {
                        if x == c {
                            assert(self@.cells[i as int] == x);
                        }
                        if before.contains(x) {
                            let j = choose|j: int|
                                0 <= j < i && self@.region_of[j] == Some(id)
                                    && #[trigger] self@.cells[j] == x;
                            assert(self@.cells[j] == x);
                        }
                    }
                }
            } else {
                proof {
                    assert forall|x: Coord|
                        set@.contains(x) <==> exists|j: int|
                            0 <= j < i + 1 && self@.region_of[j] == Some(id)
                                && #[trigger] self@.cells[j] == x by {
                        if set@.contains(x) {
                            let j = choose|j: int|
                                0 <= j < i && self@.region_of[j] == Some(id)
                                    && #[trigger] self@.cells[j] == x;
                            assert(self@.cells[j] == x);
                        }
                    }
                }
            }
            i += 1;
        }
        proof {
            assert forall|c: Coord| set@.contains(c) <==> self@.region_id_at(c) == Some(id) by {
                if set@.contains(c) {
                    let j = choose|j: int|
                        0 <= j < n && self@.region_of[j] == Some(id) && #[trigger] self@.cells[j]
                            == c;
                    let k = self@.index_of(c);
                    if k != j {
                        assert(self@.cells[k] != self@.cells[j]);
                    }
                }
                if self@.region_id_at(c) == Some(id) {
                    let k = self@.index_of(c);
                    assert(self@.cells[k] == c);
                }
            }
        }
        set
    }

    /// Region `id` as a value of its own.
    pub fn region(&self, id: ID) -> (region: Option<Region>)
        requires
            self.wf(),
        ensures
            match region {
                Some(r) => self@.has_region(id) && self.shows(r, id),
                None => !self@.has_region(id),
            },
    {
        match self.find_region(id) {
            Some(h) => {
                let set = self.cells_of(id);
                proof {
                    assert(populated(self@.region_of, self@.regions[h as int].id));
                    let i = choose|i: int| holds(self@.region_of, i, id);
                    let c = self@.cells[i];
                    let k = self@.index_of(c);
                    if k != i {
                        assert(self@.cells[k] != self@.cells[i]);
                    }
                    assert(set@.contains(c));
                    set.lemma_ordered();
                }
                Some(Region::new(id, self.regions[h].owner, set))
            },
            None => None,
        }
    }

    /// The region of the cell with this coordinate, as a value of its own.
    pub fn region_at(&self, coordinate: Coord) -> (region: Option<Region>)
        requires
            self.wf(),
        ensures
            match region {
                Some(r) => self@.region_id_at(coordinate) == Some(r.header().id) && self.shows(
                    r,
                    r.header().id,
                ),
                None => self@.region_id_at(coordinate) is None,
            },
    {
        match self.region_header_at(coordinate) {
            Some(header) => self.region(header.id),
            None => None,
        }
    }

    /// All regions as values of their own, in the order in which they were
    /// made.
    pub fn regions(&self) -> (regions: Vec<Region>)
        requires
            self.wf(),
        ensures
            regions@.len() == self@.regions.len(),
            forall|h: int|
                0 <= h < regions@.len() ==> self.shows(
                    #[trigger] regions@[h],
                    self@.regions[h].id,
                ),
    {
        let mut regions: Vec<Region> = Vec::new();
        let mut h: usize = 0;
        while h < self.regions.len()
            invariant
                self.wf(),
                h <= self@.regions.len(),
                regions@.len() == h,
                forall|g: int|
                    0 <= g < h ==> self.shows(#[trigger] regions@[g], self@.regions[g].id),
            decreases self.regions.len() - h,
        {
            let found = self.region(self.regions[h].id);
            match found {
                Some(r) => {
                    regions.push(r);
                },
                None => {
                    assert(false);
                },
            }
            h += 1;
        }
        regions
    }

    /// The reached cells with their distances, ordered by distance and, at
    /// one distance, as the map orders them.
    fn in_order(&self, dist: &Vec<Option<u32>>) -> (out: Vec<(u32, usize)>)
        requires
            self.base(),
            dist@.len() == self@.size(),
            forall|i: int|
                0 <= i < dist@.len() ==> ((#[trigger] dist@[i]) matches Some(d) ==> d
                    < self@.size()),
        ensures
            forall|p: int|
                0 <= p < out@.len() ==> (#[trigger] out@[p]).1 < self@.size() && dist@[out@[p].1 as int]
                    == Some(out@[p].0),
            forall|i: int|
                0 <= i < dist@.len() && dist@[i] is Some ==> exists|p: int| #[trigger]
                    listing(out@, p, i),
            forall|p: int, q: int|
                0 <= p < q < out@.len() ==> before(#[trigger] out@[p], #[trigger] out@[q]),
    {
        let n = dist.len();
        let mut out: Vec<(u32, usize)> = Vec::new();
        let mut level: usize = 0;
        while level < n
            invariant
                n == dist@.len(),
                n <= u32::MAX,
                level <= n,
                forall|i: int|
                    0 <= i < dist@.len() ==> ((#[trigger] dist@[i]) matches Some(d) ==> d < n),
                forall|p: int|
                    0 <= p < out@.len() ==> (#[trigger] out@[p]).1 < n && dist@[out@[p].1 as int]
                        == Some(out@[p].0) && out@[p].0 < level,
                forall|i: int|
                    0 <= i < n && dist@[i] is Some && dist@[i]->0 < level ==> exists|p: int| #[trigger]
                        listing(out@, p, i),
                forall|p: int, q: int|
                    0 <= p < q < out@.len() ==> before(#[trigger] out@[p], #[trigger] out@[q]),
            decreases n - level,
        {
            let mut i: usize = 0;
            while i < n
                invariant
                    n == dist@.len(),
                    n <= u32::MAX,
                    level < n,
                    i <= n,
                    forall|p: int|
                        0 <= p < out@.len() ==> (#[trigger] out@[p]).1 < n && dist@[out@[p].1 as int]
                            == Some(out@[p].0) && (out@[p].0 < level || (out@[p].0 == level
                            && out@[p].1 < i)),
                    forall|j: int|
                        0 <= j < n && dist@[j] is Some && (dist@[j]->0 < level || (dist@[j]->0
                            == level && j < i)) ==> exists|p: int| #[trigger] listing(out@, p, j),
                    forall|p: int, q: int|
                        0 <= p < q < out@.len() ==> before(#[trigger] out@[p], #[trigger] out@[q]),
                decreases n - i,
            {
                let here = match dist[i] {
                    Some(d) => d as usize == level,
                    None => false,
                };
                let ghost prev = out@;
                if here {
                    out.push((level as u32, i));
                    assert(out@[prev.len() as int] == (level as u32, i));
                    assert(out@[prev.len() as int].1 == i);
                    assert(listing(out@, prev.len() as int, i as int));
                }
                proof {
                    assert forall|j: int|
                        0 <= j < n && dist@[j] is Some && (dist@[j]->0 < level || (dist@[j]->0
                            == level && j < i + 1)) implies exists|p: int| #[trigger]
                        listing(out@, p, j) by {
                        if j == i && dist@[j]->0 == level {
                            assert(listing(out@, prev.len() as int, i as int));
                        } else {
                            let p = choose|p: int| #[trigger] listing(prev, p, j);
                            assert(listing(out@, p, j));
                        }
                    }
                }
                i += 1;
            }
            level += 1;
        }
        out
    }

    /// For each cell, what the predicate says of its coordinate.
    fn open_cells<P: Fn(Coord) -> bool>(&self, predicate: &P) -> (open: Vec<bool>)
        requires
            self.base(),
            forall|c: Coord| self@.has_tile(c) ==> call_requires(*predicate, (c,)),
            decided(*predicate),
        ensures
            open@ == opened(self@.cells, *predicate),
    {
        let n = self.map.coords.len();
        let mut open: Vec<bool> = Vec::new();
        let mut i: usize = 0;
        while i < n
            invariant
                self.base(),
                n == self@.size(),
                i <= n,
                open@.len() == i,
                forall|c: Coord| self@.has_tile(c) ==> call_requires(*predicate, (c,)),
                decided(*predicate),
                forall|j: int|
                    0 <= j < i ==> open@[j] == call_ensures(*predicate, (self@.cells[j],), true),
            decreases n - i,
        {
            let c = self.map.coords[i];
            assert(self@.cells[i as int] == c);
            assert(self@.has_tile(c));
            let yes = predicate(c);
            proof {
                assert(call_ensures(*predicate, (c,), yes));
                if !yes && call_ensures(*predicate, (c,), true) {
                    assert(agreed(*predicate, c, true, false));
                }
            }
            open.push(yes);
            i += 1;
        }
        assert(open@ =~= opened(self@.cells, *predicate));
        open
    }

    /// The cells that can be reached from the cell with this coordinate over
    /// cells that meet the predicate, each with its distance; nearer cells
    /// come first and, at one distance, the cells come as the map orders
    /// them. Nothing is reached from a coordinate that is not on the map or
    /// does not meet the predicate.
    pub fn bfs_iter<P: Fn(Coord) -> bool>(&self, coordinate: Coord, predicate: P) -> (iter: BfsIter)
        requires
            self.base(),
            forall|c: Coord| self@.has_tile(c) ==> call_requires(predicate, (c,)),
            decided(predicate),
        ensures
            iter.wf(),
            self.in_bfs_order(coordinate, opened(self@.cells, predicate), iter.pending()),
    {
        let ghost open_spec = opened(self@.cells, predicate);
        let mut items: Vec<(u32, Coord)> = Vec::new();
        let start = match self.map.index_of(&coordinate) {
            Some(i) => i,
            None => {
                let iter = BfsIter { items, position: 0 };
                assert(iter.pending() =~= items@);
                return iter;
            },
        };
        let open = self.open_cells(&predicate);
        let dist = self.spread(start, &open);
        let order = self.in_order(&dist);
        let mut p: usize = 0;
        while p < order.len()
            invariant
                self.base(),
                p <= order@.len(),
                items@.len() == p,
                forall|q: int|
                    0 <= q < order@.len() ==> (#[trigger] order@[q]).1 < self@.size(),
                forall|q: int|
                    0 <= q < p ==> #[trigger] items@[q] == (order@[q].0, self@.cells[order@[q].1 as int]),
            decreases order@.len() - p,
        {
            let (d, i) = order[p];
            items.push((d, self.map.coords[i]));
            p += 1;
        }
        proof {
            let v = self@;
            let from = v.index_of(coordinate);
            assert forall|q: int| 0 <= q < items@.len() implies v.has_tile((#[trigger] items@[q]).1)
                && distance_is(
                v.cells,
                open_spec,
                from,
                v.index_of(items@[q].1),
                items@[q].0 as nat,
            ) by {
                let i = order@[q].1 as int;
                assert(items@[q] == (order@[q].0, v.cells[i]));
                let k = v.index_of(v.cells[i]);
                if k != i {
                    assert(v.cells[k] != v.cells[i]);
                }
                assert(dist@[i] == Some(order@[q].0));
            }
            assert forall|c: Coord|
                v.has_tile(c) && reach(v.cells, open_spec, from, v.index_of(c)) implies exists|
                q: int,
            | #[trigger] names(items@, q, c) by {
                let i = v.index_of(c);
                assert(dist@[i] is Some);
                let q = choose|q: int| #[trigger] listing(order@, q, i);
                assert(items@[q] == (order@[q].0, v.cells[order@[q].1 as int]));
                assert(names(items@, q, c));
            }
            assert forall|a: int, b: int| 0 <= a < b < items@.len() implies (#[trigger] items@[a]).0
                < (#[trigger] items@[b]).0 || (items@[a].0 == items@[b].0 && v.index_of(
                items@[a].1,
            ) < v.index_of(items@[b].1)) by {
                assert(before(order@[a], order@[b]));
                let i = order@[a].1 as int;
                let j = order@[b].1 as int;
                assert(items@[a] == (order@[a].0, v.cells[i]));
                assert(items@[b] == (order@[b].0, v.cells[j]));
                let ki = v.index_of(v.cells[i]);
                if ki != i {
                    assert(v.cells[ki] != v.cells[i]);
                }
                let kj = v.index_of(v.cells[j]);
                if kj != j {
                    assert(v.cells[kj] != v.cells[j]);
                }
            }
        }
        let iter = BfsIter { items, position: 0 };
        assert(iter.pending() =~= items@);
        iter
    }

    /// The list `items` holds the cells that can be reached from the cell
    /// with coordinate `from` over open cells, each once and with its
    /// distance, nearer cells first and cells at one distance as the map
    /// orders them.
    pub open spec fn in_bfs_order(
        &self,
        from: Coord,
        open: Seq<bool>,
        items: Seq<(u32, Coord)>,
    ) -> bool {
        if !self@.has_tile(from) {
            items.len() == 0
        } else {
            &&& forall|q: int|
                0 <= q < items.len() ==> self@.has_tile((#[trigger] items[q]).1) && distance_is(
                    self@.cells,
                    open,
                    self@.index_of(from),
                    self@.index_of(items[q].1),
                    items[q].0 as nat,
                )
            &&& forall|c: Coord|
                self@.has_tile(c) && reach(
                    self@.cells,
                    open,
                    self@.index_of(from),
                    self@.index_of(c),
                ) ==> exists|q: int| #[trigger] names(items, q, c)
            &&& forall|a: int, b: int|
                0 <= a < b < items.len() ==> (#[trigger] items[a]).0 < (#[trigger] items[b]).0 || (
                items[a].0 == items[b].0 && self@.index_of(items[a].1) < self@.index_of(
                    items[b].1,
                ))
        }
    }

    /// The coordinates of the cells that `bfs_iter` reaches, in its order.
    pub fn bfs_all<P: Fn(Coord) -> bool>(&self, coordinate: Coord, predicate: P) -> (cells: Vec<
        Coord,
    >)
        requires
            self.base(),
            forall|c: Coord| self@.has_tile(c) ==> call_requires(predicate, (c,)),
            decided(predicate),
        ensures
            exists|items: Seq<(u32, Coord)>|
                #[trigger] self.in_bfs_order(coordinate, opened(self@.cells, predicate), items)
                    && cells@ == coordinates_of(items),
    {
        let mut iter = self.bfs_iter(coordinate, predicate);
        let ghost items = iter.pending();
        let mut cells: Vec<Coord> = Vec::new();
        loop
            invariant
                iter.wf(),
                iter.pending().len() + cells@.len() == items.len(),
                forall|q: int|
                    0 <= q < iter.pending().len() ==> #[trigger] iter.pending()[q] == items[cells@.len()
                        + q],
                forall|q: int| 0 <= q < cells@.len() ==> #[trigger] cells@[q] == items[q].1,
            ensures
                iter.pending().len() == 0,
            decreases iter.pending().len(),
        {
            match iter.next() {
                Some((_, c)) => {
                    cells.push(c);
                },
                None => {
                    break ;
                },
            }
        }
        assert(cells@ =~= coordinates_of(items));
        cells
    }

    /// The coordinates of the cells that `bfs_iter` reaches, as a set.
    pub fn bfs_set<P: Fn(Coord) -> bool>(&self, coordinate: Coord, predicate: P) -> (set: CoordSet)
        requires
            self.base(),
            forall|c: Coord| self@.has_tile(c) ==> call_requires(predicate, (c,)),
            decided(predicate),
        ensures
            set.wf(),
            forall|c: Coord|
                set@.contains(c) <==> self@.has_tile(coordinate) && self@.has_tile(c) && reach(
                    self@.cells,
                    opened(self@.cells, predicate),
                    self@.index_of(coordinate),
                    self@.index_of(c),
                ),
    {
        let ghost open = opened(self@.cells, predicate);
        let mut iter = self.bfs_iter(coordinate, predicate);
        let ghost items = iter.pending();
        let mut set = CoordSet::new();
        let ghost mut done: int = 0;
        loop
            invariant
                iter.wf(),
                set.wf(),
                0 <= done,
                iter.pending().len() + done == items.len(),
                forall|q: int|
                    0 <= q < iter.pending().len() ==> #[trigger] iter.pending()[q] == items[done
                        + q],
                forall|c: Coord|
                    set@.contains(c) <==> exists|q: int| 0 <= q < done && #[trigger] names(
                        items,
                        q,
                        c,
                    ),
            ensures
                iter.pending().len() == 0,
            decreases iter.pending().len(),
        {
            match iter.next() {
                Some((_, c)) => {
                    let ghost before = set@;
                    set.insert(c);
                    proof {
                        assert(names(items, done, c));
                        assert forall|x: Coord|
                            set@.contains(x) <==> exists|q: int|
                                0 <= q < done + 1 && #[trigger] names(items, q, x) by {
                            if before.contains(x) {
                                let q = choose|q: int| 0 <= q < done && #[trigger] names(items, q, x);
                                assert(names(items, q, x));
                            }
                            if exists|q: int| 0 <= q < done + 1 && #[trigger] names(items, q, x) {
                                let q = choose|q: int|
                                    0 <= q < done + 1 && #[trigger] names(items, q, x);
                                if q < done {
                                    assert(names(items, q, x));
                                }
                            }
                        }
                        done = done + 1;
                    }
                },
                None => {
                    break ;
                },
            }
        }
        proof {
            assert forall|c: Coord|
                set@.contains(c) <==> self@.has_tile(coordinate) && self@.has_tile(c) && reach(
                    self@.cells,
                    open,
                    self@.index_of(coordinate),
                    self@.index_of(c),
                ) by {
                if set@.contains(c) {
                    let q = choose|q: int| 0 <= q < done && #[trigger] names(items, q, c);
                    assert(items[q].1 == c);
                    if self@.has_tile(coordinate) {
                        assert(distance_is(
                            self@.cells,
                            open,
                            self@.index_of(coordinate),
                            self@.index_of(items[q].1),
                            items[q].0 as nat,
                        ));
                    }
                }
                if self@.has_tile(coordinate) && self@.has_tile(c) && reach(
                    self@.cells,
                    open,
                    self@.index_of(coordinate),
                    self@.index_of(c),
                ) {
                    let q = choose|q: int| #[trigger] names(items, q, c);
                    assert(names(items, q, c));
                }
            }
        }
        set
    }

    /// The least number of steps from one cell to another over cells that
    /// meet the predicate, if there is a way at all.
    pub fn bfs_distance<P: Fn(Coord) -> bool>(&self, from: Coord, to: Coord, predicate: P) -> (res:
        Option<u32>)
        requires
            self.base(),
            forall|c: Coord| self@.has_tile(c) ==> call_requires(predicate, (c,)),
            decided(predicate),
        ensures
            match res {
                Some(d) => self@.has_tile(from) && self@.has_tile(to) && distance_is(
                    self@.cells,
                    opened(self@.cells, predicate),
                    self@.index_of(from),
                    self@.index_of(to),
                    d as nat,
                ),
                None => !self@.has_tile(from) || !self@.has_tile(to) || !reach(
                    self@.cells,
                    opened(self@.cells, predicate),
                    self@.index_of(from),
                    self@.index_of(to),
                ),
            },
    {
        let start = match self.map.index_of(&from) {
            Some(i) => i,
            None => {
                return None;
            },
        };
        let goal = match self.map.index_of(&to) {
            Some(i) => i,
            None => {
                return None;
            },
        };
        let open = self.open_cells(&predicate);
        let dist = self.spread(start, &open);
        dist[goal]
    }
}

/// A walk over the cells that a location can reach, nearest first.
#[derive(Clone, PartialEq, Eq, Debug)]
pub struct BfsIter {
    items: Vec<(u32, Coord)>,
    position: usize,
}

impl BfsIter {
    pub closed spec fn wf(&self) -> bool {
        self.position <= self.items@.len()
    }

    /// The cells that are still to come, each with its distance.
    pub closed spec fn pending(&self) -> Seq<(u32, Coord)> {
        self.items@.subrange(self.position as int, self.items@.len() as int)
    }

    /// The next cell with its distance, if any is left.
    pub fn next(&mut self) -> (item: Option<(u32, Coord)>)
        requires
            old(self).wf(),
        ensures
            final(self).wf(),
            match item {
                Some(first) => old(self).pending().len() > 0 && first == old(self).pending()[0]
                    && final(self).pending() == old(self).pending().subrange(
                    1,
                    old(self).pending().len() as int,
                ),
                None => old(self).pending().len() == 0 && final(self).pending() == old(self).pending(),
            },
    {
        if self.position < self.items.len() {
            let item = self.items[self.position];
            self.position += 1;
            assert(self.pending() =~= old(self).pending().subrange(
                1,
                old(self).pending().len() as int,
            ));
            Some(item)
        } else {
            None
        }
    }

    /// How many cells are still to come.
    pub fn len(&self) -> (n: usize)
        requires
            self.wf(),
        ensures
            n == self.pending().len(),
    {
        self.items.len() - self.position
    }
}

/// The predicate gives one answer for each coordinate.
pub open spec fn decided<P: Fn(Coord) -> bool>(predicate: P) -> bool {
    forall|c: Coord, a: bool, b: bool| #[trigger] agreed(predicate, c, a, b)
}

/// If the predicate can answer both `a` and `b` for `c`, they are the same.
pub open spec fn agreed<P: Fn(Coord) -> bool>(predicate: P, c: Coord, a: bool, b: bool) -> bool {
    call_ensures(predicate, (c,), a) && call_ensures(predicate, (c,), b) ==> a == b
}

/// For each cell, whether the predicate holds of its coordinate.
pub open spec fn opened<P: Fn(Coord) -> bool>(cells: Seq<Coord>, predicate: P) -> Seq<bool> {
    Seq::new(cells.len(), |i: int| call_ensures(predicate, (cells[i],), true))
}

/// Entry `p` of the list is cell `i`.
pub open spec fn listing(list: Seq<(u32, usize)>, p: int, i: int) -> bool {
    0 <= p < list.len() && list[p].1 == i
}

/// Entry `q` of the list is the cell with coordinate `c`.
pub open spec fn names(items: Seq<(u32, Coord)>, q: int, c: Coord) -> bool {
    0 <= q < items.len() && items[q].1 == c
}

/// An entry comes before another when it is nearer or, at the same
/// distance, earlier in the map.
pub open spec fn before(a: (u32, usize), b: (u32, usize)) -> bool {
    a.0 < b.0 || (a.0 == b.0 && a.1 < b.1)
}

/// The coordinates of a list of cells with distances.
pub open spec fn coordinates_of(items: Seq<(u32, Coord)>) -> Seq<Coord> {
    Seq::new(items.len(), |q: int| items[q].1)
}

/// What is wrong with a location that is not sound. A split region is the
/// first region of the list that is not in one piece. Two regions of one
/// owner that touch are reported, lower identifier first, only if no region
/// is split: they are the regions of the first cell in the order of the map
/// that touches a region of its own region's owner.
pub open spec fn unsound(v: LocationView, e: LocationValidationError) -> bool {
    match e {
        LocationValidationError::SplitRegions(id) => exists|h: int|
            0 <= h < v.regions.len() && (#[trigger] v.regions[h]).id == id && !v.contiguous(id)
                && forall|g: int| 0 <= g < h ==> v.contiguous((#[trigger] v.regions[g]).id),
        LocationValidationError::SameOwnerBorderingRegions(a, b) => {
            &&& v.all_contiguous()
            &&& a < b
            &&& exists|i: int, j: int|
                {
                    &&& #[trigger] friendly(v.cells, v.region_of, v.regions, i, j)
                    &&& (v.region_of[i] == Some(a) && v.region_of[j] == Some(b) || v.region_of[i]
                        == Some(b) && v.region_of[j] == Some(a))
                    &&& forall|k: int, l: int|
                        0 <= k < i ==> !#[trigger] friendly(v.cells, v.region_of, v.regions, k, l)
                }
        },
        _ => false,
    }
}

/// Region `h` of the list names the coordinate `c`.
pub open spec fn claims(regions: Seq<Region>, h: int, c: Coord) -> bool {
    0 <= h < regions.len() && regions[h].cells()@.contains(c)
}

/// No two regions of the list have one identifier.
pub open spec fn unique_ids(regions: Seq<Region>) -> bool {
    forall|g: int, h: int|
        0 <= g < h < regions.len() ==> (#[trigger] regions[g]).header().id != (
        #[trigger] regions[h]).header().id
}

/// No coordinate is named by two regions of the list.
pub open spec fn disjoint_regions(regions: Seq<Region>) -> bool {
    forall|g: int, h: int, c: Coord|
        g != h && #[trigger] claims(regions, g, c) ==> !#[trigger] claims(regions, h, c)
}

/// The map has every coordinate that a region of the list names.
pub open spec fn on_map(map: TileMap, regions: Seq<Region>) -> bool {
    forall|h: int, c: Coord| #[trigger] claims(regions, h, c) ==> map.has(c)
}

/// The location that a map and a list of regions describe.
pub open spec fn assembled(map: TileMap, regions: Seq<Region>) -> LocationView {
    LocationView {
        cells: map.cells(),
        tiles: map.contents(),
        region_of: Seq::new(
            map.cells().len(),
            |i: int|
                if exists|h: int| #[trigger] claims(regions, h, map.cells()[i]) {
                    Some(
                        regions[choose|h: int| #[trigger] claims(regions, h, map.cells()[i])].header().id,
                    )
                } else {
                    None
                },
        ),
        regions: Seq::new(regions.len(), |h: int| regions[h].header()),
    }
}

/// Entries without a value count nothing.
proof fn lemma_count_marked_prefix(marks: Seq<Option<u32>>, upto: int)
    requires
        0 <= upto <= marks.len(),
        forall|j: int| 0 <= j < upto ==> marks[j] is None,
    ensures
        count_marked(marks, upto) == 0,
    decreases upto,
{
    if upto > 0 {
        lemma_count_marked_prefix(marks, upto - 1);
    }
}

/// The regions of `v` are those of the owners of its cells: a cell has a
/// region exactly if it has an owner, and that owner owns the region.
pub open spec fn owned_as(v: LocationView, owners: Seq<Option<ID>>) -> bool {
    &&& owners.len() == v.region_of.len()
    &&& forall|x: int|
        0 <= x < v.region_of.len() ==> match #[trigger] v.region_of[x] {
            Some(id) => listed(v.regions, id) && owners[x] == Some(owner_in(v.regions, id).id),
            None => owners[x] is None,
        }
}

/// The cells of `owner`.
pub open spec fn owner_mask(owners: Seq<Option<ID>>, owner: ID) -> Seq<bool> {
    Seq::new(owners.len(), |x: int| owners[x] == Some(owner))
}

/// Adjacent cells of one owner are cells of one region, where one of them
/// has a region.
pub open spec fn grown_together(
    cells: Seq<Coord>,
    owners: Seq<Option<ID>>,
    region_of: Seq<Option<ID>>,
) -> bool {
    forall|x: int, y: int|
        0 <= x < region_of.len() && 0 <= y < region_of.len() && #[trigger] near(cells, x, y)
            && region_of[x] is Some && owners[x] == owners[y] ==> region_of[y] == region_of[x]
}

/// A walk over the cells of one owner stays in the region in which it
/// starts.
proof fn lemma_walk_in_region(
    cells: Seq<Coord>,
    owners: Seq<Option<ID>>,
    region_of: Seq<Option<ID>>,
    owner: ID,
    from: int,
    to: int,
    steps: nat,
)
    requires
        owners.len() == cells.len(),
        region_of.len() == cells.len(),
        grown_together(cells, owners, region_of),
        walk(cells, owner_mask(owners, owner), from, to, steps),
        region_of[from] is Some,
    ensures
        region_of[to] == region_of[from],
    decreases steps,
{
    let open = owner_mask(owners, owner);
    if steps > 0 {
        if walk(cells, open, from, to, (steps - 1) as nat) {
            lemma_walk_in_region(cells, owners, region_of, owner, from, to, (steps - 1) as nat);
        } else {
            let via = choose|via: int| #[trigger]
                near(cells, via, to) && walk(cells, open, from, via, (steps - 1) as nat);
            lemma_walk_in_region(cells, owners, region_of, owner, from, via, (steps - 1) as nat);
            lemma_walk_passable(cells, open, from, via, (steps - 1) as nat);
            lemma_walk_passable(cells, open, from, to, steps);
        }
    }
}

impl Location {
    /// For each cell, whether `owner` owns it.
    fn owned_cells(owners: &Vec<Option<ID>>, owner: ID) -> (open: Vec<bool>)
        ensures
            open@ == owner_mask(owners@, owner),
    {
        let n = owners.len();
        let mut open: Vec<bool> = Vec::new();
        let mut i: usize = 0;
        while i < n
            invariant
                n == owners@.len(),
                i <= n,
                open@.len() == i,
                forall|x: int| 0 <= x < i ==> open@[x] == (owners@[x] == Some(owner)),
            decreases n - i,
        {
            let mine = match owners[i] {
                Some(o) => o == owner,
                None => false,
            };
            open.push(mine);
            i += 1;
        }
        assert(open@ =~= owner_mask(owners@, owner));
        open
    }

    /// Makes a location of a map and the owners of its cells. The cells of
    /// one owner that hang together become one region. The regions are
    /// listed in the order in which the map meets their first cells, and
    /// they get the next identifiers of `ids` in that order.
    pub fn of_owners(map: TileMap, owners: &Vec<Option<ID>>, ids: &mut IdProducer) -> (location:
        Self)
        requires
            map.wf(),
            owners@.len() == map.cells().len(),
            old(ids).remaining() >= map.cells().len(),
        ensures
            location.valid(),
            location@.cells == map.cells(),
            location@.tiles == map.contents(),
            owned_as(location@, owners@),
            location@.regions.len() <= map.cells().len(),
            final(ids).last_issued() == old(ids).last_issued() + location@.regions.len(),
            forall|h: int|
                0 <= h < location@.regions.len() ==> (#[trigger] location@.regions[h]).id == old(
                    ids,
                ).last_issued() + h + 1,
    {
        let unclaimed: Vec<Region> = Vec::new();
        let ghost cells = map.cells();
        let ghost tiles = map.contents();
        let ghost start = ids.last_issued();
        let mut location = Self::assemble(map, &unclaimed);
        let n = location.size();
        assert(location@.regions =~= Seq::<RegionHeader>::empty());
        assert forall|x: int| 0 <= x < n implies (#[trigger] location@.region_of[x]) is None by {
            assert(forall|h: int| !claims(unclaimed@, h, cells[x]));
        }
        let mut i: usize = 0;
        while i < n
            invariant
                location.base(),
                n == location@.size(),
                location@.cells == cells,
                location@.tiles == tiles,
                owners@.len() == n,
                i <= n,
                start + n <= u32::MAX,
                location@.regions.len() <= i,
                ids.last_issued() == start + location@.regions.len(),
                distinct_ids(location@.regions),
                forall|h: int|
                    0 <= h < location@.regions.len() ==> (#[trigger] location@.regions[h]).id
                        == start + h + 1,
                forall|x: int|
                    0 <= x < n ==> match #[trigger] location@.region_of[x] {
                        Some(id) => listed(location@.regions, id) && owners@[x] == Some(
                            owner_in(location@.regions, id).id,
                        ),
                        None => true,
                    },
                forall|x: int|
                    0 <= x < i && owners@[x] is Some ==> (#[trigger] location@.region_of[x])
                        is Some,
                grown_together(cells, owners@, location@.region_of),
                location@.all_contiguous(),
                location@.inhabited(),
            decreases n - i,
        {
            let at: Option<ID> = location.region_of[i];
            match owners[i] {
                Some(owner) => {
                    if at.is_none() {
                        let open = Self::owned_cells(owners, owner);
                        let part = location.spread(i, &open);
                        let ghost before = location@;
                        let id = ids.next_id();
                        let header = RegionHeader { id, owner: Player::new(owner) };
                        assert(!listed(before.regions, id));
                        location.add_header(header);
                        location.relabel(&part, id);
                        proof {
                            let was = before.region_of;
                            let now = location@.region_of;
                            let here = i as int;
                            assert(walk(cells, open@, here, here, 0));
                            assert(reach(cells, open@, here, here));
                            assert(part@[here] is Some);
                            // What the walk reaches had no region.
                            assert forall|x: int| 0 <= x < n && (#[trigger] part@[x])
                                is Some implies was[x] is None && owners@[x] == Some(owner) by {
                                let k = choose|k: nat| walk(cells, open@, here, x, k);
                                lemma_walk_passable(cells, open@, here, x, k);
                                if was[x] is Some {
                                    lemma_walk_back(cells, open@, here, x, k);
                                    let back = choose|back: nat|
                                        walk(cells, open@, x, here, back);
                                    lemma_walk_in_region(cells, owners@, was, owner, x, here, back);
                                }
                            }
                            assert forall|x: int| 0 <= x < n implies (now[x] == Some(id)) == (
                            #[trigger] part@[x] is Some) by {
                                if part@[x] is None && was[x] is Some {
                                    assert(listed(before.regions, was[x]->0));
                                }
                            }
                            assert(location@.regions[before.regions.len() as int] == header);
                            assert forall|h: int|
                                0 <= h < location@.regions.len() implies (
                            #[trigger] location@.regions[h]).id == start + h + 1 by {
                                if h < before.regions.len() {
                                    assert(location@.regions[h] == before.regions[h]);
                                }
                            }
                            assert forall|x: int| 0 <= x < n implies match #[trigger] now[x] {
                                Some(r) => listed(location@.regions, r) && owners@[x] == Some(
                                    owner_in(location@.regions, r).id,
                                ),
                                None => true,
                            } by {
                                if part@[x] is None {
                                    assert(now[x] == was[x]);
                                    if was[x] is Some {
                                        assert(listed(before.regions, was[x]->0));
                                    }
                                }
                            }
                            assert forall|x: int, y: int|
                                0 <= x < n && 0 <= y < n && #[trigger] near(cells, x, y)
                                    && now[x] is Some && owners@[x] == owners@[y] implies now[y]
                                    == now[x] by {
                                if part@[x] is Some {
                                    assert(passable(cells, open@, y));
                                    lemma_reach_step(cells, open@, here, x, y);
                                    assert(part@[y] is Some);
                                } else {
                                    assert(now[x] == was[x]);
                                    assert(was[y] == was[x]);
                                    assert(part@[y] is None);
                                }
                            }
                            let mask = region_mask(now, id);
                            assert forall|h: int|
                                0 <= h < location@.regions.len() implies in_one_piece(
                                cells,
                                now,
                                (#[trigger] location@.regions[h]).id,
                            ) && populated(now, location@.regions[h].id) by {
                                let r = location@.regions[h].id;
                                if h < before.regions.len() {
                                    assert(before.regions[h].id == r);
                                    assert(r != id);
                                    assert(in_one_piece(cells, was, r));
                                    lemma_one_piece_same(cells, was, now, r);
                                    let x = choose|x: int| holds(was, x, r);
                                    assert(part@[x] is None);
                                    assert(holds(now, x, r));
                                } else {
                                    assert(r == id);
                                    assert(holds(now, here, id));
                                    assert forall|x: int|
                                        reach(cells, open@, here, x) implies passable(
                                        cells,
                                        mask,
                                        x,
                                    ) by {
                                        let k = choose|k: nat| walk(cells, open@, here, x, k);
                                        lemma_walk_passable(cells, open@, here, x, k);
                                        assert(part@[x] is Some);
                                    }
                                    assert forall|a: int, b: int|
                                        0 <= a < n && 0 <= b < n && now[a] == Some(id) && now[b]
                                            == Some(id) implies #[trigger] reach(
                                        cells,
                                        mask,
                                        a,
                                        b,
                                    ) by {
                                        assert(part@[a] is Some && part@[b] is Some);
                                        let ka = choose|k: nat| walk(cells, open@, here, a, k);
                                        let kb = choose|k: nat| walk(cells, open@, here, b, k);
                                        lemma_walk_within(cells, open@, mask, here, a, ka);
                                        lemma_walk_within(cells, open@, mask, here, b, kb);
                                        lemma_reach_back(cells, mask, here, a);
                                        lemma_reach_join(cells, mask, a, here, b);
                                    }
                                }
                            }
                        }
                    }
                },
                None => {},
            }
            i += 1;
        }
        proof {
            let v = location@;
            assert forall|x: int| 0 <= x < v.region_of.len() implies match #[trigger] v.region_of[x] {
                Some(id) => listed(v.regions, id) && owners@[x] == Some(owner_in(v.regions, id).id),
                None => owners@[x] is None,
            } by {}
            assert forall|a: int, b: int| !#[trigger] friendly(v.cells, v.region_of, v.regions, a, b) by {
                if friendly(v.cells, v.region_of, v.regions, a, b) {
                    assert(0 <= a < n && 0 <= b < n);
                    assert(owners@[a] == owners@[b]);
                }
            }
        }
        location
    }
}

} // verus!
