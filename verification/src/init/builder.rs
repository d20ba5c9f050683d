//! A builder of games.
//!
//! The builder begins with a blank map, all water, in the shape of a
//! rectangle or a circle. Land is raised on it tile by tile and given to
//! players. Of the finished map the builder makes the regions, gives each of
//! them a capital and begins the game.

use vstd::prelude::*;
use crate::game::coord::{disc, hex_line, hex_range, lemma_disc_len, line_cells, Coord};
use crate::game::engine::{refused, started, EngineValidationError, GameEngine, MAP_LIMIT};
use crate::game::ids::{IdProducer, ID};
use crate::game::layout::{holds, lemma_place_of, listed, place_of, populated, LocationView};
use crate::game::location::{owned_as, Location, TileMap};
use crate::game::rules::players_agree;
use crate::game::tile::{Player, Tile, TileSurface, Unit, UnitType};

verus! {

/// The largest radius of a circle: a larger one may hold more tiles than
/// `MAP_LIMIT`.
pub const MAX_RADIUS: u32 = 2_235;

#[derive(Copy, Clone, Debug, PartialEq, Eq)]
pub enum GameEngineBuilderInitiationError {
    /// Fewer players than the number given here.
    NotEnoughPlayers(u8),
    TooSmallMap,
}

#[derive(Copy, Clone, Debug, PartialEq, Eq)]
pub enum GameEngineBuilderModificationError {
    CoordinateOutOfBounds(Coord),
    CoordinateCannotBeOwned(Coord),
    NoSuchPlayer(ID),
}

/// A map in the making: the tiles, the owner of each tile that has one, and
/// the players.
#[derive(Clone, Debug, PartialEq, Eq)]
pub struct GameEngineBuilder {
    map: TileMap,
    /// The owner of each cell, in the order of the map.
    owners: Vec<Option<ID>>,
    id_producer: IdProducer,
    players: Vec<Player>,
}

/// What a builder holds.
pub struct BuilderView {
    pub cells: Seq<Coord>,
    pub tiles: Seq<Tile>,
    /// The owner of each cell, in the order of the cells.
    pub owners: Seq<Option<ID>>,
    pub players: Seq<Player>,
    /// The last identifier that was given out.
    pub last_id: ID,
}

/// Player `id` is on the list.
pub open spec fn enlisted(players: Seq<Player>, id: ID) -> bool {
    exists|k: int| 0 <= k < players.len() && (#[trigger] players[k]).id == id
}

/// Coordinate `c` is the cell `i`.
pub open spec fn found_at(cells: Seq<Coord>, c: Coord, i: int) -> bool {
    0 <= i < cells.len() && cells[i] == c
}

impl BuilderView {
    pub open spec fn has(self, c: Coord) -> bool {
        exists|i: int| found_at(self.cells, c, i)
    }

    pub open spec fn index_of(self, c: Coord) -> int {
        choose|i: int| found_at(self.cells, c, i)
    }

    /// Every cell is an inner cell with one tile, none occurs twice, no tile
    /// holds a unit, and what has an owner is land of a player on the list.
    pub open spec fn wf(self) -> bool {
        &&& self.tiles.len() == self.cells.len()
        &&& self.owners.len() == self.cells.len()
        &&& self.cells.len() <= MAP_LIMIT
        &&& self.last_id <= MAP_LIMIT + 255
        &&& forall|i: int, j: int|
            0 <= i < self.cells.len() && 0 <= j < self.cells.len() && i != j ==> self.cells[i]
                != self.cells[j]
        &&& forall|i: int| 0 <= i < self.cells.len() ==> (#[trigger] self.cells[i]).is_inner()
        &&& forall|i: int| 0 <= i < self.tiles.len() ==> (#[trigger] self.tiles[i]).unit is None
        &&& forall|i: int|
            0 <= i < self.owners.len() ==> match #[trigger] self.owners[i] {
                Some(owner) => self.tiles[i].surface is Land && enlisted(self.players, owner),
                None => true,
            }
    }

    /// The tile of cell `i` gets the surface; its owner loses it.
    pub open spec fn with_surface(self, i: int, surface: TileSurface) -> BuilderView {
        BuilderView {
            tiles: self.tiles.update(i, Tile { surface, ..self.tiles[i] }),
            owners: self.owners.update(i, None),
            ..self
        }
    }

    /// Cell `i` gets the owner.
    pub open spec fn with_owner(self, i: int, owner: ID) -> BuilderView {
        BuilderView { owners: self.owners.update(i, Some(owner)), ..self }
    }
}

/// The map that comes of putting a water tile on each of the first `upto`
/// cells of a list, one after the other: the tile of the cell at place `k`
/// has the identifier `k + 1`, a cell that comes again has its tile
/// replaced, and a cell on the rim of the `i32` range is left out.
pub open spec fn poured(list: Seq<(i32, i32)>, upto: nat) -> (Seq<Coord>, Seq<Tile>)
    decreases upto,
{
    if upto == 0 {
        (Seq::empty(), Seq::empty())
    } else {
        let before = poured(list, (upto - 1) as nat);
        let c = Coord { x: list[upto - 1].0, y: list[upto - 1].1 };
        let tile = Tile { id: upto as ID, surface: TileSurface::Water, unit: None };
        if !c.is_inner() {
            before
        } else if exists|i: int| found_at(before.0, c, i) {
            (before.0, before.1.update(choose|i: int| found_at(before.0, c, i), tile))
        } else {
            (before.0.push(c), before.1.push(tile))
        }
    }
}

/// The builder of a blank map of the cells of a list, for a number of
/// players: nothing has an owner, and the players have the identifiers that
/// follow those of the tiles.
pub open spec fn blank(list: Seq<(i32, i32)>, players_num: nat) -> BuilderView {
    let map = poured(list, list.len());
    BuilderView {
        cells: map.0,
        tiles: map.1,
        owners: Seq::new(map.0.len(), |i: int| None),
        players: Seq::new(players_num, |k: int| Player { id: (list.len() + k + 1) as ID }),
        last_id: (list.len() + players_num) as ID,
    }
}

/// The cell with which row `row` of a rectangle begins: each row begins one
/// step to the right of the row before it, and every second row one step
/// down as well.
pub open spec fn row_start(row: int) -> (i32, i32) {
    (row as i32, (-((row + 1) / 2)) as i32)
}

/// The cells of the first `rows` rows of a rectangle, each row a line of
/// `width` cells.
pub open spec fn rectangle_cells(width: int, rows: nat) -> Seq<(i32, i32)>
    decreases rows,
{
    if rows == 0 {
        Seq::empty()
    } else {
        let from = row_start(rows - 1);
        rectangle_cells(width, (rows - 1) as nat) + line_cells(
            from.0,
            from.1,
            from.0,
            (from.1 + width - 1) as i32,
        )
    }
}

/// Cell `i` is the first cell of its region in the order of the map.
pub open spec fn leads(region_of: Seq<Option<ID>>, i: int) -> bool {
    &&& 0 <= i < region_of.len()
    &&& region_of[i] is Some
    &&& forall|j: int| 0 <= j < i ==> region_of[j] != region_of[i]
}

/// The capital on cell `i` of the location `v` that is made of the builder
/// `b`, if the cell gets one: the first cell of each region does, and the
/// capitals have the identifiers that follow those of the regions, in the
/// order of the regions.
pub open spec fn capital_on(b: BuilderView, v: LocationView, i: int) -> Option<Unit> {
    if leads(v.region_of, i) {
        Some(
            Unit {
                id: (b.last_id + v.regions.len() + place_of(v.regions, v.region_of[i]->0)
                    + 1) as ID,
                unit_type: UnitType::Village,
            },
        )
    } else {
        None
    }
}

/// The location `v` is the one that is made of the builder `b`: the tiles
/// are those of the builder; the cells of one owner that hang together are
/// one region, and regions of one owner do not touch; the regions have the
/// identifiers that follow the last one of the builder; and the first cell
/// of each region holds its capital.
pub open spec fn drafted(b: BuilderView, v: LocationView) -> bool {
    &&& v.valid()
    &&& v.cells == b.cells
    &&& owned_as(v, b.owners)
    &&& forall|h: int|
        0 <= h < v.regions.len() ==> (#[trigger] v.regions[h]).id == b.last_id + h + 1
    &&& v.tiles.len() == b.tiles.len()
    &&& forall|i: int|
        0 <= i < v.tiles.len() ==> #[trigger] v.tiles[i] == (Tile {
            unit: capital_on(b, v, i),
            ..b.tiles[i]
        })
}

impl View for GameEngineBuilder {
    type V = BuilderView;

    closed spec fn view(&self) -> BuilderView {
        BuilderView {
            cells: self.map.cells(),
            tiles: self.map.contents(),
            owners: self.owners@,
            players: self.players@,
            last_id: self.id_producer.last_issued(),
        }
    }
}

impl GameEngineBuilder {
    pub open spec fn wf(&self) -> bool {
        self@.wf()
    }

    /// A blank map of the cells of a list, for a number of players.
    pub fn of_cells(list: &Vec<(i32, i32)>, players_num: u8) -> (res: Result<
        Self,
        GameEngineBuilderInitiationError,
    >)
        requires
            list@.len() <= MAP_LIMIT,
        ensures
            match res {
                Ok(builder) => players_num >= 2 && builder.wf() && builder@ == blank(
                    list@,
                    players_num as nat,
                ),
                Err(error) => players_num <= 1 && error
                    == GameEngineBuilderInitiationError::NotEnoughPlayers(2),
            },
    {
        if players_num <= 1 {
            return Err(GameEngineBuilderInitiationError::NotEnoughPlayers(2));
        }
        let n = list.len();
        let mut map = TileMap::new();
        let mut id_producer = IdProducer::default();
        let mut k: usize = 0;
        while k < n
            invariant
                n == list@.len(),
                n <= MAP_LIMIT,
                k <= n,
                map.wf(),
                map.cells().len() <= k,
                (map.cells(), map.contents()) == poured(list@, k as nat),
                id_producer.last_issued() == k,
                forall|i: int| 0 <= i < map.contents().len() ==> (#[trigger] map.contents()[i]).unit is None,
            decreases n - k,
        {
            let id = id_producer.next_id();
            let c = Coord::new(list[k].0, list[k].1);
            if c.check_inner() {
                let ghost before = (map.cells(), map.contents());
                proof {
                    if exists|i: int| found_at(before.0, c, i) {
                        let i = choose|i: int| found_at(before.0, c, i);
                        assert(found_at(before.0, c, i));
                        assert(map.has(c));
                        assert(map.slot(c) == i);
                    } else {
                        if map.has(c) {
                            assert(found_at(before.0, c, map.slot(c)));
                        }
                    }
                }
                map.insert(c, Tile::new(id, TileSurface::Water));
            }
            k += 1;
        }
        let mut players: Vec<Player> = Vec::new();
        let mut p: u8 = 0;
        while p < players_num
            invariant
                n == list@.len(),
                n <= MAP_LIMIT,
                p <= players_num,
                players@.len() == p,
                id_producer.last_issued() == n + p,
                forall|j: int| 0 <= j < p ==> (#[trigger] players@[j]) == (Player { id: (n + j + 1) as ID }),
            decreases players_num - p,
        {
            players.push(Player::new(id_producer.next_id()));
            p += 1;
        }
        let mut owners: Vec<Option<ID>> = Vec::new();
        let size = map.len();
        let mut i: usize = 0;
        while i < size
            invariant
                i <= size,
                owners@.len() == i,
                forall|j: int| 0 <= j < i ==> (#[trigger] owners@[j]) is None,
            decreases size - i,
        {
            owners.push(None);
            i += 1;
        }
        let builder = GameEngineBuilder { map, owners, id_producer, players };
        proof {
            let want = blank(list@, players_num as nat);
            assert(builder@.owners =~= want.owners);
            assert(builder@.players =~= want.players);
        }
        Ok(builder)
    }
}

impl GameEngineBuilder {
    /// A blank map of `height` rows of `width` tiles. A map with a side of
    /// fewer than five tiles is too small.
    pub fn rectangle(width: u32, height: u32, players_num: u8) -> (res: Result<
        Self,
        GameEngineBuilderInitiationError,
    >)
        requires
            width < 5 || height < 5 || width * height <= MAP_LIMIT,
        ensures
            match res {
                Ok(builder) => width >= 5 && height >= 5 && players_num >= 2 && builder.wf()
                    && builder@ == blank(
                    rectangle_cells(width as int, height as nat),
                    players_num as nat,
                ),
                Err(GameEngineBuilderInitiationError::TooSmallMap) => width < 5 || height < 5,
                Err(GameEngineBuilderInitiationError::NotEnoughPlayers(least)) => width >= 5
                    && height >= 5 && players_num <= 1 && least == 2,
            },
    {
        if width < 5 || height < 5 {
            return Err(GameEngineBuilderInitiationError::TooSmallMap);
        }
        assert(width <= 4_000_000 && height <= 4_000_000) by (nonlinear_arith)
            requires
                5 <= width,
                5 <= height,
                width * height <= 20_000_000,
        ;
        let mut list: Vec<(i32, i32)> = Vec::new();
        let mut start = Coord::new(0, 0);
        let mut row: u32 = 0;
        while row < height
            invariant
                5 <= width,
                5 <= height,
                width * height <= MAP_LIMIT,
                width <= 4_000_000,
                height <= 4_000_000,
                row <= height,
                (start.x, start.y) == row_start(row as int),
                list@ == rectangle_cells(width as int, row as nat),
                list@.len() == row * width,
            decreases height - row,
        {
            let end: i32 = start.y + (width - 1) as i32;
            let mut line = hex_line(start.x, start.y, start.x, end);
            assert(line@.len() == width);
            assert((row + 1) * width == row * width + width && (row + 1) * width <= height
                * width) by (nonlinear_arith)
                requires
                    row < height,
            ;
            list.append(&mut line);
            let around = start.neighbors();
            assert(around[2] == start.neighbor(2) && around[1] == start.neighbor(1));
            start = if row % 2 == 0 {
                around[2]
            } else {
                around[1]
            };
            row += 1;
        }
        assert(height * width == width * height) by (nonlinear_arith);
        Self::of_cells(&list, players_num)
    }

    /// A blank map of all tiles that are at most `radius` steps away from
    /// the tile in the middle. A radius under three is too small.
    pub fn circle(radius: u32, players_num: u8) -> (res: Result<
        Self,
        GameEngineBuilderInitiationError,
    >)
        requires
            radius <= MAX_RADIUS,
        ensures
            match res {
                Ok(builder) => radius >= 3 && players_num >= 2 && builder.wf() && builder@
                    == blank(disc(0, 0, radius as int, (2 * radius + 1) as nat), players_num as nat),
                Err(GameEngineBuilderInitiationError::TooSmallMap) => radius < 3,
                Err(GameEngineBuilderInitiationError::NotEnoughPlayers(least)) => radius >= 3
                    && players_num <= 1 && least == 2,
            },
    {
        if radius < 3 {
            return Err(GameEngineBuilderInitiationError::TooSmallMap);
        }
        let list = hex_range(0, 0, radius as i32);
        proof {
            lemma_disc_len(0, 0, radius as int, (2 * radius + 1) as nat);
            assert((2 * radius + 1) * (2 * radius + 1) <= MAP_LIMIT) by (nonlinear_arith)
                requires
                    radius <= 2_235,
            ;
        }
        Self::of_cells(&list, players_num)
    }

    pub fn map(&self) -> (map: &TileMap)
        requires
            self.wf(),
        ensures
            map.wf(),
            map.cells() == self@.cells,
            map.contents() == self@.tiles,
    {
        &self.map
    }

    pub fn players(&self) -> (players: &Vec<Player>)
        ensures
            players@ == self@.players,
    {
        &self.players
    }

    /// The owner of each cell, in the order of the map.
    pub fn owners(&self) -> (owners: &Vec<Option<ID>>)
        ensures
            owners@ == self@.owners,
    {
        &self.owners
    }

    /// The owner of a coordinate, if the map has it and it has one.
    pub fn owner_at(&self, coordinate: Coord) -> (owner: Option<ID>)
        requires
            self.wf(),
        ensures
            owner == if self@.has(coordinate) {
                self@.owners[self@.index_of(coordinate)]
            } else {
                None
            },
    {
        match self.map.index_of(&coordinate) {
            Some(i) => {
                proof {
                    self.lemma_index(coordinate, i as int);
                }
                self.owners[i]
            },
            None => {
                assert forall|i: int| !found_at(self@.cells, coordinate, i) by {
                    if found_at(self@.cells, coordinate, i) {
                        assert(self.map.has(coordinate));
                    }
                }
                None
            },
        }
    }

    /// Where the map has a coordinate, that is its place.
    proof fn lemma_index(&self, coordinate: Coord, i: int)
        requires
            self.wf(),
            found_at(self@.cells, coordinate, i),
        ensures
            self@.has(coordinate),
            self@.index_of(coordinate) == i,
    {
        let j = self@.index_of(coordinate);
        assert(found_at(self@.cells, coordinate, j));
    }

    /// Whether a player has this identifier.
    fn has_player(&self, id: ID) -> (found: bool)
        ensures
            found == enlisted(self@.players, id),
    {
        let n = self.players.len();
        let mut k: usize = 0;
        while k < n
            invariant
                n == self.players@.len(),
                k <= n,
                forall|j: int| 0 <= j < k ==> (#[trigger] self.players@[j]).id != id,
            decreases n - k,
        {
            if self.players[k].id == id {
                return true;
            }
            k += 1;
        }
        false
    }

    /// Makes the tile of a coordinate land or water. Whoever owned the tile
    /// owns it no more.
    pub fn set_surface(&mut self, coordinate: Coord, surface: TileSurface) -> (res: Result<
        (),
        GameEngineBuilderModificationError,
    >)
        requires
            old(self).wf(),
        ensures
            final(self).wf(),
            match res {
                Ok(()) => old(self)@.has(coordinate) && final(self)@ == old(self)@.with_surface(
                    old(self)@.index_of(coordinate),
                    surface,
                ),
                Err(error) => !old(self)@.has(coordinate) && error
                    == GameEngineBuilderModificationError::CoordinateOutOfBounds(coordinate)
                    && *final(self) == *old(self),
            },
    {
        match self.map.index_of(&coordinate) {
            Some(i) => {
                proof {
                    self.lemma_index(coordinate, i as int);
                }
                let tile = *self.map.tile(i);
                self.map.insert(coordinate, Tile { id: tile.id, surface, unit: tile.unit });
                self.owners.set(i, None);
                assert(self@.tiles =~= old(self)@.with_surface(i as int, surface).tiles);
                Ok(())
            },
            None => {
                assert forall|i: int| !found_at(self@.cells, coordinate, i) by {
                    if found_at(self@.cells, coordinate, i) {
                        assert(self.map.has(coordinate));
                    }
                }
                Err(GameEngineBuilderModificationError::CoordinateOutOfBounds(coordinate))
            },
        }
    }

    /// Gives the tile of a coordinate to a player. The map has to have the
    /// coordinate, the player has to be on the list, and the tile has to be
    /// land; what is amiss is reported in this order.
    pub fn set_owner(&mut self, coordinate: Coord, owner_id: ID) -> (res: Result<
        (),
        GameEngineBuilderModificationError,
    >)
        requires
            old(self).wf(),
        ensures
            final(self).wf(),
            res is Err ==> *final(self) == *old(self),
            match res {
                Ok(()) => old(self)@.has(coordinate) && enlisted(old(self)@.players, owner_id)
                    && old(self)@.tiles[old(self)@.index_of(coordinate)].surface is Land
                    && final(self)@ == old(self)@.with_owner(
                    old(self)@.index_of(coordinate),
                    owner_id,
                ),
                Err(GameEngineBuilderModificationError::CoordinateOutOfBounds(c)) => c
                    == coordinate && !old(self)@.has(coordinate),
                Err(GameEngineBuilderModificationError::NoSuchPlayer(id)) => id == owner_id
                    && old(self)@.has(coordinate) && !enlisted(old(self)@.players, owner_id),
                Err(GameEngineBuilderModificationError::CoordinateCannotBeOwned(c)) => c
                    == coordinate && old(self)@.has(coordinate) && enlisted(
                    old(self)@.players,
                    owner_id,
                ) && old(self)@.tiles[old(self)@.index_of(coordinate)].surface is Water,
            },
    {
        match self.map.index_of(&coordinate) {
            Some(i) => {
                proof {
                    self.lemma_index(coordinate, i as int);
                }
                if !self.has_player(owner_id) {
                    return Err(GameEngineBuilderModificationError::NoSuchPlayer(owner_id));
                }
                if !self.map.tile(i).surface().is_land() {
                    return Err(
                        GameEngineBuilderModificationError::CoordinateCannotBeOwned(coordinate),
                    );
                }
                self.owners.set(i, Some(owner_id));
                Ok(())
            },
            None => {
                assert forall|i: int| !found_at(self@.cells, coordinate, i) by {
                    if found_at(self@.cells, coordinate, i) {
                        assert(self.map.has(coordinate));
                    }
                }
                Err(GameEngineBuilderModificationError::CoordinateOutOfBounds(coordinate))
            },
        }
    }
}

/// The capital that cell `i` has when the regions before region `upto` have
/// theirs, the first of which has the identifier `base + 1`.
pub open spec fn capital_so_far(v: LocationView, base: int, upto: int, i: int) -> Option<Unit> {
    if leads(v.region_of, i) && place_of(v.regions, v.region_of[i]->0) < upto {
        Some(
            Unit {
                id: (base + place_of(v.regions, v.region_of[i]->0) + 1) as ID,
                unit_type: UnitType::Village,
            },
        )
    } else {
        None
    }
}

impl GameEngineBuilder {
    /// Puts a capital on the first cell of every region.
    fn set_capitals(location: &mut Location, ids: &mut IdProducer)
        requires
            old(location).valid(),
            forall|i: int|
                0 <= i < old(location)@.tiles.len() ==> (#[trigger] old(location)@.tiles[i]).unit
                    is None,
            old(ids).remaining() >= old(location)@.regions.len(),
        ensures
            final(location).valid(),
            final(location)@.cells == old(location)@.cells,
            final(location)@.region_of == old(location)@.region_of,
            final(location)@.regions == old(location)@.regions,
            final(location)@.tiles.len() == old(location)@.tiles.len(),
            final(ids).last_issued() == old(ids).last_issued() + old(location)@.regions.len(),
            forall|i: int|
                0 <= i < old(location)@.tiles.len() ==> #[trigger] final(location)@.tiles[i] == (
                Tile {
                    unit: capital_so_far(
                        old(location)@,
                        old(ids).last_issued() as int,
                        old(location)@.regions.len() as int,
                        i,
                    ),
                    ..old(location)@.tiles[i]
                }),
    {
        let ghost v = location@;
        let ghost base = ids.last_issued() as int;
        let count = location.region_headers().len();
        let mut h: usize = 0;
        while h < count
            invariant
                location.valid(),
                v.valid(),
                count == v.regions.len(),
                h <= count,
                location@.cells == v.cells,
                location@.region_of == v.region_of,
                location@.regions == v.regions,
                location@.tiles.len() == v.tiles.len(),
                ids.last_issued() == base + h,
                base + count <= u32::MAX,
                forall|i: int| 0 <= i < v.tiles.len() ==> (#[trigger] v.tiles[i]).unit is None,
                forall|i: int|
                    0 <= i < v.tiles.len() ==> #[trigger] location@.tiles[i] == (Tile {
                        unit: capital_so_far(v, base, h as int, i),
                        ..v.tiles[i]
                    }),
            decreases count - h,
        {
            let id = location.region_headers()[h].id;
            proof {
                lemma_place_of(v.regions, h as int);
                assert(populated(v.region_of, v.regions[h as int].id));
                let x = choose|x: int| holds(v.region_of, x, id);
                assert(location@.in_region(x, id));
            }
            match location.first_cell_of(id) {
                Some(first) => {
                    let unit = Unit::new(ids.next_id(), UnitType::Village);
                    let ghost before = location@;
                    location.put(first, Some(unit));
                    proof {
                        assert(leads(v.region_of, first as int)) by {
                            assert forall|j: int| 0 <= j < first implies v.region_of[j]
                                != v.region_of[first as int] by {
                                assert(!before.in_region(j, id));
                            }
                        }
                        assert forall|i: int| 0 <= i < v.tiles.len() implies #[trigger] location@.tiles[i]
                            == (Tile { unit: capital_so_far(v, base, h + 1, i), ..v.tiles[i] }) by {
                            assert(before.tiles[i] == (Tile {
                                unit: capital_so_far(v, base, h as int, i),
                                ..v.tiles[i]
                            }));
                            if leads(v.region_of, i) {
                                let r = v.region_of[i]->0;
                                assert(listed(v.regions, r));
                                assert(v.regions[place_of(v.regions, r)].id == r);
                                if place_of(v.regions, r) == h && i != first {
                                    assert(r == id);
                                    assert(before.in_region(i, id));
                                    assert(before.in_region(first as int, id));
                                }
                            }
                        }
                    }
                },
                None => {},
            }
            h += 1;
        }
    }

    /// Makes the regions of the map, gives each of them a capital on its
    /// first tile and begins the game.
    pub fn build(self) -> (res: Result<GameEngine, EngineValidationError>)
        requires
            self.wf(),
        ensures
            match res {
                Ok(engine) => {
                    &&& engine.wf()
                    &&& drafted(self@, engine@.location)
                    &&& players_agree(engine@.location, self@.players)
                    &&& engine@ == started(
                        engine@.location,
                        self@.players,
                        (self@.last_id + 2 * engine@.location.regions.len()) as ID,
                    )
                },
                Err(error) => exists|v: LocationView| #[trigger]
                    drafted(self@, v) && refused(v, self@.players, error),
            },
    {
        let ghost b = self@;
        let GameEngineBuilder { map, owners, id_producer, players } = self;
        let mut ids = id_producer;
        let mut location = Location::of_owners(map, &owners, &mut ids);
        let ghost plain = location@;
        Self::set_capitals(&mut location, &mut ids);
        let ghost v = location@;
        proof {
            assert forall|i: int| 0 <= i < v.tiles.len() implies #[trigger] v.tiles[i] == (Tile {
                unit: capital_on(b, v, i),
                ..b.tiles[i]
            }) by {
                assert(capital_on(b, v, i) == capital_so_far(
                    plain,
                    b.last_id + plain.regions.len(),
                    plain.regions.len() as int,
                    i,
                )) by {
                    if leads(v.region_of, i) {
                        let r = v.region_of[i]->0;
                        assert(listed(v.regions, r));
                    }
                }
            }
            assert(drafted(b, v));
        }
        GameEngine::new(location, players, ids)
    }
}

} // verus!
