//! The mathematical picture of a location: its cells in the order in which
//! the map stores them, what lies on each, and to which region each belongs.

use vstd::prelude::*;
use super::coord::Coord;
use super::ids::ID;
use super::tile::{Player, Tile, Unit, UnitType};
use super::walk::{near, reach};

verus! {

/// What a region is apart from its cells: who it is and whose it is.
#[derive(Copy, Clone, PartialEq, Eq, Hash, Debug)]
pub struct RegionHeader {
    pub id: ID,
    pub owner: Player,
}

/// A location as the contracts see it. Cell `i` has the coordinate
/// `cells[i]`, carries `tiles[i]` and belongs to the region `region_of[i]`, if
/// to any. `regions` lists the regions in the order in which they were made.
pub struct LocationView {
    pub cells: Seq<Coord>,
    pub tiles: Seq<Tile>,
    pub region_of: Seq<Option<ID>>,
    pub regions: Seq<RegionHeader>,
}

/// A village stands on the tile.
pub open spec fn is_capital(tile: Tile) -> bool {
    tile.unit is Some && tile.unit->0.unit_type == UnitType::Village
}

/// How many of the first `upto` entries of `mask` are set.
pub open spec fn count_set(mask: Seq<bool>, upto: int) -> int
    decreases upto,
{
    if upto <= 0 {
        0
    } else {
        count_set(mask, upto - 1) + if mask[upto - 1] {
            1int
        } else {
            0int
        }
    }
}

/// For each cell, whether it belongs to region `id`.
pub open spec fn region_mask(region_of: Seq<Option<ID>>, id: ID) -> Seq<bool> {
    Seq::new(region_of.len(), |i: int| region_of[i] == Some(id))
}

/// For each cell, whether region `id` has a village on it.
pub open spec fn capital_mask(region_of: Seq<Option<ID>>, tiles: Seq<Tile>, id: ID) -> Seq<bool> {
    Seq::new(region_of.len(), |i: int| region_of[i] == Some(id) && is_capital(tiles[i]))
}

/// Cell `i` exists and belongs to region `id`.
pub open spec fn holds(region_of: Seq<Option<ID>>, i: int, id: ID) -> bool {
    0 <= i < region_of.len() && region_of[i] == Some(id)
}

/// Region `id` has a cell.
pub open spec fn populated(region_of: Seq<Option<ID>>, id: ID) -> bool {
    exists|i: int| holds(region_of, i, id)
}

/// A region with this identifier is listed.
pub open spec fn listed(regions: Seq<RegionHeader>, id: ID) -> bool {
    exists|h: int| 0 <= h < regions.len() && (#[trigger] regions[h]).id == id
}

/// Where the region with this identifier is listed.
pub open spec fn place_of(regions: Seq<RegionHeader>, id: ID) -> int {
    choose|h: int| 0 <= h < regions.len() && (#[trigger] regions[h]).id == id
}

/// The owner of the listed region with this identifier.
pub open spec fn owner_in(regions: Seq<RegionHeader>, id: ID) -> Player {
    regions[place_of(regions, id)].owner
}

/// No identifier is listed twice.
pub open spec fn distinct_ids(regions: Seq<RegionHeader>) -> bool {
    forall|g: int, h: int|
        0 <= g < regions.len() && 0 <= h < regions.len() && g != h ==> (#[trigger] regions[g]).id
            != (#[trigger] regions[h]).id
}

/// Cells `i` and `j` are adjacent and belong to two regions of one owner.
pub open spec fn friendly(
    cells: Seq<Coord>,
    region_of: Seq<Option<ID>>,
    regions: Seq<RegionHeader>,
    i: int,
    j: int,
) -> bool {
    &&& near(cells, i, j)
    &&& i < region_of.len()
    &&& j < region_of.len()
    &&& region_of[i] is Some
    &&& region_of[j] is Some
    &&& region_of[i] != region_of[j]
    &&& owner_in(regions, region_of[i]->0).id == owner_in(regions, region_of[j]->0).id
}

/// The cells of region `id` are in one piece.
pub open spec fn in_one_piece(cells: Seq<Coord>, region_of: Seq<Option<ID>>, id: ID) -> bool {
    forall|a: int, b: int|
        0 <= a < region_of.len() && 0 <= b < region_of.len() && region_of[a] == Some(id)
            && region_of[b] == Some(id) ==> #[trigger] reach(
            cells,
            region_mask(region_of, id),
            a,
            b,
        )
}

impl LocationView {
    pub open spec fn size(self) -> int {
        self.cells.len() as int
    }

    /// Every cell has one tile and one membership, no coordinate occurs
    /// twice, and every cell has its six neighbours inside the `i32` range.
    pub open spec fn shaped(self) -> bool {
        &&& self.tiles.len() == self.cells.len()
        &&& self.region_of.len() == self.cells.len()
        &&& self.cells.len() <= u32::MAX
        &&& forall|i: int, j: int|
            0 <= i < self.cells.len() && 0 <= j < self.cells.len() && i != j ==> self.cells[i]
                != self.cells[j]
        &&& forall|i: int| 0 <= i < self.cells.len() ==> (#[trigger] self.cells[i]).is_inner()
    }

    pub open spec fn has_tile(self, c: Coord) -> bool {
        exists|i: int| 0 <= i < self.cells.len() && self.cells[i] == c
    }

    /// The number of the cell with coordinate `c`.
    pub open spec fn index_of(self, c: Coord) -> int {
        choose|i: int| 0 <= i < self.cells.len() && self.cells[i] == c
    }

    pub open spec fn tile_at(self, c: Coord) -> Option<Tile> {
        if self.has_tile(c) {
            Some(self.tiles[self.index_of(c)])
        } else {
            None
        }
    }

    pub open spec fn unit_at(self, c: Coord) -> Option<Unit> {
        match self.tile_at(c) {
            Some(tile) => tile.unit,
            None => None,
        }
    }

    pub open spec fn region_id_at(self, c: Coord) -> Option<ID> {
        if self.has_tile(c) {
            self.region_of[self.index_of(c)]
        } else {
            None
        }
    }

    pub open spec fn has_region(self, id: ID) -> bool {
        listed(self.regions, id)
    }

    pub open spec fn owner_of(self, id: ID) -> Player {
        owner_in(self.regions, id)
    }

    /// Cell `i` exists and belongs to region `id`.
    pub open spec fn in_region(self, i: int, id: ID) -> bool {
        holds(self.region_of, i, id)
    }

    /// For each cell, whether it belongs to region `id`.
    pub open spec fn members(self, id: ID) -> Seq<bool> {
        region_mask(self.region_of, id)
    }

    /// The number of cells of region `id`.
    pub open spec fn region_size(self, id: ID) -> int {
        count_set(region_mask(self.region_of, id), self.region_of.len() as int)
    }

    /// The number of villages in region `id`.
    pub open spec fn capital_count(self, id: ID) -> int {
        count_set(capital_mask(self.region_of, self.tiles, id), self.region_of.len() as int)
    }

    /// No two regions share an identifier and every cell that belongs to a
    /// region belongs to a listed one.
    pub open spec fn linked(self) -> bool {
        &&& distinct_ids(self.regions)
        &&& forall|i: int|
            0 <= i < self.region_of.len() && (#[trigger] self.region_of[i]) is Some ==> listed(
                self.regions,
                self.region_of[i]->0,
            )
    }

    /// Every region has a cell.
    pub open spec fn inhabited(self) -> bool {
        forall|h: int|
            0 <= h < self.regions.len() ==> populated(
                self.region_of,
                (#[trigger] self.regions[h]).id,
            )
    }

    pub open spec fn wf(self) -> bool {
        &&& self.shaped()
        &&& self.linked()
        &&& self.inhabited()
    }

    /// Region `id` is in one piece: from each of its cells every other can be
    /// reached over cells of the region.
    pub open spec fn contiguous(self, id: ID) -> bool {
        in_one_piece(self.cells, self.region_of, id)
    }

    pub open spec fn all_contiguous(self) -> bool {
        forall|h: int|
            0 <= h < self.regions.len() ==> in_one_piece(
                self.cells,
                self.region_of,
                (#[trigger] self.regions[h]).id,
            )
    }

    pub open spec fn no_friendly_borders(self) -> bool {
        forall|i: int, j: int|
            !#[trigger] friendly(self.cells, self.region_of, self.regions, i, j)
    }

    /// The location is sound: its regions are in one piece each, and no two
    /// regions of one owner touch.
    pub open spec fn valid(self) -> bool {
        &&& self.wf()
        &&& self.all_contiguous()
        &&& self.no_friendly_borders()
    }

    /// The same map with the same regions: only units may differ.
    pub open spec fn same_ground(self, other: LocationView) -> bool {
        &&& self.cells == other.cells
        &&& self.region_of == other.region_of
        &&& self.regions == other.regions
        &&& self.tiles.len() == other.tiles.len()
        &&& forall|i: int|
            0 <= i < self.tiles.len() ==> (#[trigger] self.tiles[i]).id == other.tiles[i].id
                && self.tiles[i].surface == other.tiles[i].surface
    }

    /// This location with another unit, or none, on cell `i`.
    pub open spec fn with_unit(self, i: int, unit: Option<Unit>) -> LocationView {
        LocationView { tiles: self.tiles.update(i, Tile { unit, ..self.tiles[i] }), ..self }
    }
}

/// A mask with one entry set counts one.
pub proof fn lemma_count_set_single(mask: Seq<bool>, upto: int, at: int)
    requires
        0 <= at < upto <= mask.len(),
        mask[at],
        forall|j: int| 0 <= j < upto && j != at ==> !mask[j],
    ensures
        count_set(mask, upto) == 1,
{
    let blank = Seq::new(mask.len(), |j: int| false);
    lemma_count_set_zero(blank, upto);
    lemma_count_set_flip(blank, mask, upto, at);
}

/// A mask with two entries set counts two at least.
pub proof fn lemma_count_set_pair(mask: Seq<bool>, upto: int, a: int, b: int)
    requires
        0 <= a < upto <= mask.len(),
        0 <= b < upto,
        a != b,
        mask[a],
        mask[b],
    ensures
        count_set(mask, upto) >= 2,
{
    let one = Seq::new(mask.len(), |j: int| j == a);
    let two = Seq::new(mask.len(), |j: int| j == a || j == b);
    lemma_count_set_single(one, upto, a);
    lemma_count_set_flip(one, two, upto, b);
    lemma_count_set_subset(two, mask, upto);
}

/// Where a listed identifier is listed, there it is.
pub proof fn lemma_place_of(regions: Seq<RegionHeader>, h: int)
    requires
        distinct_ids(regions),
        0 <= h < regions.len(),
    ensures
        listed(regions, regions[h].id),
        place_of(regions, regions[h].id) == h,
        owner_in(regions, regions[h].id) == regions[h].owner,
{
    let id = regions[h].id;
    let g = place_of(regions, id);
    assert(regions[g].id == id);
    if g != h {
        assert(regions[g].id != regions[h].id);
    }
}

pub proof fn lemma_count_set_bound(mask: Seq<bool>, upto: int)
    requires
        0 <= upto,
    ensures
        0 <= count_set(mask, upto) <= upto,
    decreases upto,
{
    if upto > 0 {
        lemma_count_set_bound(mask, upto - 1);
    }
}

/// Two masks that agree on the first `upto` entries count the same.
pub proof fn lemma_count_set_same(a: Seq<bool>, b: Seq<bool>, upto: int)
    requires
        forall|i: int| 0 <= i < upto ==> a[i] == b[i],
    ensures
        count_set(a, upto) == count_set(b, upto),
    decreases upto,
{
    if upto > 0 {
        lemma_count_set_same(a, b, upto - 1);
    }
}

/// Masks that differ in one entry differ by one in their count.
pub proof fn lemma_count_set_flip(a: Seq<bool>, b: Seq<bool>, upto: int, at: int)
    requires
        0 <= at,
        forall|i: int| 0 <= i < upto && i != at ==> a[i] == b[i],
    ensures
        count_set(b, upto) == count_set(a, upto) + if at < upto && a[at] != b[at] {
            if b[at] {
                1int
            } else {
                -1int
            }
        } else {
            0int
        },
    decreases upto,
{
    if upto > 0 {
        lemma_count_set_flip(a, b, upto - 1, at);
    }
}

/// A mask counts zero exactly when nothing is set, and a set entry counts.
pub proof fn lemma_count_set_zero(mask: Seq<bool>, upto: int)
    requires
        0 <= upto,
    ensures
        count_set(mask, upto) == 0 <==> forall|i: int| 0 <= i < upto ==> !mask[i],
    decreases upto,
{
    if upto > 0 {
        lemma_count_set_zero(mask, upto - 1);
        lemma_count_set_bound(mask, upto - 1);
        if count_set(mask, upto) == 0 {
            assert forall|i: int| 0 <= i < upto implies !mask[i] by {
                if i < upto - 1 {
                }
            }
        }
    }
}

/// A mask that is a subset of another counts no more.
pub proof fn lemma_count_set_subset(a: Seq<bool>, b: Seq<bool>, upto: int)
    requires
        forall|i: int| 0 <= i < upto && a[i] ==> b[i],
    ensures
        count_set(a, upto) <= count_set(b, upto),
    decreases upto,
{
    if upto > 0 {
        lemma_count_set_subset(a, b, upto - 1);
    }
}

} // verus!
