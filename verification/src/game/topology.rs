//! What happens to the regions when one cell changes hands, and why the
//! location stays sound.

use vstd::prelude::*;
use vstd::seq_lib::seq_to_set_is_finite;
use vstd::set_lib::{lemma_int_range, lemma_len_subset, set_int_range};
use super::coord::{lemma_adjacent_symmetric, Coord};
use super::ids::ID;
use super::location::{LocationModificationError, RegionTransformation};
use super::layout::{
    distinct_ids, friendly, holds, in_one_piece, listed, owner_in, place_of, populated,
    region_mask,
    LocationView, RegionHeader,
};
use super::walk::{
    lemma_reach_back, lemma_reach_join, lemma_reach_step, lemma_walk_around, lemma_walk_back,
    lemma_walk_passable, lemma_walk_wider, lemma_walk_within, near, passable, reach, walk,
};

verus! {

/// Identifiers in a row that are all listed are no more than the list is long.
pub proof fn lemma_listed_run(regions: Seq<RegionHeader>, lo: int, hi: int)
    requires
        0 <= lo <= hi <= u32::MAX,
        forall|x: ID| lo < x <= hi ==> #[trigger] listed(regions, x),
    ensures
        hi - lo <= regions.len(),
{
    let ids = Seq::new(regions.len(), |h: int| regions[h].id as int);
    ids.lemma_cardinality_of_set();
    lemma_int_range(lo + 1, hi + 1);
    seq_to_set_is_finite(ids);
    assert(set_int_range(lo + 1, hi + 1).subset_of(ids.to_set())) by {
        assert forall|x: int| set_int_range(lo + 1, hi + 1).contains(x) implies ids.to_set().contains(
            x,
        ) by {
            assert(listed(regions, x as ID));
            let h = choose|h: int| 0 <= h < regions.len() && (#[trigger] regions[h]).id == x as ID;
            assert(ids[h] == x);
        }
    }
    lemma_len_subset(set_int_range(lo + 1, hi + 1), ids.to_set());
}

/// A region whose cells stay the same stays in one piece.
pub proof fn lemma_one_piece_same(
    cells: Seq<Coord>,
    before: Seq<Option<ID>>,
    after: Seq<Option<ID>>,
    id: ID,
)
    requires
        before.len() == after.len(),
        forall|x: int| 0 <= x < before.len() ==> (before[x] == Some(id)) == (after[x] == Some(id)),
        in_one_piece(cells, before, id),
    ensures
        in_one_piece(cells, after, id),
{
    assert forall|a: int, b: int|
        0 <= a < after.len() && 0 <= b < after.len() && after[a] == Some(id) && after[b] == Some(
            id,
        ) implies #[trigger] reach(cells, region_mask(after, id), a, b) by {
        assert(reach(cells, region_mask(before, id), a, b));
        let k = choose|k: nat| walk(cells, region_mask(before, id), a, b, k);
        lemma_walk_wider(cells, region_mask(before, id), region_mask(after, id), a, b, k);
    }
}

/// The cells marked `claimed` are sorted into regions by what can be reached
/// from what over the cells of `rest`: a claimed cell has its whole piece
/// claimed, under one identifier, and no other claimed cell has that
/// identifier.
pub open spec fn sorted_out(
    cells: Seq<Coord>,
    rest: Seq<bool>,
    region_of: Seq<Option<ID>>,
    claimed: Seq<bool>,
) -> bool {
    &&& rest.len() == cells.len()
    &&& region_of.len() == cells.len()
    &&& claimed.len() == cells.len()
    &&& forall|x: int| 0 <= x < cells.len() && claimed[x] ==> rest[x]
    &&& forall|x: int, y: int|
        0 <= x < cells.len() && claimed[x] && #[trigger] reach(cells, rest, x, y) ==> claimed[y]
            && region_of[y] == region_of[x]
    &&& forall|x: int, y: int|
        0 <= x < cells.len() && 0 <= y < cells.len() && claimed[x] && claimed[y] && region_of[x]
            == region_of[y] ==> #[trigger] reach(cells, rest, x, y)
}

/// Claiming the whole piece of an unclaimed cell under an identifier that
/// no claimed cell has keeps the claimed cells sorted.
pub proof fn lemma_claim(
    cells: Seq<Coord>,
    rest: Seq<bool>,
    region_of: Seq<Option<ID>>,
    claimed: Seq<bool>,
    start: int,
    part: Seq<bool>,
    label: ID,
    after: Seq<Option<ID>>,
    claimed_after: Seq<bool>,
)
    requires
        sorted_out(cells, rest, region_of, claimed),
        0 <= start < cells.len(),
        rest[start],
        !claimed[start],
        part.len() == cells.len(),
        after.len() == cells.len(),
        claimed_after.len() == cells.len(),
        forall|x: int| 0 <= x < cells.len() ==> (part[x] <==> reach(cells, rest, start, x)),
        forall|x: int|
            0 <= x < cells.len() ==> after[x] == if part[x] {
                Some(label)
            } else {
                region_of[x]
            },
        forall|x: int| 0 <= x < cells.len() ==> claimed_after[x] == (claimed[x] || part[x]),
        forall|x: int| 0 <= x < cells.len() && claimed[x] ==> region_of[x] != Some(label),
    ensures
        sorted_out(cells, rest, after, claimed_after),
        forall|x: int| 0 <= x < cells.len() && part[x] ==> !claimed[x] && rest[x],
        part[start],
{
    assert(walk(cells, rest, start, start, 0));
    assert(reach(cells, rest, start, start));
    assert forall|x: int| 0 <= x < cells.len() && part[x] implies !claimed[x] && rest[x] by {
        assert(reach(cells, rest, start, x));
        let k = choose|k: nat| walk(cells, rest, start, x, k);
        lemma_walk_passable(cells, rest, start, x, k);
        if claimed[x] {
            lemma_reach_back(cells, rest, start, x);
            assert(reach(cells, rest, x, start));
        }
    }
    assert forall|x: int, y: int|
        0 <= x < cells.len() && claimed_after[x] && #[trigger] reach(
            cells,
            rest,
            x,
            y,
        ) implies claimed_after[y] && after[y] == after[x] by {
        let k = choose|k: nat| walk(cells, rest, x, y, k);
        lemma_walk_passable(cells, rest, x, y, k);
        if part[x] {
            assert(reach(cells, rest, start, x));
            lemma_reach_join(cells, rest, start, x, y);
            assert(part[y]);
        } else {
            assert(claimed[y] && region_of[y] == region_of[x]);
            if part[y] {
                assert(!claimed[y]);
            }
        }
    }
    assert forall|x: int, y: int|
        0 <= x < cells.len() && 0 <= y < cells.len() && claimed_after[x] && claimed_after[y]
            && after[x] == after[y] implies #[trigger] reach(cells, rest, x, y) by {
        if part[x] && part[y] {
            assert(reach(cells, rest, start, x));
            assert(reach(cells, rest, start, y));
            lemma_reach_back(cells, rest, start, x);
            lemma_reach_join(cells, rest, x, start, y);
        } else if !part[x] && !part[y] {
            assert(reach(cells, rest, x, y));
        } else {
            assert(false);
        }
    }
}

/// Cell `at` touches a cell of region `id`.
pub open spec fn touches(v: LocationView, at: int, id: ID) -> bool {
    exists|j: int| #[trigger] near(v.cells, at, j) && j < v.region_of.len() && v.region_of[j] == Some(id)
}

/// Region `m` goes into region `target` when cell `at` joins `target`: it is
/// another region of the same owner, and it touches the cell.
pub open spec fn mergeable(v: LocationView, at: int, target: ID, m: ID) -> bool {
    &&& m != target
    &&& v.has_region(m)
    &&& v.owner_of(m).id == v.owner_of(target).id
    &&& touches(v, at, m)
}

/// For each cell, whether it is another cell of the region of cell `at`.
pub open spec fn rest_of(v: LocationView, at: int) -> Seq<bool> {
    Seq::new(
        v.region_of.len(),
        |x: int| x != at && v.region_of[at] is Some && v.region_of[x] == v.region_of[at],
    )
}

/// What became of cell `x` when cell `at` went to region `target`. A cell of
/// the target or of a region that merged into it belongs to the target. A
/// cell of the region that `at` left stays in that region or belongs to a
/// region that did not exist before. Every other cell is where it was.
pub open spec fn fate(
    old: LocationView,
    new: LocationView,
    at: int,
    target: ID,
    x: int,
) -> bool {
    match old.region_of[x] {
        None => new.region_of[x] is None,
        Some(r) => if r == target || mergeable(old, at, target, r) {
            new.region_of[x] == Some(target)
        } else if old.region_of[at] == Some(r) {
            new.region_of[x] is Some && (new.region_of[x] == Some(r) || !old.has_region(
                new.region_of[x]->0,
            ))
        } else {
            new.region_of[x] == Some(r)
        },
    }
}

/// A region of the new location is one of the old location that did not
/// merge, with its owner, or a new one with the owner of the region that
/// cell `at` left.
pub open spec fn heir(old: LocationView, new: LocationView, at: int, target: ID, id: ID) -> bool {
    if old.has_region(id) {
        !mergeable(old, at, target, id) && new.owner_of(id) == old.owner_of(id)
    } else {
        old.region_of[at] is Some && new.owner_of(id) == old.owner_of(old.region_of[at]->0)
    }
}

/// The new location is the old one after cell `at` went to region `target`:
/// the map is the same, the cell belongs to the target, the regions of the
/// target's owner that touch the cell have merged into the target, and the
/// region that the cell left has fallen into its connected pieces.
pub open spec fn regrouped(old: LocationView, new: LocationView, at: int, target: ID) -> bool {
    &&& new.cells == old.cells
    &&& new.region_of.len() == old.region_of.len()
    &&& 0 <= at < old.region_of.len()
    &&& new.region_of[at] == Some(target)
    &&& forall|x: int|
        0 <= x < old.region_of.len() && x != at ==> #[trigger] fate(old, new, at, target, x)
    &&& forall|x: int, y: int|
        0 <= x < old.region_of.len() && 0 <= y < old.region_of.len() && rest_of(old, at)[x]
            && rest_of(old, at)[y] ==> ((new.region_of[x] == new.region_of[y]) <==> #[trigger] reach(
            old.cells,
            rest_of(old, at),
            x,
            y,
        ))
    &&& forall|id: ID| #[trigger] new.has_region(id) ==> heir(old, new, at, target, id)
    &&& forall|id: ID|
        #[trigger] old.has_region(id) && !mergeable(old, at, target, id) && (old.region_of[at]
            == Some(id) ==> populated(new.region_of, id)) ==> new.has_region(id)
}

/// What became of cell `x` when region `oid` was sorted into its pieces.
pub open spec fn piece(old: LocationView, new: LocationView, oid: ID, x: int) -> bool {
    if old.region_of[x] == Some(oid) {
        new.region_of[x] is Some && (new.region_of[x] == Some(oid) || !old.has_region(
            new.region_of[x]->0,
        ))
    } else {
        new.region_of[x] == old.region_of[x]
    }
}

/// Region `id` of the new location has the owner it had, or that of region
/// `oid` if it is new; and if it holds cells that were cells of `oid`, it has
/// a cell.
pub open spec fn successor(old: LocationView, new: LocationView, oid: ID, id: ID) -> bool {
    &&& new.owner_of(id) == if old.has_region(id) {
        old.owner_of(id)
    } else {
        old.owner_of(oid)
    }
    &&& (id == oid || !old.has_region(id)) ==> populated(new.region_of, id)
}

/// The new location is the old one with region `oid` sorted into its
/// connected pieces: two of its cells are in one region now exactly if one
/// can be reached from the other over cells of `oid`.
pub open spec fn split_up(old: LocationView, new: LocationView, oid: ID) -> bool {
    &&& new.cells == old.cells
    &&& new.tiles == old.tiles
    &&& new.region_of.len() == old.region_of.len()
    &&& forall|x: int| 0 <= x < old.region_of.len() ==> #[trigger] piece(old, new, oid, x)
    &&& forall|x: int, y: int|
        0 <= x < old.region_of.len() && 0 <= y < old.region_of.len() && old.region_of[x] == Some(
            oid,
        ) && old.region_of[y] == Some(oid) ==> ((new.region_of[x] == new.region_of[y])
            <==> #[trigger] reach(old.cells, region_mask(old.region_of, oid), x, y))
    &&& forall|id: ID| #[trigger] new.has_region(id) ==> successor(old, new, oid, id)
    &&& forall|id: ID| #[trigger] old.has_region(id) && id != oid ==> new.has_region(id)
    &&& populated(old.region_of, oid) ==> new.has_region(oid)
    &&& !populated(old.region_of, oid) ==> !new.has_region(oid)
}

/// The state of sorting region `oid` of `origin` into its pieces: the
/// claimed cells are sorted, the others are as they were, and `fresh` lists
/// the new regions.
pub open spec fn sorting(
    origin: LocationView,
    now: LocationView,
    oid: ID,
    rest: Seq<bool>,
    claimed: Seq<bool>,
    fresh: Seq<ID>,
) -> bool {
    &&& now.cells == origin.cells
    &&& now.tiles == origin.tiles
    &&& now.region_of.len() == origin.region_of.len()
    &&& origin.region_of.len() == origin.cells.len()
    &&& rest == region_mask(origin.region_of, oid)
    &&& sorted_out(origin.cells, rest, now.region_of, claimed)
    &&& forall|x: int|
        0 <= x < now.region_of.len() ==> (#[trigger] now.region_of[x]) == if !rest[x] {
            origin.region_of[x]
        } else if !claimed[x] {
            Some(oid)
        } else {
            now.region_of[x]
        }
    &&& forall|x: int|
        0 <= x < now.region_of.len() && claimed[x] ==> (#[trigger] now.region_of[x]) is Some && (
        now.region_of[x] == Some(oid) || fresh.contains(now.region_of[x]->0))
    &&& distinct_ids(now.regions)
    &&& forall|id: ID|
        #[trigger] listed(now.regions, id) <==> listed(origin.regions, id) || fresh.contains(id)
    &&& forall|id: ID|
        #[trigger] listed(origin.regions, id) ==> owner_in(now.regions, id) == owner_in(
            origin.regions,
            id,
        )
    &&& forall|q: int|
        0 <= q < fresh.len() ==> !listed(origin.regions, #[trigger] fresh[q]) && owner_in(
            now.regions,
            fresh[q],
        ) == owner_in(origin.regions, oid) && populated(now.region_of, fresh[q])
    &&& fresh.no_duplicates()
    &&& now.regions.len() == origin.regions.len() + fresh.len()
}

/// When every cell of the region is claimed, the region is split up.
pub proof fn lemma_sorted(
    origin: LocationView,
    now: LocationView,
    oid: ID,
    rest: Seq<bool>,
    claimed: Seq<bool>,
    fresh: Seq<ID>,
    keeper: int,
)
    requires
        sorting(origin, now, oid, rest, claimed, fresh),
        origin.has_region(oid),
        forall|x: int| 0 <= x < rest.len() && rest[x] ==> claimed[x],
        0 <= keeper < rest.len(),
        rest[keeper],
        now.region_of[keeper] == Some(oid),
    ensures
        split_up(origin, now, oid),
        populated(origin.region_of, oid),
{
    let n = origin.region_of.len();
    assert(holds(origin.region_of, keeper, oid));
    assert(holds(now.region_of, keeper, oid));
    assert forall|x: int| 0 <= x < n implies #[trigger] piece(origin, now, oid, x) by {
        if origin.region_of[x] == Some(oid) {
            assert(rest[x]);
            assert(claimed[x]);
            assert(now.region_of[x] is Some);
            let l = now.region_of[x]->0;
            if l != oid {
                assert(fresh.contains(l));
                let q = choose|q: int| 0 <= q < fresh.len() && fresh[q] == l;
                assert(!listed(origin.regions, fresh[q]));
            }
        } else {
            assert(!rest[x]);
        }
    }
    assert forall|x: int, y: int|
        0 <= x < n && 0 <= y < n && origin.region_of[x] == Some(oid) && origin.region_of[y]
            == Some(oid) implies ((now.region_of[x] == now.region_of[y]) <==> #[trigger] reach(
        origin.cells,
        region_mask(origin.region_of, oid),
        x,
        y,
    )) by {
        assert(rest[x] && rest[y]);
        assert(claimed[x] && claimed[y]);
    }
    assert forall|id: ID| #[trigger] now.has_region(id) implies successor(origin, now, oid, id) by {
        if !origin.has_region(id) {
            assert(fresh.contains(id));
            let q = choose|q: int| 0 <= q < fresh.len() && fresh[q] == id;
            assert(populated(now.region_of, fresh[q]));
        }
    }
}

/// A region without cells is split up by taking it off the list.
pub proof fn lemma_emptied(origin: LocationView, now: LocationView, oid: ID)
    requires
        now.cells == origin.cells,
        now.tiles == origin.tiles,
        now.region_of == origin.region_of,
        forall|x: int| 0 <= x < origin.region_of.len() ==> origin.region_of[x] != Some(oid),
        forall|x: ID| #[trigger] listed(now.regions, x) <==> listed(origin.regions, x) && x != oid,
        forall|x: ID|
            #[trigger] listed(now.regions, x) ==> owner_in(now.regions, x) == owner_in(
                origin.regions,
                x,
            ),
    ensures
        split_up(origin, now, oid),
        !populated(origin.region_of, oid),
{
    assert forall|x: int| 0 <= x < origin.region_of.len() implies #[trigger] piece(
        origin,
        now,
        oid,
        x,
    ) by {}
    if populated(origin.region_of, oid) {
        let i = choose|i: int| holds(origin.region_of, i, oid);
        assert(origin.region_of[i] != Some(oid));
    }
}

/// The location after a cell changed hands, put together from its three
/// steps: the cell went to the target (`first`), the region it left was
/// sorted into its pieces (`second`), and the regions listed in `merges`
/// went into the target (`new`).
pub proof fn lemma_compose(
    old: LocationView,
    first: LocationView,
    second: LocationView,
    new: LocationView,
    at: int,
    target: ID,
    merges: Seq<ID>,
)
    requires
        old.valid(),
        0 <= at < old.size(),
        old.has_region(target),
        old.region_of[at] != Some(target),
        touches(old, at, target),
        first == (LocationView { region_of: old.region_of.update(at, Some(target)), ..old }),
        match old.region_of[at] {
            Some(oid) => split_up(first, second, oid),
            None => second == first,
        },
        second.linked(),
        forall|m: ID| merges.contains(m) <==> mergeable(old, at, target, m),
        new.cells == old.cells,
        new.tiles == old.tiles,
        new.region_of.len() == old.region_of.len(),
        forall|x: int|
            0 <= x < old.region_of.len() ==> #[trigger] new.region_of[x] == if second.region_of[x]
                is Some && merges.contains(second.region_of[x]->0) {
                Some(target)
            } else {
                second.region_of[x]
            },
        distinct_ids(new.regions),
        forall|id: ID|
            #[trigger] listed(new.regions, id) <==> listed(second.regions, id) && !merges.contains(
                id,
            ),
        forall|id: ID|
            #[trigger] listed(new.regions, id) ==> owner_in(new.regions, id) == owner_in(
                second.regions,
                id,
            ),
    ensures
        regrouped(old, new, at, target),
        new.wf(),
        new.valid(),
{
    let n = old.region_of.len();
    let gone = old.region_of[at];
    lemma_gone_is_foreign(old, at, target);
    assert(first.regions == old.regions);
    if gone is Some {
        let oid = gone->0;
        assert(rest_of(old, at) =~= region_mask(first.region_of, oid));
        assert(old.has_region(oid));
        assert(!merges.contains(oid));
        assert(!merges.contains(target));
    }
    assert forall|x: int| 0 <= x < n implies #[trigger] second.region_of[x] == first.region_of[x]
        || (gone is Some && first.region_of[x] == gone && second.region_of[x] is Some && (
    second.region_of[x] == gone || !old.has_region(second.region_of[x]->0))) by {
        if gone is Some {
            assert(piece(first, second, gone->0, x));
        }
    }
    assert(new.region_of[at] == Some(target)) by {
        assert(second.region_of[at] == first.region_of[at]);
    }
    assert forall|x: int| 0 <= x < n && x != at implies #[trigger] fate(old, new, at, target, x) by {
        assert(first.region_of[x] == old.region_of[x]);
        assert(second.region_of[x] == first.region_of[x] || (gone is Some && first.region_of[x]
            == gone && second.region_of[x] is Some && (second.region_of[x] == gone
            || !old.has_region(second.region_of[x]->0))));
        if old.region_of[x] is Some {
            let r = old.region_of[x]->0;
            assert(old.has_region(r));
            if second.region_of[x] is Some && merges.contains(second.region_of[x]->0) {
                assert(mergeable(old, at, target, second.region_of[x]->0));
            }
        }
    }
    assert forall|x: int, y: int|
        0 <= x < n && 0 <= y < n && rest_of(old, at)[x] && rest_of(old, at)[y] implies ((
    new.region_of[x] == new.region_of[y]) <==> #[trigger] reach(
        old.cells,
        rest_of(old, at),
        x,
        y,
    )) by {
        let oid = gone->0;
        assert(first.region_of[x] == Some(oid) && first.region_of[y] == Some(oid));
        assert(piece(first, second, oid, x));
        assert(piece(first, second, oid, y));
        if merges.contains(second.region_of[x]->0) {
            assert(mergeable(old, at, target, second.region_of[x]->0));
        }
        if merges.contains(second.region_of[y]->0) {
            assert(mergeable(old, at, target, second.region_of[y]->0));
        }
        assert((second.region_of[x] == second.region_of[y]) <==> reach(
            first.cells,
            region_mask(first.region_of, oid),
            x,
            y,
        ));
    }
    assert forall|id: ID| #[trigger] new.has_region(id) implies heir(old, new, at, target, id) by {
        assert(listed(second.regions, id) && !merges.contains(id));
        if gone is Some {
            assert(second.has_region(id));
            assert(successor(first, second, gone->0, id));
        }
    }
    assert forall|id: ID|
        #[trigger] old.has_region(id) && !mergeable(old, at, target, id) && (old.region_of[at]
            == Some(id) ==> populated(new.region_of, id)) implies new.has_region(id) by {
        if gone == Some(id) {
            let i = choose|i: int| holds(new.region_of, i, id);
            assert(second.region_of[i] == Some(id));
            assert(piece(first, second, id, i));
            assert(holds(first.region_of, i, id));
            assert(populated(first.region_of, id));
        } else if gone is Some {
            assert(first.has_region(id));
        }
    }
    assert(regrouped(old, new, at, target));
    assert forall|i: int|
        0 <= i < new.region_of.len() && (#[trigger] new.region_of[i]) is Some implies listed(
        new.regions,
        new.region_of[i]->0,
    ) by {
        let l = new.region_of[i]->0;
        if second.region_of[i] is Some && merges.contains(second.region_of[i]->0) {
            assert(l == target);
            if gone is Some {
                assert(first.has_region(target));
            }
        } else {
            assert(second.region_of[i] == Some(l));
            assert(listed(second.regions, l));
        }
    }
    assert forall|h: int| 0 <= h < new.regions.len() implies populated(
        new.region_of,
        (#[trigger] new.regions[h]).id,
    ) by {
        let id = new.regions[h].id;
        assert(new.has_region(id));
        assert(heir(old, new, at, target, id));
        if id == target {
            assert(holds(new.region_of, at, id));
        } else if old.has_region(id) && gone != Some(id) {
            let g = choose|g: int| 0 <= g < old.regions.len() && (#[trigger] old.regions[g]).id == id;
            assert(populated(old.region_of, old.regions[g].id));
            let i = choose|i: int| holds(old.region_of, i, id);
            assert(i != at);
            assert(fate(old, new, at, target, i));
            assert(holds(new.region_of, i, id));
        } else {
            let oid = gone->0;
            assert(listed(second.regions, id));
            assert(second.has_region(id));
            assert(successor(first, second, oid, id));
            assert(populated(second.region_of, id));
            let i = choose|i: int| holds(second.region_of, i, id);
            assert(!merges.contains(id));
            assert(holds(new.region_of, i, id));
        }
    }
    assert(new.wf());
    lemma_regrouped_valid(old, new, at, target);
}

/// Cell `x` of region `oid` can be reached from a cell of the region next to
/// cell `at`.
pub open spec fn seeded(v: LocationView, at: int, oid: ID, x: int) -> bool {
    exists|side: int|
        #[trigger] near(v.cells, at, side) && side < v.region_of.len() && v.region_of[side]
            == Some(oid) && reach(v.cells, region_mask(v.region_of, oid), side, x)
}

/// One of the first `upto` identifiers of the list is `id`.
pub open spec fn among(list: Seq<ID>, upto: int, id: ID) -> bool {
    exists|q: int| 0 <= q < upto && q < list.len() && #[trigger] list[q] == id
}

/// Units do not matter to how the regions were regrouped.
pub proof fn lemma_regrouped_same_ground(
    old: LocationView,
    mid: LocationView,
    new: LocationView,
    at: int,
    target: ID,
)
    requires
        regrouped(old, mid, at, target),
        new.same_ground(mid),
    ensures
        regrouped(old, new, at, target),
{
    assert forall|x: int| 0 <= x < old.region_of.len() && x != at implies #[trigger] fate(
        old,
        new,
        at,
        target,
        x,
    ) by {
        assert(fate(old, mid, at, target, x));
    }
    assert forall|id: ID| #[trigger] new.has_region(id) implies heir(old, new, at, target, id) by {
        assert(mid.has_region(id));
        assert(heir(old, mid, at, target, id));
    }
    assert forall|id: ID|
        #[trigger] old.has_region(id) && !mergeable(old, at, target, id) && (old.region_of[at]
            == Some(id) ==> populated(new.region_of, id)) implies new.has_region(id) by {
        assert(mid.has_region(id));
    }
}

/// Units do not matter to how the regions are regrouped.
pub proof fn lemma_regrouped_from_same_ground(
    old: LocationView,
    other: LocationView,
    new: LocationView,
    at: int,
    target: ID,
)
    requires
        regrouped(other, new, at, target),
        old.same_ground(other),
    ensures
        regrouped(old, new, at, target),
{
    assert(rest_of(old, at) =~= rest_of(other, at));
    assert forall|m: ID| mergeable(old, at, target, m) == mergeable(other, at, target, m) by {
        if touches(old, at, m) {
            let j = choose|j: int|
                #[trigger] near(old.cells, at, j) && j < old.region_of.len() && old.region_of[j]
                    == Some(m);
            assert(near(other.cells, at, j));
        }
        if touches(other, at, m) {
            let j = choose|j: int|
                #[trigger] near(other.cells, at, j) && j < other.region_of.len()
                    && other.region_of[j] == Some(m);
            assert(near(old.cells, at, j));
        }
    }
    assert forall|x: int| 0 <= x < old.region_of.len() && x != at implies #[trigger] fate(
        old,
        new,
        at,
        target,
        x,
    ) by {
        assert(fate(other, new, at, target, x));
    }
    assert forall|id: ID| #[trigger] new.has_region(id) implies heir(old, new, at, target, id) by {
        assert(heir(other, new, at, target, id));
    }
    assert forall|id: ID|
        #[trigger] old.has_region(id) && !mergeable(old, at, target, id) && (old.region_of[at]
            == Some(id) ==> populated(new.region_of, id)) implies new.has_region(id) by {
        assert(other.has_region(id));
    }
}

/// Every other cell of a region in one piece can reach a cell next to `at`
/// without stepping on `at`.
pub proof fn lemma_seeds(v: LocationView, at: int, x: int)
    requires
        v.shaped(),
        0 <= at < v.size(),
        v.region_of[at] is Some,
        v.contiguous(v.region_of[at]->0),
        0 <= x < v.size(),
        rest_of(v, at)[x],
    ensures
        exists|side: int|
            #[trigger] near(v.cells, at, side) && rest_of(v, at)[side] && reach(
                v.cells,
                rest_of(v, at),
                side,
                x,
            ),
{
    let id = v.region_of[at]->0;
    let whole = region_mask(v.region_of, id);
    let rest = rest_of(v, at);
    assert(reach(v.cells, whole, x, at));
    let k = choose|k: nat| walk(v.cells, whole, x, at, k);
    lemma_walk_around(v.cells, whole, rest, at, x, at, k);
    let side = choose|side: int| #[trigger]
        near(v.cells, side, at) && walk(v.cells, rest, x, side, k);
    lemma_walk_passable(v.cells, rest, x, side, k);
    lemma_walk_back(v.cells, rest, x, side, k);
    lemma_adjacent_symmetric(v.cells[side], v.cells[at]);
    assert(near(v.cells, at, side));
    assert(reach(v.cells, rest, side, x));
}

/// After a cell changed hands as `regrouped` says, a location that was sound
/// is sound again.
pub proof fn lemma_regrouped_valid(old: LocationView, new: LocationView, at: int, target: ID)
    requires
        old.valid(),
        new.wf(),
        regrouped(old, new, at, target),
        old.has_region(target),
        old.region_of[at] != Some(target),
        touches(old, at, target),
    ensures
        new.valid(),
{
    lemma_regrouped_pieces(old, new, at, target);
    lemma_regrouped_borders(old, new, at, target);
}

/// The region that cell `at` left has another owner than the target, so it
/// does not merge into it.
pub proof fn lemma_gone_is_foreign(old: LocationView, at: int, target: ID)
    requires
        old.valid(),
        0 <= at < old.size(),
        old.has_region(target),
        old.region_of[at] != Some(target),
        touches(old, at, target),
    ensures
        old.region_of[at] matches Some(g) ==> old.owner_of(g).id != old.owner_of(target).id
            && !mergeable(old, at, target, g) && g != target,
{
    if old.region_of[at] is Some {
        let j = choose|j: int| #[trigger]
            near(old.cells, at, j) && j < old.region_of.len() && old.region_of[j] == Some(target);
        assert(!friendly(old.cells, old.region_of, old.regions, at, j));
    }
}

proof fn lemma_regrouped_pieces(old: LocationView, new: LocationView, at: int, target: ID)
    requires
        old.valid(),
        new.wf(),
        regrouped(old, new, at, target),
        old.has_region(target),
        old.region_of[at] != Some(target),
        touches(old, at, target),
    ensures
        new.all_contiguous(),
{
    let cells = old.cells;
    let n = old.region_of.len();
    let rest = rest_of(old, at);
    lemma_gone_is_foreign(old, at, target);
    assert forall|h: int| 0 <= h < new.regions.len() implies in_one_piece(
        new.cells,
        new.region_of,
        (#[trigger] new.regions[h]).id,
    ) by {
        let id = new.regions[h].id;
        assert(new.has_region(id));
        assert(heir(old, new, at, target, id));
        if id == target {
            lemma_target_piece(old, new, at, target);
        } else if old.has_region(id) && old.region_of[at] != Some(id) {
            assert forall|x: int| 0 <= x < n implies (old.region_of[x] == Some(id)) == (
            new.region_of[x] == Some(id)) by {
                if x != at {
                    assert(fate(old, new, at, target, x));
                }
            }
            let g = choose|g: int| 0 <= g < old.regions.len() && (#[trigger] old.regions[g]).id == id;
            assert(in_one_piece(old.cells, old.region_of, old.regions[g].id));
            lemma_one_piece_same(cells, old.region_of, new.region_of, id);
        } else {
            let part = region_mask(new.region_of, id);
            assert forall|a: int, b: int|
                0 <= a < n && 0 <= b < n && new.region_of[a] == Some(id) && new.region_of[b]
                    == Some(id) implies #[trigger] reach(cells, part, a, b) by {
                assert(a != at && b != at);
                assert(fate(old, new, at, target, a));
                assert(fate(old, new, at, target, b));
                assert(rest[a] && rest[b]);
                assert(reach(cells, rest, a, b));
                let k = choose|k: nat| walk(cells, rest, a, b, k);
                assert forall|i: int| reach(cells, rest, a, i) implies passable(cells, part, i) by {
                    let ki = choose|ki: nat| walk(cells, rest, a, i, ki);
                    lemma_walk_passable(cells, rest, a, i, ki);
                    assert(rest[i]);
                    assert(new.region_of[a] == new.region_of[i]);
                }
                lemma_walk_within(cells, rest, part, a, b, k);
            }
        }
    }
}

/// The target with its new cell and the regions that merged into it is in
/// one piece.
proof fn lemma_target_piece(old: LocationView, new: LocationView, at: int, target: ID)
    requires
        old.valid(),
        new.wf(),
        regrouped(old, new, at, target),
        old.has_region(target),
        old.region_of[at] != Some(target),
        touches(old, at, target),
    ensures
        in_one_piece(new.cells, new.region_of, target),
{
    let cells = old.cells;
    let n = old.region_of.len();
    let whole = region_mask(new.region_of, target);
    lemma_gone_is_foreign(old, at, target);
    assert(walk(cells, whole, at, at, 0));
    assert forall|x: int| 0 <= x < n && new.region_of[x] == Some(target) implies reach(
        cells,
        whole,
        x,
        at,
    ) by {
        if x == at {
            assert(reach(cells, whole, at, at));
        } else {
            assert(fate(old, new, at, target, x));
            assert(old.region_of[x] is Some);
            let r = old.region_of[x]->0;
            assert(old.has_region(r));
            assert(r == target || mergeable(old, at, target, r));
            assert(touches(old, at, r));
            let j = choose|j: int| #[trigger]
                near(old.cells, at, j) && j < old.region_of.len() && old.region_of[j] == Some(r);
            let g = choose|g: int| 0 <= g < old.regions.len() && (#[trigger] old.regions[g]).id == r;
            assert(in_one_piece(old.cells, old.region_of, old.regions[g].id));
            let before = region_mask(old.region_of, r);
            assert(reach(cells, before, x, j));
            let k = choose|k: nat| walk(cells, before, x, j, k);
            assert forall|i: int| passable(cells, before, i) implies passable(cells, whole, i) by {
                if i != at {
                    assert(fate(old, new, at, target, i));
                }
            }
            lemma_walk_wider(cells, before, whole, x, j, k);
            lemma_adjacent_symmetric(cells[at], cells[j]);
            assert(near(cells, j, at));
            lemma_reach_step(cells, whole, x, j, at);
        }
    }
    assert forall|a: int, b: int|
        0 <= a < n && 0 <= b < n && new.region_of[a] == Some(target) && new.region_of[b] == Some(
            target,
        ) implies #[trigger] reach(cells, whole, a, b) by {
        assert(reach(cells, whole, a, at));
        assert(reach(cells, whole, b, at));
        lemma_reach_back(cells, whole, b, at);
        lemma_reach_join(cells, whole, a, at, b);
    }
}

proof fn lemma_regrouped_borders(old: LocationView, new: LocationView, at: int, target: ID)
    requires
        old.valid(),
        new.wf(),
        regrouped(old, new, at, target),
        old.has_region(target),
        old.region_of[at] != Some(target),
        touches(old, at, target),
    ensures
        new.no_friendly_borders(),
{
    let cells = old.cells;
    let n = old.region_of.len();
    let rest = rest_of(old, at);
    lemma_gone_is_foreign(old, at, target);
    assert forall|i: int, j: int|
        !#[trigger] friendly(new.cells, new.region_of, new.regions, i, j) by {
        if friendly(new.cells, new.region_of, new.regions, i, j) {
            lemma_adjacent_symmetric(cells[i], cells[j]);
            assert(near(cells, j, i));
            let a = new.region_of[i]->0;
            let b = new.region_of[j]->0;
            assert(new.has_region(a) && new.has_region(b));
            assert(heir(old, new, at, target, a));
            assert(heir(old, new, at, target, b));
            assert(heir(old, new, at, target, target));
            if i != at {
                assert(fate(old, new, at, target, i));
            }
            if j != at {
                assert(fate(old, new, at, target, j));
            }
            assert(!friendly(old.cells, old.region_of, old.regions, i, j));
            if a == target {
                lemma_border_of_target(old, new, at, target, i, j);
            } else if b == target {
                lemma_border_of_target(old, new, at, target, j, i);
            } else {
                if rest[i] && rest[j] {
                    assert(walk(cells, rest, i, i, 0));
                    lemma_reach_step(cells, rest, i, i, j);
                    assert(reach(cells, rest, i, j));
                }
            }
        }
    }
}

/// No cell of the target touches another region of the target's owner.
proof fn lemma_border_of_target(
    old: LocationView,
    new: LocationView,
    at: int,
    target: ID,
    i: int,
    j: int,
)
    requires
        old.valid(),
        new.wf(),
        regrouped(old, new, at, target),
        old.has_region(target),
        old.region_of[at] != Some(target),
        touches(old, at, target),
        near(old.cells, i, j),
        new.region_of[i] == Some(target),
        new.region_of[j] is Some,
        new.region_of[j] != Some(target),
    ensures
        new.owner_of(new.region_of[j]->0).id != new.owner_of(target).id,
{
    let b = new.region_of[j]->0;
    lemma_gone_is_foreign(old, at, target);
    assert(new.has_region(b) && new.has_region(target));
    assert(heir(old, new, at, target, b));
    assert(heir(old, new, at, target, target));
    assert(j != at);
    assert(fate(old, new, at, target, j));
    assert(!friendly(old.cells, old.region_of, old.regions, i, j));
    if old.has_region(b) && old.region_of[at] != Some(b) {
        assert(old.region_of[j] == Some(b));
        if new.owner_of(b).id == new.owner_of(target).id {
            if i == at {
                assert(touches(old, at, b));
                assert(mergeable(old, at, target, b));
            } else {
                assert(fate(old, new, at, target, i));
            }
        }
    }
}

/// Why cell `c` cannot go to region `target`, if it cannot: the map has no
/// such cell, there is no such region, or the cell is a cell of the region
/// already or touches none of its cells.
pub open spec fn add_tile_error(v: LocationView, c: Coord, target: ID) -> Option<
    LocationModificationError,
> {
    if !v.has_tile(c) {
        Some(LocationModificationError::CoordinateOutOfLocation(c))
    } else if !v.has_region(target) {
        Some(LocationModificationError::NoSuchRegion(target))
    } else if v.region_of[v.index_of(c)] == Some(target) || !touches(v, v.index_of(c), target) {
        Some(LocationModificationError::CoordinateNotAdjacentToRegion(c))
    } else {
        None
    }
}

/// What sorting region `oid` into its pieces is reported as: nothing if the
/// region is whole, its deletion if it has no cell left, and otherwise a
/// split into the region itself and the new regions.
pub open spec fn summed_up(
    old: LocationView,
    new: LocationView,
    oid: ID,
    action: Option<RegionTransformation>,
) -> bool {
    match action {
        None => new.has_region(oid) && forall|id: ID|
            #[trigger] new.has_region(id) ==> old.has_region(id),
        Some(RegionTransformation::Delete(id)) => id == oid && !new.has_region(oid) && forall|
            id: ID,
        | #[trigger] new.has_region(id) ==> old.has_region(id),
        Some(RegionTransformation::Split { from, into }) => {
            &&& from == oid
            &&& 2 <= into@.len() <= 6
            &&& into@[0] == oid
            &&& into@.no_duplicates()
            &&& new.has_region(oid)
            &&& forall|q: int|
                1 <= q < into@.len() ==> !old.has_region(#[trigger] into@[q]) && new.has_region(
                    into@[q],
                )
            &&& forall|id: ID| #[trigger] new.has_region(id) ==> old.has_region(id) || into@.contains(id)
        },
        Some(RegionTransformation::Merge { .. }) => false,
    }
}

/// The list of what happened when cell `at` went to region `target`. First
/// comes what became of the region that the cell left, if anything did:
/// its deletion, or its split, which lists the pieces in the order of the
/// directions around the cell. Then comes one merge for each region that
/// went into the target, in the order of the directions around the cell.
pub open spec fn recorded(
    old: LocationView,
    new: LocationView,
    at: int,
    target: ID,
    actions: Seq<RegionTransformation>,
) -> bool {
    let lead: int = if actions.len() > 0 && !(actions[0] is Merge) {
        1
    } else {
        0
    };
    &&& forall|k: int|
        lead <= k < actions.len() ==> match #[trigger] actions[k] {
            RegionTransformation::Merge { from, into } => into == target && mergeable(
                old,
                at,
                target,
                from,
            ),
            _ => false,
        }
    &&& forall|j: int, k: int|
        lead <= j < k < actions.len() ==> #[trigger] actions[j] != #[trigger] actions[k]
    &&& actions.len() <= 7
    &&& actions.len() == lead + joiners(old, at, target, 6).len()
    &&& new.regions == relisted(old.regions, actions, actions.len() as int)
    &&& forall|q: int|
        0 <= q < joiners(old, at, target, 6).len() ==> actions[lead + q] == (
        RegionTransformation::Merge { from: #[trigger] joiners(old, at, target, 6)[q], into: target })
    &&& forall|m: ID|
        mergeable(old, at, target, m) ==> exists|k: int|
            lead <= k < actions.len() && #[trigger] actions[k] == (RegionTransformation::Merge {
                from: m,
                into: target,
            })
    &&& if lead == 0 {
        &&& forall|id: ID| #[trigger] new.has_region(id) ==> old.has_region(id)
        &&& old.region_of[at] matches Some(g) ==> new.has_region(g)
    } else {
        match actions[0] {
            RegionTransformation::Delete(id) => old.region_of[at] == Some(id) && !new.has_region(
                id,
            ) && forall|other: ID| #[trigger] new.has_region(other) ==> old.has_region(other),
            RegionTransformation::Split { from, into } => {
                &&& old.region_of[at] == Some(from)
                &&& 2 <= into@.len() <= 6
                &&& into@[0] == from
                &&& into@.no_duplicates()
                &&& pieced(old, new, at, from, into@)
                &&& new.has_region(from)
                &&& forall|q: int|
                    1 <= q < into@.len() ==> !old.has_region(#[trigger] into@[q])
                        && new.has_region(into@[q])
                &&& forall|id: ID|
                    #[trigger] new.has_region(id) ==> old.has_region(id) || into@.contains(id)
            },
            RegionTransformation::Merge { .. } => false,
        }
    }
}

/// `id` is the first identifier after `after` that no region on the list
/// has.
pub open spec fn free_after(regions: Seq<RegionHeader>, after: ID, id: ID) -> bool {
    &&& after < id
    &&& !listed(regions, id)
    &&& forall|x: ID| after < x < id ==> #[trigger] listed(regions, x)
}

/// The identifiers of the list were issued one after the other: each is the
/// first after the one before it that no region has, and the first of them
/// the first after `start`.
pub open spec fn issued_in_a_row(regions: Seq<RegionHeader>, start: ID, fresh: Seq<ID>) -> bool {
    forall|q: int|
        0 <= q < fresh.len() ==> free_after(
            regions,
            if q == 0 {
                start
            } else {
                fresh[q - 1]
            },
            #[trigger] fresh[q],
        )
}

/// What a change of the regions took from the producer of identifiers,
/// whose last identifier was `before` and is `after`. The new regions of a
/// split have the next identifiers that no region has, in the order in which
/// the change lists them, and the last of these is the last that was issued.
/// No other change takes an identifier.
pub open spec fn tallied(
    regions: Seq<RegionHeader>,
    before: ID,
    after: ID,
    action: Option<RegionTransformation>,
) -> bool {
    match action {
        Some(RegionTransformation::Split { from, into }) => into@.len() >= 2 && issued_in_a_row(
            regions,
            before,
            into@.subrange(1, into@.len() as int),
        ) && after == into@[into@.len() - 1],
        _ => after == before,
    }
}

/// What the changes of the regions took from the producer of identifiers:
/// only a split, which comes first, takes any.
pub open spec fn issued(
    regions: Seq<RegionHeader>,
    before: ID,
    after: ID,
    actions: Seq<RegionTransformation>,
) -> bool {
    tallied(
        regions,
        before,
        after,
        if actions.len() > 0 {
            Some(actions[0])
        } else {
            None
        },
    )
}

/// The list of regions after one change: a region that is deleted or that
/// goes into another leaves the list, and the new regions of a split come
/// to its end in the order of the change, under the owner of the region that
/// fell apart.
pub open spec fn relisted_once(regions: Seq<RegionHeader>, action: RegionTransformation) -> Seq<
    RegionHeader,
> {
    match action {
        RegionTransformation::Delete(id) => regions.remove(place_of(regions, id)),
        RegionTransformation::Merge { from, into } => regions.remove(place_of(regions, from)),
        RegionTransformation::Split { from, into } => regions + Seq::new(
            (into@.len() - 1) as nat,
            |q: int| RegionHeader { id: into@[q + 1], owner: owner_in(regions, from) },
        ),
    }
}

/// The list of regions after the first `upto` changes.
pub open spec fn relisted(
    regions: Seq<RegionHeader>,
    actions: Seq<RegionTransformation>,
    upto: int,
) -> Seq<RegionHeader>
    decreases upto,
{
    if upto <= 0 {
        regions
    } else {
        relisted_once(relisted(regions, actions, upto - 1), actions[upto - 1])
    }
}

/// The list after some changes depends on these changes only.
pub proof fn lemma_relisted_prefix(
    regions: Seq<RegionHeader>,
    a: Seq<RegionTransformation>,
    b: Seq<RegionTransformation>,
    upto: int,
)
    requires
        0 <= upto <= a.len(),
        upto <= b.len(),
        forall|q: int| 0 <= q < upto ==> a[q] == b[q],
    ensures
        relisted(regions, a, upto) == relisted(regions, b, upto),
    decreases upto,
{
    if upto > 0 {
        lemma_relisted_prefix(regions, a, b, upto - 1);
    }
}

/// The regions of the owner of region `target` that lie around cell `at`,
/// other than the target, each once, in the order of the first `upto`
/// directions.
pub open spec fn joiners(v: LocationView, at: int, target: ID, upto: int) -> Seq<ID>
    decreases upto,
{
    if upto <= 0 {
        Seq::empty()
    } else {
        let before = joiners(v, at, target, upto - 1);
        let c = v.cells[at].neighbor(upto - 1);
        if v.has_tile(c) {
            match v.region_of[v.index_of(c)] {
                Some(m) => if m != target && v.owner_of(m).id == v.owner_of(target).id
                    && !before.contains(m) {
                    before.push(m)
                } else {
                    before
                },
                None => before,
            }
        } else {
            before
        }
    }
}

/// The cells of region `id` around cell `at`, in the order of the first
/// `upto` directions.
pub open spec fn sides(v: LocationView, at: int, id: ID, upto: int) -> Seq<int>
    decreases upto,
{
    if upto <= 0 {
        Seq::empty()
    } else {
        let before = sides(v, at, id, upto - 1);
        let c = v.cells[at].neighbor(upto - 1);
        if v.has_tile(c) && v.region_of[v.index_of(c)] == Some(id) {
            before.push(v.index_of(c))
        } else {
            before
        }
    }
}

/// For each cell, whether it is a cell of region `id` other than cell `at`.
pub open spec fn others(region_of: Seq<Option<ID>>, at: int, id: ID) -> Seq<bool> {
    Seq::new(region_of.len(), |x: int| x != at && region_of[x] == Some(id))
}

/// The cells around a cell are cells of the map other than the cell, and
/// they are the same when the cell itself changes hands.
pub proof fn lemma_sides(v: LocationView, w: LocationView, at: int, id: ID, upto: int)
    requires
        v.shaped(),
        0 <= at < v.size(),
        0 <= upto <= 6,
        w.cells == v.cells,
        w.region_of.len() == v.region_of.len(),
        forall|x: int| 0 <= x < v.size() && x != at ==> w.region_of[x] == v.region_of[x],
    ensures
        sides(w, at, id, upto) == sides(v, at, id, upto),
        sides(v, at, id, upto).len() <= upto,
        forall|t: int|
            0 <= t < sides(v, at, id, upto).len() ==> 0 <= #[trigger] sides(v, at, id, upto)[t]
                < v.size() && sides(v, at, id, upto)[t] != at && v.region_of[sides(
                v,
                at,
                id,
                upto,
            )[t]] == Some(id),
    decreases upto,
{
    if upto > 0 {
        lemma_sides(v, w, at, id, upto - 1);
        let c = v.cells[at].neighbor(upto - 1);
        if v.has_tile(c) {
            let j = v.index_of(c);
            assert(0 <= j < v.size() && v.cells[j] == c);
            assert(v.cells[at].is_inner());
            assert(c != v.cells[at]);
            assert(j != at);
            assert(w.has_tile(c));
            assert(w.index_of(c) == j);
        }
    }
}

/// The pieces keep their identifiers when the cell that left the region
/// is counted to it again, and when other regions change hands.
pub proof fn lemma_pieced_on(
    v0: LocationView,
    v1: LocationView,
    v2: LocationView,
    v3: LocationView,
    at: int,
    oid: ID,
    into: Seq<ID>,
)
    requires
        v0.shaped(),
        0 <= at < v0.size(),
        v1.cells == v0.cells,
        v1.region_of.len() == v0.region_of.len(),
        forall|x: int| 0 <= x < v0.size() && x != at ==> v1.region_of[x] == v0.region_of[x],
        pieced(v1, v2, at, oid, into),
        v3.region_of.len() == v2.region_of.len(),
        v2.region_of.len() == v0.region_of.len(),
        forall|x: int|
            0 <= x < v2.region_of.len() && v2.region_of[x] is Some && into.contains(
                v2.region_of[x]->0,
            ) ==> #[trigger] v3.region_of[x] == v2.region_of[x],
    ensures
        pieced(v0, v3, at, oid, into),
{
    lemma_sides(v0, v1, at, oid, 6);
    let around = sides(v0, at, oid, 6);
    assert(others(v1.region_of, at, oid) =~= others(v0.region_of, at, oid));
    let rest = others(v0.region_of, at, oid);
    assert forall|t: int|
        0 <= t < around.len() && opens(v0.cells, rest, around, t) implies #[trigger] v3.region_of[around[t]]
        == Some(into[pieces_upto(v0.cells, rest, around, t)]) by {
        lemma_pieces_upto(v0.cells, rest, around, t + 1, around.len() as int);
        lemma_pieces_upto(v0.cells, rest, around, t, t);
        assert(pieces_upto(v0.cells, rest, around, t + 1) == pieces_upto(
            v0.cells,
            rest,
            around,
            t,
        ) + 1);
        let k = pieces_upto(v0.cells, rest, around, t);
        assert(v2.region_of[around[t]] == Some(into[k]));
        assert(into.contains(into[k]));
    }
}

/// The cell at place `t` of the list opens a piece of the region: no cell
/// before it on the list can be reached from it over the open cells.
pub open spec fn opens(cells: Seq<Coord>, rest: Seq<bool>, around: Seq<int>, t: int) -> bool {
    forall|s: int| 0 <= s < t ==> !#[trigger] reach(cells, rest, around[s], around[t])
}

/// How many of the first `upto` cells of the list open a piece.
pub open spec fn pieces_upto(cells: Seq<Coord>, rest: Seq<bool>, around: Seq<int>, upto: int) -> int
    decreases upto,
{
    if upto <= 0 {
        0
    } else {
        pieces_upto(cells, rest, around, upto - 1) + if opens(cells, rest, around, upto - 1) {
            1int
        } else {
            0int
        }
    }
}

/// The pieces into which region `oid` fell when it lost cell `at` have the
/// identifiers of the list in the order of the directions: going round the
/// cell, each cell of the region that opens a piece has the next identifier
/// of the list, and the first of them has the first.
pub open spec fn pieced(old: LocationView, new: LocationView, at: int, oid: ID, into: Seq<ID>) -> bool {
    let around = sides(old, at, oid, 6);
    let rest = others(old.region_of, at, oid);
    &&& into.len() == pieces_upto(old.cells, rest, around, around.len() as int)
    &&& forall|t: int|
        0 <= t < around.len() && opens(old.cells, rest, around, t) ==> #[trigger] new.region_of[around[t]]
            == Some(into[pieces_upto(old.cells, rest, around, t)])
}

/// The count of the cells that open a piece does not go down along the
/// list, and no more cells open a piece than the list has.
pub proof fn lemma_pieces_upto(cells: Seq<Coord>, rest: Seq<bool>, around: Seq<int>, from: int, upto: int)
    requires
        0 <= from <= upto,
    ensures
        0 <= pieces_upto(cells, rest, around, from) <= pieces_upto(cells, rest, around, upto) <= upto,
    decreases upto,
{
    if from < upto {
        lemma_pieces_upto(cells, rest, around, from, upto - 1);
    } else if from > 0 {
        lemma_pieces_upto(cells, rest, around, from - 1, from - 1);
    }
}

} // verus!
