//! Walks over the cells of a map.
//!
//! The cells of a map are numbered in the order in which the map stores them;
//! `open` says for each of them whether it may be stepped on. A walk leads
//! from cell to adjacent cell over open cells only. Everything the engine
//! knows about distance and connectedness is stated with `walk`.

use vstd::prelude::*;
use super::coord::{adjacent, Coord};

verus! {

/// Cell `i` exists and is open.
pub open spec fn passable(cells: Seq<Coord>, open: Seq<bool>, i: int) -> bool {
    0 <= i < cells.len() && i < open.len() && open[i]
}

/// Cells `a` and `b` exist and are adjacent.
pub open spec fn near(cells: Seq<Coord>, a: int, b: int) -> bool {
    0 <= a < cells.len() && 0 <= b < cells.len() && adjacent(cells[a], cells[b])
}

/// Cell `to` can be reached from cell `from` in at most `steps` steps over
/// open cells.
pub open spec fn walk(cells: Seq<Coord>, open: Seq<bool>, from: int, to: int, steps: nat) -> bool
    decreases steps,
{
    if steps == 0 {
        to == from && passable(cells, open, from)
    } else {
        walk(cells, open, from, to, (steps - 1) as nat) || (passable(cells, open, to)
            && exists|via: int| #[trigger]
            near(cells, via, to) && walk(cells, open, from, via, (steps - 1) as nat))
    }
}

/// Cell `to` can be reached from cell `from` over open cells.
pub open spec fn reach(cells: Seq<Coord>, open: Seq<bool>, from: int, to: int) -> bool {
    exists|steps: nat| walk(cells, open, from, to, steps)
}

/// The least number of steps from `from` to `to` is `steps`.
pub open spec fn distance_is(
    cells: Seq<Coord>,
    open: Seq<bool>,
    from: int,
    to: int,
    steps: nat,
) -> bool {
    walk(cells, open, from, to, steps) && (steps > 0 ==> !walk(
        cells,
        open,
        from,
        to,
        (steps - 1) as nat,
    ))
}

/// A walk starts and ends on open cells.
pub proof fn lemma_walk_passable(cells: Seq<Coord>, open: Seq<bool>, from: int, to: int, steps: nat)
    requires
        walk(cells, open, from, to, steps),
    ensures
        passable(cells, open, from),
        passable(cells, open, to),
    decreases steps,
{
    if steps > 0 {
        if walk(cells, open, from, to, (steps - 1) as nat) {
            lemma_walk_passable(cells, open, from, to, (steps - 1) as nat);
        } else {
            let via = choose|via: int| #[trigger] near(cells, via, to) && walk(cells, open, from, via, (steps - 1) as nat);
            lemma_walk_passable(cells, open, from, via, (steps - 1) as nat);
        }
    }
}

/// A walk of at most `steps` steps is a walk of at most `more` steps too.
pub proof fn lemma_walk_longer(
    cells: Seq<Coord>,
    open: Seq<bool>,
    from: int,
    to: int,
    steps: nat,
    more: nat,
)
    requires
        walk(cells, open, from, to, steps),
        steps <= more,
    ensures
        walk(cells, open, from, to, more),
    decreases more,
{
    if steps < more {
        lemma_walk_longer(cells, open, from, to, steps, (more - 1) as nat);
    }
}

/// A walk can be continued by one step onto an adjacent open cell.
pub proof fn lemma_walk_step(
    cells: Seq<Coord>,
    open: Seq<bool>,
    from: int,
    via: int,
    to: int,
    steps: nat,
)
    requires
        walk(cells, open, from, via, steps),
        passable(cells, open, to),
        near(cells, via, to),
    ensures
        walk(cells, open, from, to, steps + 1),
{
}

/// Two walks in a row are a walk.
pub proof fn lemma_walk_join(
    cells: Seq<Coord>,
    open: Seq<bool>,
    a: int,
    b: int,
    c: int,
    first: nat,
    second: nat,
)
    requires
        walk(cells, open, a, b, first),
        walk(cells, open, b, c, second),
    ensures
        walk(cells, open, a, c, first + second),
    decreases second,
{
    if second > 0 {
        if walk(cells, open, b, c, (second - 1) as nat) {
            lemma_walk_join(cells, open, a, b, c, first, (second - 1) as nat);
        } else {
            let via = choose|via: int| #[trigger] near(cells, via, c) && walk(cells, open, b, via, (second - 1) as nat);
            lemma_walk_join(cells, open, a, b, via, first, (second - 1) as nat);
            lemma_walk_step(cells, open, a, via, c, (first + second - 1) as nat);
        }
    }
}

/// A walk can be walked back.
pub proof fn lemma_walk_back(cells: Seq<Coord>, open: Seq<bool>, from: int, to: int, steps: nat)
    requires
        walk(cells, open, from, to, steps),
    ensures
        walk(cells, open, to, from, steps),
    decreases steps,
{
    if steps > 0 {
        if walk(cells, open, from, to, (steps - 1) as nat) {
            lemma_walk_back(cells, open, from, to, (steps - 1) as nat);
        } else {
            let via = choose|via: int| #[trigger] near(cells, via, to) && walk(cells, open, from, via, (steps - 1) as nat);
            lemma_walk_back(cells, open, from, via, (steps - 1) as nat);
            lemma_walk_passable(cells, open, from, via, (steps - 1) as nat);
            lemma_walk_passable(cells, open, from, to, steps);
            assert(walk(cells, open, to, to, 0));
            assert(near(cells, to, via));
            lemma_walk_step(cells, open, to, to, via, 0);
            lemma_walk_join(cells, open, to, via, from, 1, (steps - 1) as nat);
        }
    }
}

/// Opening more cells keeps every walk.
pub proof fn lemma_walk_wider(
    cells: Seq<Coord>,
    open: Seq<bool>,
    wider: Seq<bool>,
    from: int,
    to: int,
    steps: nat,
)
    requires
        walk(cells, open, from, to, steps),
        forall|i: int| passable(cells, open, i) ==> passable(cells, wider, i),
    ensures
        walk(cells, wider, from, to, steps),
    decreases steps,
{
    if steps > 0 {
        if walk(cells, open, from, to, (steps - 1) as nat) {
            lemma_walk_wider(cells, open, wider, from, to, (steps - 1) as nat);
        } else {
            let via = choose|via: int| #[trigger] near(cells, via, to) && walk(cells, open, from, via, (steps - 1) as nat);
            lemma_walk_wider(cells, open, wider, from, via, (steps - 1) as nat);
            lemma_walk_passable(cells, open, from, to, steps);
        }
    }
}

/// A walk stays a walk when cells are closed that cannot be reached from
/// its start anyway.
pub proof fn lemma_walk_within(
    cells: Seq<Coord>,
    open: Seq<bool>,
    part: Seq<bool>,
    from: int,
    to: int,
    steps: nat,
)
    requires
        walk(cells, open, from, to, steps),
        forall|i: int| reach(cells, open, from, i) ==> passable(cells, part, i),
    ensures
        walk(cells, part, from, to, steps),
    decreases steps,
{
    assert(reach(cells, open, from, to));
    if steps > 0 {
        if walk(cells, open, from, to, (steps - 1) as nat) {
            lemma_walk_within(cells, open, part, from, to, (steps - 1) as nat);
        } else {
            let via = choose|via: int| #[trigger] near(cells, via, to) && walk(cells, open, from, via, (steps - 1) as nat);
            lemma_walk_within(cells, open, part, from, via, (steps - 1) as nat);
        }
    } else {
        lemma_walk_passable(cells, open, from, to, steps);
    }
}

/// Once one more step reaches nothing new, no number of steps does.
pub proof fn lemma_walk_settled(
    cells: Seq<Coord>,
    open: Seq<bool>,
    from: int,
    to: int,
    settled: nat,
    steps: nat,
)
    requires
        forall|i: int| #[trigger]
            walk(cells, open, from, i, settled + 1) ==> walk(cells, open, from, i, settled),
        walk(cells, open, from, to, steps),
    ensures
        walk(cells, open, from, to, settled),
    decreases steps,
{
    if steps <= settled {
        lemma_walk_longer(cells, open, from, to, steps, settled);
    } else {
        if walk(cells, open, from, to, (steps - 1) as nat) {
            lemma_walk_settled(cells, open, from, to, settled, (steps - 1) as nat);
        } else {
            let via = choose|via: int| #[trigger] near(cells, via, to) && walk(cells, open, from, via, (steps - 1) as nat);
            lemma_walk_settled(cells, open, from, via, settled, (steps - 1) as nat);
            lemma_walk_step(cells, open, from, via, to, settled);
        }
    }
}

/// Reachability is symmetric and transitive.
pub proof fn lemma_reach_back(cells: Seq<Coord>, open: Seq<bool>, from: int, to: int)
    requires
        reach(cells, open, from, to),
    ensures
        reach(cells, open, to, from),
{
    let steps = choose|steps: nat| walk(cells, open, from, to, steps);
    lemma_walk_back(cells, open, from, to, steps);
}

pub proof fn lemma_reach_join(cells: Seq<Coord>, open: Seq<bool>, a: int, b: int, c: int)
    requires
        reach(cells, open, a, b),
        reach(cells, open, b, c),
    ensures
        reach(cells, open, a, c),
{
    let first = choose|steps: nat| walk(cells, open, a, b, steps);
    let second = choose|steps: nat| walk(cells, open, b, c, steps);
    lemma_walk_join(cells, open, a, b, c, first, second);
}

/// From a reachable cell every adjacent open cell is reachable.
pub proof fn lemma_reach_step(cells: Seq<Coord>, open: Seq<bool>, from: int, via: int, to: int)
    requires
        reach(cells, open, from, via),
        passable(cells, open, to),
        near(cells, via, to),
    ensures
        reach(cells, open, from, to),
{
    let steps = choose|steps: nat| walk(cells, open, from, via, steps);
    lemma_walk_step(cells, open, from, via, to, steps);
}

/// A walk that avoids the cell `gap` exists wherever a walk exists, unless the
/// start can reach a cell next to `gap` without stepping on `gap`.
pub proof fn lemma_walk_around(
    cells: Seq<Coord>,
    open: Seq<bool>,
    rest: Seq<bool>,
    gap: int,
    from: int,
    to: int,
    steps: nat,
)
    requires
        walk(cells, open, from, to, steps),
        from != gap,
        0 <= gap < cells.len(),
        forall|i: int| i != gap && passable(cells, open, i) ==> passable(cells, rest, i),
    ensures
        (to != gap && walk(cells, rest, from, to, steps)) || exists|side: int| #[trigger] near(cells, side, gap) && walk(cells, rest, from, side, steps),
    decreases steps,
{
    lemma_walk_passable(cells, open, from, to, steps);
    if steps > 0 {
        if walk(cells, open, from, to, (steps - 1) as nat) {
            lemma_walk_around(cells, open, rest, gap, from, to, (steps - 1) as nat);
            if to != gap && walk(cells, rest, from, to, (steps - 1) as nat) {
            } else {
                let side = choose|side: int| #[trigger] near(cells, side, gap) && walk(cells, rest, from, side, (steps - 1) as nat);
                lemma_walk_longer(cells, rest, from, side, (steps - 1) as nat, steps);
            }
        } else {
            let via = choose|via: int| #[trigger] near(cells, via, to) && walk(cells, open, from, via, (steps - 1) as nat);
            lemma_walk_around(cells, open, rest, gap, from, via, (steps - 1) as nat);
            if via != gap && walk(cells, rest, from, via, (steps - 1) as nat) {
                if to == gap {
                    lemma_walk_longer(cells, rest, from, via, (steps - 1) as nat, steps);
                    assert(near(cells, via, gap));
                } else {
                    lemma_walk_step(cells, rest, from, via, to, (steps - 1) as nat);
                }
            } else {
                let side = choose|side: int| #[trigger] near(cells, side, gap) && walk(cells, rest, from, side, (steps - 1) as nat);
                lemma_walk_longer(cells, rest, from, side, (steps - 1) as nat, steps);
            }
        }
    }
}

/// How many of the first `upto` entries of `marks` hold a value.
pub open spec fn count_marked(marks: Seq<Option<u32>>, upto: int) -> int
    decreases upto,
{
    if upto <= 0 {
        0
    } else {
        count_marked(marks, upto - 1) + if marks[upto - 1] is Some {
            1int
        } else {
            0int
        }
    }
}

pub proof fn lemma_count_marked_bound(marks: Seq<Option<u32>>, upto: int)
    requires
        0 <= upto,
    ensures
        0 <= count_marked(marks, upto) <= upto,
    decreases upto,
{
    if upto > 0 {
        lemma_count_marked_bound(marks, upto - 1);
    }
}

pub proof fn lemma_count_marked_update(marks: Seq<Option<u32>>, upto: int, at: int, value: u32)
    requires
        0 <= at < marks.len(),
        0 <= upto <= marks.len(),
        marks[at] is None,
    ensures
        count_marked(marks.update(at, Some(value)), upto) == count_marked(marks, upto) + if at
            < upto {
            1int
        } else {
            0int
        },
    decreases upto,
{
    if upto > 0 {
        lemma_count_marked_update(marks, upto - 1, at, value);
    }
}

} // verus!
