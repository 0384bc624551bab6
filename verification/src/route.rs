//! What it means for a cell to be reachable, and the laws that follow from it.
//!
//! A walk is a sequence of grid cells in which each cell is an orthogonal neighbour of
//! the one before it. A route is a walk that enters no occupied cell; its first cell is
//! exempt, because the unit that moves already stands there. A cell is reachable within
//! a budget when some route to it takes no more steps than the budget.

use vstd::prelude::*;
use crate::level::Level;
use crate::pos::Pos;

verus! {

/// The cells at `i` and `i + 1` of `cells` are orthogonal neighbours.
pub open spec fn hop(cells: Seq<Pos>, i: int) -> bool {
    cells[i].adjacent(cells[i + 1])
}

impl<const DIM: u8> Level<DIM> {
    /// `cells` leads from `from` to `to` by orthogonal unit steps and stays on the grid.
    pub open spec fn is_walk(&self, cells: Seq<Pos>, from: Pos, to: Pos) -> bool {
        &&& cells.len() > 0
        &&& cells.first() == from
        &&& cells.last() == to
        &&& forall|i: int| 0 <= i < cells.len() ==> (#[trigger] cells[i]).within(DIM as int)
        &&& forall|i: int| 0 <= i < cells.len() - 1 ==> #[trigger] hop(cells, i)
    }

    /// `cells` is a walk from `from` to `to` that enters no occupied cell.
    pub open spec fn is_route(&self, cells: Seq<Pos>, from: Pos, to: Pos) -> bool {
        &&& self.is_walk(cells, from, to)
        &&& forall|i: int| 1 <= i < cells.len() ==> !self.occupied(#[trigger] cells[i])
    }

    /// Some route from `from` to `to` takes at most `budget` steps.
    pub open spec fn reachable_within(&self, from: Pos, to: Pos, budget: nat) -> bool {
        exists|cells: Seq<Pos>| #[trigger]
            self.is_route(cells, from, to) && cells.len() <= budget + 1
    }

    /// A unit on `from` may step onto `to`: the two are neighbours, and `to` is a free
    /// cell of the grid.
    pub open spec fn may_step(&self, from: Pos, to: Pos) -> bool {
        &&& to.within(DIM as int)
        &&& from.adjacent(to)
        &&& !self.occupied(to)
    }

    /// A route that is followed by one more legal step is a route.
    pub proof fn lemma_route_extend(&self, cells: Seq<Pos>, from: Pos, via: Pos, to: Pos)
        requires
            self.is_route(cells, from, via),
            self.may_step(via, to),
        ensures
            self.is_route(cells.push(to), from, to),
    {
        let longer = cells.push(to);
        assert forall|i: int| 0 <= i < longer.len() - 1 implies #[trigger] hop(longer, i) by {
            if i < cells.len() - 1 {
                assert(hop(cells, i));
            }
        }
    }

    /// The first `n` cells of a route are a route to the last of them.
    pub proof fn lemma_route_prefix(&self, cells: Seq<Pos>, from: Pos, to: Pos, n: int)
        requires
            self.is_route(cells, from, to),
            1 <= n <= cells.len(),
        ensures
            self.is_route(cells.take(n), from, cells[n - 1]),
    {
        let shorter = cells.take(n);
        assert forall|i: int| 0 <= i < shorter.len() - 1 implies #[trigger] hop(shorter, i) by {
            assert(hop(cells, i));
        }
    }

    /// Whatever is reachable within a budget is reachable by one more legal step within
    /// the next budget.
    pub proof fn lemma_reachable_step(&self, from: Pos, via: Pos, to: Pos, budget: nat)
        requires
            self.reachable_within(from, via, budget),
            self.may_step(via, to),
        ensures
            self.reachable_within(from, to, budget + 1),
    {
        let cells = choose|cells: Seq<Pos>| #[trigger]
            self.is_route(cells, from, via) && cells.len() <= budget + 1;
        self.lemma_route_extend(cells, from, via, to);
    }

    /// Every cell of the grid is reachable from itself with no budget at all, whatever
    /// stands on it.
    pub proof fn lemma_reachable_reflexive(&self, cell: Pos)
        requires
            cell.within(DIM as int),
        ensures
            self.reachable_within(cell, cell, 0),
    {
        assert(self.is_route(seq![cell], cell, cell));
    }

    /// A larger budget never takes a reachable cell away.
    pub proof fn lemma_reachable_monotone(&self, from: Pos, to: Pos, budget: nat, more: nat)
        requires
            self.reachable_within(from, to, budget),
            budget <= more,
        ensures
            self.reachable_within(from, to, more),
    {
        let cells = choose|cells: Seq<Pos>| #[trigger]
            self.is_route(cells, from, to) && cells.len() <= budget + 1;
        assert(self.is_route(cells, from, to) && cells.len() <= more + 1);
    }

    /// A walk takes at least as many steps as the Manhattan distance between its ends.
    pub proof fn lemma_walk_length(&self, cells: Seq<Pos>, from: Pos, to: Pos)
        requires
            self.is_walk(cells, from, to),
        ensures
            from.manhattan(to) <= cells.len() - 1,
        decreases cells.len(),
    {
        if cells.len() > 1 {
            let shorter = cells.drop_last();
            let via = shorter.last();
            assert forall|i: int| 0 <= i < shorter.len() - 1 implies #[trigger] hop(shorter, i) by {
                assert(hop(cells, i));
            }
            self.lemma_walk_length(shorter, from, via);
            assert(hop(cells, cells.len() - 2));
        }
    }

    /// No cell is reachable within fewer steps than its Manhattan distance.
    pub proof fn lemma_reachable_needs_distance(&self, from: Pos, to: Pos, budget: nat)
        requires
            self.reachable_within(from, to, budget),
        ensures
            from.manhattan(to) <= budget,
    {
        let cells = choose|cells: Seq<Pos>| #[trigger]
            self.is_route(cells, from, to) && cells.len() <= budget + 1;
        self.lemma_walk_length(cells, from, to);
    }

    /// No cell of the grid other than `start` is occupied.
    pub open spec fn open_around(&self, start: Pos) -> bool {
        forall|cell: Pos|
            cell.within(DIM as int) && cell != start ==> !#[trigger] self.occupied(cell)
    }

    /// On a grid that is open around `from`, the straight way to `to` is a route: one that
    /// takes exactly as many steps as the Manhattan distance.
    pub proof fn lemma_direct_route(&self, from: Pos, to: Pos) -> (cells: Seq<Pos>)
        requires
            from.within(DIM as int),
            to.within(DIM as int),
            self.open_around(from),
        ensures
            self.is_route(cells, from, to),
            cells.len() == from.manhattan(to) + 1,
        decreases from.manhattan(to),
    {
        if from == to {
            seq![from]
        } else {
            let via = if to.x > from.x {
                Pos { x: (to.x - 1) as u8, y: to.y }
            } else if to.x < from.x {
                Pos { x: (to.x + 1) as u8, y: to.y }
            } else if to.y > from.y {
                Pos { x: to.x, y: (to.y - 1) as u8 }
            } else {
                Pos { x: to.x, y: (to.y + 1) as u8 }
            };
            let shorter = self.lemma_direct_route(from, via);
            self.lemma_route_extend(shorter, from, via, to);
            shorter.push(to)
        }
    }

    /// On a grid that is open around `from`, a cell is reachable exactly when the budget
    /// covers its Manhattan distance.
    pub proof fn lemma_open_grid_distance(&self, from: Pos, to: Pos, budget: nat)
        requires
            from.within(DIM as int),
            to.within(DIM as int),
            self.open_around(from),
        ensures
            self.reachable_within(from, to, budget) <==> from.manhattan(to) <= budget,
    {
        if self.reachable_within(from, to, budget) {
            self.lemma_reachable_needs_distance(from, to, budget);
        }
        if from.manhattan(to) <= budget {
            let cells = self.lemma_direct_route(from, to);
            assert(self.is_route(cells, from, to) && cells.len() <= budget + 1);
        }
    }

    /// Rows do not wrap: the last cell of one row and the first cell of the next are not
    /// one step apart, although their linear indices differ by one.
    pub proof fn lemma_rows_do_not_wrap(&self, row: u8)
        requires
            DIM >= 2,
            row + 1 < DIM,
        ensures
            !self.reachable_within(
                Pos { x: row, y: (DIM - 1) as u8 },
                Pos { x: (row + 1) as u8, y: 0 },
                1,
            ),
            !self.reachable_within(
                Pos { x: (row + 1) as u8, y: 0 },
                Pos { x: row, y: (DIM - 1) as u8 },
                1,
            ),
    {
        let last = Pos { x: row, y: (DIM - 1) as u8 };
        let first = Pos { x: (row + 1) as u8, y: 0 };
        if self.reachable_within(last, first, 1) {
            self.lemma_reachable_needs_distance(last, first, 1);
        }
        if self.reachable_within(first, last, 1) {
            self.lemma_reachable_needs_distance(first, last, 1);
        }
    }

    /// Where every walk from `from` to `to` enters an occupied cell, no budget makes `to`
    /// reachable.
    pub proof fn lemma_dead_end(&self, from: Pos, to: Pos, budget: nat)
        requires
            forall|cells: Seq<Pos>| #[trigger]
                self.is_walk(cells, from, to) ==> exists|i: int|
                    1 <= i < cells.len() && self.occupied(#[trigger] cells[i]),
        ensures
            !self.reachable_within(from, to, budget),
    {
        if self.reachable_within(from, to, budget) {
            let cells = choose|cells: Seq<Pos>| #[trigger]
                self.is_route(cells, from, to) && cells.len() <= budget + 1;
            assert(self.is_walk(cells, from, to));
        }
    }

    /// Every walk that starts outside `region` and ends inside it steps, at some point,
    /// from a cell outside onto a cell inside.
    proof fn lemma_walk_enters(&self, cells: Seq<Pos>, from: Pos, to: Pos, region: Set<Pos>) -> (i:
        int)
        requires
            self.is_walk(cells, from, to),
            !region.contains(from),
            region.contains(to),
        ensures
            1 <= i < cells.len(),
            !region.contains(cells[i - 1]),
            region.contains(cells[i]),
        decreases cells.len(),
    {
        let before = cells.len() - 2;
        if region.contains(cells[before]) {
            let shorter = cells.drop_last();
            assert forall|k: int| 0 <= k < shorter.len() - 1 implies #[trigger] hop(shorter, k) by {
                assert(hop(cells, k));
            }
            self.lemma_walk_enters(shorter, from, cells[before], region)
        } else {
            before + 1
        }
    }

    /// A barrier shuts a region off: where `to` lies in a region that `from` lies
    /// outside of, and every cell of the region that can be entered from outside is
    /// occupied, no budget makes `to` reachable.
    pub proof fn lemma_barrier(&self, region: Set<Pos>, from: Pos, to: Pos, budget: nat)
        requires
            !region.contains(from),
            region.contains(to),
            forall|outside: Pos, inside: Pos|
                #![trigger region.contains(outside), region.contains(inside)]
                outside.within(DIM as int) && inside.within(DIM as int) && outside.adjacent(
                    inside,
                ) && !region.contains(outside) && region.contains(inside) ==> self.occupied(
                    inside,
                ),
        ensures
            !self.reachable_within(from, to, budget),
    {
        if self.reachable_within(from, to, budget) {
            let cells = choose|cells: Seq<Pos>| #[trigger]
                self.is_route(cells, from, to) && cells.len() <= budget + 1;
            let i = self.lemma_walk_enters(cells, from, to, region);
            assert(hop(cells, i - 1));
        }
    }
}

} // verus!
