//! The search itself: breadth first from the starting cell, level by level, until the
//! destination is taken from the frontier or the frontier is empty.

use std::collections::VecDeque;
use vstd::prelude::*;
use crate::level::Level;
use crate::pos::Pos;
use crate::route::hop;

verus! {

/// How many cells are not yet marked.
spec fn unmarked(marks: Seq<bool>) -> nat
    decreases marks.len(),
{
    if marks.len() == 0 {
        0
    } else {
        unmarked(marks.drop_last()) + if marks.last() {
            0nat
        } else {
            1nat
        }
    }
}

/// Where no cell is marked, every cell counts.
proof fn lemma_none_marked(marks: Seq<bool>)
    requires
        forall|i: int| 0 <= i < marks.len() ==> !marks[i],
    ensures
        unmarked(marks) == marks.len(),
    decreases marks.len(),
{
    if marks.len() > 0 {
        lemma_none_marked(marks.drop_last());
    }
}

/// Marking a cell leaves one unmarked cell fewer.
proof fn lemma_mark(marks: Seq<bool>, i: int)
    requires
        0 <= i < marks.len(),
        !marks[i],
    ensures
        unmarked(marks.update(i, true)) + 1 == unmarked(marks),
    decreases marks.len(),
{
    let marked = marks.update(i, true);
    if i == marks.len() - 1 {
        assert(marked.drop_last() =~= marks.drop_last());
    } else {
        assert(marked.drop_last() =~= marks.drop_last().update(i, true));
        lemma_mark(marks.drop_last(), i);
    }
}

/// The linear index of `cell` on a grid with `dim` columns.
fn cell_index(cell: Pos, dim: u8) -> (index: usize)
    ensures
        index == cell.index(dim as int),
{
    assert(cell.x * dim <= 255 * 255) by (nonlinear_arith)
        requires
            cell.x <= 255,
            dim <= 255,
    ;
    cell.x as usize * dim as usize + cell.y as usize
}

/// The cell with the linear index `index` on a grid with `dim` columns.
fn cell_at(index: usize, dim: u8) -> (cell: Pos)
    requires
        dim > 0,
        index < dim * dim,
    ensures
        cell == Pos::at(index as int, dim as int),
        cell.within(dim as int),
        cell.index(dim as int) == index,
{
    proof {
        Pos::lemma_cell_of_index(index as int, dim as int);
    }
    Pos { x: (index / dim as usize) as u8, y: (index % dim as usize) as u8 }
}

/// A record of the search so far, kept for the proof only.
struct Trace {
    /// Every cell that was ever put on the frontier, with its distance from the start, in
    /// the order in which they were put there.
    order: Seq<(Pos, u16)>,
    /// For each linear index the place of its cell in `order`, or -1 while the cell has
    /// not been put on the frontier.
    slot: Seq<int>,
    /// How many cells have been taken from the frontier.
    done: int,
}

/// The state of one search: it lives for one query and is shared with nothing.
struct Search {
    /// For each linear index, whether its cell has been looked at.
    visited: Vec<bool>,
    /// The cells that wait to be expanded, first in, first out, each with its distance
    /// from the start. A cell may wait at one step beyond the largest budget.
    frontier: VecDeque<(Pos, u16)>,
    trace: Ghost<Trace>,
}

/// The cell with the linear index `index` was put on the frontier with a distance of at
/// most `bound`.
spec fn known(trace: Trace, index: int, bound: int) -> bool {
    &&& 0 <= index < trace.slot.len()
    &&& 0 <= trace.slot[index] < trace.order.len()
    &&& trace.order[trace.slot[index]].1 <= bound
}

/// `later` is `earlier` after more cells were put on the frontier.
spec fn extends(later: Trace, earlier: Trace) -> bool {
    &&& later.done == earlier.done
    &&& later.slot.len() == earlier.slot.len()
    &&& earlier.order.len() <= later.order.len()
    &&& forall|j: int| 0 <= j < earlier.order.len() ==> #[trigger] later.order[j] == earlier.order[j]
    &&& forall|i: int|
        0 <= i < earlier.slot.len() && #[trigger] earlier.slot[i] >= 0 ==> later.slot[i]
            == earlier.slot[i]
}

/// Every cell onto which a unit on `cell` may step was put on the frontier with a
/// distance of at most `bound`.
spec fn settled<const DIM: u8>(level: &Level<DIM>, trace: Trace, cell: Pos, bound: int) -> bool {
    forall|next: Pos| #[trigger]
        level.may_step(cell, next) ==> known(trace, next.index(DIM as int), bound)
}

/// Of the first `upto` cells put on the frontier, each one within the budget is not the
/// destination and is settled.
spec fn closed<const DIM: u8>(
    level: &Level<DIM>,
    trace: Trace,
    destination: Pos,
    budget: u8,
    upto: int,
) -> bool {
    forall|j: int|
        0 <= j < upto && (#[trigger] trace.order[j]).1 <= budget ==> trace.order[j].0
            != destination && settled(level, trace, trace.order[j].0, trace.order[j].1 + 1)
}

/// What was put on the frontier stays known.
proof fn lemma_known_persists(earlier: Trace, later: Trace, index: int, bound: int)
    requires
        extends(later, earlier),
        known(earlier, index, bound),
    ensures
        known(later, index, bound),
{
}

/// What extends an extension extends the trace that it started from.
proof fn lemma_extends_transitive(first: Trace, second: Trace, third: Trace)
    requires
        extends(second, first),
        extends(third, second),
    ensures
        extends(third, first),
{
}

/// Cells that were closed stay closed while more cells are put on the frontier.
proof fn lemma_closed_persists<const DIM: u8>(
    level: &Level<DIM>,
    earlier: Trace,
    later: Trace,
    destination: Pos,
    budget: u8,
    upto: int,
)
    requires
        extends(later, earlier),
        closed(level, earlier, destination, budget, upto),
        upto <= earlier.order.len(),
    ensures
        closed(level, later, destination, budget, upto),
{
    assert forall|j: int| 0 <= j < upto && (#[trigger] later.order[j]).1 <= budget implies
        later.order[j].0 != destination && settled(
        level,
        later,
        later.order[j].0,
        later.order[j].1 + 1,
    ) by {
        let cell = earlier.order[j].0;
        let bound = earlier.order[j].1 + 1;
        assert forall|next: Pos| #[trigger] level.may_step(cell, next) implies known(
            later,
            next.index(DIM as int),
            bound,
        ) by {
            lemma_known_persists(earlier, later, next.index(DIM as int), bound);
        }
    }
}

impl Search {
    /// What holds of the search at every moment.
    spec fn consistent<const DIM: u8>(&self, level: &Level<DIM>, start: Pos) -> bool {
        let dim = DIM as int;
        let trace = self.trace@;
        let order = trace.order;
        let slot = trace.slot;
        &&& dim >= 1
        &&& start.within(dim)
        &&& self.visited@.len() == dim * dim
        &&& slot.len() == dim * dim
        // The frontier holds the cells that were put there and not yet taken.
        &&& 0 <= trace.done <= order.len()
        &&& self.frontier@ == order.subrange(trace.done, order.len() as int)
        // The start came first, and every cell that followed took a mark of its own: the
        // frontier never holds more cells than the grid has.
        &&& order.len() > 0
        &&& order[0] == (start, 0u16)
        &&& slot[start.index(dim)] == 0
        &&& order.len() + unmarked(self.visited@) <= dim * dim
        // Each cell was put there once, is a cell of the grid, and is reachable within
        // the distance that it carries.
        &&& forall|j: int|
            0 <= j < order.len() ==> (#[trigger] order[j]).0.within(dim) && slot[order[j].0.index(
                dim,
            )] == j
        &&& forall|j: int|
            0 <= j < order.len() ==> level.reachable_within(
                start,
                (#[trigger] order[j]).0,
                order[j].1 as nat,
            )
        // The distances never fall along the order.
        &&& forall|j: int, k: int|
            0 <= j <= k < order.len() ==> (#[trigger] order[j]).1 <= (#[trigger] order[k]).1
        // A cell with a slot is marked, and a marked cell without one is occupied.
        &&& forall|i: int|
            0 <= i < dim * dim && #[trigger] slot[i] >= 0 ==> slot[i] < order.len()
                && order[slot[i]].0 == Pos::at(i, dim) && self.visited@[i]
        &&& forall|i: int|
            0 <= i < dim * dim && #[trigger] self.visited@[i] && slot[i] < 0 ==> level.occupied(
                Pos::at(i, dim),
            )
    }

    /// What holds between two expansions: every cell taken from the frontier so far is
    /// closed, and no distance on the frontier is more than one step ahead of its front.
    spec fn at_rest<const DIM: u8>(
        &self,
        level: &Level<DIM>,
        start: Pos,
        destination: Pos,
        budget: u8,
    ) -> bool {
        let trace = self.trace@;
        &&& self.consistent(level, start)
        &&& closed(level, trace, destination, budget, trace.done)
        &&& trace.done < trace.order.len() ==> forall|k: int|
            0 <= k < trace.order.len() ==> (#[trigger] trace.order[k]).1
                <= trace.order[trace.done].1 + 1
    }

    /// What holds while the cell last taken from the frontier is expanded.
    spec fn expanding<const DIM: u8>(
        &self,
        level: &Level<DIM>,
        start: Pos,
        destination: Pos,
        budget: u8,
    ) -> bool {
        let trace = self.trace@;
        &&& self.consistent(level, start)
        &&& trace.done >= 1
        &&& closed(level, trace, destination, budget, trace.done - 1)
        &&& trace.order[trace.done - 1].1 <= budget
        &&& forall|k: int|
            0 <= k < trace.order.len() ==> (#[trigger] trace.order[k]).1 <= trace.order[trace.done
                - 1].1 + 1
    }

    /// The measure by which the search ends: it falls with every cell that is marked and
    /// with every cell that is taken from the frontier.
    spec fn fuel(&self) -> nat {
        2 * unmarked(self.visited@) + self.frontier@.len()
    }

    /// Looks at the neighbour with the linear index `next` of the cell that is being
    /// expanded. A neighbour that was looked at before is left alone. Any other is
    /// marked, and joins the frontier with the distance `steps` unless it is occupied.
    fn visit<const DIM: u8>(
        &mut self,
        level: &Level<DIM>,
        next: usize,
        steps: u16,
        Ghost(start): Ghost<Pos>,
        Ghost(destination): Ghost<Pos>,
        Ghost(budget): Ghost<u8>,
    )
        requires
            old(self).expanding(level, start, destination, budget),
            next < DIM * DIM,
            old(self).trace@.order[old(self).trace@.done - 1].0.adjacent(
                Pos::at(next as int, DIM as int),
            ),
            steps == old(self).trace@.order[old(self).trace@.done - 1].1 + 1,
        ensures
            final(self).expanding(level, start, destination, budget),
            extends(final(self).trace@, old(self).trace@),
            !level.occupied(Pos::at(next as int, DIM as int)) ==> known(
                final(self).trace@,
                next as int,
                steps as int,
            ),
            final(self).fuel() <= old(self).fuel(),
    {
        let ghost before = self.trace@;
        let ghost root = before.order[before.done - 1];
        if !self.visited[next] {
            proof {
                lemma_mark(self.visited@, next as int);
            }
            self.visited.set(next, true);
            let cell = cell_at(next, DIM);
            if !level.is_occupied(cell) {
                self.frontier.push_back((cell, steps));
                let ghost after = Trace {
                    order: before.order.push((cell, steps)),
                    slot: before.slot.update(next as int, before.order.len() as int),
                    done: before.done,
                };
                self.trace = Ghost(after);
                proof {
                    start.lemma_index_of_cell(DIM as int);
                    assert forall|j: int| 0 <= j < before.order.len() implies after.slot[(
                    #[trigger] after.order[j]).0.index(DIM as int)] == j by {
                        before.order[j].0.lemma_index_of_cell(DIM as int);
                    }
                    lemma_closed_persists(level, before, after, destination, budget, before.done - 1);
                    level.lemma_reachable_step(start, root.0, cell, root.1 as nat);
                    assert(self.frontier@ =~= after.order.subrange(
                        after.done,
                        after.order.len() as int,
                    ));
                }
            }
        }
    }

    /// Expands `cell`, which was just taken from the frontier with the distance `dist`:
    /// looks at its neighbours to the left and to the right, unless the step would leave
    /// the row, and at those above and below, unless the step would leave the grid.
    fn expand<const DIM: u8>(
        &mut self,
        level: &Level<DIM>,
        cell: Pos,
        dist: u16,
        Ghost(start): Ghost<Pos>,
        Ghost(destination): Ghost<Pos>,
        Ghost(budget): Ghost<u8>,
    )
        requires
            old(self).expanding(level, start, destination, budget),
            old(self).trace@.order[old(self).trace@.done - 1] == (cell, dist),
            cell != destination,
        ensures
            final(self).at_rest(level, start, destination, budget),
            final(self).fuel() <= old(self).fuel(),
    {
        let ghost dim = DIM as int;
        let ghost entry = self.trace@;
        let side = DIM as usize;
        let index = cell_index(cell, DIM);
        let steps = dist + 1;
        proof {
            cell.lemma_index_neighbour(dim);
            assert(dim * dim <= 255 * 255) by (nonlinear_arith)
                requires
                    0 <= dim <= 255,
            ;
        }
        let cells = side * side;
        let column = index % side;
        if column != 0 {
            self.visit(level, index - 1, steps, Ghost(start), Ghost(destination), Ghost(budget));
        }
        let ghost left = self.trace@;
        if column != side - 1 {
            self.visit(level, index + 1, steps, Ghost(start), Ghost(destination), Ghost(budget));
        }
        let ghost right = self.trace@;
        if index >= side {
            self.visit(level, index - side, steps, Ghost(start), Ghost(destination), Ghost(budget));
        }
        let ghost up = self.trace@;
        if index + side < cells {
            self.visit(level, index + side, steps, Ghost(start), Ghost(destination), Ghost(budget));
        }
        proof {
            let last = self.trace@;
            lemma_extends_transitive(right, up, last);
            lemma_extends_transitive(left, right, last);
            lemma_extends_transitive(entry, left, last);
            assert forall|next: Pos| #[trigger] level.may_step(cell, next) implies known(
                last,
                next.index(dim),
                steps as int,
            ) by {
                let there = next.index(dim);
                cell.lemma_neighbour_index(next, dim);
                next.lemma_index_of_cell(dim);
                if there == index - 1 {
                    lemma_known_persists(left, last, there, steps as int);
                } else if there == index + 1 {
                    lemma_known_persists(right, last, there, steps as int);
                } else if there == index - side {
                    lemma_known_persists(up, last, there, steps as int);
                }
            }
        }
    }
}

/// Once the frontier is empty, the end of every route from the start that stays within
/// the budget has been on the frontier, with a distance of no more than the steps of
/// that route.
proof fn lemma_exhausted<const DIM: u8>(
    search: &Search,
    level: &Level<DIM>,
    start: Pos,
    destination: Pos,
    budget: u8,
    cells: Seq<Pos>,
    to: Pos,
)
    requires
        search.at_rest(level, start, destination, budget),
        search.trace@.done == search.trace@.order.len(),
        level.is_route(cells, start, to),
        cells.len() <= budget + 1,
    ensures
        known(search.trace@, to.index(DIM as int), cells.len() - 1),
    decreases cells.len(),
{
    let dim = DIM as int;
    let trace = search.trace@;
    to.lemma_index_of_cell(dim);
    if cells.len() > 1 {
        let before = cells.len() - 2;
        let via = cells[before];
        level.lemma_route_prefix(cells, start, to, before + 1);
        lemma_exhausted(search, level, start, destination, budget, cells.take(before + 1), via);
        via.lemma_index_of_cell(dim);
        // The cell before the last was on the frontier within the budget, so it was
        // expanded, and the last cell is one of those onto which a unit may step from it.
        let j = trace.slot[via.index(dim)];
        assert(trace.order[j].0 == via);
        assert(settled(level, trace, via, trace.order[j].1 + 1));
        assert(hop(cells, before));
        assert(level.may_step(via, to));
    }
}

/// Given a level, a starting position, a destination and a maximum distance, checks
/// whether the destination is reachable from the start within the distance: whether
/// some route leads there by at most `max_distance` orthogonal unit steps over cells
/// of the grid that are not occupied. The starting position is not checked for
/// occupants, and a unit is always within reach of the cell on which it stands.
pub fn reachable_in<const DIM: u8>(
    level: &Level<DIM>,
    starting_pos: Pos,
    destination_pos: Pos,
    max_distance: u8,
) -> (reachable: bool)
    requires
        DIM >= 1,
        starting_pos.within(DIM as int),
        destination_pos.within(DIM as int),
    ensures
        reachable == level.reachable_within(starting_pos, destination_pos, max_distance as nat),
        starting_pos == destination_pos ==> reachable,
{
    let ghost dim = DIM as int;
    let side = DIM as usize;
    proof {
        assert(dim * dim <= 255 * 255) by (nonlinear_arith)
            requires
                0 <= dim <= 255,
        ;
        starting_pos.lemma_index_of_cell(dim);
        level.lemma_reachable_reflexive(starting_pos);
    }
    let start_index = cell_index(starting_pos, DIM);
    let mut visited = vec![false; side * side];
    proof {
        lemma_none_marked(visited@);
        lemma_mark(visited@, start_index as int);
    }
    visited.set(start_index, true);
    let mut frontier: VecDeque<(Pos, u16)> = VecDeque::new();
    frontier.push_back((starting_pos, 0));
    let mut search = Search {
        visited,
        frontier,
        trace: Ghost(
            Trace {
                order: seq![(starting_pos, 0u16)],
                slot: Seq::new(
                    (dim * dim) as nat,
                    |i: int|
                        if i == start_index {
                            0int
                        } else {
                            -1int
                        },
                ),
                done: 0,
            },
        ),
    };
    assert(search.frontier@ =~= search.trace@.order.subrange(0, 1));
    while search.frontier.len() > 0
        invariant
            search.at_rest(level, starting_pos, destination_pos, max_distance),
        decreases search.fuel(),
    {
        let ghost before = search.trace@;
        let (cell, dist) = search.frontier.pop_front().unwrap();
        let ghost after = Trace { order: before.order, slot: before.slot, done: before.done + 1 };
        search.trace = Ghost(after);
        proof {
            assert(search.frontier@ =~= after.order.subrange(after.done, after.order.len() as int));
        }
        if dist <= max_distance as u16 {
            if cell == destination_pos {
                proof {
                    level.lemma_reachable_monotone(
                        starting_pos,
                        destination_pos,
                        dist as nat,
                        max_distance as nat,
                    );
                }
                return true;
            }
            search.expand(
                level,
                cell,
                dist,
                Ghost(starting_pos),
                Ghost(destination_pos),
                Ghost(max_distance),
            );
        }
    }
    proof {
        let trace = search.trace@;
        if level.reachable_within(starting_pos, destination_pos, max_distance as nat) {
            let cells = choose|cells: Seq<Pos>| #[trigger]
                level.is_route(cells, starting_pos, destination_pos) && cells.len()
                    <= max_distance + 1;
            lemma_exhausted(
                &search,
                level,
                starting_pos,
                destination_pos,
                max_distance,
                cells,
                destination_pos,
            );
            destination_pos.lemma_index_of_cell(dim);
            // The destination was then taken from the frontier within the budget, and the
            // search would have ended there.
            let j = trace.slot[destination_pos.index(dim)];
            assert(trace.order[j].0 == destination_pos);
            assert(false);
        }
    }
    false
}

} // verus!
