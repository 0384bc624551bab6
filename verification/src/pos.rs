//! Grid coordinates and their row-major linear index.

use vstd::prelude::*;
use vstd::math::abs;
use vstd::arithmetic::div_mod::{lemma_fundamental_div_mod, lemma_fundamental_div_mod_converse};

verus! {

/// A cell of a square grid: `x` is the row, `y` the column, both counted from the
/// top-left origin.
#[derive(Clone, Copy, Debug, PartialEq, Eq, Structural)]
pub struct Pos {
    pub x: u8,
    pub y: u8,
}

impl Pos {
    /// The row-major linear index of this cell on a grid with `dim` columns.
    pub open spec fn index(self, dim: int) -> int {
        self.x * dim + self.y
    }

    /// Both coordinates lie in `[0, dim)`.
    pub open spec fn within(self, dim: int) -> bool {
        self.x < dim && self.y < dim
    }

    /// The cell whose row-major linear index on a grid with `dim` columns is `index`.
    pub open spec fn at(index: int, dim: int) -> Pos {
        Pos { x: (index / dim) as u8, y: (index % dim) as u8 }
    }

    /// `other` is one orthogonal unit step away: same row and neighbouring columns, or
    /// same column and neighbouring rows.
    pub open spec fn adjacent(self, other: Pos) -> bool {
        ||| self.x == other.x && (self.y + 1 == other.y || other.y + 1 == self.y)
        ||| self.y == other.y && (self.x + 1 == other.x || other.x + 1 == self.x)
    }

    /// The Manhattan distance to `other`.
    pub open spec fn manhattan(self, other: Pos) -> nat {
        abs(self.x - other.x) + abs(self.y - other.y)
    }

    /// The cell at (`x`, `y`). The coordinates are not checked against any grid.
    pub fn new(x: u8, y: u8) -> (p: Pos)
        ensures
            p.x == x,
            p.y == y,
    {
        Pos { x, y }
    }

    /// The cell whose row-major linear index on a grid with `dim` columns is `num`.
    pub fn from_1d(num: u8, dim: u8) -> (p: Pos)
        requires
            dim > 0,
        ensures
            p.x == num / dim,
            p.y == num % dim,
            p == Pos::at(num as int, dim as int),
    {
        proof {
            lemma_fundamental_div_mod(num as int, dim as int);
            assert(0 <= (num as int) / (dim as int) <= num) by (nonlinear_arith)
                requires
                    0 <= num,
                    0 < dim,
            ;
        }
        Pos { x: num / dim, y: num % dim }
    }

    /// The row-major linear index of this cell on a grid with `dim` columns.
    pub fn to_1d(&self, dim: u8) -> (num: u8)
        requires
            self.index(dim as int) <= u8::MAX,
        ensures
            num == self.index(dim as int),
    {
        self.x * dim + self.y
    }

    /// A cell of the grid has an index below `dim * dim`, and that index leads back to
    /// the cell.
    pub proof fn lemma_index_of_cell(self, dim: int)
        requires
            self.within(dim),
        ensures
            0 <= self.index(dim) < dim * dim,
            Pos::at(self.index(dim), dim) == self,
    {
        let x = self.x as int;
        let y = self.y as int;
        assert(0 <= x * dim && x * dim + dim <= dim * dim) by (nonlinear_arith)
            requires
                0 <= x < dim,
        ;
        lemma_fundamental_div_mod_converse(self.index(dim), dim, x, y);
    }

    /// An index below `dim * dim` belongs to a cell of the grid, and that cell leads back
    /// to the index.
    pub proof fn lemma_cell_of_index(index: int, dim: int)
        requires
            0 < dim <= 256,
            0 <= index < dim * dim,
        ensures
            Pos::at(index, dim).within(dim),
            Pos::at(index, dim).index(dim) == index,
            Pos::at(index, dim).x == index / dim,
            Pos::at(index, dim).y == index % dim,
    {
        lemma_fundamental_div_mod(index, dim);
        let row = index / dim;
        assert(0 <= row < dim) by (nonlinear_arith)
            requires
                0 < dim,
                0 <= index < dim * dim,
                index == dim * row + index % dim,
                0 <= index % dim < dim,
        ;
        assert(dim * row == row * dim) by (nonlinear_arith);
    }

    /// No two cells of the grid share a linear index.
    pub proof fn lemma_index_is_unique(self, other: Pos, dim: int)
        requires
            self.within(dim),
            other.within(dim),
            self.index(dim) == other.index(dim),
        ensures
            self == other,
    {
        self.lemma_index_of_cell(dim);
        other.lemma_index_of_cell(dim);
    }

    /// The linear index of a neighbour on the grid is one less or one more, within the
    /// row, or `dim` less or `dim` more, within the grid.
    pub proof fn lemma_neighbour_index(self, other: Pos, dim: int)
        requires
            self.within(dim),
            other.within(dim),
            self.adjacent(other),
        ensures
            ({
                let here = self.index(dim);
                let there = other.index(dim);
                ||| there == here - 1 && self.y != 0
                ||| there == here + 1 && self.y != dim - 1
                ||| there == here - dim && here >= dim
                ||| there == here + dim && here + dim < dim * dim
            }),
    {
        let x = self.x as int;
        let other_x = other.x as int;
        assert((x + 1) * dim == x * dim + dim) by (nonlinear_arith);
        assert((other_x + 1) * dim == other_x * dim + dim) by (nonlinear_arith);
        if x >= 1 {
            assert(x * dim >= dim) by (nonlinear_arith)
                requires
                    x >= 1,
                    dim >= 0,
            ;
        }
        assert((other_x + 1) * dim <= dim * dim) by (nonlinear_arith)
            requires
                0 <= other_x < dim,
        ;
    }

    /// The cell one index down or up is a neighbour unless the step leaves the row, and
    /// the cell `dim` indices down or up is a neighbour unless the step leaves the grid.
    pub proof fn lemma_index_neighbour(self, dim: int)
        requires
            self.within(dim),
            dim <= 256,
        ensures
            ({
                let here = self.index(dim);
                &&& 0 <= here < dim * dim
                &&& here % dim == self.y
                &&& self.y != 0 ==> self.adjacent(Pos::at(here - 1, dim))
                &&& self.y != dim - 1 ==> here + 1 < dim * dim && self.adjacent(
                    Pos::at(here + 1, dim),
                )
                &&& here >= dim ==> self.adjacent(Pos::at(here - dim, dim))
                &&& here + dim < dim * dim ==> self.adjacent(Pos::at(here + dim, dim))
            }),
    {
        let here = self.index(dim);
        let x = self.x as int;
        let y = self.y as int;
        self.lemma_index_of_cell(dim);
        assert((x + 1) * dim == x * dim + dim) by (nonlinear_arith);
        assert((x - 1) * dim == x * dim - dim) by (nonlinear_arith);
        assert((x + 1) * dim <= dim * dim) by (nonlinear_arith)
            requires
                0 <= x < dim,
        ;
        if y != 0 {
            lemma_fundamental_div_mod_converse(here - 1, dim, x, y - 1);
        }
        if y != dim - 1 {
            lemma_fundamental_div_mod_converse(here + 1, dim, x, y + 1);
        }
        if here >= dim {
            assert(x >= 1) by (nonlinear_arith)
                requires
                    x * dim + y >= dim,
                    0 <= y < dim,
                    0 <= x,
            ;
            lemma_fundamental_div_mod_converse(here - dim, dim, x - 1, y);
        }
        if here + dim < dim * dim {
            assert(x + 1 < dim) by (nonlinear_arith)
                requires
                    x * dim + y + dim < dim * dim,
                    0 <= y < dim,
                    0 <= x < dim,
            ;
            lemma_fundamental_div_mod_converse(here + dim, dim, x + 1, y);
        }
    }
}

} // verus!
