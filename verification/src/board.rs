//! A bare square grid of tile values with bounds-checked access.
//!
//! `Board` holds what `Game` holds minus score and flags: a `size`-by-`size`
//! grid, row-major, 0 meaning empty.  Access outside the grid is a caller
//! error, ruled out by the contracts.

use vstd::pervasive::VecAdditionalExecFns;
use vstd::prelude::*;

use crate::game::Direction;
use crate::render::{chars_to_string, pow10, render_chars, render_spec};
use crate::traverse::lemma_line_index_bounds;

verus! {

pub struct Board {
    size: usize,
    state: Vec<usize>,
}

impl Board {
    /// The flat grid contents, row-major: cell `(x, y)` is at `y*size + x`.
    pub closed spec fn cells(&self) -> Seq<usize> {
        self.state@
    }

    /// The side length of the square grid.
    pub closed spec fn spec_size(&self) -> int {
        self.size as int
    }

    /// The grid holds exactly `size * size` cells.
    pub open spec fn wf(&self) -> bool {
        &&& self.cells().len() == self.spec_size() * self.spec_size()
        &&& self.spec_size() * self.spec_size() <= usize::MAX
    }

    /// A fresh board of the standard four-by-four size, every cell empty.
    pub fn new() -> (b: Self)
        ensures
            b.wf(),
            b.spec_size() == 4,
            b.cells() == Seq::new(16nat, |k: int| 0usize),
    {
        let b = Board::from_size(4);
        proof {
            assert(b.cells() =~= Seq::new(16nat, |k: int| 0usize));
        }
        b
    }

    /// A fresh `size`-by-`size` board, every cell empty.
    pub fn from_size(size: usize) -> (b: Self)
        requires
            size * size <= usize::MAX,
        ensures
            b.wf(),
            b.spec_size() == size,
            b.cells() == Seq::new((size * size) as nat, |k: int| 0usize),
    {
        let total = size * size;
        let mut state: Vec<usize> = Vec::new();
        let mut k: usize = 0;
        while k < total
            invariant
                k <= total,
                state@.len() == k,
                forall|x: int| 0 <= x < k ==> (#[trigger] state@[x]) == 0,
            decreases total - k,
        {
            state.push(0);
            k = k + 1;
        }
        proof {
            assert(state@ =~= Seq::new((size * size) as nat, |x: int| 0usize));
        }
        Board { size, state }
    }

    /// The value stored at column `x`, row `y`.  Coordinates outside the
    /// grid are a caller error.
    pub fn get_state(&self, x: usize, y: usize) -> (v: usize)
        requires
            self.wf(),
            x < self.spec_size(),
            y < self.spec_size(),
        ensures
            v == self.cells()[y * self.spec_size() + x],
    {
        proof {
            lemma_line_index_bounds(self.spec_size(), Direction::Left, y as int, x as int);
        }
        self.state[y * self.size + x]
    }

    /// Store `value` at column `x`, row `y`.  Coordinates outside the grid
    /// are a caller error.
    pub fn set_state(&mut self, x: usize, y: usize, value: usize)
        requires
            old(self).wf(),
            x < old(self).spec_size(),
            y < old(self).spec_size(),
        ensures
            final(self).wf(),
            final(self).cells() == old(self).cells().update(
                y * old(self).spec_size() + x,
                value,
            ),
            final(self).spec_size() == old(self).spec_size(),
    {
        proof {
            lemma_line_index_bounds(self.spec_size(), Direction::Left, y as int, x as int);
        }
        self.state.set(y * self.size + x, value);
    }

    /// Double the value at column `x`, row `y`; the value must not
    /// overflow when doubled.
    pub fn double_state(&mut self, x: usize, y: usize)
        requires
            old(self).wf(),
            x < old(self).spec_size(),
            y < old(self).spec_size(),
            2 * old(self).cells()[y * old(self).spec_size() + x] <= usize::MAX,
        ensures
            final(self).wf(),
            final(self).cells() == old(self).cells().update(
                y * old(self).spec_size() + x,
                (2 * old(self).cells()[y * old(self).spec_size() + x]) as usize,
            ),
            final(self).spec_size() == old(self).spec_size(),
    {
        proof {
            lemma_line_index_bounds(self.spec_size(), Direction::Left, y as int, x as int);
        }
        let v = self.state[y * self.size + x];
        self.state.set(y * self.size + x, v * 2);
    }

    /// The grid rendered as bordered text cells, each occupied cell's value
    /// centred on its middle row.  Values must fit within a cell (eleven
    /// digits), and the picture must fit in memory.
    pub fn to_string(&self) -> (s: String)
        requires
            self.wf(),
            (1 + 6 * self.spec_size()) * (12 * self.spec_size() + 2) <= usize::MAX,
            forall|k: int|
                0 <= k < self.cells().len() ==> (#[trigger] self.cells()[k]) < 100_000_000_000,
        ensures
            s@ == render_spec(self.spec_size(), self.cells()),
    {
        let chars = render_chars(self.size, &self.state);
        chars_to_string(&chars)
    }
}

} // verus!
