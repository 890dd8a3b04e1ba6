//! The game state and the move engine.
//!
//! A `Game` owns a square grid of tile values (0 = empty, stored row-major),
//! the running score, the best score seen, and a finished flag.  `step`
//! slides every tile as far as possible in a direction, merging equal
//! adjacent tiles at most once per destination cell, and reports whether
//! anything changed; its contract pins the new grid down line by line
//! through `slide_spec` and the new score through `gain_lines`.

use vstd::pervasive::VecAdditionalExecFns;
use vstd::prelude::*;

use crate::line::{all_bounded, lemma_fixed_line_gain, lemma_slide_len, line_gain, slide_line,
    slide_spec, sum_seq};
use crate::traverse::{extract_line, gain_lines, lemma_gain_lines_le, lemma_line_index_bounds,
    lemma_line_index_cover, lemma_line_index_inj, lemma_sum_grid, lemma_sum_lines_mono,
    line_index, sum_lines};

verus! {

/// A cardinal move direction.  Up and Left slide toward index 0 of the
/// respective axis, Down and Right toward the far edge.
#[derive(Clone, Copy, Debug, PartialEq, Eq, Structural)]
pub enum Direction {
    Up,
    Down,
    Left,
    Right,
}

/// Some move changes one of the first `upto` lines of the grid.
pub open spec fn lines_changed(b: Seq<usize>, size: int, dir: Direction, upto: int) -> bool {
    exists|i: int|
        0 <= i < upto && slide_spec(#[trigger] extract_line(b, size, dir, i)) != extract_line(
            b,
            size,
            dir,
            i,
        )
}

pub struct Game {
    board: Vec<usize>,
    size: usize,
    score: usize,
    best: usize,
    finished: bool,
}

impl Game {
    /// The flat grid contents, row-major: cell `(x, y)` is at `y*size + x`.
    pub closed spec fn cells(&self) -> Seq<usize> {
        self.board@
    }

    /// The side length of the square grid.
    pub closed spec fn spec_size(&self) -> int {
        self.size as int
    }

    /// The running score.
    pub closed spec fn spec_score(&self) -> int {
        self.score as int
    }

    /// The best score seen so far.
    pub closed spec fn spec_best(&self) -> int {
        self.best as int
    }

    /// The finished flag.
    pub closed spec fn spec_finished(&self) -> bool {
        self.finished
    }

    /// The grid holds exactly `size * size` cells.
    pub open spec fn wf(&self) -> bool {
        &&& self.cells().len() == self.spec_size() * self.spec_size()
        &&& self.spec_size() * self.spec_size() <= usize::MAX
    }

    /// A fresh game on the standard four-by-four grid.
    pub fn new() -> (g: Self)
        ensures
            g.wf(),
            g.spec_size() == 4,
            g.cells() == Seq::new(16nat, |k: int| 0usize),
            g.spec_score() == 0,
            g.spec_best() == 0,
            !g.spec_finished(),
    {
        let g = Game::from_size(4);
        proof {
            assert(g.cells() =~= Seq::new(16nat, |k: int| 0usize));
        }
        g
    }

    /// A fresh game on a `size`-by-`size` grid, every cell empty.
    pub fn from_size(size: usize) -> (g: Self)
        requires
            size * size <= usize::MAX,
        ensures
            g.wf(),
            g.spec_size() == size,
            g.cells() == Seq::new((size * size) as nat, |k: int| 0usize),
            g.spec_score() == 0,
            g.spec_best() == 0,
            !g.spec_finished(),
    {
        let total = size * size;
        let mut board: Vec<usize> = Vec::new();
        let mut k: usize = 0;
        while k < total
            invariant
                k <= total,
                board@.len() == k,
                forall|x: int| 0 <= x < k ==> (#[trigger] board@[x]) == 0,
            decreases total - k,
        {
            board.push(0);
            k = k + 1;
        }
        proof {
            assert(board@ =~= Seq::new((size * size) as nat, |x: int| 0usize));
        }
        Game { board, size, score: 0, best: 0, finished: false }
    }

    /// Whether the game was marked finished.
    pub fn is_finished(&self) -> (r: bool)
        ensures
            r == self.spec_finished(),
    {
        self.finished
    }

    /// The value stored at column `x`, row `y`.  Coordinates outside the
    /// grid are a caller error.
    pub fn get_state(&self, x: usize, y: usize) -> (v: usize)
        requires
            self.wf(),
            x < self.spec_size(),
            y < self.spec_size(),
        ensures
            v == self.cells()[y * self.spec_size() + x],
    {
        proof {
            lemma_line_index_bounds(self.spec_size(), Direction::Left, y as int, x as int);
        }
        self.board[y * self.size + x]
    }

    /// Store `value` at column `x`, row `y`.  Coordinates outside the grid
    /// are a caller error.
    pub fn set_state(&mut self, x: usize, y: usize, value: usize)
        requires
            old(self).wf(),
            x < old(self).spec_size(),
            y < old(self).spec_size(),
        ensures
            final(self).wf(),
            final(self).cells() == old(self).cells().update(
                y * old(self).spec_size() + x,
                value,
            ),
            final(self).spec_size() == old(self).spec_size(),
            final(self).spec_score() == old(self).spec_score(),
            final(self).spec_best() == old(self).spec_best(),
            final(self).spec_finished() == old(self).spec_finished(),
    {
        proof {
            lemma_line_index_bounds(self.spec_size(), Direction::Left, y as int, x as int);
        }
        self.board.set(y * self.size + x, value);
    }

    /// Double the value at column `x`, row `y`; the value must not
    /// overflow when doubled.
    pub fn double_state(&mut self, x: usize, y: usize)
        requires
            old(self).wf(),
            x < old(self).spec_size(),
            y < old(self).spec_size(),
            2 * old(self).cells()[y * old(self).spec_size() + x] <= usize::MAX,
        ensures
            final(self).wf(),
            final(self).cells() == old(self).cells().update(
                y * old(self).spec_size() + x,
                (2 * old(self).cells()[y * old(self).spec_size() + x]) as usize,
            ),
            final(self).spec_size() == old(self).spec_size(),
            final(self).spec_score() == old(self).spec_score(),
            final(self).spec_best() == old(self).spec_best(),
            final(self).spec_finished() == old(self).spec_finished(),
    {
        let v = self.get_state(x, y);
        self.set_state(x, y, 2 * v);
    }

    /// Replace the whole grid with `states`, which must hold exactly
    /// `size * size` values.
    pub fn set_states(&mut self, states: Vec<usize>)
        requires
            old(self).wf(),
            states@.len() == old(self).spec_size() * old(self).spec_size(),
        ensures
            final(self).wf(),
            final(self).cells() == states@,
            final(self).spec_size() == old(self).spec_size(),
            final(self).spec_score() == old(self).spec_score(),
            final(self).spec_best() == old(self).spec_best(),
            final(self).spec_finished() == old(self).spec_finished(),
    {
        self.board = states;
    }

    /// Round trip: loading a grid with `set_states` and reading it back
    /// with `get_states` yields the loaded values.  The two contracts
    /// above compose: `set_states` leaves the grid equal to the loaded
    /// sequence, and `get_states` returns exactly the grid.
    pub proof fn lemma_states_round_trip(loaded: Game, states: Seq<usize>, read: Seq<usize>)
        requires
            loaded.cells() == states,
            read == loaded.cells(),
        ensures
            read == states,
    {
    }

    /// Record `best` as the best score.
    pub fn set_best(&mut self, best: usize)
        ensures
            final(self).spec_best() == best,
            final(self).cells() == old(self).cells(),
            final(self).spec_size() == old(self).spec_size(),
            final(self).spec_score() == old(self).spec_score(),
            final(self).spec_finished() == old(self).spec_finished(),
    {
        self.best = best;
    }

    /// A copy of the whole grid, row-major.
    pub fn get_states(&self) -> (r: Vec<usize>)
        ensures
            r@ == self.cells(),
    {
        let mut r: Vec<usize> = Vec::new();
        let mut k: usize = 0;
        let n = self.board.len();
        while k < n
            invariant
                k <= n,
                n == self.cells().len(),
                r@.len() == k,
                forall|x: int| 0 <= x < k ==> (#[trigger] r@[x]) == self.cells()[x],
            decreases n - k,
        {
            r.push(self.board[k]);
            k = k + 1;
        }
        proof {
            assert(r@ =~= self.cells());
        }
        r
    }

    /// The running score.
    pub fn get_score(&self) -> (r: usize)
        ensures
            r == self.spec_score(),
    {
        self.score
    }

    /// The best score seen so far.
    pub fn get_best(&self) -> (r: usize)
        ensures
            r == self.spec_best(),
    {
        self.best
    }

    /// The side length of the grid.
    pub fn get_size(&self) -> (r: usize)
        ensures
            r == self.spec_size(),
    {
        self.size
    }

    /// Flat grid index of position `j` of line `i` for a move in
    /// `direction`; positions count from the edge the tiles slide toward.
    fn line_index_at(size: usize, direction: &Direction, i: usize, j: usize) -> (idx: usize)
        requires
            i < size,
            j < size,
            size * size <= usize::MAX,
        ensures
            idx == line_index(size as int, *direction, i as int, j as int),
            idx < size * size,
    {
        proof {
            lemma_line_index_bounds(size as int, *direction, i as int, j as int);
        }
        match direction {
            Direction::Left => i * size + j,
            Direction::Right => i * size + (size - 1 - j),
            Direction::Up => j * size + i,
            Direction::Down => (size - 1 - j) * size + i,
        }
    }

    /// Slide every tile as far as possible in `direction`, merging equal
    /// adjacent tiles at most once per destination cell, and add the value
    /// of every merged tile to the score.  Returns whether the grid
    /// changed at all; when it did not, the game is left exactly as it
    /// was.  Tile values must be small enough to double, and the score
    /// small enough to absorb every possible merge.
    pub fn step(&mut self, direction: &Direction) -> (progress: bool)
        requires
            old(self).wf(),
            all_bounded(old(self).cells()),
            old(self).spec_score() + sum_seq(old(self).cells()) <= usize::MAX,
        ensures
            final(self).wf(),
            final(self).spec_size() == old(self).spec_size(),
            final(self).spec_best() == old(self).spec_best(),
            final(self).spec_finished() == old(self).spec_finished(),
            forall|i: int|
                0 <= i < old(self).spec_size() ==> #[trigger] extract_line(
                    final(self).cells(),
                    old(self).spec_size(),
                    *direction,
                    i,
                ) == slide_spec(
                    extract_line(old(self).cells(), old(self).spec_size(), *direction, i),
                ),
            final(self).spec_score() == old(self).spec_score() + gain_lines(
                old(self).cells(),
                old(self).spec_size(),
                *direction,
                old(self).spec_size(),
            ),
            progress == (final(self).cells() != old(self).cells()),
            !progress ==> final(self).spec_score() == old(self).spec_score(),
    {
        let size = self.size;
        let ghost sz = size as int;
        let ghost d = *direction;
        let ghost b0 = self.board@;
        let ghost score0 = self.score as int;
        let mut progress = false;
        let mut i: usize = 0;
        while i < size
            invariant
                i <= size,
                sz == size as int,
                self.size == size,
                self.wf(),
                self.spec_best() == old(self).spec_best(),
                self.spec_finished() == old(self).spec_finished(),
                d == *direction,
                b0.len() == sz * sz,
                sz * sz <= usize::MAX,
                all_bounded(b0),
                score0 + sum_seq(b0) <= usize::MAX,
                score0 == old(self).spec_score(),
                b0 == old(self).cells(),
                forall|ii: int|
                    0 <= ii < i ==> #[trigger] extract_line(self.cells(), sz, d, ii) == slide_spec(
                        extract_line(b0, sz, d, ii),
                    ),
                forall|ii: int|
                    i <= ii < size ==> #[trigger] extract_line(self.cells(), sz, d, ii)
                        == extract_line(b0, sz, d, ii),
                self.spec_score() == score0 + gain_lines(b0, sz, d, i as int),
                progress == lines_changed(b0, sz, d, i as int),
            decreases size - i,
        {
            let ghost bcur = self.board@;
            // read line i, ordered from the destination edge
            let mut linevec: Vec<usize> = Vec::new();
            let mut j: usize = 0;
            while j < size
                invariant
                    j <= size,
                    i < size,
                    sz == size as int,
                    self.size == size,
                    self.wf(),
                    sz * sz <= usize::MAX,
                    d == *direction,
                    self.cells() == bcur,
                    linevec@.len() == j,
                    forall|k: int|
                        0 <= k < j ==> (#[trigger] linevec@[k]) == bcur[line_index(
                            sz,
                            d,
                            i as int,
                            k,
                        )],
                decreases size - j,
            {
                let idx = Game::line_index_at(size, direction, i, j);
                linevec.push(self.board[idx]);
                j = j + 1;
            }
            proof {
                assert(linevec@ =~= extract_line(bcur, sz, d, i as int));
                assert(extract_line(bcur, sz, d, i as int) == extract_line(b0, sz, d, i as int));
                let l = extract_line(b0, sz, d, i as int);
                assert forall|k: int| 0 <= k < l.len() implies 2 * (#[trigger] l[k])
                    <= usize::MAX by {
                    lemma_line_index_bounds(sz, d, i as int, k);
                }
                // the line's total fits: it is part of the grid total
                lemma_sum_grid(b0, sz, d);
                lemma_sum_lines_mono(b0, sz, d, i as int + 1, sz);
                lemma_sum_lines_mono(b0, sz, d, 0, i as int);
                crate::line::lemma_sum_nonneg(l);
                assert(sum_lines(b0, sz, d, i as int + 1) == sum_lines(b0, sz, d, i as int)
                    + sum_seq(l));
                assert(sum_seq(l) <= sum_seq(b0));
            }
            let (new_line, gain) = slide_line(&linevec);
            proof {
                lemma_slide_len(linevec@);
            }
            // compare, then write the slid line back
            let mut changed_line = false;
            let mut j: usize = 0;
            while j < size
                invariant
                    j <= size,
                    size == linevec@.len(),
                    new_line@.len() == size,
                    changed_line == (exists|k: int|
                        0 <= k < j && linevec@[k] != (#[trigger] new_line@[k])),
                decreases size - j,
            {
                if linevec[j] != new_line[j] {
                    changed_line = true;
                }
                j = j + 1;
            }
            proof {
                if changed_line {
                    assert(new_line@ != linevec@);
                } else {
                    assert(new_line@ =~= linevec@);
                }
            }
            let mut j: usize = 0;
            while j < size
                invariant
                    j <= size,
                    i < size,
                    sz == size as int,
                    self.size == size,
                    self.wf(),
                    bcur.len() == sz * sz,
                    self.spec_score() == score0 + gain_lines(b0, sz, d, i as int),
                    self.spec_best() == old(self).spec_best(),
                    self.spec_finished() == old(self).spec_finished(),
                    sz * sz <= usize::MAX,
                    d == *direction,
                    new_line@.len() == size,
                    forall|ii: int, k: int|
                        0 <= ii < size && 0 <= k < size && ii != i ==> self.cells()[#[trigger] line_index(
                            sz,
                            d,
                            ii,
                            k,
                        )] == bcur[line_index(sz, d, ii, k)],
                    forall|k: int|
                        0 <= k < j ==> self.cells()[#[trigger] line_index(sz, d, i as int, k)]
                            == new_line@[k],
                    forall|k: int|
                        j <= k < size ==> self.cells()[#[trigger] line_index(sz, d, i as int, k)]
                            == bcur[line_index(sz, d, i as int, k)],
                decreases size - j,
            {
                let idx = Game::line_index_at(size, direction, i, j);
                let ghost prev = self.board@;
                self.board.set(idx, new_line[j]);
                proof {
                    assert forall|ii: int, k: int|
                        0 <= ii < size && 0 <= k < size && !(ii == i && k == j) implies #[trigger] line_index(
                        sz,
                        d,
                        ii,
                        k,
                    ) != idx by {
                        lemma_line_index_bounds(sz, d, ii, k);
                        if line_index(sz, d, ii, k) == idx {
                            lemma_line_index_inj(sz, d, ii, k, i as int, j as int);
                        }
                    }
                    assert(self.cells() == prev.update(idx as int, new_line@[j as int]));
                    assert forall|ii: int, k: int|
                        0 <= ii < size && 0 <= k < size && ii != i implies self.cells()[#[trigger] line_index(
                        sz,
                        d,
                        ii,
                        k,
                    )] == bcur[line_index(sz, d, ii, k)] by {
                        lemma_line_index_bounds(sz, d, ii, k);
                        assert(line_index(sz, d, ii, k) != idx);
                        assert(prev[line_index(sz, d, ii, k)] == bcur[line_index(sz, d, ii, k)]);
                    }
                    assert forall|k: int|
                        0 <= k < j + 1 implies self.cells()[#[trigger] line_index(
                        sz,
                        d,
                        i as int,
                        k,
                    )] == new_line@[k] by {
                        lemma_line_index_bounds(sz, d, i as int, k);
                        if k < j {
                            assert(line_index(sz, d, i as int, k) != idx);
                            assert(prev[line_index(sz, d, i as int, k)] == new_line@[k]);
                        } else {
                            assert(line_index(sz, d, i as int, k) == idx);
                        }
                    }
                    assert forall|k: int|
                        j + 1 <= k < size implies self.cells()[#[trigger] line_index(
                        sz,
                        d,
                        i as int,
                        k,
                    )] == bcur[line_index(sz, d, i as int, k)] by {
                        lemma_line_index_bounds(sz, d, i as int, k);
                        assert(line_index(sz, d, i as int, k) != idx);
                        assert(prev[line_index(sz, d, i as int, k)] == bcur[line_index(
                            sz,
                            d,
                            i as int,
                            k,
                        )]);
                    }
                }
                j = j + 1;
            }
            proof {
                assert(gain_lines(b0, sz, d, i as int + 1) == gain_lines(b0, sz, d, i as int)
                    + line_gain(extract_line(b0, sz, d, i as int)));
                lemma_gain_lines_le(b0, sz, d, i as int + 1);
                lemma_sum_grid(b0, sz, d);
                lemma_sum_lines_mono(b0, sz, d, i as int + 1, sz);
                assert(self.spec_score() + gain <= usize::MAX);
            }
            self.score = self.score + gain;
            proof {
                // line i now holds the slid line; the others are untouched
                assert forall|ii: int| 0 <= ii < size implies #[trigger] extract_line(
                    self.cells(),
                    sz,
                    d,
                    ii,
                ) == (if ii == i as int {
                    slide_spec(extract_line(b0, sz, d, ii))
                } else {
                    extract_line(bcur, sz, d, ii)
                }) by {
                    if ii == i as int {
                        assert(extract_line(self.cells(), sz, d, ii) =~= new_line@);
                    } else {
                        assert(extract_line(self.cells(), sz, d, ii) =~= extract_line(
                            bcur,
                            sz,
                            d,
                            ii,
                        ));
                    }
                }
                // the score gathered so far
                assert(gain_lines(b0, sz, d, i as int + 1) == gain_lines(b0, sz, d, i as int)
                    + line_gain(extract_line(b0, sz, d, i as int)));
                lemma_gain_lines_le(b0, sz, d, i as int + 1);
                lemma_sum_grid(b0, sz, d);
                lemma_sum_lines_mono(b0, sz, d, i as int + 1, sz);
                // whether anything changed so far
                if progress || changed_line {
                    assert(lines_changed(b0, sz, d, i as int + 1)) by {
                        if changed_line {
                            assert(slide_spec(extract_line(b0, sz, d, i as int)) != extract_line(
                                b0,
                                sz,
                                d,
                                i as int,
                            ));
                        }
                    }
                } else {
                    assert(!lines_changed(b0, sz, d, i as int + 1)) by {
                        assert(slide_spec(extract_line(b0, sz, d, i as int)) == extract_line(
                            b0,
                            sz,
                            d,
                            i as int,
                        ));
                        assert forall|ii: int|
                            0 <= ii < i as int + 1 implies slide_spec(
                            #[trigger] extract_line(b0, sz, d, ii),
                        ) == extract_line(b0, sz, d, ii) by {
                            if ii < i as int {
                                assert(!lines_changed(b0, sz, d, i as int));
                            }
                        }
                    }
                }
            }
            if changed_line {
                progress = true;
            }
            i = i + 1;
        }
        proof {
            if progress {
                let ii = choose|ii: int|
                    0 <= ii < sz && slide_spec(#[trigger] extract_line(b0, sz, d, ii))
                        != extract_line(b0, sz, d, ii);
                let cur_line = extract_line(self.cells(), sz, d, ii);
                let old_line = extract_line(b0, sz, d, ii);
                lemma_slide_len(old_line);
                assert(cur_line == slide_spec(old_line));
                let k = choose|k: int| 0 <= k < sz && cur_line[k] != #[trigger] old_line[k];
                assert(exists|k: int| 0 <= k < sz && cur_line[k] != #[trigger] old_line[k]) by {
                    assert(!(cur_line =~= old_line));
                }
                lemma_line_index_bounds(sz, d, ii, k);
                assert(self.cells()[line_index(sz, d, ii, k)] != b0[line_index(sz, d, ii, k)]);
                assert(self.cells() != b0);
            } else {
                assert forall|idx: int|
                    0 <= idx < sz * sz implies self.cells()[idx] == b0[idx] by {
                    lemma_line_index_cover(sz, d, idx);
                    let (ii, jj) = choose|ii: int, jj: int|
                        0 <= ii < sz && 0 <= jj < sz && #[trigger] line_index(sz, d, ii, jj)
                            == idx;
                    assert(extract_line(self.cells(), sz, d, ii) == slide_spec(
                        extract_line(b0, sz, d, ii),
                    ));
                    assert(slide_spec(extract_line(b0, sz, d, ii)) == extract_line(b0, sz, d, ii));
                    assert(extract_line(self.cells(), sz, d, ii)[jj] == self.cells()[idx]);
                    assert(extract_line(b0, sz, d, ii)[jj] == b0[idx]);
                }
                assert(self.cells() =~= b0);
                lemma_gain_lines_zero(b0, sz, d, sz);
            }
        }
        progress
    }
}

/// The indices of the empty cells of a grid, in increasing order.
pub open spec fn empty_cells(b: Seq<usize>) -> Seq<int>
    decreases b.len(),
{
    if b.len() == 0 {
        Seq::empty()
    } else if b.last() == 0 {
        empty_cells(b.drop_last()).push(b.len() - 1)
    } else {
        empty_cells(b.drop_last())
    }
}

impl Game {
    /// Empty the grid, fold the score into the best score, and reset the
    /// score and the finished flag.
    pub fn clear(&mut self)
        requires
            old(self).wf(),
        ensures
            final(self).wf(),
            final(self).cells().len() == old(self).cells().len(),
            forall|k: int|
                0 <= k < final(self).cells().len() ==> (#[trigger] final(self).cells()[k]) == 0,
            final(self).spec_best() == if old(self).spec_score() > old(self).spec_best() {
                old(self).spec_score()
            } else {
                old(self).spec_best()
            },
            final(self).spec_score() == 0,
            !final(self).spec_finished(),
            final(self).spec_size() == old(self).spec_size(),
    {
        let n = self.board.len();
        let mut z: Vec<usize> = Vec::new();
        let mut k: usize = 0;
        while k < n
            invariant
                k <= n,
                z@.len() == k,
                forall|x: int| 0 <= x < k ==> (#[trigger] z@[x]) == 0,
            decreases n - k,
        {
            z.push(0);
            k = k + 1;
        }
        self.board = z;
        self.best = if self.score > self.best {
            self.score
        } else {
            self.best
        };
        self.score = 0;
        self.finished = false;
    }

    /// Put a new tile into one empty cell, picked by `seed`: the cell is
    /// the `seed % count`-th empty one, and the value is 4 when `seed` is
    /// divisible by 9, else 2.  Returns false, leaving the game untouched,
    /// when the grid is full.
    pub fn seed_cell(&mut self, seed: usize) -> (spawned: bool)
        requires
            old(self).wf(),
        ensures
            final(self).wf(),
            final(self).spec_size() == old(self).spec_size(),
            final(self).spec_score() == old(self).spec_score(),
            final(self).spec_best() == old(self).spec_best(),
            final(self).spec_finished() == old(self).spec_finished(),
            ({
                let e = empty_cells(old(self).cells());
                if e.len() == 0 {
                    !spawned && final(self).cells() == old(self).cells()
                } else {
                    spawned && final(self).cells() == old(self).cells().update(
                        e[(seed as int) % (e.len() as int)],
                        if seed as int % 9 == 0 {
                            4usize
                        } else {
                            2usize
                        },
                    )
                }
            }),
    {
        let ghost b = self.board@;
        let n = self.board.len();
        let mut candidates: Vec<usize> = Vec::new();
        let mut i: usize = 0;
        while i < n
            invariant
                i <= n,
                n == b.len(),
                self.cells() == b,
                candidates@.len() == empty_cells(b.take(i as int)).len(),
                forall|k: int|
                    0 <= k < candidates@.len() ==> (#[trigger] candidates@[k]) == empty_cells(
                        b.take(i as int),
                    )[k],
                forall|k: int|
                    0 <= k < candidates@.len() ==> (#[trigger] candidates@[k]) < n,
            decreases n - i,
        {
            proof {
                assert(b.take(i as int + 1).drop_last() =~= b.take(i as int));
            }
            if self.board[i] == 0 {
                candidates.push(i);
            }
            i = i + 1;
        }
        proof {
            assert(b.take(n as int) =~= b);
        }
        if candidates.len() == 0 {
            return false;
        }
        let pos = seed % candidates.len();
        let idx = candidates[pos];
        let value: usize = if seed % 9 == 0 {
            4
        } else {
            2
        };
        self.board.set(idx, value);
        true
    }

    /// The grid rendered as bordered text cells, each occupied cell's value
    /// centred on its middle row.  Values must fit within a cell (eleven
    /// digits), and the picture must fit in memory.
    pub fn to_string(&self) -> (s: String)
        requires
            self.wf(),
            (1 + 6 * self.spec_size()) * (12 * self.spec_size() + 2) <= usize::MAX,
            forall|k: int|
                0 <= k < self.cells().len() ==> (#[trigger] self.cells()[k]) < 100_000_000_000,
        ensures
            s@ == crate::render::render_spec(self.spec_size(), self.cells()),
    {
        let chars = crate::render::render_chars(self.size, &self.board);
        crate::render::chars_to_string(&chars)
    }

    /// The colour a tile's value is drawn in.
    pub fn foreground_color(&self, x: usize, y: usize) -> (r: &'static str)
        requires
            self.wf(),
            x < self.spec_size(),
            y < self.spec_size(),
        ensures
            r@ == foreground_of(self.cells()[y * self.spec_size() + x]),
    {
        match self.get_state(x, y) {
            0 => "#898077",
            2 => "#898077",
            4 => "#898077",
            8 => "#f9f6f2",
            16 => "#f9f6f2",
            32 => "#f9f6f2",
            64 => "#f9f6f2",
            128 => "#f9f6f2",
            256 => "#f9f6f2",
            512 => "#f9f6f2",
            1024 => "#f9f6f2",
            2048 => "#f9f6f2",
            _ => "#f9f6f2",
        }
    }

    /// The colour a tile's square is filled with.
    pub fn background_color(&self, x: usize, y: usize) -> (r: &'static str)
        requires
            self.wf(),
            x < self.spec_size(),
            y < self.spec_size(),
        ensures
            r@ == background_of(self.cells()[y * self.spec_size() + x]),
    {
        match self.get_state(x, y) {
            0 => "#f9f6f2",
            2 => "#eee4da",
            4 => "#ede0c8",
            8 => "#f2b179",
            16 => "#f59563",
            32 => "#f67c5f",
            64 => "#f65e3b",
            128 => "#edcf72",
            256 => "#edcc61",
            512 => "#edc850",
            1024 => "#edc53f",
            2048 => "#edc22e",
            _ => "#3c3a32",
        }
    }
}

/// The text colour for a tile of value `v`: dark on the two smallest
/// tiles, light on all others.
pub open spec fn foreground_of(v: usize) -> Seq<char> {
    if v == 0 || v == 2 || v == 4 {
        "#898077"@
    } else {
        "#f9f6f2"@
    }
}

/// The fill colour for a tile of value `v`.
pub open spec fn background_of(v: usize) -> Seq<char> {
    if v == 0 {
        "#f9f6f2"@
    } else if v == 2 {
        "#eee4da"@
    } else if v == 4 {
        "#ede0c8"@
    } else if v == 8 {
        "#f2b179"@
    } else if v == 16 {
        "#f59563"@
    } else if v == 32 {
        "#f67c5f"@
    } else if v == 64 {
        "#f65e3b"@
    } else if v == 128 {
        "#edcf72"@
    } else if v == 256 {
        "#edcc61"@
    } else if v == 512 {
        "#edc850"@
    } else if v == 1024 {
        "#edc53f"@
    } else if v == 2048 {
        "#edc22e"@
    } else {
        "#3c3a32"@
    }
}

/// Grids before and after one `step`: every line of the new grid is the
/// slide of the same line of the old one, exactly as `step` ensures.
pub open spec fn stepped(b1: Seq<usize>, b2: Seq<usize>, size: int, dir: Direction) -> bool {
    &&& b1.len() == size * size
    &&& b2.len() == size * size
    &&& 0 <= size
    &&& forall|i: int|
        0 <= i < size ==> #[trigger] extract_line(b2, size, dir, i) == slide_spec(
            extract_line(b1, size, dir, i),
        )
}

/// Value conservation: a move never changes the sum of all tile values,
/// because each merge doubles one tile and empties its equal partner.
/// The score alone records the merges, as `step`'s contract states.
pub proof fn lemma_step_keeps_total(b1: Seq<usize>, b2: Seq<usize>, size: int, dir: Direction)
    requires
        stepped(b1, b2, size, dir),
        all_bounded(b1),
    ensures
        sum_seq(b2) == sum_seq(b1),
{
    lemma_step_sum_lines(b1, b2, size, dir, size);
    lemma_sum_grid(b1, size, dir);
    lemma_sum_grid(b2, size, dir);
}

/// The line totals agree between the grids before and after a move.
proof fn lemma_step_sum_lines(b1: Seq<usize>, b2: Seq<usize>, size: int, dir: Direction, upto: int)
    requires
        stepped(b1, b2, size, dir),
        all_bounded(b1),
        0 <= upto <= size,
    ensures
        sum_lines(b2, size, dir, upto) == sum_lines(b1, size, dir, upto),
    decreases upto,
{
    if upto > 0 {
        lemma_step_sum_lines(b1, b2, size, dir, upto - 1);
        let s = extract_line(b1, size, dir, upto - 1);
        assert forall|k: int| 0 <= k < s.len() implies 2 * (#[trigger] s[k]) <= usize::MAX by {
            lemma_line_index_bounds(size, dir, upto - 1, k);
        }
        crate::line::lemma_slide_keeps_sum(s);
    }
}

/// Monotonic compaction: after a move, every line of the grid, read from
/// the edge the tiles slid toward, has all its occupied cells before all
/// its empty ones.
pub proof fn lemma_step_compacts(b1: Seq<usize>, b2: Seq<usize>, size: int, dir: Direction)
    requires
        stepped(b1, b2, size, dir),
        all_bounded(b1),
    ensures
        forall|i: int, j1: int, j2: int|
            0 <= i < size && 0 <= j1 <= j2 < size && (#[trigger] extract_line(b2, size, dir, i)[j1])
                == 0 ==> (#[trigger] extract_line(b2, size, dir, i)[j2]) == 0,
{
    assert forall|i: int, j1: int, j2: int|
        0 <= i < size && 0 <= j1 <= j2 < size && (#[trigger] extract_line(b2, size, dir, i)[j1])
            == 0 implies (#[trigger] extract_line(b2, size, dir, i)[j2]) == 0 by {
        let s = extract_line(b1, size, dir, i);
        assert forall|k: int| 0 <= k < s.len() implies 2 * (#[trigger] s[k]) <= usize::MAX by {
            lemma_line_index_bounds(size, dir, i, k);
        }
        crate::line::lemma_slide_compacted(s);
        lemma_slide_len(s);
    }
}

/// When no line of the grid is changed by its slide, no line earns score.
proof fn lemma_gain_lines_zero(b: Seq<usize>, size: int, dir: Direction, upto: int)
    requires
        0 <= upto <= size,
        b.len() == size * size,
        all_bounded(b),
        forall|i: int|
            0 <= i < size ==> slide_spec(#[trigger] extract_line(b, size, dir, i)) == extract_line(
                b,
                size,
                dir,
                i,
            ),
    ensures
        gain_lines(b, size, dir, upto) == 0,
    decreases upto,
{
    if upto > 0 {
        lemma_gain_lines_zero(b, size, dir, upto - 1);
        let s = extract_line(b, size, dir, upto - 1);
        assert forall|k: int| 0 <= k < s.len() implies 2 * (#[trigger] s[k]) <= usize::MAX by {
            lemma_line_index_bounds(size, dir, upto - 1, k);
        }
        lemma_fixed_line_gain(s);
    }
}

} // verus!
