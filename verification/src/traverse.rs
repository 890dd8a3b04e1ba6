//! How a move direction turns the square grid into independent lines.
//!
//! The grid is stored row-major: cell `(x, y)` lives at index `y*size + x`.
//! For a move, every row (Left/Right) or column (Up/Down) is read as a line
//! starting from the edge the tiles slide toward; `line_index` maps line
//! number `i` and position-from-edge `j` back to the flat grid index.  The
//! map is a bijection onto the grid, which is what lets one line be
//! rewritten without touching the others, and the grid total be split into
//! the line totals.

use vstd::arithmetic::div_mod::{lemma_fundamental_div_mod, lemma_fundamental_div_mod_converse};
use vstd::prelude::*;

use crate::game::Direction;
use crate::line::{line_gain, lemma_gain_bounds, lemma_compact_props, lemma_sum_concat,
    lemma_sum_nonneg, lemma_sum_push, sum_seq};

verus! {

/// Flat grid index of position `j` (counted from the destination edge) of
/// line `i` when moving in direction `dir`.
pub open spec fn line_index(size: int, dir: Direction, i: int, j: int) -> int {
    match dir {
        Direction::Left => i * size + j,
        Direction::Right => i * size + (size - 1 - j),
        Direction::Up => j * size + i,
        Direction::Down => (size - 1 - j) * size + i,
    }
}

/// Line `i` of the grid for direction `dir`, read starting from the edge
/// the tiles slide toward.
pub open spec fn extract_line(b: Seq<usize>, size: int, dir: Direction, i: int) -> Seq<usize> {
    Seq::new(size as nat, |j: int| b[line_index(size, dir, i, j)])
}

/// The grid totals of the first `upto` lines, summed.
pub open spec fn sum_lines(b: Seq<usize>, size: int, dir: Direction, upto: int) -> int
    decreases upto,
{
    if upto <= 0 {
        0
    } else {
        sum_lines(b, size, dir, upto - 1) + sum_seq(extract_line(b, size, dir, upto - 1))
    }
}

/// The scores of the first `upto` lines, summed.
pub open spec fn gain_lines(b: Seq<usize>, size: int, dir: Direction, upto: int) -> int
    decreases upto,
{
    if upto <= 0 {
        0
    } else {
        gain_lines(b, size, dir, upto - 1) + line_gain(extract_line(b, size, dir, upto - 1))
    }
}

/// Every line position lands inside the grid.
pub proof fn lemma_line_index_bounds(size: int, dir: Direction, i: int, j: int)
    requires
        0 <= i < size,
        0 <= j < size,
    ensures
        0 <= line_index(size, dir, i, j) < size * size,
{
    let a: int = match dir {
        Direction::Left => i,
        Direction::Right => i,
        Direction::Up => j,
        Direction::Down => size - 1 - j,
    };
    let c: int = match dir {
        Direction::Left => j,
        Direction::Right => size - 1 - j,
        Direction::Up => i,
        Direction::Down => i,
    };
    assert(line_index(size, dir, i, j) == a * size + c);
    assert(0 <= a < size && 0 <= c < size);
    assert(0 <= a * size + c < size * size) by (nonlinear_arith)
        requires
            0 <= a < size,
            0 <= c < size,
    ;
}

/// Two distinct line positions never share a grid cell.
pub proof fn lemma_line_index_inj(size: int, dir: Direction, i1: int, j1: int, i2: int, j2: int)
    requires
        0 <= i1 < size,
        0 <= j1 < size,
        0 <= i2 < size,
        0 <= j2 < size,
        line_index(size, dir, i1, j1) == line_index(size, dir, i2, j2),
    ensures
        i1 == i2,
        j1 == j2,
{
    let x = line_index(size, dir, i1, j1);
    match dir {
        Direction::Left => {
            lemma_fundamental_div_mod_converse(x, size, i1, j1);
            lemma_fundamental_div_mod_converse(x, size, i2, j2);
        },
        Direction::Right => {
            lemma_fundamental_div_mod_converse(x, size, i1, size - 1 - j1);
            lemma_fundamental_div_mod_converse(x, size, i2, size - 1 - j2);
        },
        Direction::Up => {
            lemma_fundamental_div_mod_converse(x, size, j1, i1);
            lemma_fundamental_div_mod_converse(x, size, j2, i2);
        },
        Direction::Down => {
            lemma_fundamental_div_mod_converse(x, size, size - 1 - j1, i1);
            lemma_fundamental_div_mod_converse(x, size, size - 1 - j2, i2);
        },
    }
}

/// Every grid cell belongs to some line position.
pub proof fn lemma_line_index_cover(size: int, dir: Direction, idx: int)
    requires
        0 < size,
        0 <= idx < size * size,
    ensures
        exists|i: int, j: int|
            0 <= i < size && 0 <= j < size && #[trigger] line_index(size, dir, i, j) == idx,
{
    lemma_fundamental_div_mod(idx, size);
    let q = idx / size;
    let r = idx % size;
    assert(0 <= r < size) by (nonlinear_arith)
        requires
            size > 0,
            r == idx % size,
    ;
    assert(idx == q * size + r) by (nonlinear_arith)
        requires
            idx == size * q + r,
    ;
    assert(0 <= q < size) by (nonlinear_arith)
        requires
            size > 0,
            0 <= idx < size * size,
            0 <= r < size,
            idx == q * size + r,
    ;
    match dir {
        Direction::Left => {
            assert(line_index(size, dir, q, r) == idx);
        },
        Direction::Right => {
            assert(line_index(size, dir, q, size - 1 - r) == idx);
        },
        Direction::Up => {
            assert(line_index(size, dir, r, q) == idx);
        },
        Direction::Down => {
            assert(line_index(size, dir, r, size - 1 - q) == idx);
        },
    }
}

/// A line read backwards has the same total.
pub proof fn lemma_sum_rev(a: Seq<usize>, b: Seq<usize>)
    requires
        a.len() == b.len(),
        forall|j: int| 0 <= j < b.len() ==> (#[trigger] b[j]) == a[a.len() - 1 - j],
    ensures
        sum_seq(b) == sum_seq(a),
    decreases a.len(),
{
    if a.len() > 0 {
        let a1 = a.skip(1);
        let b1 = b.drop_last();
        assert(forall|j: int|
            0 <= j < b1.len() ==> (#[trigger] b1[j]) == a1[a1.len() - 1 - j]);
        lemma_sum_rev(a1, b1);
        assert(b =~= b1.push(b[b.len() - 1]));
        lemma_sum_push(b1, b[b.len() - 1]);
        assert(b[b.len() - 1] == a[0]);
    }
}

/// The base orientation of a direction: the one that reads the same rows
/// or columns forward.
pub open spec fn base_dir(dir: Direction) -> Direction {
    match dir {
        Direction::Left => Direction::Left,
        Direction::Right => Direction::Left,
        Direction::Up => Direction::Up,
        Direction::Down => Direction::Up,
    }
}

/// A line holds the same cells as its base-orientation counterpart, read
/// backwards where the direction points at the far edge, so its total is
/// the same.
pub proof fn lemma_sum_line_dir(b: Seq<usize>, size: int, dir: Direction, i: int)
    requires
        0 <= size,
    ensures
        sum_seq(extract_line(b, size, dir, i)) == sum_seq(extract_line(b, size, base_dir(dir), i)),
{
    let fwd = extract_line(b, size, base_dir(dir), i);
    let bwd = extract_line(b, size, dir, i);
    match dir {
        Direction::Left => {},
        Direction::Up => {},
        Direction::Right => {
            assert forall|j: int| 0 <= j < bwd.len() implies (#[trigger] bwd[j]) == fwd[fwd.len()
                - 1 - j] by {
                assert(size as nat == size);
                assert(0 <= size - 1 - j < size);
                assert(bwd[j] == b[i * size + (size - 1 - j)]);
                assert(fwd[size - 1 - j] == b[line_index(size, Direction::Left, i, size - 1 - j)]);
                assert(line_index(size, Direction::Left, i, size - 1 - j) == i * size + (size - 1
                    - j));
            }
            lemma_sum_rev(fwd, bwd);
        },
        Direction::Down => {
            assert forall|j: int| 0 <= j < bwd.len() implies (#[trigger] bwd[j]) == fwd[fwd.len()
                - 1 - j] by {
                assert(size as nat == size);
                assert(0 <= size - 1 - j < size);
                assert(bwd[j] == b[(size - 1 - j) * size + i]);
                assert(fwd[size - 1 - j] == b[line_index(size, Direction::Up, i, size - 1 - j)]);
                assert(line_index(size, Direction::Up, i, size - 1 - j) == (size - 1 - j) * size
                    + i);
            }
            lemma_sum_rev(fwd, bwd);
        },
    }
}

/// The first `upto` rows of the grid hold exactly its first `upto * size`
/// cells.
pub proof fn lemma_sum_rows(b: Seq<usize>, size: int, upto: int)
    requires
        b.len() == size * size,
        0 <= upto <= size,
    ensures
        sum_lines(b, size, Direction::Left, upto) == sum_seq(b.take(upto * size)),
    decreases upto,
{
    if upto == 0 {
        assert(upto * size == 0) by (nonlinear_arith)
            requires
                upto == 0,
        ;
        assert(b.take(0) =~= Seq::<usize>::empty());
    } else {
        lemma_sum_rows(b, size, upto - 1);
        assert((upto - 1) * size + size == upto * size) by (nonlinear_arith);
        assert(0 <= (upto - 1) * size && upto * size <= size * size) by (nonlinear_arith)
            requires
                0 < upto <= size,
        ;
        let row = extract_line(b, size, Direction::Left, upto - 1);
        assert(b.take(upto * size) =~= b.take((upto - 1) * size) + row);
        lemma_sum_concat(b.take((upto - 1) * size), row);
        assert(sum_lines(b, size, Direction::Left, upto) == sum_lines(
            b,
            size,
            Direction::Left,
            upto - 1,
        ) + sum_seq(row));
        assert(sum_seq(b.take(upto * size)) == sum_seq(b.take((upto - 1) * size)) + sum_seq(row));
    }
}

/// Column `i` of the grid restricted to its first `r` rows.
pub open spec fn colpart(b: Seq<usize>, size: int, i: int, r: int) -> Seq<usize> {
    Seq::new(r as nat, |j: int| b[j * size + i])
}

/// The column prefixes of the first `upto` columns, summed, over `r` rows.
pub open spec fn sum_cols_upto(b: Seq<usize>, size: int, r: int, upto: int) -> int
    decreases upto,
{
    if upto <= 0 {
        0
    } else {
        sum_cols_upto(b, size, r, upto - 1) + sum_seq(colpart(b, size, upto - 1, r))
    }
}

/// Extending every column prefix by one row adds that row's cells.
proof fn lemma_sum_cols_row(b: Seq<usize>, size: int, r: int, upto: int)
    requires
        0 <= r,
        0 <= upto <= size,
    ensures
        sum_cols_upto(b, size, r + 1, upto) == sum_cols_upto(b, size, r, upto) + sum_seq(
            Seq::new(upto as nat, |i: int| b[r * size + i]),
        ),
    decreases upto,
{
    if upto == 0 {
        assert(Seq::new(0, |i: int| b[r * size + i]) =~= Seq::<usize>::empty());
    } else {
        lemma_sum_cols_row(b, size, r, upto - 1);
        let i = upto - 1;
        assert(colpart(b, size, i, r + 1) =~= colpart(b, size, i, r).push(b[r * size + i]));
        lemma_sum_push(colpart(b, size, i, r), b[r * size + i]);
        assert(Seq::new(upto as nat, |x: int| b[r * size + x]) =~= Seq::new(
            (upto - 1) as nat,
            |x: int| b[r * size + x],
        ).push(b[r * size + i]));
        lemma_sum_push(Seq::new((upto - 1) as nat, |x: int| b[r * size + x]), b[r * size + i]);
    }
}

/// The first `r` rows, split into columns, hold exactly the grid's first
/// `r * size` cells.
proof fn lemma_sum_cols(b: Seq<usize>, size: int, r: int)
    requires
        b.len() == size * size,
        0 <= r <= size,
    ensures
        sum_cols_upto(b, size, r, size) == sum_seq(b.take(r * size)),
    decreases r,
{
    if r == 0 {
        assert(b.take(0) =~= Seq::<usize>::empty());
        lemma_sum_cols_zero_rows(b, size, size);
    } else {
        lemma_sum_cols(b, size, r - 1);
        lemma_sum_cols_row(b, size, r - 1, size);
        assert((r - 1) * size + size == r * size) by (nonlinear_arith);
        assert(0 <= (r - 1) * size && r * size <= size * size) by (nonlinear_arith)
            requires
                0 < r <= size,
        ;
        let row = Seq::new(size as nat, |i: int| b[(r - 1) * size + i]);
        assert(b.take(r * size) =~= b.take((r - 1) * size) + row);
        lemma_sum_concat(b.take((r - 1) * size), row);
    }
}

/// A column over zero rows holds nothing.
proof fn lemma_sum_cols_zero_rows(b: Seq<usize>, size: int, upto: int)
    ensures
        sum_cols_upto(b, size, 0, upto) == 0,
    decreases upto,
{
    if upto > 0 {
        lemma_sum_cols_zero_rows(b, size, upto - 1);
        assert(colpart(b, size, upto - 1, 0) =~= Seq::<usize>::empty());
    }
}

/// Per-line sums in any direction match the base orientation.
proof fn lemma_sum_lines_base(b: Seq<usize>, size: int, dir: Direction, upto: int)
    requires
        0 <= upto,
        0 <= size,
    ensures
        sum_lines(b, size, dir, upto) == sum_lines(b, size, base_dir(dir), upto),
    decreases upto,
{
    if upto > 0 {
        lemma_sum_lines_base(b, size, dir, upto - 1);
        lemma_sum_line_dir(b, size, dir, upto - 1);
    }
}

/// Column sums equal the `sum_lines` form for upward moves.
proof fn lemma_sum_lines_cols(b: Seq<usize>, size: int, upto: int)
    requires
        0 <= upto,
    ensures
        sum_lines(b, size, Direction::Up, upto) == sum_cols_upto(b, size, size, upto),
    decreases upto,
{
    if upto > 0 {
        lemma_sum_lines_cols(b, size, upto - 1);
        assert(extract_line(b, size, Direction::Up, upto - 1) =~= colpart(
            b,
            size,
            upto - 1,
            size,
        ));
    }
}

/// Cutting the grid into its move lines accounts for every cell once: the
/// line totals add up to the grid total.
pub proof fn lemma_sum_grid(b: Seq<usize>, size: int, dir: Direction)
    requires
        b.len() == size * size,
        0 <= size,
    ensures
        sum_lines(b, size, dir, size) == sum_seq(b),
{
    lemma_sum_lines_base(b, size, dir, size);
    assert(b.take(size * size) =~= b);
    match base_dir(dir) {
        Direction::Left => {
            lemma_sum_rows(b, size, size);
        },
        Direction::Up => {
            lemma_sum_lines_cols(b, size, size);
            lemma_sum_cols(b, size, size);
        },
        _ => {
            assert(false);
        },
    }
}

/// Line sums only grow as more lines are counted.
pub proof fn lemma_sum_lines_mono(b: Seq<usize>, size: int, dir: Direction, k: int, n: int)
    requires
        0 <= k <= n,
    ensures
        sum_lines(b, size, dir, k) <= sum_lines(b, size, dir, n),
    decreases n,
{
    if n > k {
        lemma_sum_lines_mono(b, size, dir, k, n - 1);
        lemma_sum_nonneg(extract_line(b, size, dir, n - 1));
    }
}

/// The score of the first `upto` lines is non-negative and at most their
/// total value.
pub proof fn lemma_gain_lines_le(b: Seq<usize>, size: int, dir: Direction, upto: int)
    requires
        0 <= upto,
    ensures
        0 <= gain_lines(b, size, dir, upto),
        gain_lines(b, size, dir, upto) <= sum_lines(b, size, dir, upto),
    decreases upto,
{
    if upto > 0 {
        lemma_gain_lines_le(b, size, dir, upto - 1);
        let s = extract_line(b, size, dir, upto - 1);
        lemma_gain_bounds(crate::line::compact(s));
        lemma_compact_props(s);
    }
}

} // verus!
