//! Fixed-width text rendering of a grid.
//!
//! The grid is drawn as bordered cells: every sixth text row is a border
//! row of `+` and `-`, every twelfth column a border column of `+` and `|`,
//! leaving an 11-by-5 blank block per cell.  The value of an occupied cell
//! is written in decimal on the block's middle row, centred, starting
//! `6 - digits/2` characters after the cell's left border.  Every text row
//! ends with a newline, so the whole picture is `(1 + 6*size)` rows of
//! `(12*size + 2)` characters each.  `render_spec` gives the character at
//! every position; `render_chars` computes exactly that.

use vstd::arithmetic::div_mod::lemma_fundamental_div_mod;
use vstd::prelude::*;

use crate::traverse::lemma_line_index_bounds;
use crate::game::Direction;

verus! {

/// The decimal digit character for `d`.
pub open spec fn digit_char(d: int) -> char {
    ((48 + d) as u8) as char
}

/// The decimal digits of `n`, most significant first.
pub open spec fn spec_digits(n: nat) -> Seq<char>
    decreases n,
{
    if n < 10 {
        seq![digit_char(n as int)]
    } else {
        spec_digits(n / 10).push(digit_char((n % 10) as int))
    }
}

/// Ten to the `k`-th power.
pub open spec fn pow10(k: nat) -> int
    decreases k,
{
    if k == 0 {
        1
    } else {
        10 * pow10((k - 1) as nat)
    }
}

/// A number below `10^k` has between one and `k` digits.
pub proof fn lemma_digits_len(n: nat, k: nat)
    requires
        k >= 1,
        n < pow10(k),
    ensures
        1 <= spec_digits(n).len() <= k,
    decreases k,
{
    if n < 10 {
    } else {
        assert(pow10(k) == 10 * pow10((k - 1) as nat));
        assert(k >= 2) by {
            if k == 1 {
                assert(pow10(1nat) == 10);
            }
        }
        lemma_fundamental_div_mod(n as int, 10);
        assert(n / 10 < pow10((k - 1) as nat));
        lemma_digits_len(n / 10, (k - 1) as nat);
    }
}

/// The border-and-blank character at text column `xx` of text row `yy`:
/// a newline past the last column, `+` where a border row and a border
/// column cross, `-` on border rows, `|` on border columns, blank inside.
pub open spec fn bg_char(size: int, xx: int, yy: int) -> char {
    if xx == 1 + 12 * size {
        '\n'
    } else if yy % 6 == 0 && xx % 12 == 0 {
        '+'
    } else if yy % 6 == 0 {
        '-'
    } else if xx % 12 == 0 {
        '|'
    } else {
        ' '
    }
}

/// The character at flat position `p` of the rendered grid: a digit of the
/// owning cell's value on the cell's middle row, else the border or blank.
pub open spec fn render_char(size: int, cells: Seq<usize>, p: int) -> char {
    let stride = 12 * size + 2;
    let yy = p / stride;
    let xx = p % stride;
    if yy % 6 == 3 && xx < 1 + 12 * size && xx / 12 < size {
        let x = xx / 12;
        let y = yy / 6;
        let v = cells[y * size + x];
        if v > 0 {
            let ds = spec_digits(v as nat);
            let off = 12 * x + 6 - ds.len() / 2;
            if off <= xx < off + ds.len() {
                ds[xx - off]
            } else {
                bg_char(size, xx, yy)
            }
        } else {
            bg_char(size, xx, yy)
        }
    } else {
        bg_char(size, xx, yy)
    }
}

/// The whole rendered grid: `1 + 6*size` text rows of `12*size + 2`
/// characters, each row ending in a newline.
pub open spec fn render_spec(size: int, cells: Seq<usize>) -> Seq<char> {
    Seq::new(((1 + 6 * size) * (12 * size + 2)) as nat, |p: int| render_char(size, cells, p))
}

/// The decimal digits of `n`, most significant first.
pub fn decimal_digits(n: usize) -> (v: Vec<char>)
    ensures
        v@ == spec_digits(n as nat),
    decreases n,
{
    if n < 10 {
        let mut v: Vec<char> = Vec::new();
        v.push((48u8 + (n as u8)) as char);
        proof {
            assert(v@ =~= seq![digit_char(n as int)]);
        }
        v
    } else {
        let mut v = decimal_digits(n / 10);
        v.push((48u8 + ((n % 10) as u8)) as char);
        proof {
            assert(v@ =~= spec_digits((n / 10) as nat).push(digit_char((n % 10) as int)));
        }
        v
    }
}

/// Render the grid as characters, one position at a time.
pub fn render_chars(size: usize, cells: &Vec<usize>) -> (v: Vec<char>)
    requires
        cells@.len() == size * size,
        (1 + 6 * (size as int)) * (12 * (size as int) + 2) <= usize::MAX,
        forall|k: int| 0 <= k < cells@.len() ==> (#[trigger] cells@[k]) < 100_000_000_000,
    ensures
        v@ == render_spec(size as int, cells@),
{
    let ghost sz = size as int;
    proof {
        assert(pow10(11) == 100_000_000_000) by {
            reveal_with_fuel(pow10, 12);
        }
        assert(12 * sz + 2 <= (1 + 6 * sz) * (12 * sz + 2) && 1 + 6 * sz <= (1 + 6 * sz) * (12
            * sz + 2) && sz * sz <= (1 + 6 * sz) * (12 * sz + 2)) by (nonlinear_arith)
            requires
                sz >= 0,
        ;
    }
    let stride = 12 * size + 2;
    let height = 1 + 6 * size;
    let width = 1 + 12 * size;
    let total = height * stride;
    let mut out: Vec<char> = Vec::new();
    let mut p: usize = 0;
    while p < total
        invariant
            p <= total,
            sz == size as int,
            stride == 12 * sz + 2,
            height == 1 + 6 * sz,
            width == 1 + 12 * sz,
            total == height * stride,
            cells@.len() == sz * sz,
            sz * sz <= usize::MAX,
            forall|k: int| 0 <= k < cells@.len() ==> (#[trigger] cells@[k]) < pow10(11),
            pow10(11) == 100_000_000_000,
            out@.len() == p,
            forall|q: int| 0 <= q < p ==> (#[trigger] out@[q]) == render_char(sz, cells@, q),
        decreases total - p,
    {
        let yy = p / stride;
        let xx = p % stride;
        proof {
            lemma_fundamental_div_mod(p as int, stride as int);
            assert(yy < height) by (nonlinear_arith)
                requires
                    stride > 0,
                    p as int == (stride as int) * (yy as int) + (xx as int),
                    0 <= xx < stride,
                    (p as int) < (height as int) * (stride as int),
            ;
        }
        let c: char;
        if yy % 6 == 3 && xx < width && xx / 12 < size {
            let x = xx / 12;
            let y = yy / 6;
            proof {
                lemma_fundamental_div_mod(yy as int, 6);
                assert(yy == 6 * (y as int) + 3);
                assert(y < size);
                lemma_fundamental_div_mod(xx as int, 12);
                lemma_line_index_bounds(sz, Direction::Left, y as int, x as int);
            }
            let v = cells[y * size + x];
            if v > 0 {
                let ds = decimal_digits(v);
                proof {
                    lemma_digits_len(v as nat, 11);
                }
                let cell_len = ds.len();
                let off = x * 12 + 6 - cell_len / 2;
                if off <= xx && xx < off + cell_len {
                    c = ds[xx - off];
                } else {
                    c = bg_at(size, xx, yy);
                }
            } else {
                c = bg_at(size, xx, yy);
            }
        } else {
            c = bg_at(size, xx, yy);
        }
        proof {
            assert(c == render_char(sz, cells@, p as int));
        }
        out.push(c);
        p = p + 1;
    }
    proof {
        assert(out@ =~= render_spec(sz, cells@));
    }
    out
}

/// The border-and-blank character at text column `xx` of text row `yy`.
fn bg_at(size: usize, xx: usize, yy: usize) -> (c: char)
    requires
        12 * (size as int) + 1 <= usize::MAX,
    ensures
        c == bg_char(size as int, xx as int, yy as int),
{
    if xx == 1 + 12 * size {
        '\n'
    } else if yy % 6 == 0 && xx % 12 == 0 {
        '+'
    } else if yy % 6 == 0 {
        '-'
    } else if xx % 12 == 0 {
        '|'
    } else {
        ' '
    }
}

/// Relies on `String: FromIterator<char>`: collecting characters yields
/// the string holding exactly those characters in order.
#[verifier::external_body]
pub(crate) fn chars_to_string(v: &Vec<char>) -> (s: String)
    ensures
        s@ == v@,
{
    v.iter().collect()
}

} // verus!
