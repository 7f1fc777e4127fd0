//! Boggle board traits and square-grid helpers.

use vstd::prelude::*;

verus! {

/// Describes a boggle board cell.
pub trait BoardCell: Sized {
    /// The x coordinate.
    spec fn spec_x(&self) -> u16;

    /// The y coordinate.
    spec fn spec_y(&self) -> u16;

    /// The charset code of the cell character.
    spec fn spec_ch(&self) -> u8;

    /// Gets the x coordinate.
    fn x(&self) -> (r: u16)
        ensures
            r == self.spec_x(),
    ;

    /// Gets the y coordinate.
    fn y(&self) -> (r: u16)
        ensures
            r == self.spec_y(),
    ;

    /// Gets the charset code of the cell character.
    ///
    /// In boggle the `q` character is implicitly both `q` and `u`.
    fn ch(&self) -> (r: u8)
        ensures
            r == self.spec_ch(),
    ;
}

/// Describes a boggle board: a square grid of coded cells with an adjacency
/// relation.
pub trait Board: Sized {
    /// The board cell type.
    type Cell: BoardCell;

    /// The side length of the square grid.
    spec fn spec_size(&self) -> int;

    /// The charset code stored at an in-bounds position.
    spec fn spec_char_at(&self, x: int, y: int) -> u8;

    /// The in-bounds neighbor positions of `(x, y)`, in kernel order.
    spec fn spec_neighbors(&self, x: u16, y: u16) -> Seq<(u16, u16)>;

    /// The board value is well formed (established by its constructor).
    spec fn wf(&self) -> bool;

    /// Gets the board size.
    ///
    /// Because the board will always be square this corresponds to both width and height.
    fn size(&self) -> (r: usize)
        requires
            self.wf(),
        ensures
            r as int == self.spec_size(),
    ;

    /// Gets a board cell at a specific position, `None` outside the grid.
    fn at(&self, x: u16, y: u16) -> (r: Option<Self::Cell>)
        requires
            self.wf(),
        ensures
            r is Some <==> ((x as int) < self.spec_size() && (y as int) < self.spec_size()),
            r matches Some(c) ==> c.spec_x() == x && c.spec_y() == y
                && c.spec_ch() == self.spec_char_at(x as int, y as int),
    ;

    /// Gets a cell's neighbors: one cell per in-bounds neighbor position, in
    /// kernel order.
    fn neighbors(&self, x: u16, y: u16) -> (r: Vec<Self::Cell>)
        requires
            self.wf(),
        ensures
            r@.len() == self.spec_neighbors(x, y).len(),
            forall|k: int| 0 <= k < r@.len() ==> {
                &&& (#[trigger] r@[k]).spec_x() == self.spec_neighbors(x, y)[k].0
                &&& r@[k].spec_y() == self.spec_neighbors(x, y)[k].1
                &&& (self.spec_neighbors(x, y)[k].0 as int) < self.spec_size()
                &&& (self.spec_neighbors(x, y)[k].1 as int) < self.spec_size()
                &&& r@[k].spec_ch() == self.spec_char_at(
                    self.spec_neighbors(x, y)[k].0 as int,
                    self.spec_neighbors(x, y)[k].1 as int,
                )
            },
    ;
}

/// The fixed king-move adjacency kernel: the eight surrounding offsets.
pub open spec fn king_kernel() -> Seq<(isize, isize)> {
    seq![
        (-1isize, -1isize),
        (0isize, -1isize),
        (-1isize, 0isize),
        (1isize, 1isize),
        (0isize, 1isize),
        (1isize, 0isize),
        (-1isize, 1isize),
        (1isize, -1isize),
    ]
}

/// The in-bounds neighbors of `(x, y)` on a `size`-sided grid under `kernel`,
/// in kernel order; offsets leading outside the grid are skipped.
pub open spec fn kernel_neighbors(kernel: Seq<(isize, isize)>, size: int, x: int, y: int) -> Seq<(u16, u16)>
    decreases kernel.len(),
{
    if kernel.len() == 0 {
        Seq::empty()
    } else {
        let nx = x + kernel[0].0;
        let ny = y + kernel[0].1;
        let rest = kernel_neighbors(kernel.skip(1), size, x, y);
        if 0 <= nx < size && 0 <= ny < size && size <= 0x10000 {
            seq![(nx as u16, ny as u16)] + rest
        } else {
            rest
        }
    }
}

/// Every position produced by `kernel_neighbors` lies inside the grid.
pub proof fn lemma_kernel_neighbors_in_bounds(kernel: Seq<(isize, isize)>, size: int, x: int, y: int)
    requires
        size <= 0x10000,
    ensures
        forall|k: int| 0 <= k < kernel_neighbors(kernel, size, x, y).len()
            ==> ((#[trigger] kernel_neighbors(kernel, size, x, y)[k]).0 as int) < size
                && (kernel_neighbors(kernel, size, x, y)[k].1 as int) < size,
    decreases kernel.len(),
{
    if kernel.len() > 0 {
        lemma_kernel_neighbors_in_bounds(kernel.skip(1), size, x, y);
        let rest = kernel_neighbors(kernel.skip(1), size, x, y);
        let whole = kernel_neighbors(kernel, size, x, y);
        assert forall|k: int| 0 <= k < whole.len()
        implies ((#[trigger] whole[k]).0 as int) < size && (whole[k].1 as int) < size by {
            if whole.len() == rest.len() {
                assert(whole[k] == rest[k]);
            } else if k > 0 {
                assert(whole[k] == rest[k - 1]);
            }
        }
    }
}

/// A position is produced by a kernel exactly when some kernel offset leads to
/// it from the cell and it lies inside the grid.
pub proof fn lemma_kernel_neighbors_membership(
    kernel: Seq<(isize, isize)>,
    size: int,
    x: int,
    y: int,
    p: (u16, u16),
)
    requires
        size <= 0x10000,
    ensures
        kernel_neighbors(kernel, size, x, y).contains(p)
            <==> exists|j: int|
                0 <= j < kernel.len()
                && p.0 as int == x + (#[trigger] kernel[j]).0
                && p.1 as int == y + kernel[j].1
                && 0 <= x + kernel[j].0 < size
                && 0 <= y + kernel[j].1 < size,
    decreases kernel.len(),
{
    if kernel.len() > 0 {
        lemma_kernel_neighbors_membership(kernel.skip(1), size, x, y, p);
        let rest = kernel_neighbors(kernel.skip(1), size, x, y);
        let whole = kernel_neighbors(kernel, size, x, y);
        assert(forall|j: int| 0 <= j < kernel.skip(1).len()
            ==> #[trigger] kernel.skip(1)[j] == kernel[j + 1]);
        let nx = x + kernel[0].0;
        let ny = y + kernel[0].1;
        if 0 <= nx < size && 0 <= ny < size {
            assert(whole == seq![(nx as u16, ny as u16)] + rest);
            assert forall|q: (u16, u16)| #[trigger] whole.contains(q)
            implies q == (nx as u16, ny as u16) || rest.contains(q) by {
                let k = choose|k: int| 0 <= k < whole.len() && whole[k] == q;
                if k > 0 {
                    assert(rest[k - 1] == q);
                }
            }
            if p == (nx as u16, ny as u16) {
                assert(whole[0] == p);
                assert(whole.contains(p));
                assert(p.0 as int == x + kernel[0].0 && p.1 as int == y + kernel[0].1);
            }
            if rest.contains(p) {
                let k = choose|k: int| 0 <= k < rest.len() && rest[k] == p;
                assert(whole[k + 1] == p);
                assert(whole.contains(p));
            }
        } else {
            assert(whole == rest);
        }
        // shift the witness index between the kernel and its tail
        if exists|j: int|
            0 <= j < kernel.len()
            && p.0 as int == x + (#[trigger] kernel[j]).0
            && p.1 as int == y + kernel[j].1
            && 0 <= x + kernel[j].0 < size
            && 0 <= y + kernel[j].1 < size {
            let j = choose|j: int|
                0 <= j < kernel.len()
                && p.0 as int == x + (#[trigger] kernel[j]).0
                && p.1 as int == y + kernel[j].1
                && 0 <= x + kernel[j].0 < size
                && 0 <= y + kernel[j].1 < size;
            if j > 0 {
                assert(kernel.skip(1)[j - 1] == kernel[j]);
            } else {
                assert(p.0 as int == nx && p.1 as int == ny);
                assert(p == (nx as u16, ny as u16));
            }
        }
        if rest.contains(p) {
            let j = choose|j: int|
                0 <= j < kernel.skip(1).len()
                && p.0 as int == x + (#[trigger] kernel.skip(1)[j]).0
                && p.1 as int == y + kernel.skip(1)[j].1
                && 0 <= x + kernel.skip(1)[j].0 < size
                && 0 <= y + kernel.skip(1)[j].1 < size;
            assert(kernel[j + 1] == kernel.skip(1)[j]);
        }
    }
}

/// What adjacency means under the king-move kernel: the two cells differ by at
/// most one in each coordinate and are not the same cell.
pub proof fn lemma_king_adjacency(size: int, x: int, y: int, nx: int, ny: int)
    requires
        size <= 0x10000,
        0 <= x < size,
        0 <= y < size,
        0 <= nx < size,
        0 <= ny < size,
    ensures
        kernel_neighbors(king_kernel(), size, x, y).contains((nx as u16, ny as u16))
            <==> (x - 1 <= nx <= x + 1 && y - 1 <= ny <= y + 1 && !(nx == x && ny == y)),
{
    lemma_kernel_neighbors_membership(king_kernel(), size, x, y, (nx as u16, ny as u16));
    if x - 1 <= nx <= x + 1 && y - 1 <= ny <= y + 1 && !(nx == x && ny == y) {
        let dx = nx - x;
        let dy = ny - y;
        if dx == -1 && dy == -1 {
            assert(king_kernel()[0] == (-1isize, -1isize));
        } else if dx == 0 && dy == -1 {
            assert(king_kernel()[1] == (0isize, -1isize));
        } else if dx == -1 && dy == 0 {
            assert(king_kernel()[2] == (-1isize, 0isize));
        } else if dx == 1 && dy == 1 {
            assert(king_kernel()[3] == (1isize, 1isize));
        } else if dx == 0 && dy == 1 {
            assert(king_kernel()[4] == (0isize, 1isize));
        } else if dx == 1 && dy == 0 {
            assert(king_kernel()[5] == (1isize, 0isize));
        } else if dx == -1 && dy == 1 {
            assert(king_kernel()[6] == (-1isize, 1isize));
        } else {
            assert(king_kernel()[7] == (1isize, -1isize));
        }
    }
    if kernel_neighbors(king_kernel(), size, x, y).contains((nx as u16, ny as u16)) {
        let j = choose|j: int|
            0 <= j < king_kernel().len()
            && (nx as u16) as int == x + (#[trigger] king_kernel()[j]).0
            && (ny as u16) as int == y + king_kernel()[j].1
            && 0 <= x + king_kernel()[j].0 < size
            && 0 <= y + king_kernel()[j].1 < size;
        assert(-1 <= king_kernel()[j].0 <= 1 && -1 <= king_kernel()[j].1 <= 1
            && !(king_kernel()[j].0 == 0 && king_kernel()[j].1 == 0)) by {
            if j == 0 {
                assert(king_kernel()[0] == (-1isize, -1isize));
            } else if j == 1 {
                assert(king_kernel()[1] == (0isize, -1isize));
            } else if j == 2 {
                assert(king_kernel()[2] == (-1isize, 0isize));
            } else if j == 3 {
                assert(king_kernel()[3] == (1isize, 1isize));
            } else if j == 4 {
                assert(king_kernel()[4] == (0isize, 1isize));
            } else if j == 5 {
                assert(king_kernel()[5] == (1isize, 0isize));
            } else {
                assert(king_kernel()[6] == (-1isize, 1isize));
                assert(king_kernel()[7] == (1isize, -1isize));
            }
        }
    }
}

/// The king-move kernel holds no zero offset, so a cell is never its own
/// neighbor.
pub proof fn lemma_king_kernel_no_self(size: int, x: int, y: int)
    requires
        size <= 0x10000,
        0 <= x < size,
        0 <= y < size,
    ensures
        forall|k: int| 0 <= k < kernel_neighbors(king_kernel(), size, x, y).len()
            ==> !((#[trigger] kernel_neighbors(king_kernel(), size, x, y)[k]).0 == x as u16
                && kernel_neighbors(king_kernel(), size, x, y)[k].1 == y as u16),
{
    assert forall|j: int| 0 <= j < king_kernel().len()
    implies !((#[trigger] king_kernel()[j]).0 == 0 && king_kernel()[j].1 == 0) by {
        if j == 0 {
            assert(king_kernel()[0] == (-1isize, -1isize));
        } else if j == 1 {
            assert(king_kernel()[1] == (0isize, -1isize));
        } else if j == 2 {
            assert(king_kernel()[2] == (-1isize, 0isize));
        } else if j == 3 {
            assert(king_kernel()[3] == (1isize, 1isize));
        } else if j == 4 {
            assert(king_kernel()[4] == (0isize, 1isize));
        } else if j == 5 {
            assert(king_kernel()[5] == (1isize, 0isize));
        } else if j == 6 {
            assert(king_kernel()[6] == (-1isize, 1isize));
        } else {
            assert(king_kernel()[7] == (1isize, -1isize));
        }
    }
    lemma_kernel_neighbors_no_self(king_kernel(), size, x, y);
}

/// A kernel without the zero offset never yields the cell itself.
pub proof fn lemma_kernel_neighbors_no_self(kernel: Seq<(isize, isize)>, size: int, x: int, y: int)
    requires
        size <= 0x10000,
        0 <= x < size,
        0 <= y < size,
        forall|j: int| 0 <= j < kernel.len() ==> !((#[trigger] kernel[j]).0 == 0 && kernel[j].1 == 0),
    ensures
        forall|k: int| 0 <= k < kernel_neighbors(kernel, size, x, y).len()
            ==> !((#[trigger] kernel_neighbors(kernel, size, x, y)[k]).0 == x as u16
                && kernel_neighbors(kernel, size, x, y)[k].1 == y as u16),
    decreases kernel.len(),
{
    if kernel.len() > 0 {
        assert(forall|j: int| 0 <= j < kernel.skip(1).len()
            ==> #[trigger] kernel.skip(1)[j] == kernel[j + 1]);
        lemma_kernel_neighbors_no_self(kernel.skip(1), size, x, y);
        let rest = kernel_neighbors(kernel.skip(1), size, x, y);
        let whole = kernel_neighbors(kernel, size, x, y);
        assert forall|k: int| 0 <= k < whole.len()
        implies !((#[trigger] whole[k]).0 == x as u16 && whole[k].1 == y as u16) by {
            if whole.len() == rest.len() {
                assert(whole[k] == rest[k]);
            } else if k > 0 {
                assert(whole[k] == rest[k - 1]);
            } else {
                // the head comes from a non-zero offset
                assert(!(kernel[0].0 == 0 && kernel[0].1 == 0));
            }
        }
    }
}

/// True when `n` is a perfect square.
pub open spec fn is_perfect_square(n: int) -> bool {
    exists|k: int| 0 <= k && #[trigger] (k * k) == n
}

/// Integer square root: the largest `r` with `r * r <= len`.
pub(crate) fn isqrt(len: usize) -> (r: usize)
    ensures
        r * r <= len,
        (r + 1) * (r + 1) > len,
{
    if len == 0 {
        return 0;
    }
    let mut lo: usize = 0;
    let mut hi: usize = len;
    proof {
        assert((len + 1) * (len + 1) > len) by (nonlinear_arith)
            requires len >= 1;
    }
    // Invariant: lo * lo <= len < (hi + 1) * (hi + 1).
    while lo < hi
        invariant
            lo <= hi <= len,
            lo * lo <= len,
            (hi + 1) * (hi + 1) > len,
        decreases hi - lo,
    {
        let mid: usize = hi - (hi - lo) / 2;
        proof {
            assert(lo < mid <= hi);
            assert((mid as u128) * (mid as u128) < 0x100000000000000000000000000000000) by (nonlinear_arith)
                requires mid <= 0xffffffffffffffffu128;
        }
        let sq: u128 = (mid as u128) * (mid as u128);
        if sq <= len as u128 {
            lo = mid;
        } else {
            proof {
                assert((mid + 1) * (mid + 1) > len) by (nonlinear_arith)
                    requires mid * mid > len;
            }
            hi = mid - 1;
        }
    }
    lo
}

/// Determines if a one dimensional array length can be viewed as a two dimensional array
/// with equal width and height.
pub fn is_1d_len_square_in_2d(len: usize) -> (r: bool)
    ensures
        r == is_perfect_square(len as int),
{
    let s = isqrt(len);
    let r = (s as u128) * (s as u128) == len as u128;
    proof {
        if r {
            assert(is_perfect_square(len as int)) by {
                assert(0 <= s && (s as int) * (s as int) == len as int);
            }
        } else {
            assert forall|k: int| 0 <= k implies #[trigger] (k * k) != len as int by {
                if k <= s as int {
                    assert(k * k <= (s as int) * (s as int)) by (nonlinear_arith)
                        requires 0 <= k <= s as int;
                } else {
                    assert(k * k >= (s as int + 1) * (s as int + 1)) by (nonlinear_arith)
                        requires k >= s as int + 1;
                }
            }
        }
    }
    r
}

} // verus!
