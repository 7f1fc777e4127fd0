//! A boggle grid over raw characters, with a configurable adjacency kernel.

use vstd::prelude::*;
use vstd::string::StrSliceExecFns;
use crate::board::{is_perfect_square, isqrt};
use crate::error::Error;

verus! {

/// The in-bounds neighbors of `at` on a `size`-sided grid under `kernel`, in
/// kernel order; offsets leading outside the grid are skipped.
pub open spec fn grid_kernel_neighbors(
    kernel: Seq<(isize, isize)>,
    size: int,
    at: (int, int),
) -> Seq<(int, int)>
    decreases kernel.len(),
{
    if kernel.len() == 0 {
        Seq::empty()
    } else {
        let nx = at.0 + kernel[0].0;
        let ny = at.1 + kernel[0].1;
        let rest = grid_kernel_neighbors(kernel.skip(1), size, at);
        if 0 <= nx < size && 0 <= ny < size {
            seq![(nx, ny)] + rest
        } else {
            rest
        }
    }
}

/// Every position produced by `grid_kernel_neighbors` lies inside the grid.
pub proof fn lemma_grid_neighbors_in_bounds(kernel: Seq<(isize, isize)>, size: int, at: (int, int))
    ensures
        forall|k: int| 0 <= k < grid_kernel_neighbors(kernel, size, at).len()
            ==> 0 <= (#[trigger] grid_kernel_neighbors(kernel, size, at)[k]).0 < size
                && 0 <= grid_kernel_neighbors(kernel, size, at)[k].1 < size,
    decreases kernel.len(),
{
    if kernel.len() > 0 {
        lemma_grid_neighbors_in_bounds(kernel.skip(1), size, at);
        let rest = grid_kernel_neighbors(kernel.skip(1), size, at);
        let whole = grid_kernel_neighbors(kernel, size, at);
        assert forall|k: int| 0 <= k < whole.len()
        implies 0 <= (#[trigger] whole[k]).0 < size && 0 <= whole[k].1 < size by {
            if whole.len() == rest.len() {
                assert(whole[k] == rest[k]);
            } else if k > 0 {
                assert(whole[k] == rest[k - 1]);
            }
        }
    }
}

/// A kernel without the zero offset never yields the cell itself.
pub proof fn lemma_grid_neighbors_no_self(kernel: Seq<(isize, isize)>, size: int, at: (int, int))
    requires
        forall|j: int| 0 <= j < kernel.len() ==> !((#[trigger] kernel[j]).0 == 0 && kernel[j].1 == 0),
    ensures
        forall|k: int| 0 <= k < grid_kernel_neighbors(kernel, size, at).len()
            ==> #[trigger] grid_kernel_neighbors(kernel, size, at)[k] != at,
    decreases kernel.len(),
{
    if kernel.len() > 0 {
        assert(forall|j: int| 0 <= j < kernel.skip(1).len()
            ==> #[trigger] kernel.skip(1)[j] == kernel[j + 1]);
        lemma_grid_neighbors_no_self(kernel.skip(1), size, at);
        let rest = grid_kernel_neighbors(kernel.skip(1), size, at);
        let whole = grid_kernel_neighbors(kernel, size, at);
        assert forall|k: int| 0 <= k < whole.len() implies #[trigger] whole[k] != at by {
            if whole.len() == rest.len() {
                assert(whole[k] == rest[k]);
            } else if k > 0 {
                assert(whole[k] == rest[k - 1]);
            } else {
                assert(!(kernel[0].0 == 0 && kernel[0].1 == 0));
            }
        }
    }
}

/// The default adjacency kernel: the eight king-move offsets, in the order the
/// grid applies them.
pub open spec fn grid_king_kernel() -> Seq<(isize, isize)> {
    seq![
        (-1isize, -1isize),
        (0isize, -1isize),
        (-1isize, 0isize),
        (1isize, 1isize),
        (0isize, 1isize),
        (1isize, 0isize),
        (-1isize, 1isize),
        (1isize, -1isize),
    ]
}

/// A boggle grid: a flat sequence of characters read as a square matrix, a
/// minimum word length, and the adjacency kernel to search with.
pub struct Grid {
    grid: Vec<char>,
    size: usize,
    min_word_len: usize,
    neighbors_kernel: Vec<(isize, isize)>,
}

impl Grid {
    /// The characters of the grid, flattened.
    pub closed spec fn spec_grid(&self) -> Seq<char> {
        self.grid@
    }

    /// The side length.
    pub closed spec fn spec_size(&self) -> int {
        self.size as int
    }

    /// The configured minimum word length.
    pub closed spec fn spec_min_word_len(&self) -> int {
        self.min_word_len as int
    }

    /// The configured adjacency kernel.
    pub closed spec fn spec_kernel(&self) -> Seq<(isize, isize)> {
        self.neighbors_kernel@
    }

    /// The stored side length squares to the cell count.
    pub open spec fn wf(&self) -> bool {
        self.spec_size() * self.spec_size() == self.spec_grid().len()
    }

    /// Create a new grid with options.
    ///
    /// Fails when the character count is not a perfect square.
    pub fn new(grid: &str, min_word_len: usize, neighbors_kernel: Vec<(isize, isize)>) -> (r: Result<Self, Error>)
        ensures
            r is Ok <==> is_perfect_square(grid@.len() as int),
            r matches Err(e) ==> e is NotSquare,
            r matches Ok(g) ==> {
                &&& g.wf()
                &&& g.spec_grid() == grid@
                &&& g.spec_min_word_len() == min_word_len as int
                &&& g.spec_kernel() == neighbors_kernel@
            },
    {
        let n = grid.unicode_len();
        let mut cells: Vec<char> = Vec::new();
        let mut i: usize = 0;
        while i < n
            invariant
                n == grid@.len(),
                i <= n,
                cells@ == grid@.take(i as int),
            decreases n - i,
        {
            let c = grid.get_char(i);
            cells.push(c);
            proof {
                assert(cells@ =~= grid@.take(i as int + 1));
            }
            i = i + 1;
        }
        proof {
            assert(grid@.take(n as int) =~= grid@);
        }
        let s = isqrt(n);
        if s * s != n {
            proof {
                assert forall|k: int| 0 <= k implies #[trigger] (k * k) != n as int by {
                    if k <= s as int {
                        assert(k * k <= (s as int) * (s as int)) by (nonlinear_arith)
                            requires 0 <= k <= s as int;
                    } else {
                        assert(k * k >= (s as int + 1) * (s as int + 1)) by (nonlinear_arith)
                            requires k >= s as int + 1;
                    }
                }
            }
            return Err(Error::NotSquare);
        }
        Ok(Grid { grid: cells, size: s, min_word_len, neighbors_kernel })
    }

    /// Create a new grid from a flattened square grid, with the default
    /// minimum word length of 3 and the eight king-move offsets.
    pub fn from_grid(grid: &str) -> (r: Result<Self, Error>)
        ensures
            r is Ok <==> is_perfect_square(grid@.len() as int),
            r matches Err(e) ==> e is NotSquare,
            r matches Ok(g) ==> {
                &&& g.wf()
                &&& g.spec_grid() == grid@
                &&& g.spec_min_word_len() == 3
                &&& g.spec_kernel() == grid_king_kernel()
                &&& forall|j: int| 0 <= j < g.spec_kernel().len()
                    ==> !((#[trigger] g.spec_kernel()[j]).0 == 0 && g.spec_kernel()[j].1 == 0)
            },
    {
        let mut kernel: Vec<(isize, isize)> = Vec::new();
        kernel.push((-1, -1));
        kernel.push((0, -1));
        kernel.push((-1, 0));
        kernel.push((1, 1));
        kernel.push((0, 1));
        kernel.push((1, 0));
        kernel.push((-1, 1));
        kernel.push((1, -1));
        proof {
            assert(kernel@ =~= grid_king_kernel());
        }
        Self::new(grid, 3, kernel)
    }

    /// Gets a character in the grid at specified coordinates.
    pub fn at(&self, at: (usize, usize)) -> (r: char)
        requires
            self.wf(),
            (at.0 as int) < self.spec_size(),
            (at.1 as int) < self.spec_size(),
        ensures
            r == self.spec_grid()[at.0 * self.spec_size() + at.1],
    {
        proof {
            assert((at.0 as int) * (self.size as int) + (at.1 as int)
                < (self.size as int) * (self.size as int)) by (nonlinear_arith)
                requires (at.0 as int) < self.size as int, (at.1 as int) < self.size as int,
                    0 <= at.0 as int, 0 <= at.1 as int;
        }
        let len = self.grid.len();
        let index = at.0 * self.size + at.1;
        self.grid[index]
    }

    /// Gets grid size.
    pub fn size(&self) -> (r: usize)
        ensures
            r as int == self.spec_size(),
    {
        self.size
    }

    /// Gets the longest allowed word length: the cell count.
    pub fn max_word_len(&self) -> (r: usize)
        ensures
            r as int == self.spec_grid().len(),
    {
        self.grid.len()
    }

    /// Gets the shortest allowed word length.
    pub fn min_word_len(&self) -> (r: usize)
        ensures
            r as int == self.spec_min_word_len(),
    {
        self.min_word_len
    }

    /// Gets next logical point in the grid from the supplied point: the next
    /// row position, or the start of the next column, or nothing at the end.
    pub fn next(&self, at: (usize, usize)) -> (r: Option<(usize, usize)>)
        ensures
            r == if at.0 as int + 1 < self.spec_size() {
                Some(((at.0 + 1) as usize, at.1))
            } else if at.1 as int + 1 < self.spec_size() {
                Some((0usize, (at.1 + 1) as usize))
            } else {
                None::<(usize, usize)>
            },
    {
        let size = self.size;
        if size > 0 && at.0 < size - 1 {
            Some((at.0 + 1, at.1))
        } else if size > 0 && at.1 < size - 1 {
            Some((0, at.1 + 1))
        } else {
            None
        }
    }

    /// Gets the in-bounds neighbors of a point, in kernel order. Every
    /// returned point lies inside the grid, and when the kernel has no zero
    /// offset the point itself is never returned.
    pub fn neighbors(&self, at: (usize, usize)) -> (r: Vec<(usize, usize)>)
        ensures
            r@.len() == grid_kernel_neighbors(self.spec_kernel(), self.spec_size(), (at.0 as int, at.1 as int)).len(),
            forall|k: int| 0 <= k < r@.len()
                ==> ((#[trigger] r@[k]).0 as int, r@[k].1 as int)
                    == grid_kernel_neighbors(self.spec_kernel(), self.spec_size(), (at.0 as int, at.1 as int))[k],
            forall|k: int| 0 <= k < r@.len()
                ==> ((#[trigger] r@[k]).0 as int) < self.spec_size()
                    && ((r@[k]).1 as int) < self.spec_size(),
            (forall|j: int| 0 <= j < self.spec_kernel().len()
                ==> !((#[trigger] self.spec_kernel()[j]).0 == 0 && self.spec_kernel()[j].1 == 0))
                ==> forall|k: int| 0 <= k < r@.len() ==> #[trigger] r@[k] != at,
    {
        let ghost spec_at = (at.0 as int, at.1 as int);
        let ghost kern = self.neighbors_kernel@;
        let ghost size = self.spec_size();
        let mut result: Vec<(usize, usize)> = Vec::new();
        let n = self.neighbors_kernel.len();
        let mut j: usize = 0;
        proof {
            assert(kern.skip(0) =~= kern);
            assert(Seq::new(result@.len(), |k: int| ((result@[k].0 as int, result@[k].1 as int)))
                + grid_kernel_neighbors(kern, size, spec_at)
                =~= grid_kernel_neighbors(kern, size, spec_at));
        }
        while j < n
            invariant
                j <= n,
                n == kern.len(),
                kern == self.neighbors_kernel@,
                size == self.spec_size(),
                spec_at == (at.0 as int, at.1 as int),
                grid_kernel_neighbors(kern, size, spec_at)
                    =~= Seq::new(result@.len(), |k: int| ((result@[k].0 as int, result@[k].1 as int)))
                        + grid_kernel_neighbors(kern.skip(j as int), size, spec_at),
                forall|k: int| 0 <= k < result@.len()
                    ==> ((#[trigger] result@[k]).0 as int) < size && ((result@[k]).1 as int) < size,
                forall|k: int| 0 <= k < result@.len()
                    ==> exists|jj: int| 0 <= jj < j
                        && ((#[trigger] result@[k]).0 as int, result@[k].1 as int)
                            == (spec_at.0 + kern[jj].0, spec_at.1 + kern[jj].1),
            decreases n - j,
        {
            let kx = self.neighbors_kernel[j].0;
            let ky = self.neighbors_kernel[j].1;
            let nxl = at.0 as i128 + kx as i128;
            let nyl = at.1 as i128 + ky as i128;
            let ghost result0 = result@;
            let ghost tail = grid_kernel_neighbors(kern.skip(j as int), size, spec_at);
            proof {
                assert(kern.skip(j as int)[0] == kern[j as int]);
                assert(kern.skip(j as int).skip(1) =~= kern.skip(j as int + 1));
                assert(kx == kern[j as int].0 && ky == kern[j as int].1);
                assert(nxl as int == spec_at.0 + kern[j as int].0);
                assert(nyl as int == spec_at.1 + kern[j as int].1);
            }
            if 0 <= nxl && nxl < self.size as i128 && 0 <= nyl && nyl < self.size as i128 {
                let nx = nxl as usize;
                let ny = nyl as usize;
                proof {
                    assert(nx as int == nxl as int && ny as int == nyl as int);
                }
                result.push((nx, ny));
                proof {
                    assert(tail =~= seq![(nx as int, ny as int)]
                        + grid_kernel_neighbors(kern.skip(j as int + 1), size, spec_at));
                    assert(Seq::new(result@.len(), |k: int| ((result@[k].0 as int, result@[k].1 as int)))
                        =~= Seq::new(result0.len(), |k: int| ((result0[k].0 as int, result0[k].1 as int)))
                            + seq![(nx as int, ny as int)]);
                    assert((nx as int, ny as int) == (spec_at.0 + kern[j as int].0, spec_at.1 + kern[j as int].1));
                }
            } else {
                proof {
                    assert(tail =~= grid_kernel_neighbors(kern.skip(j as int + 1), size, spec_at));
                }
            }
            j = j + 1;
        }
        proof {
            assert(kern.skip(n as int) =~= Seq::<(isize, isize)>::empty());
            assert(grid_kernel_neighbors(kern, size, spec_at)
                =~= Seq::new(result@.len(), |k: int| ((result@[k].0 as int, result@[k].1 as int))));
            assert forall|k: int| 0 <= k < result@.len()
            implies ((#[trigger] result@[k]).0 as int, result@[k].1 as int)
                == grid_kernel_neighbors(kern, size, spec_at)[k] by {
                assert(grid_kernel_neighbors(kern, size, spec_at)[k]
                    == (result@[k].0 as int, result@[k].1 as int));
            }
            if forall|jj: int| 0 <= jj < self.spec_kernel().len()
                ==> !((#[trigger] self.spec_kernel()[jj]).0 == 0 && self.spec_kernel()[jj].1 == 0) {
                assert forall|k: int| 0 <= k < result@.len() implies #[trigger] result@[k] != at by {
                    let jj = choose|jj: int| 0 <= jj < n
                        && ((result@[k]).0 as int, (result@[k]).1 as int)
                            == (spec_at.0 + kern[jj].0, spec_at.1 + kern[jj].1);
                    assert(kern[jj] == self.spec_kernel()[jj]);
                    assert(!(kern[jj].0 == 0 && kern[jj].1 == 0));
                    if result@[k] == at {
                        assert(spec_at.0 + kern[jj].0 == spec_at.0
                            && spec_at.1 + kern[jj].1 == spec_at.1);
                    }
                }
            }
        }
        result
    }
}

} // verus!
