//! Simple implementation of [Board]: a flat buffer of charset codes.

use vstd::prelude::*;
use vstd::string::StrSliceExecFns;
use crate::board::{isqrt, is_perfect_square, kernel_neighbors, king_kernel, Board, BoardCell};
use crate::charset::{all_mappable, Charset};
use crate::error::Error;

verus! {

/// A simple board cell: a position and the charset code of its character.
#[derive(Debug, Clone, Copy, PartialEq, Eq)]
pub struct SimpleBoardCell {
    x: u16,
    y: u16,
    ch: u8,
}

impl SimpleBoardCell {
    /// Create a [SimpleBoardCell].
    pub fn new(x: u16, y: u16, ch: u8) -> (r: Self)
        ensures
            r.spec_x() == x,
            r.spec_y() == y,
            r.spec_ch() == ch,
    {
        SimpleBoardCell { x, y, ch }
    }
}

impl BoardCell for SimpleBoardCell {
    closed spec fn spec_x(&self) -> u16 {
        self.x
    }

    closed spec fn spec_y(&self) -> u16 {
        self.y
    }

    closed spec fn spec_ch(&self) -> u8 {
        self.ch
    }

    fn x(&self) -> u16 {
        self.x
    }

    fn y(&self) -> u16 {
        self.y
    }

    fn ch(&self) -> u8 {
        self.ch
    }
}

/// Simple boggle board: a row-major buffer of charset codes with a
/// configurable adjacency kernel, king-move by default.
#[derive(Debug, PartialEq, Eq)]
pub struct SimpleBoard<C: Charset> {
    buf: Vec<u8>,
    size: usize,
    kernel: Vec<(isize, isize)>,
    _phantom: core::marker::PhantomData<C>,
}

impl<C: Charset> SimpleBoard<C> {
    /// The stored codes, row by row.
    pub closed spec fn spec_buf(&self) -> Seq<u8> {
        self.buf@
    }

    /// The stored side length.
    pub closed spec fn spec_size_val(&self) -> usize {
        self.size
    }

    /// The stored adjacency kernel.
    pub closed spec fn spec_kernel(&self) -> Seq<(isize, isize)> {
        self.kernel@
    }

    /// Create a [SimpleBoard] from a string, with the eight king-move offsets
    /// as its adjacency kernel.
    ///
    /// Fails when a character has no charset code, when the grid would be too
    /// large to address with 16-bit coordinates, or when the character count
    /// is not a perfect square.
    pub fn new(board: &str) -> (r: Result<Self, Error>)
        ensures
            r matches Ok(b) ==> {
                &&& b.wf()
                &&& all_mappable::<C>(board@)
                &&& b.spec_size() * b.spec_size() == board@.len()
                &&& b.spec_kernel() == king_kernel()
                &&& forall|i: int| 0 <= i < board@.len()
                    ==> #[trigger] b.spec_buf()[i] == C::spec_to_code(board@[i]).unwrap()
            },
            r is Ok <==> (all_mappable::<C>(board@) && board@.len() < 0x10000 * 0x10000
                && is_perfect_square(board@.len() as int)),
            r matches Err(Error::InvalidCharacter(c)) ==> exists|j: int|
                0 <= j < board@.len() && board@[j] == c && C::spec_to_code(c) is None
                    && (forall|k: int| 0 <= k < j ==> (#[trigger] C::spec_to_code(board@[k])) is Some),
            !all_mappable::<C>(board@) <==> (r matches Err(e) && e is InvalidCharacter),
            (all_mappable::<C>(board@) && board@.len() >= 0x10000 * 0x10000)
                <==> (r matches Err(e) && e is CapacityExceeded),
            (all_mappable::<C>(board@) && board@.len() < 0x10000 * 0x10000
                && !is_perfect_square(board@.len() as int))
                <==> (r matches Err(e) && e is NotSquare),
    {
        let mut kernel: Vec<(isize, isize)> = Vec::new();
        kernel.push((-1, -1));
        kernel.push((0, -1));
        kernel.push((-1, 0));
        kernel.push((1, 1));
        kernel.push((0, 1));
        kernel.push((1, 0));
        kernel.push((-1, 1));
        kernel.push((1, -1));
        proof {
            assert(kernel@ =~= king_kernel());
        }
        Self::with_kernel(board, kernel)
    }

    /// Create a [SimpleBoard] from a string, with a caller-supplied adjacency
    /// kernel: other topologies substitute for king-move adjacency without
    /// touching the board or searcher logic.
    ///
    /// Fails exactly as [SimpleBoard::new] does.
    pub fn with_kernel(board: &str, neighbors_kernel: Vec<(isize, isize)>) -> (r: Result<Self, Error>)
        ensures
            r matches Ok(b) ==> {
                &&& b.wf()
                &&& all_mappable::<C>(board@)
                &&& b.spec_size() * b.spec_size() == board@.len()
                &&& b.spec_kernel() == neighbors_kernel@
                &&& forall|i: int| 0 <= i < board@.len()
                    ==> #[trigger] b.spec_buf()[i] == C::spec_to_code(board@[i]).unwrap()
            },
            r is Ok <==> (all_mappable::<C>(board@) && board@.len() < 0x10000 * 0x10000
                && is_perfect_square(board@.len() as int)),
            r matches Err(Error::InvalidCharacter(c)) ==> exists|j: int|
                0 <= j < board@.len() && board@[j] == c && C::spec_to_code(c) is None
                    && (forall|k: int| 0 <= k < j ==> (#[trigger] C::spec_to_code(board@[k])) is Some),
            !all_mappable::<C>(board@) <==> (r matches Err(e) && e is InvalidCharacter),
            (all_mappable::<C>(board@) && board@.len() >= 0x10000 * 0x10000)
                <==> (r matches Err(e) && e is CapacityExceeded),
            (all_mappable::<C>(board@) && board@.len() < 0x10000 * 0x10000
                && !is_perfect_square(board@.len() as int))
                <==> (r matches Err(e) && e is NotSquare),
    {
        let n = board.unicode_len();
        let mut buf: Vec<u8> = Vec::new();
        let mut i: usize = 0;
        while i < n
            invariant
                n == board@.len(),
                i <= n,
                buf@.len() == i,
                forall|j: int| 0 <= j < i ==> (#[trigger] C::spec_to_code(board@[j])) is Some,
                forall|j: int| 0 <= j < i
                    ==> #[trigger] buf@[j] == C::spec_to_code(board@[j]).unwrap(),
            decreases n - i,
        {
            let c = board.get_char(i);
            match C::to_prefix_char(c) {
                Some(code) => {
                    buf.push(code);
                }
                None => {
                    return Err(Error::InvalidCharacter(c));
                }
            }
            i = i + 1;
        }
        let s = isqrt(n);
        if s > 0xffff {
            proof {
                assert(n >= 0x10000 * 0x10000) by (nonlinear_arith)
                    requires s * s <= n, s >= 0x10000;
            }
            return Err(Error::CapacityExceeded);
        }
        proof {
            assert(n < 0x10000 * 0x10000) by (nonlinear_arith)
                requires (s + 1) * (s + 1) > n, s <= 0xffff;
        }
        if s * s != n {
            proof {
                assert forall|k: int| 0 <= k implies #[trigger] (k * k) != n as int by {
                    if k <= s as int {
                        assert(k * k <= (s as int) * (s as int)) by (nonlinear_arith)
                            requires 0 <= k <= s as int;
                    } else {
                        assert(k * k >= (s as int + 1) * (s as int + 1)) by (nonlinear_arith)
                            requires k >= s as int + 1;
                    }
                }
            }
            return Err(Error::NotSquare);
        }
        Ok(SimpleBoard { buf, size: s, kernel: neighbors_kernel, _phantom: core::marker::PhantomData })
    }
}

impl<C: Charset> Board for SimpleBoard<C> {
    type Cell = SimpleBoardCell;

    open spec fn spec_size(&self) -> int {
        self.spec_size_val() as int
    }

    open spec fn spec_char_at(&self, x: int, y: int) -> u8 {
        self.spec_buf()[y * self.spec_size() + x]
    }

    open spec fn spec_neighbors(&self, x: u16, y: u16) -> Seq<(u16, u16)> {
        kernel_neighbors(self.spec_kernel(), self.spec_size(), x as int, y as int)
    }

    open spec fn wf(&self) -> bool {
        &&& self.spec_buf().len() == self.spec_size() * self.spec_size()
        &&& self.spec_size() <= u16::MAX as int
    }

    fn size(&self) -> usize {
        self.size
    }

    fn at(&self, x: u16, y: u16) -> (r: Option<SimpleBoardCell>) {
        let size = self.size;
        let buf_len = self.buf.len();
        if (x as usize) < size && (y as usize) < size {
            proof {
                assert((y as int) * (size as int) + (x as int) < (size as int) * (size as int))
                    by (nonlinear_arith)
                    requires (x as int) < size as int, (y as int) < size as int, 0 <= x as int,
                        0 <= y as int;
            }
            let index = (y as usize) * size + (x as usize);
            Some(SimpleBoardCell::new(x, y, self.buf[index]))
        } else {
            None
        }
    }

    fn neighbors(&self, x: u16, y: u16) -> (r: Vec<SimpleBoardCell>) {
        let ghost kern = self.spec_kernel();
        let size = self.size;
        let buf_len = self.buf.len();
        let n = self.kernel.len();
        let mut result: Vec<SimpleBoardCell> = Vec::new();
        let mut j: usize = 0;
        proof {
            assert(kern.skip(0) =~= kern);
            assert(Seq::new(result@.len(), |k: int| (result@[k].spec_x(), result@[k].spec_y()))
                + kernel_neighbors(kern, size as int, x as int, y as int)
                =~= self.spec_neighbors(x, y));
        }
        while j < n
            invariant
                self.wf(),
                size == self.spec_size_val(),
                buf_len == self.spec_buf().len(),
                kern == self.spec_kernel(),
                n == kern.len(),
                j <= n,
                self.spec_neighbors(x, y)
                    =~= Seq::new(result@.len(), |k: int| (result@[k].spec_x(), result@[k].spec_y()))
                        + kernel_neighbors(kern.skip(j as int), size as int, x as int, y as int),
                forall|k: int| 0 <= k < result@.len() ==> {
                    &&& ((#[trigger] result@[k]).spec_x() as int) < size as int
                    &&& (result@[k].spec_y() as int) < size as int
                    &&& result@[k].spec_ch() == self.spec_char_at(
                        result@[k].spec_x() as int,
                        result@[k].spec_y() as int,
                    )
                },
            decreases n - j,
        {
            let dxy = self.kernel[j];
            let nxl = x as i128 + dxy.0 as i128;
            let nyl = y as i128 + dxy.1 as i128;
            let ghost result0 = result@;
            let ghost tail = kernel_neighbors(kern.skip(j as int), size as int, x as int, y as int);
            proof {
                assert(kern.skip(j as int)[0] == kern[j as int]);
                assert(kern.skip(j as int).skip(1) =~= kern.skip(j as int + 1));
                assert(nxl as int == x as int + kern[j as int].0);
                assert(nyl as int == y as int + kern[j as int].1);
            }
            if 0 <= nxl && nxl < size as i128 && 0 <= nyl && nyl < size as i128 {
                let nx = nxl as u16;
                let ny = nyl as u16;
                proof {
                    assert(nx as int == nxl as int && ny as int == nyl as int);
                    assert((ny as int) * (size as int) + (nx as int) < (size as int) * (size as int))
                        by (nonlinear_arith)
                        requires (nx as int) < size as int, (ny as int) < size as int,
                            0 <= nx as int, 0 <= ny as int;
                }
                let index = (ny as usize) * size + (nx as usize);
                result.push(SimpleBoardCell::new(nx, ny, self.buf[index]));
                proof {
                    assert(tail =~= seq![(nx, ny)] + kernel_neighbors(
                        kern.skip(j as int + 1), size as int, x as int, y as int));
                    assert(Seq::new(result@.len(), |k: int| (result@[k].spec_x(), result@[k].spec_y()))
                        =~= Seq::new(result0.len(), |k: int| (result0[k].spec_x(), result0[k].spec_y()))
                            + seq![(nx, ny)]);
                }
            } else {
                proof {
                    assert(tail =~= kernel_neighbors(
                        kern.skip(j as int + 1), size as int, x as int, y as int));
                }
            }
            j = j + 1;
        }
        proof {
            assert(kern.skip(n as int) =~= Seq::<(isize, isize)>::empty());
            assert(self.spec_neighbors(x, y)
                =~= Seq::new(result@.len(), |k: int| (result@[k].spec_x(), result@[k].spec_y())));
            assert forall|k: int| 0 <= k < result@.len()
            implies (#[trigger] result@[k]).spec_x() == self.spec_neighbors(x, y)[k].0
                && result@[k].spec_y() == self.spec_neighbors(x, y)[k].1 by {
                assert(self.spec_neighbors(x, y)[k]
                    == (result@[k].spec_x(), result@[k].spec_y()));
            }
        }
        result
    }
}

/// A simple board cell neighbors iterator: the neighbor cells of one position,
/// handed out one at a time.
pub struct SimpleNeighbors {
    cells: Vec<SimpleBoardCell>,
    at: usize,
}

impl SimpleNeighbors {
    /// The cells not yet handed out.
    pub closed spec fn remaining(&self) -> Seq<SimpleBoardCell> {
        if self.at as int <= self.cells@.len() {
            self.cells@.skip(self.at as int)
        } else {
            Seq::empty()
        }
    }

    /// Create a [SimpleNeighbors] iterator over the neighbors of `(x, y)`.
    pub fn new<C: Charset>(board: &SimpleBoard<C>, x: u16, y: u16) -> (r: Self)
        requires
            board.wf(),
        ensures
            r.remaining().len() == board.spec_neighbors(x, y).len(),
            forall|k: int| 0 <= k < r.remaining().len() ==> {
                &&& (#[trigger] r.remaining()[k]).spec_x() == board.spec_neighbors(x, y)[k].0
                &&& r.remaining()[k].spec_y() == board.spec_neighbors(x, y)[k].1
                &&& r.remaining()[k].spec_ch() == board.spec_char_at(
                    board.spec_neighbors(x, y)[k].0 as int,
                    board.spec_neighbors(x, y)[k].1 as int,
                )
            },
    {
        let cells = board.neighbors(x, y);
        proof {
            assert(cells@.skip(0) =~= cells@);
        }
        SimpleNeighbors { cells, at: 0 }
    }

    /// Gets the next neighbor cell, `None` once all have been handed out.
    pub fn next(&mut self) -> (r: Option<SimpleBoardCell>)
        ensures
            old(self).remaining().len() == 0 ==> r is None
                && final(self).remaining() == old(self).remaining(),
            old(self).remaining().len() > 0 ==> r == Some(old(self).remaining()[0])
                && final(self).remaining() == old(self).remaining().skip(1),
    {
        if self.at < self.cells.len() {
            let c = self.cells[self.at];
            self.at = self.at + 1;
            proof {
                assert(old(self).remaining()[0] == c);
                assert(self.remaining() =~= old(self).remaining().skip(1));
            }
            Some(c)
        } else {
            proof {
                assert(self.remaining().len() == 0);
                assert(self.remaining() =~= old(self).remaining());
            }
            None
        }
    }
}

} // verus!
