//! A grid graph: one node per cell plus a root, with children grouped by the
//! character they carry.

use vstd::prelude::*;
use crate::grid::{grid_kernel_neighbors, Grid};

verus! {

/// The position of the first entry keyed `c`.
pub open spec fn first_key(s: Seq<(char, Seq<usize>)>, c: char) -> Option<int>
    decreases s.len(),
{
    if s.len() == 0 {
        None
    } else if s[0].0 == c {
        Some(0)
    } else {
        match first_key(s.skip(1), c) {
            Some(i) => Some(i + 1),
            None => None,
        }
    }
}

/// The bucket stored under key `c`, if any.
pub open spec fn assoc_get(s: Seq<(char, Seq<usize>)>, c: char) -> Option<Seq<usize>> {
    match first_key(s, c) {
        Some(i) => Some(s[i].1),
        None => None,
    }
}

/// What `first_key` returns is the first entry with that key.
proof fn lemma_first_key_props(s: Seq<(char, Seq<usize>)>, c: char)
    ensures
        match first_key(s, c) {
            Some(i) => 0 <= i < s.len() && s[i].0 == c
                && forall|k: int| 0 <= k < i ==> (#[trigger] s[k]).0 != c,
            None => forall|k: int| 0 <= k < s.len() ==> (#[trigger] s[k]).0 != c,
        },
    decreases s.len(),
{
    if s.len() > 0 && s[0].0 != c {
        lemma_first_key_props(s.skip(1), c);
        match first_key(s.skip(1), c) {
            Some(i) => {
                assert(s[i + 1] == s.skip(1)[i]);
                assert forall|k: int| 0 <= k < i + 1 implies (#[trigger] s[k]).0 != c by {
                    if k > 0 {
                        assert(s[k] == s.skip(1)[k - 1]);
                    }
                }
            }
            None => {
                assert forall|k: int| 0 <= k < s.len() implies (#[trigger] s[k]).0 != c by {
                    if k > 0 {
                        assert(s[k] == s.skip(1)[k - 1]);
                    }
                }
            }
        }
    }
}

/// The first entry with a key determines `first_key`.
proof fn lemma_first_key_at(s: Seq<(char, Seq<usize>)>, c: char, i: int)
    requires
        0 <= i < s.len(),
        s[i].0 == c,
        forall|k: int| 0 <= k < i ==> (#[trigger] s[k]).0 != c,
    ensures
        first_key(s, c) == Some(i),
    decreases i,
{
    if s[0].0 != c {
        assert(forall|k: int| 0 <= k < s.skip(1).len() ==> #[trigger] s.skip(1)[k] == s[k + 1]);
        lemma_first_key_at(s.skip(1), c, i - 1);
    }
}

/// A list without key `c` has no first entry for it.
proof fn lemma_first_key_missing(s: Seq<(char, Seq<usize>)>, c: char)
    requires
        forall|k: int| 0 <= k < s.len() ==> (#[trigger] s[k]).0 != c,
    ensures
        first_key(s, c) is None,
    decreases s.len(),
{
    if s.len() > 0 {
        assert(forall|k: int| 0 <= k < s.skip(1).len() ==> #[trigger] s.skip(1)[k] == s[k + 1]);
        lemma_first_key_missing(s.skip(1), c);
    }
}

/// A node of the grid graph: its outgoing edges, grouped by the character of
/// the target cell, in first-seen order.
pub struct GridNode {
    children: Vec<(char, Vec<usize>)>,
}

impl GridNode {
    /// The children buckets, by key.
    pub closed spec fn spec_children(&self) -> Seq<(char, Seq<usize>)> {
        Seq::new(self.children@.len(), |i: int| (self.children@[i].0, self.children@[i].1@))
    }

    /// The bucket of child indices whose cells carry `c`.
    pub open spec fn spec_get(&self, c: char) -> Option<Seq<usize>> {
        assoc_get(self.spec_children(), c)
    }

    /// A node with no children.
    pub(crate) fn empty() -> (r: Self)
        ensures
            forall|c: char| r.spec_get(c) is None,
    {
        let r = GridNode { children: Vec::new() };
        proof {
            assert(forall|c: char| first_key(r.spec_children(), c) is None);
        }
        r
    }

    /// The bucket of `c`, as a borrowed list of child indices.
    pub(crate) fn find_bucket(&self, c: char) -> (r: Option<&Vec<usize>>)
        ensures
            match r {
                Some(v) => self.spec_get(c) == Some(v@),
                None => self.spec_get(c) is None,
            },
    {
        let ghost s = self.spec_children();
        let n = self.children.len();
        let mut i: usize = 0;
        while i < n
            invariant
                i <= n,
                n == self.children@.len(),
                s == self.spec_children(),
                forall|k: int| 0 <= k < i ==> (#[trigger] s[k]).0 != c,
            decreases n - i,
        {
            if self.children[i].0 == c {
                proof {
                    lemma_first_key_at(s, c, i as int);
                }
                return Some(&self.children[i].1);
            }
            i = i + 1;
        }
        proof {
            lemma_first_key_missing(s, c);
        }
        None
    }

    /// Appends `idx` to the bucket of `c`, creating the bucket when absent.
    pub(crate) fn add_child(&mut self, c: char, idx: usize)
        ensures
            final(self).spec_get(c) == Some(match old(self).spec_get(c) {
                Some(l) => l.push(idx),
                None => seq![idx],
            }),
            forall|c2: char| c2 != c
                ==> #[trigger] final(self).spec_get(c2) == old(self).spec_get(c2),
    {
        let ghost s0 = self.spec_children();
        let n = self.children.len();
        let mut i: usize = 0;
        while i < n
            invariant
                i <= n,
                n == self.children@.len(),
                self.children@ == old(self).children@,
                s0 == self.spec_children(),
                forall|k: int| 0 <= k < i ==> (#[trigger] s0[k]).0 != c,
            decreases n - i,
        {
            if self.children[i].0 == c {
                proof {
                    assert(s0[i as int].0 == c);
                    lemma_first_key_at(s0, c, i as int);
                }
                let ghost old_bucket = s0[i as int].1;
                self.children[i].1.push(idx);
                proof {
                    let s1 = self.spec_children();
                    assert(s1.len() == s0.len());
                    assert forall|k: int| 0 <= k < s0.len() && k != i
                    implies #[trigger] s1[k] == s0[k] by {
                        assert(self.children@[k] == old(self).children@[k]);
                    }
                    assert(s1[i as int] == (c, old_bucket.push(idx)));
                    assert forall|k: int| 0 <= k < i as int
                    implies (#[trigger] s1[k]).0 != c by {
                        assert(s1[k] == s0[k]);
                    }
                    lemma_first_key_at(s1, c, i as int);
                    assert(self.spec_get(c) == Some(old_bucket.push(idx)));
                    assert(old(self).spec_get(c) == Some(old_bucket));
                    assert forall|c2: char| c2 != c
                    implies #[trigger] self.spec_get(c2) == old(self).spec_get(c2) by {
                        lemma_first_key_props(s0, c2);
                        match first_key(s0, c2) {
                            Some(p) => {
                                assert(p != i as int);
                                assert(s1[p] == s0[p]);
                                assert forall|k: int| 0 <= k < p
                                implies (#[trigger] s1[k]).0 != c2 by {
                                    if k == i as int {
                                        assert(s1[k].0 == c);
                                    } else {
                                        assert(s1[k] == s0[k]);
                                    }
                                }
                                lemma_first_key_at(s1, c2, p);
                            }
                            None => {
                                assert forall|k: int| 0 <= k < s1.len()
                                implies (#[trigger] s1[k]).0 != c2 by {
                                    if k == i as int {
                                        assert(s1[k].0 == c);
                                    } else {
                                        assert(s1[k] == s0[k]);
                                    }
                                }
                                lemma_first_key_missing(s1, c2);
                            }
                        }
                    }
                }
                return;
            }
            i = i + 1;
        }
        proof {
            lemma_first_key_missing(s0, c);
        }
        let mut bucket: Vec<usize> = Vec::new();
        bucket.push(idx);
        self.children.push((c, bucket));
        proof {
            let s1 = self.spec_children();
            assert(s1.len() == s0.len() + 1);
            assert(forall|k: int| 0 <= k < s0.len() ==> #[trigger] s1[k] == s0[k]);
            assert(s1[s0.len() as int] == (c, seq![idx]));
            assert forall|k: int| 0 <= k < s0.len() as int
            implies (#[trigger] s1[k]).0 != c by {
                assert(s1[k] == s0[k]);
            }
            lemma_first_key_at(s1, c, s0.len() as int);
            assert(self.spec_get(c) == Some(seq![idx]));
            assert(old(self).spec_get(c) is None);
            assert forall|c2: char| c2 != c
            implies #[trigger] self.spec_get(c2) == old(self).spec_get(c2) by {
                lemma_first_key_props(s0, c2);
                match first_key(s0, c2) {
                    Some(p) => {
                        assert(s1[p] == s0[p]);
                        assert forall|k: int| 0 <= k < p
                        implies (#[trigger] s1[k]).0 != c2 by {
                            assert(s1[k] == s0[k]);
                        }
                        lemma_first_key_at(s1, c2, p);
                    }
                    None => {
                        assert forall|k: int| 0 <= k < s1.len()
                        implies (#[trigger] s1[k]).0 != c2 by {
                            if k < s0.len() {
                                assert(s1[k] == s0[k]);
                            } else {
                                assert(s1[k].0 == c);
                            }
                        }
                        lemma_first_key_missing(s1, c2);
                    }
                }
            }
        }
    }
}

/// The root's bucket for `c` over the first `k` cells: each cell index plus
/// one, in cell order, for cells whose character is `c`.
pub open spec fn root_bucket(g: Seq<char>, c: char, k: int) -> Seq<usize>
    decreases k,
{
    if k <= 0 {
        Seq::empty()
    } else {
        root_bucket(g, c, k - 1) + (if g[k - 1] == c {
            seq![k as usize]
        } else {
            Seq::empty()
        })
    }
}

/// A cell node's bucket for `c` over the first `j` neighbors: each neighbor's
/// cell index plus one, in kernel order, for neighbors whose character is `c`.
pub open spec fn neighbor_bucket(g: Seq<char>, size: int, nbrs: Seq<(int, int)>, c: char, j: int) -> Seq<usize>
    decreases j,
{
    if j <= 0 {
        Seq::empty()
    } else {
        neighbor_bucket(g, size, nbrs, c, j - 1) + (if g[nbrs[j - 1].0 * size + nbrs[j - 1].1] == c {
            seq![(nbrs[j - 1].0 * size + nbrs[j - 1].1 + 1) as usize]
        } else {
            Seq::empty()
        })
    }
}

/// A bucket, wrapped the way a children map answers: present exactly when it
/// is non-empty.
pub open spec fn bucket_opt(b: Seq<usize>) -> Option<Seq<usize>> {
    if b.len() > 0 {
        Some(b)
    } else {
        None
    }
}

/// A grid graph over a [Grid]: node 0 is the root with one edge per cell, and
/// node `i + 1` stands for cell `i` with one edge per neighbor, all grouped by
/// the target cell's character.
pub struct GridGraph {
    root: usize,
    arena: Vec<GridNode>,
}

impl GridGraph {
    /// The nodes of the graph.
    pub closed spec fn spec_arena(&self) -> Seq<GridNode> {
        self.arena@
    }

    /// The root index.
    pub closed spec fn spec_root(&self) -> usize {
        self.root
    }

    /// Constructs a [GridGraph] from a [Grid].
    pub fn new(grid: &Grid) -> (r: Self)
        requires
            grid.wf(),
        ensures
            r.spec_root() == 0,
            r.spec_arena().len() == grid.spec_grid().len() + 1,
            forall|c: char| #[trigger] r.spec_arena()[0].spec_get(c)
                == bucket_opt(root_bucket(grid.spec_grid(), c, grid.spec_grid().len() as int)),
            forall|x: int, y: int, c: char|
                0 <= x < grid.spec_size() && 0 <= y < grid.spec_size()
                    ==> #[trigger] r.spec_arena()[x * grid.spec_size() + y + 1].spec_get(c)
                        == bucket_opt(neighbor_bucket(
                            grid.spec_grid(),
                            grid.spec_size(),
                            grid_kernel_neighbors(grid.spec_kernel(), grid.spec_size(), (x, y)),
                            c,
                            grid_kernel_neighbors(grid.spec_kernel(), grid.spec_size(), (x, y)).len() as int,
                        )),
    {
        let ghost g = grid.spec_grid();
        let ghost sz = grid.spec_size();
        let root: usize = 0;
        let mut arena: Vec<GridNode> = Vec::new();
        arena.push(GridNode::empty());
        let size = grid.size();
        let total = grid.max_word_len();
        proof {
            assert(sz * sz == g.len());
            assert(total == g.len());
        }

        let mut x: usize = 0;
        while x < size
            invariant
                grid.wf(),
                g == grid.spec_grid(),
                sz == grid.spec_size(),
                size as int == sz,
                total == g.len(),
                x <= size,
                root == 0,
                arena@.len() == x * size + 1,
                forall|c: char| #[trigger] arena@[0].spec_get(c)
                    == bucket_opt(root_bucket(g, c, (x * size) as int)),
                forall|m: int, c: char| 1 <= m < arena@.len()
                    ==> (#[trigger] arena@[m].spec_get(c)) is None,
            decreases size - x,
        {
            let mut y: usize = 0;
            while y < size
                invariant
                    grid.wf(),
                    g == grid.spec_grid(),
                    sz == grid.spec_size(),
                    size as int == sz,
                    total == g.len(),
                    x < size,
                    y <= size,
                    root == 0,
                    arena@.len() == x * size + y + 1,
                    forall|c: char| #[trigger] arena@[0].spec_get(c)
                        == bucket_opt(root_bucket(g, c, (x * size + y) as int)),
                    forall|m: int, c: char| 1 <= m < arena@.len()
                        ==> (#[trigger] arena@[m].spec_get(c)) is None,
                decreases size - y,
            {
                proof {
                    assert((x as int) * sz + (y as int) < sz * sz) by (nonlinear_arith)
                        requires 0 <= (x as int) < sz, 0 <= (y as int) < sz;
                    assert((x as int) * (size as int) + (y as int) < total as int);
                }
                let i = x * size + y;
                let ch = grid.at((x, y));
                arena.push(GridNode::empty());
                let ghost before = arena@;
                arena[root].add_child(ch, i + 1);
                proof {
                    assert(g[i as int] == ch);
                    assert forall|c: char| #[trigger] arena@[0].spec_get(c)
                        == bucket_opt(root_bucket(g, c, i as int + 1)) by {
                        assert(root_bucket(g, c, i as int + 1) == root_bucket(g, c, i as int)
                            + (if g[i as int] == c { seq![(i + 1) as usize] } else { Seq::empty() }));
                        if c == ch {
                            match bucket_opt(root_bucket(g, c, i as int)) {
                                Some(l) => {
                                    assert(root_bucket(g, c, i as int + 1)
                                        =~= l.push((i + 1) as usize));
                                }
                                None => {
                                    assert(root_bucket(g, c, i as int + 1)
                                        =~= seq![(i + 1) as usize]);
                                }
                            }
                        } else {
                            assert(root_bucket(g, c, i as int + 1)
                                =~= root_bucket(g, c, i as int));
                            assert(arena@[0].spec_get(c) == before[0].spec_get(c));
                        }
                    }
                    assert(forall|m: int, c: char| 1 <= m < arena@.len()
                        ==> (#[trigger] arena@[m].spec_get(c)) is None);
                }
                y = y + 1;
            }
            x = x + 1;
            proof {
                assert((x - 1) * size + size == x * size) by (nonlinear_arith);
            }
        }
        proof {
            assert((size as int) * (size as int) == sz * sz);
            assert(arena@.len() == g.len() + 1);
        }

        // connect each cell node to its neighbors
        let mut x: usize = 0;
        while x < size
            invariant
                grid.wf(),
                g == grid.spec_grid(),
                sz == grid.spec_size(),
                size as int == sz,
                total == g.len(),
                x <= size,
                root == 0,
                arena@.len() == g.len() + 1,
                forall|c: char| #[trigger] arena@[0].spec_get(c)
                    == bucket_opt(root_bucket(g, c, g.len() as int)),
                forall|xx: int, yy: int, c: char|
                    0 <= xx < sz && 0 <= yy < sz && xx * sz + yy < (x as int) * sz
                        ==> #[trigger] arena@[xx * sz + yy + 1].spec_get(c)
                            == bucket_opt(neighbor_bucket(g, sz,
                                grid_kernel_neighbors(grid.spec_kernel(), sz, (xx, yy)), c,
                                grid_kernel_neighbors(grid.spec_kernel(), sz, (xx, yy)).len() as int)),
                forall|m: int, c: char| 1 + (x as int) * sz <= m < arena@.len()
                    ==> (#[trigger] arena@[m].spec_get(c)) is None,
            decreases size - x,
        {
            let mut y: usize = 0;
            proof {
                assert((x as int) * sz + 0 == (x as int) * sz);
            }
            while y < size
                invariant
                    grid.wf(),
                    g == grid.spec_grid(),
                    sz == grid.spec_size(),
                    size as int == sz,
                    total == g.len(),
                    x < size,
                    y <= size,
                    root == 0,
                    arena@.len() == g.len() + 1,
                    forall|c: char| #[trigger] arena@[0].spec_get(c)
                        == bucket_opt(root_bucket(g, c, g.len() as int)),
                    forall|xx: int, yy: int, c: char|
                        0 <= xx < sz && 0 <= yy < sz && xx * sz + yy < (x as int) * sz + (y as int)
                            ==> #[trigger] arena@[xx * sz + yy + 1].spec_get(c)
                                == bucket_opt(neighbor_bucket(g, sz,
                                    grid_kernel_neighbors(grid.spec_kernel(), sz, (xx, yy)), c,
                                    grid_kernel_neighbors(grid.spec_kernel(), sz, (xx, yy)).len() as int)),
                    forall|m: int, c: char| 1 + (x as int) * sz + (y as int) <= m < arena@.len()
                        ==> (#[trigger] arena@[m].spec_get(c)) is None,
                decreases size - y,
            {
                proof {
                    assert((x as int) * sz + (y as int) < sz * sz) by (nonlinear_arith)
                        requires 0 <= (x as int) < sz, 0 <= (y as int) < sz;
                    assert((x as int) * (size as int) + (y as int) < total as int);
                }
                let i = x * size + y;
                let neighbors = grid.neighbors((x, y));
                let ghost nbrs = grid_kernel_neighbors(grid.spec_kernel(), sz, (x as int, y as int));
                let ghost snap = arena@;
                let nn = neighbors.len();
                let mut j: usize = 0;
                proof {
                    assert(forall|c: char| (#[trigger] arena@[i as int + 1].spec_get(c)) is None);
                }
                while j < nn
                    invariant
                        grid.wf(),
                        g == grid.spec_grid(),
                        sz == grid.spec_size(),
                        size as int == sz,
                        total == g.len(),
                        x < size,
                        y < size,
                        i == x * size + y,
                        i as int + 1 < arena@.len(),
                        root == 0,
                        arena@.len() == snap.len(),
                        snap.len() == g.len() + 1,
                        nn == neighbors@.len(),
                        nbrs == grid_kernel_neighbors(grid.spec_kernel(), sz, (x as int, y as int)),
                        nbrs.len() == nn,
                        forall|k: int| 0 <= k < nn
                            ==> ((#[trigger] neighbors@[k]).0 as int, neighbors@[k].1 as int)
                                == nbrs[k],
                        forall|k: int| 0 <= k < nn
                            ==> ((#[trigger] neighbors@[k]).0 as int) < sz
                                && ((neighbors@[k]).1 as int) < sz,
                        j <= nn,
                        forall|c: char| #[trigger] arena@[i as int + 1].spec_get(c)
                            == bucket_opt(neighbor_bucket(g, sz, nbrs, c, j as int)),
                        forall|m: int, c: char| 0 <= m < arena@.len() && m != i as int + 1
                            ==> #[trigger] arena@[m].spec_get(c) == snap[m].spec_get(c),
                    decreases nn - j,
                {
                    let nb = neighbors[j];
                    let nx = nb.0;
                    let ny = nb.1;
                    proof {
                        assert(nbrs[j as int] == (nx as int, ny as int));
                        assert((nx as int) * sz + (ny as int) < sz * sz) by (nonlinear_arith)
                            requires 0 <= (nx as int) < sz, 0 <= (ny as int) < sz;
                    }
                    proof {
                        assert((nx as int) * (size as int) + (ny as int) < total as int);
                    }
                    let neighbor_i = nx * size + ny;
                    let neighbor_ch = grid.at((nx, ny));
                    let ghost before = arena@;
                    arena[i + 1].add_child(neighbor_ch, neighbor_i + 1);
                    proof {
                        assert(g[neighbor_i as int] == neighbor_ch);
                        assert(forall|m: int, c: char| 0 <= m < arena@.len() && m != i as int + 1
                            ==> #[trigger] arena@[m].spec_get(c) == before[m].spec_get(c));
                        assert forall|c: char| #[trigger] arena@[i as int + 1].spec_get(c)
                            == bucket_opt(neighbor_bucket(g, sz, nbrs, c, j as int + 1)) by {
                            let bj = neighbor_bucket(g, sz, nbrs, c, j as int);
                            assert(neighbor_bucket(g, sz, nbrs, c, j as int + 1) == bj
                                + (if g[nbrs[j as int].0 * sz + nbrs[j as int].1] == c {
                                    seq![(nbrs[j as int].0 * sz + nbrs[j as int].1 + 1) as usize]
                                } else {
                                    Seq::empty()
                                }));
                            assert(nbrs[j as int].0 * sz + nbrs[j as int].1 == neighbor_i as int);
                            if c == neighbor_ch {
                                match bucket_opt(bj) {
                                    Some(l) => {
                                        assert(neighbor_bucket(g, sz, nbrs, c, j as int + 1)
                                            =~= l.push((neighbor_i + 1) as usize));
                                    }
                                    None => {
                                        assert(neighbor_bucket(g, sz, nbrs, c, j as int + 1)
                                            =~= seq![(neighbor_i + 1) as usize]);
                                    }
                                }
                            } else {
                                assert(neighbor_bucket(g, sz, nbrs, c, j as int + 1) =~= bj);
                                assert(arena@[i as int + 1].spec_get(c)
                                    == before[i as int + 1].spec_get(c));
                            }
                        }
                    }
                    j = j + 1;
                }
                proof {
                    // the processed cell is complete; everything else is as before
                    assert forall|xx: int, yy: int, c: char|
                        0 <= xx < sz && 0 <= yy < sz
                            && xx * sz + yy < (x as int) * sz + (y as int) + 1
                    implies #[trigger] arena@[xx * sz + yy + 1].spec_get(c)
                        == bucket_opt(neighbor_bucket(g, sz,
                            grid_kernel_neighbors(grid.spec_kernel(), sz, (xx, yy)), c,
                            grid_kernel_neighbors(grid.spec_kernel(), sz, (xx, yy)).len() as int)) by {
                        if xx == x as int && yy == y as int {
                            assert(arena@[i as int + 1].spec_get(c)
                                == bucket_opt(neighbor_bucket(g, sz, nbrs, c, nn as int)));
                        } else {
                            assert(xx * sz + yy != i as int) by (nonlinear_arith)
                                requires 0 <= xx < sz, 0 <= yy < sz, 0 <= (x as int) < sz,
                                    0 <= (y as int) < sz, i as int == (x as int) * sz + (y as int),
                                    !(xx == x as int && yy == y as int);
                            assert(arena@[xx * sz + yy + 1].spec_get(c)
                                == snap[xx * sz + yy + 1].spec_get(c));
                        }
                    }
                    assert(forall|c: char| #[trigger] arena@[0].spec_get(c)
                        == snap[0].spec_get(c));
                    assert forall|m: int, c: char| 1 + (x as int) * sz + (y as int) + 1 <= m < arena@.len()
                    implies (#[trigger] arena@[m].spec_get(c)) is None by {
                        assert(arena@[m].spec_get(c) == snap[m].spec_get(c));
                    }
                }
                y = y + 1;
            }
            x = x + 1;
            proof {
                assert(((x as int) - 1) * sz + sz == (x as int) * sz) by (nonlinear_arith);
            }
        }

        proof {
            assert forall|xx: int, yy: int, c: char|
                0 <= xx < sz && 0 <= yy < sz
            implies #[trigger] arena@[xx * sz + yy + 1].spec_get(c)
                == bucket_opt(neighbor_bucket(g, sz,
                    grid_kernel_neighbors(grid.spec_kernel(), sz, (xx, yy)), c,
                    grid_kernel_neighbors(grid.spec_kernel(), sz, (xx, yy)).len() as int)) by {
                assert(xx * sz + yy < sz * sz) by (nonlinear_arith)
                    requires 0 <= xx < sz, 0 <= yy < sz;
                assert((size as int) * sz == sz * sz);
            }
        }
        GridGraph { root, arena }
    }

    /// Gets root node.
    pub fn root(&self) -> (r: usize)
        ensures
            r == self.spec_root(),
    {
        self.root
    }

    /// Gets next grid nodes for supplied grid matching char.
    pub fn get_children_matching_ch(&mut self, node: usize, ch: char) -> (r: Option<&Vec<usize>>)
        ensures
            *final(self) == *old(self),
            (node as int) >= old(self).spec_arena().len() ==> r is None,
            (node as int) < old(self).spec_arena().len() ==> (match r {
                Some(v) => old(self).spec_arena()[node as int].spec_get(ch) == Some(v@),
                None => old(self).spec_arena()[node as int].spec_get(ch) is None,
            }),
    {
        if node >= self.arena.len() {
            return None;
        }
        let found = self.arena[node].find_bucket(ch);
        found
    }
}

} // verus!
