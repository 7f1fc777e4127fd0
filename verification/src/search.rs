//! Boggle board search: a backtracking traversal that walks the board and the
//! prefix tree together, pruning every path that stops being a word prefix.

use vstd::prelude::*;
use vstd::set_lib::{lemma_int_range, set_int_range};
use crate::board::{Board, BoardCell};
use crate::charset::Charset;
use crate::node::PrefixNode;
use crate::trie::{child_at, lemma_walk_push, walk_from, PrefixNodeRef, Prefixes};

verus! {

/// A position packed into one integer, row by row.
pub open spec fn pack_pos<B: Board>(board: &B, x: int, y: int) -> int {
    y * board.spec_size() + x
}

/// The packed positions of a visited list.
pub open spec fn packed_set(s: Seq<usize>) -> Set<int> {
    Set::new(|q: int| exists|i: int| 0 <= i < s.len() && (#[trigger] s[i]) as int == q)
}

/// How many board positions are not in `visited` yet: the searcher's
/// termination measure.
pub open spec fn search_fuel<B: Board>(board: &B, visited: Set<int>) -> nat {
    set_int_range(0, board.spec_size() * board.spec_size()).difference(visited).len()
}

/// The charset codes spelled out by a position sequence.
pub open spec fn path_codes<B: Board>(board: &B, ps: Seq<(u16, u16)>) -> Seq<u8> {
    Seq::new(ps.len(), |i: int| board.spec_char_at(ps[i].0 as int, ps[i].1 as int))
}

/// Every position is on the board and each one is adjacent (in the board's
/// configured sense) to its predecessor.
pub open spec fn is_board_path<B: Board>(board: &B, ps: Seq<(u16, u16)>) -> bool {
    &&& forall|i: int| 0 <= i < ps.len()
        ==> ((#[trigger] ps[i]).0 as int) < board.spec_size()
            && ((ps[i]).1 as int) < board.spec_size()
    &&& forall|i: int| 1 <= i < ps.len()
        ==> board.spec_neighbors(ps[i - 1].0, ps[i - 1].1).contains(#[trigger] ps[i])
}

/// No cell is used twice.
pub open spec fn distinct_positions(ps: Seq<(u16, u16)>) -> bool {
    forall|i: int, j: int| 0 <= i < j < ps.len() ==> ps[i] != ps[j]
}

/// The word identifier `w` is traced by the simple path `ps`: the path is
/// connected in the board's adjacency sense, repeats no cell, and its cells'
/// codes walk the prefix tree to a leaf carrying `w`.
pub open spec fn word_path_valid<B: Board, C: Charset>(
    board: &B,
    t: Prefixes<C>,
    ps: Seq<(u16, u16)>,
    w: usize,
) -> bool {
    &&& ps.len() > 0
    &&& is_board_path(board, ps)
    &&& distinct_positions(ps)
    &&& t.word_at(path_codes(board, ps)) == Some(w)
}

/// The words emitted by one visit of position `(x, y)` with trie node `node`
/// about to consume the position's character, then by the recursive visits of
/// the unvisited neighbors, in kernel order.
pub open spec fn spec_search_at<B: Board, C: Charset>(
    board: &B,
    arena: Seq<PrefixNode<C>>,
    node: int,
    x: u16,
    y: u16,
    visited: Set<int>,
) -> Seq<usize>
    decreases search_fuel(board, visited), board.spec_neighbors(x, y).len() + 1,
{
    if !((x as int) < board.spec_size() && (y as int) < board.spec_size()) {
        Seq::empty()
    } else {
        match child_at(arena, node, board.spec_char_at(x as int, y as int)) {
            None => Seq::empty(),
            Some(c) => {
                (match arena[c].spec_word() {
                    Some(w) => seq![w],
                    None => Seq::empty(),
                }) + spec_search_nbrs(board, arena, c, board.spec_neighbors(x, y), 0, visited)
            }
        }
    }
}

/// The words emitted by the neighbor visits from index `j` on.
pub open spec fn spec_search_nbrs<B: Board, C: Charset>(
    board: &B,
    arena: Seq<PrefixNode<C>>,
    node: int,
    nbrs: Seq<(u16, u16)>,
    j: int,
    visited: Set<int>,
) -> Seq<usize>
    decreases search_fuel(board, visited), nbrs.len() - j,
    via spec_search_nbrs_dec::<B, C>
{
    if j < 0 || j >= nbrs.len() {
        Seq::empty()
    } else {
        let nx = nbrs[j].0;
        let ny = nbrs[j].1;
        let p = pack_pos(board, nx as int, ny as int);
        let cur = if (nx as int) < board.spec_size() && (ny as int) < board.spec_size()
            && !visited.contains(p) {
            spec_search_at(board, arena, node, nx, ny, visited.insert(p))
        } else {
            Seq::empty()
        };
        cur + spec_search_nbrs(board, arena, node, nbrs, j + 1, visited)
    }
}

#[via_fn]
proof fn spec_search_nbrs_dec<B: Board, C: Charset>(
    board: &B,
    arena: Seq<PrefixNode<C>>,
    node: int,
    nbrs: Seq<(u16, u16)>,
    j: int,
    visited: Set<int>,
) {
    if 0 <= j < nbrs.len() {
        let nx = nbrs[j].0;
        let ny = nbrs[j].1;
        let p = pack_pos(board, nx as int, ny as int);
        if (nx as int) < board.spec_size() && (ny as int) < board.spec_size()
            && !visited.contains(p) {
            lemma_fuel_decreases(board, visited, nx as int, ny as int);
        }
    }
}

/// Inserting an unvisited in-bounds position into the visited set strictly
/// shrinks the fuel.
pub proof fn lemma_fuel_decreases<B: Board>(board: &B, visited: Set<int>, x: int, y: int)
    requires
        0 <= x < board.spec_size(),
        0 <= y < board.spec_size(),
        !visited.contains(pack_pos(board, x, y)),
    ensures
        search_fuel(board, visited.insert(pack_pos(board, x, y))) < search_fuel(board, visited),
{
    let size = board.spec_size();
    let p = pack_pos(board, x, y);
    lemma_int_range(0, size * size);
    assert(0 <= y * size + x < size * size) by (nonlinear_arith)
        requires 0 <= x < size, 0 <= y < size;
    assert(p == y * size + x);
    set_int_range(0, size * size).lemma_set_insert_diff_decreases(visited, p);
}

/// The words found from every start position, rows first: the remaining part
/// of the row-major sweep that stands at column `x` of row `y`.
pub open spec fn spec_search_row<B: Board, C: Charset>(
    board: &B,
    arena: Seq<PrefixNode<C>>,
    root: int,
    y: int,
    x: int,
) -> Seq<usize>
    decreases board.spec_size() - y, board.spec_size() - x,
{
    if !(0 <= y < board.spec_size()) || !(0 <= x <= board.spec_size()) {
        Seq::empty()
    } else if x == board.spec_size() {
        spec_search_row(board, arena, root, y + 1, 0)
    } else {
        spec_search_at(
            board,
            arena,
            root,
            x as u16,
            y as u16,
            Set::empty().insert(pack_pos(board, x, y)),
        ) + spec_search_row(board, arena, root, y, x + 1)
    }
}

/// Everything `find_words` appends: one independent search per start cell in
/// row-major order, or nothing at all when the index is empty.
pub open spec fn spec_find_words<B: Board, C: Charset>(board: &B, t: Prefixes<C>) -> Seq<usize> {
    match t.spec_root_index() {
        Some(r) => spec_search_row(board, t.spec_arena(), r as int, 0, 0),
        None => Seq::empty(),
    }
}

/// One call of `find_words` determines its output exactly: a second call on
/// the same board and index appends the same identifiers in the same order.
pub proof fn lemma_find_words_deterministic<B: Board, C: Charset>(
    board: &B,
    prefixes: &Prefixes<C>,
    r1: Seq<usize>,
    r2: Seq<usize>,
)
    requires
        r1 == spec_find_words(board, *prefixes),
        r2 == spec_find_words(board, *prefixes),
    ensures
        r1 == r2,
{
}

/// Every word traced by a path against an index built by bulk insertion is a
/// surviving dictionary entry, and the path's cell codes spell exactly the
/// normalized form of that entry.
pub proof fn lemma_found_word_traces_entry<B: Board, C: Charset>(
    board: &B,
    t: &Prefixes<C>,
    ws: Seq<Seq<char>>,
    max: int,
    ps: Seq<(u16, u16)>,
    w: usize,
)
    requires
        ws.len() <= usize::MAX as int,
        forall|s: Seq<u8>| #[trigger] t.word_at(s)
            == crate::trie::expected_word_at::<C>(ws, ws.len() as int, max, s),
        word_path_valid(board, *t, ps, w),
    ensures
        (w as int) < ws.len(),
        crate::trie::word_kept::<C>(ws, max, w as int),
        path_codes(board, ps)
            == crate::charset::codes_of::<C>(C::spec_normalize(ws[w as int])),
{
    let s = path_codes(board, ps);
    assert(t.word_at(s) == Some(w));
    crate::trie::lemma_expected_word_codes::<C>(ws, ws.len() as int, max, s);
}

/// Packing is injective on in-bounds positions: two distinct cells never share
/// a packed index.
proof fn lemma_pack_injective<B: Board>(board: &B, x1: int, y1: int, x2: int, y2: int)
    requires
        0 <= x1 < board.spec_size(),
        0 <= y1 < board.spec_size(),
        0 <= x2 < board.spec_size(),
        0 <= y2 < board.spec_size(),
        pack_pos(board, x1, y1) == pack_pos(board, x2, y2),
    ensures
        x1 == x2 && y1 == y2,
{
    let size = board.spec_size();
    assert(x1 == x2 && y1 == y2) by (nonlinear_arith)
        requires 0 <= x1 < size, 0 <= y1 < size, 0 <= x2 < size, 0 <= y2 < size,
            y1 * size + x1 == y2 * size + x2;
}

/// Whatever one neighbor's visit emits appears in the emissions of the whole
/// neighbor sweep.
proof fn lemma_search_nbrs_complete<B: Board, C: Charset>(
    board: &B,
    arena: Seq<PrefixNode<C>>,
    node: int,
    nbrs: Seq<(u16, u16)>,
    j0: int,
    j: int,
    visited: Set<int>,
    w: usize,
)
    requires
        0 <= j0 <= j < nbrs.len(),
        (nbrs[j].0 as int) < board.spec_size(),
        (nbrs[j].1 as int) < board.spec_size(),
        !visited.contains(pack_pos(board, nbrs[j].0 as int, nbrs[j].1 as int)),
        spec_search_at(
            board,
            arena,
            node,
            nbrs[j].0,
            nbrs[j].1,
            visited.insert(pack_pos(board, nbrs[j].0 as int, nbrs[j].1 as int)),
        ).contains(w),
    ensures
        spec_search_nbrs(board, arena, node, nbrs, j0, visited).contains(w),
    decreases j - j0,
{
    let nx = nbrs[j0].0;
    let ny = nbrs[j0].1;
    let p = pack_pos(board, nx as int, ny as int);
    let cur = if (nx as int) < board.spec_size() && (ny as int) < board.spec_size()
        && !visited.contains(p) {
        spec_search_at(board, arena, node, nx, ny, visited.insert(p))
    } else {
        Seq::<usize>::empty()
    };
    let rest = spec_search_nbrs(board, arena, node, nbrs, j0 + 1, visited);
    let whole = spec_search_nbrs(board, arena, node, nbrs, j0, visited);
    assert(whole == cur + rest);
    if j0 == j {
        let k = choose|k: int| 0 <= k < cur.len() && cur[k] == w;
        assert(whole[k] == w);
    } else {
        lemma_search_nbrs_complete(board, arena, node, nbrs, j0 + 1, j, visited, w);
        let k = choose|k: int| 0 <= k < rest.len() && rest[k] == w;
        assert(whole[cur.len() + k] == w);
    }
}

/// The visit of the first cell of a path emits the path's word: when the
/// path's positions are fresh, pairwise distinct, adjacent in turn, and their
/// codes walk the trie from `node` to a leaf carrying `w`, the backtracking
/// search starting at the path's head finds `w`.
proof fn lemma_search_at_complete<B: Board, C: Charset>(
    board: &B,
    arena: Seq<PrefixNode<C>>,
    node: int,
    qs: Seq<(u16, u16)>,
    visited: Set<int>,
    w: usize,
)
    requires
        qs.len() >= 1,
        forall|i: int| 0 <= i < qs.len()
            ==> ((#[trigger] qs[i]).0 as int) < board.spec_size()
                && ((qs[i]).1 as int) < board.spec_size(),
        forall|i: int| 1 <= i < qs.len()
            ==> board.spec_neighbors(qs[i - 1].0, qs[i - 1].1).contains(#[trigger] qs[i]),
        distinct_positions(qs),
        forall|i: int| 1 <= i < qs.len()
            ==> !visited.contains(pack_pos(board, (#[trigger] qs[i]).0 as int, qs[i].1 as int)),
        walk_from(arena, node, path_codes(board, qs)) matches Some(m)
            && 0 <= m < arena.len() && arena[m].spec_word() == Some(w),
    ensures
        spec_search_at(board, arena, node, qs[0].0, qs[0].1, visited).contains(w),
    decreases qs.len(),
{
    let x = qs[0].0;
    let y = qs[0].1;
    let codes = path_codes(board, qs);
    let ch = board.spec_char_at(x as int, y as int);
    assert(codes[0] == ch);
    let m = walk_from(arena, node, codes).unwrap();
    // the walk's first step exists, so the search descends to the same child
    assert(0 <= node < arena.len() && arena[node].spec_child(ch) is Some);
    let c = arena[node].spec_child(ch).unwrap() as int;
    assert(child_at(arena, node, ch) == Some(c));
    assert(walk_from(arena, c, codes.skip(1)) == Some(m));
    let head = match arena[c].spec_word() {
        Some(ww) => seq![ww],
        None => Seq::<usize>::empty(),
    };
    let nbrs_part = spec_search_nbrs(board, arena, c, board.spec_neighbors(x, y), 0, visited);
    let whole = spec_search_at(board, arena, node, x, y, visited);
    assert(whole == head + nbrs_part);
    if qs.len() == 1 {
        assert(codes.skip(1) =~= Seq::<u8>::empty());
        assert(m == c);
        assert(head == seq![w]);
        assert(whole[0] == w);
    } else {
        let qs2 = qs.skip(1);
        let nxt = qs[1];
        let p = pack_pos(board, nxt.0 as int, nxt.1 as int);
        assert(board.spec_neighbors(x, y).contains(nxt));
        let j = choose|j: int| 0 <= j < board.spec_neighbors(x, y).len()
            && board.spec_neighbors(x, y)[j] == nxt;
        // the suffix meets the same conditions one step down
        assert(qs2[0] == nxt);
        assert(forall|i: int| 0 <= i < qs2.len() ==> #[trigger] qs2[i] == qs[i + 1]);
        assert(distinct_positions(qs2));
        assert forall|i: int| 1 <= i < qs2.len()
        implies !visited.insert(p).contains(
            pack_pos(board, (#[trigger] qs2[i]).0 as int, qs2[i].1 as int),
        ) by {
            assert(qs2[i] == qs[i + 1]);
            assert(!visited.contains(pack_pos(board, qs[i + 1].0 as int, qs[i + 1].1 as int)));
            if pack_pos(board, qs[i + 1].0 as int, qs[i + 1].1 as int) == p {
                lemma_pack_injective(
                    board,
                    qs[i + 1].0 as int,
                    qs[i + 1].1 as int,
                    nxt.0 as int,
                    nxt.1 as int,
                );
                assert(qs[i + 1] == qs[1]);
            }
        }
        assert(path_codes(board, qs2) =~= codes.skip(1));
        lemma_search_at_complete(board, arena, c, qs2, visited.insert(p), w);
        lemma_search_nbrs_complete(
            board,
            arena,
            c,
            board.spec_neighbors(x, y),
            0,
            j,
            visited,
            w,
        );
        let k = choose|k: int| 0 <= k < nbrs_part.len() && nbrs_part[k] == w;
        assert(whole[head.len() + k] == w);
    }
}

/// Whatever the visit of cell `(x, y)` emits appears in the row-major sweep
/// that still has that cell ahead of it.
proof fn lemma_search_row_complete<B: Board, C: Charset>(
    board: &B,
    arena: Seq<PrefixNode<C>>,
    root: int,
    y0: int,
    x0: int,
    x: int,
    y: int,
    w: usize,
)
    requires
        0 <= x < board.spec_size(),
        0 <= y < board.spec_size(),
        x < 0x10000,
        y < 0x10000,
        0 <= y0 <= y,
        0 <= x0 <= board.spec_size(),
        y0 == y ==> x0 <= x,
        spec_search_at(
            board,
            arena,
            root,
            x as u16,
            y as u16,
            Set::empty().insert(pack_pos(board, x, y)),
        ).contains(w),
    ensures
        spec_search_row(board, arena, root, y0, x0).contains(w),
    decreases board.spec_size() - y0, board.spec_size() - x0,
{
    let size = board.spec_size();
    if x0 == size {
        lemma_search_row_complete(board, arena, root, y0 + 1, 0, x, y, w);
    } else {
        let cur = spec_search_at(
            board,
            arena,
            root,
            x0 as u16,
            y0 as u16,
            Set::empty().insert(pack_pos(board, x0, y0)),
        );
        let rest = spec_search_row(board, arena, root, y0, x0 + 1);
        let whole = spec_search_row(board, arena, root, y0, x0);
        assert(whole == cur + rest);
        if y0 == y && x0 == x {
            let k = choose|k: int| 0 <= k < cur.len() && cur[k] == w;
            assert(whole[k] == w);
        } else {
            lemma_search_row_complete(board, arena, root, y0, x0 + 1, x, y, w);
            let k = choose|k: int| 0 <= k < rest.len() && rest[k] == w;
            assert(whole[cur.len() + k] == w);
        }
    }
}

/// The search is complete: every word identifier traced by some simple path of
/// adjacent cells appears in what `find_words` emits, at least once.
pub proof fn lemma_find_words_complete<B: Board, C: Charset>(
    board: &B,
    t: &Prefixes<C>,
    ps: Seq<(u16, u16)>,
    w: usize,
)
    requires
        t.wf(),
        word_path_valid(board, *t, ps, w),
    ensures
        spec_find_words(board, *t).contains(w),
{
    let rt = t.spec_root_index().unwrap() as int;
    let arena = t.spec_arena();
    let x = ps[0].0;
    let y = ps[0].1;
    let visited = Set::empty().insert(pack_pos(board, x as int, y as int));
    assert forall|i: int| 1 <= i < ps.len()
    implies !visited.contains(
        pack_pos(board, (#[trigger] ps[i]).0 as int, ps[i].1 as int),
    ) by {
        if pack_pos(board, ps[i].0 as int, ps[i].1 as int)
            == pack_pos(board, x as int, y as int) {
            lemma_pack_injective(board, ps[i].0 as int, ps[i].1 as int, x as int, y as int);
            assert(ps[i] == ps[0]);
        }
    }
    lemma_search_at_complete(board, arena, rt, ps, visited, w);
    assert((x as int) as u16 == x && (y as int) as u16 == y);
    lemma_search_row_complete(board, arena, rt, 0, 0, x as int, y as int, w);
}

/// On a one-cell board every neighbor visit is a no-op: the only in-bounds
/// position is already visited.
proof fn lemma_search_nbrs_one_cell<B: Board, C: Charset>(
    board: &B,
    arena: Seq<PrefixNode<C>>,
    node: int,
    nbrs: Seq<(u16, u16)>,
    j: int,
    visited: Set<int>,
)
    requires
        board.spec_size() == 1,
        visited.contains(0),
    ensures
        spec_search_nbrs(board, arena, node, nbrs, j, visited) == Seq::<usize>::empty(),
    decreases nbrs.len() - j,
{
    if 0 <= j < nbrs.len() {
        let nx = nbrs[j].0;
        let ny = nbrs[j].1;
        if (nx as int) < 1 && (ny as int) < 1 {
            assert(nx == 0 && ny == 0);
            assert(pack_pos(board, nx as int, ny as int) == 0);
        }
        lemma_search_nbrs_one_cell(board, arena, node, nbrs, j + 1, visited);
        assert(Seq::<usize>::empty() + Seq::<usize>::empty() =~= Seq::<usize>::empty());
    }
}

/// A one-cell board can never trace a word against an index that holds only
/// words of three characters or more: the single path has length one.
pub proof fn lemma_single_cell_board_finds_nothing<B: Board, C: Charset>(board: &B, t: &Prefixes<C>)
    requires
        board.spec_size() == 1,
        t.wf(),
        forall|s: Seq<u8>| (#[trigger] t.word_at(s)) is Some ==> s.len() >= 3,
    ensures
        spec_find_words(board, *t) == Seq::<usize>::empty(),
{
    match t.spec_root_index() {
        None => {}
        Some(r) => {
            let arena = t.spec_arena();
            let rt = r as int;
            // the sweep visits only (0, 0)
            assert(spec_find_words(board, *t) == spec_search_row(board, arena, rt, 0, 0));
            assert(spec_search_row(board, arena, rt, 0, 1) == spec_search_row(board, arena, rt, 1, 0));
            assert(spec_search_row(board, arena, rt, 1, 0) =~= Seq::<usize>::empty());
            let visited = Set::empty().insert(pack_pos(board, 0, 0));
            assert(pack_pos(board, 0, 0) == 0);
            assert(spec_search_row(board, arena, rt, 0, 0)
                == spec_search_at(board, arena, rt, 0u16, 0u16, visited)
                    + spec_search_row(board, arena, rt, 0, 1));
            let ch = board.spec_char_at(0, 0);
            match child_at(arena, rt, ch) {
                None => {
                    assert(spec_search_at(board, arena, rt, 0u16, 0u16, visited)
                        =~= Seq::<usize>::empty());
                }
                Some(c) => {
                    // the node one step down the trie cannot be a leaf
                    assert(Seq::<u8>::empty().push(ch) =~= seq![ch]);
                    lemma_walk_push(arena, rt, Seq::empty(), ch);
                    assert(walk_from(arena, rt, seq![ch]) == Some(c));
                    assert(0 <= c < arena.len());
                    assert(t.word_at(seq![ch]) == arena[c].spec_word());
                    assert(arena[c].spec_word() is None);
                    lemma_search_nbrs_one_cell(
                        board,
                        arena,
                        c,
                        board.spec_neighbors(0u16, 0u16),
                        0,
                        visited,
                    );
                    assert(spec_search_at(board, arena, rt, 0u16, 0u16, visited)
                        =~= Seq::<usize>::empty());
                }
            }
            assert(spec_find_words(board, *t) =~= Seq::<usize>::empty());
        }
    }
}

/// Does the visited list hold this packed position?
fn path_contains(path: &Vec<usize>, p: usize) -> (r: bool)
    ensures
        r == packed_set(path@).contains(p as int),
{
    let n = path.len();
    let mut i: usize = 0;
    while i < n
        invariant
            n == path@.len(),
            i <= n,
            forall|t: int| 0 <= t < i ==> (#[trigger] path@[t]) != p,
        decreases n - i,
    {
        if path[i] == p {
            return true;
        }
        i = i + 1;
    }
    proof {
        assert(!packed_set(path@).contains(p as int));
    }
    false
}

/// Some simple path on the board traces the word identifier `w`.
pub open spec fn found_word<B: Board, C: Charset>(board: &B, t: Prefixes<C>, w: usize) -> bool {
    exists|ps: Seq<(u16, u16)>| word_path_valid(board, t, ps, w)
}

/// Some simple path that starts with the positions `pvs` traces the word
/// identifier `w`.
pub open spec fn extends_to_word<B: Board, C: Charset>(
    board: &B,
    t: Prefixes<C>,
    pvs: Seq<(u16, u16)>,
    w: usize,
) -> bool {
    exists|ps: Seq<(u16, u16)>|
        ps.len() >= pvs.len() && ps.take(pvs.len() as int) == pvs && word_path_valid(board, t, ps, w)
}

/// A path extending one more position also extends the shorter prefix.
pub proof fn lemma_extends_shrink<B: Board, C: Charset>(
    board: &B,
    t: Prefixes<C>,
    pvs: Seq<(u16, u16)>,
    q: (u16, u16),
    w: usize,
)
    requires
        extends_to_word(board, t, pvs.push(q), w),
    ensures
        extends_to_word(board, t, pvs, w),
{
    let pvs2 = pvs.push(q);
    let ps = choose|ps: Seq<(u16, u16)>|
        ps.len() >= pvs2.len() && ps.take(pvs2.len() as int) == pvs2
            && word_path_valid(board, t, ps, w);
    assert(ps.take(pvs.len() as int) =~= pvs) by {
        assert(forall|i: int| 0 <= i < pvs2.len() ==> ps.take(pvs2.len() as int)[i] == ps[i]);
        assert(forall|i: int| 0 <= i < pvs.len() ==> pvs2[i] == pvs[i]);
    }
    assert(ps.len() >= pvs.len() && ps.take(pvs.len() as int) == pvs
        && word_path_valid(board, t, ps, w));
}

/// A word reached along some extension of a prefix is found along some path.
pub proof fn lemma_extends_found<B: Board, C: Charset>(
    board: &B,
    t: Prefixes<C>,
    pvs: Seq<(u16, u16)>,
    w: usize,
)
    requires
        extends_to_word(board, t, pvs, w),
    ensures
        found_word(board, t, w),
{
    let ps = choose|ps: Seq<(u16, u16)>|
        ps.len() >= pvs.len() && ps.take(pvs.len() as int) == pvs
            && word_path_valid(board, t, ps, w);
    assert(word_path_valid(board, t, ps, w));
}

/// Appending one packed position to a visited list inserts it into the
/// visited set.
pub proof fn lemma_packed_set_push(s: Seq<usize>, p: usize)
    ensures
        packed_set(s.push(p)) == packed_set(s).insert(p as int),
{
    assert forall|q: int| packed_set(s.push(p)).contains(q)
    implies packed_set(s).insert(p as int).contains(q) by {
        let i = choose|i: int| 0 <= i < s.push(p).len() && (#[trigger] s.push(p)[i]) as int == q;
        if i < s.len() {
            assert(s[i] as int == q);
        } else {
            assert(q == p as int);
        }
    }
    assert forall|q: int| packed_set(s).insert(p as int).contains(q)
    implies packed_set(s.push(p)).contains(q) by {
        if q == p as int {
            assert(s.push(p)[s.len() as int] as int == q);
        } else {
            let i = choose|i: int| 0 <= i < s.len() && (#[trigger] s[i]) as int == q;
            assert(s.push(p)[i] as int == q);
        }
    }
    assert(packed_set(s.push(p)) =~= packed_set(s).insert(p as int));
}

/// One visit of the backtracking search: consumes the character at `(x, y)`
/// against `node`, records a word if one ends here, and recurses into every
/// unvisited neighbor with an independent copy of the visited list.
#[verifier::loop_isolation(false)]
fn find_words_at<B: Board, C: Charset>(
    board: &B,
    node: &PrefixNodeRef<'_, C>,
    path: Vec<usize>,
    Ghost(pvs): Ghost<Seq<(u16, u16)>>,
    x: u16,
    y: u16,
    words: &mut Vec<usize>,
) -> (r: Option<()>)
    requires
        board.wf(),
        board.spec_size() <= 0xffff,
        node.spec_prefixes().wf(),
        node.in_arena(),
        node.spec_prefixes().spec_root_index() is Some,
        pvs.len() == path@.len(),
        pvs.len() > 0,
        pvs.last() == (x, y),
        forall|t: int| 0 <= t < pvs.len()
            ==> (#[trigger] path@[t]) as int == pack_pos(board, pvs[t].0 as int, pvs[t].1 as int),
        distinct_positions(pvs),
        is_board_path(board, pvs),
        walk_from(
            node.spec_prefixes().spec_arena(),
            node.spec_prefixes().spec_root_index().unwrap() as int,
            path_codes(board, pvs.take(pvs.len() - 1)),
        ) == Some(node.spec_node() as int),
    ensures
        final(words)@ == old(words)@ + spec_search_at(
            board,
            node.spec_prefixes().spec_arena(),
            node.spec_node() as int,
            x,
            y,
            packed_set(path@),
        ),
        forall|k: int| old(words)@.len() <= k < final(words)@.len()
            ==> extends_to_word(board, node.spec_prefixes(), pvs, #[trigger] final(words)@[k]),
    decreases search_fuel(board, packed_set(path@)),
{
    let ghost t = node.spec_prefixes();
    let ghost arena = t.spec_arena();
    let ghost rt = t.spec_root_index().unwrap() as int;
    let ghost visited = packed_set(path@);
    let ghost nd = node.spec_node() as int;
    let ghost old_words = words@;

    let cell = match board.at(x, y) {
        Some(c) => c,
        None => {
            proof {
                assert(spec_search_at(board, arena, nd, x, y, visited) =~= Seq::<usize>::empty());
                assert(old_words + spec_search_at(board, arena, nd, x, y, visited) =~= words@);
            }
            return None;
        }
    };
    let child = match node.child(cell.ch()) {
        Some(c) => c,
        None => {
            proof {
                assert(child_at(arena, nd, board.spec_char_at(x as int, y as int)) is None);
                assert(spec_search_at(board, arena, nd, x, y, visited) =~= Seq::<usize>::empty());
                assert(old_words + spec_search_at(board, arena, nd, x, y, visited) =~= words@);
            }
            return None;
        }
    };
    let ghost c = child.spec_node() as int;
    let ghost full = spec_search_at(board, arena, nd, x, y, visited);
    let ghost codes_so_far = path_codes(board, pvs.take(pvs.len() - 1));
    proof {
        assert(child_at(arena, nd, board.spec_char_at(x as int, y as int)) == Some(c));
        assert(full == (match arena[c].spec_word() {
            Some(w) => seq![w],
            None => Seq::<usize>::empty(),
        }) + spec_search_nbrs(board, arena, c, board.spec_neighbors(x, y), 0, visited));
        // the full path's codes walk to the child node
        assert(path_codes(board, pvs)
            =~= codes_so_far.push(board.spec_char_at(x as int, y as int)));
        lemma_walk_push(arena, rt, codes_so_far, board.spec_char_at(x as int, y as int));
        assert(walk_from(arena, rt, path_codes(board, pvs)) == Some(c));
    }
    match child.word() {
        Some(w) => {
            words.push(w);
            proof {
                assert(t.word_at(path_codes(board, pvs)) == Some(w));
                assert(pvs.take(pvs.len() as int) =~= pvs);
                assert(word_path_valid(board, t, pvs, w));
                assert(pvs.len() >= pvs.len() && pvs.take(pvs.len() as int) == pvs
                    && word_path_valid(board, t, pvs, w));
                assert(extends_to_word(board, t, pvs, w));
                assert(words@ =~= old_words + seq![w]);
            }
        }
        None => {}
    }
    let size = board.size();
    let nbrs = board.neighbors(x, y);
    let ghost ns = board.spec_neighbors(x, y);
    let n = nbrs.len();
    let mut j: usize = 0;
    proof {
        assert(words@.take(old_words.len() as int) =~= old_words);
        assert(full =~= words@.skip(old_words.len() as int)
            + spec_search_nbrs(board, arena, c, ns, 0, visited));
    }
    while j < n
        invariant
            j <= n,
            words@.len() >= old_words.len(),
            words@.take(old_words.len() as int) == old_words,
            full == words@.skip(old_words.len() as int)
                + spec_search_nbrs(board, arena, c, ns, j as int, visited),
            forall|k: int| old_words.len() <= k < words@.len()
                ==> extends_to_word(board, t, pvs, #[trigger] words@[k]),
        decreases n - j,
    {
        let nb = &nbrs[j];
        let nx = nb.x();
        let ny = nb.y();
        proof {
            assert(ns[j as int] == (nx, ny));
            assert((ny as int) * (size as int) + (nx as int) < (size as int) * (size as int))
                by (nonlinear_arith)
                requires (nx as int) < size as int, (ny as int) < size as int, 0 <= nx as int,
                    0 <= ny as int;
            assert((size as int) * (size as int) <= 0xffff * 0xffff) by (nonlinear_arith)
                requires 0 <= size as int <= 0xffff;
        }
        let packed = (ny as usize) * size + (nx as usize);
        let ghost p = pack_pos(board, nx as int, ny as int);
        let ghost tail_before = spec_search_nbrs(board, arena, c, ns, j as int, visited);
        proof {
            assert(p == packed as int);
            assert(tail_before == (if !visited.contains(p) {
                spec_search_at(board, arena, c, nx, ny, visited.insert(p))
            } else {
                Seq::<usize>::empty()
            }) + spec_search_nbrs(board, arena, c, ns, j as int + 1, visited));
        }
        if !path_contains(&path, packed) {
            let mut new_path = copy_path(&path);
            new_path.push(packed);
            let ghost pvs2 = pvs.push((nx, ny));
            proof {
                lemma_packed_set_push(path@, packed);
                assert(new_path@ == path@.push(packed));
                assert(packed_set(new_path@) == visited.insert(p));
                assert forall|tt: int| 0 <= tt < pvs.len() implies pvs[tt] != (nx, ny) by {
                    if pvs[tt] == (nx, ny) {
                        assert(path@[tt] as int == p);
                        assert(packed_set(path@).contains(packed as int));
                    }
                }
                assert(distinct_positions(pvs2));
                assert(ns.contains((nx, ny)));
                assert(is_board_path(board, pvs2));
                assert(pvs2.take(pvs2.len() - 1) =~= pvs);
                assert(path_codes(board, pvs2.take(pvs2.len() - 1))
                    == path_codes(board, pvs));
                lemma_fuel_decreases(board, visited, nx as int, ny as int);
            }
            let ghost words_before = words@;
            let _ = find_words_at(board, &child, new_path, Ghost(pvs2), nx, ny, words);
            proof {
                let cur = spec_search_at(board, arena, c, nx, ny, visited.insert(p));
                assert(words@ == words_before + cur);
                assert(words@.take(old_words.len() as int) =~= old_words);
                assert(words@.skip(old_words.len() as int)
                    =~= words_before.skip(old_words.len() as int) + cur);
                assert(full =~= words@.skip(old_words.len() as int)
                    + spec_search_nbrs(board, arena, c, ns, j as int + 1, visited));
                assert forall|k: int| old_words.len() <= k < words@.len()
                implies extends_to_word(board, t, pvs, #[trigger] words@[k]) by {
                    if k < words_before.len() {
                        assert(words@[k] == words_before[k]);
                        assert(extends_to_word(board, t, pvs, words_before[k]));
                    } else {
                        assert(extends_to_word(board, child.spec_prefixes(), pvs2, words@[k]));
                        assert(child.spec_prefixes() == t);
                        lemma_extends_shrink(board, t, pvs, (nx, ny), words@[k]);
                    }
                }
            }
        } else {
            proof {
                assert(visited.contains(p));
            }
        }
        j = j + 1;
    }
    proof {
        assert(spec_search_nbrs(board, arena, c, ns, n as int, visited)
            =~= Seq::<usize>::empty());
        assert(full =~= words@.skip(old_words.len() as int));
        assert(words@ =~= old_words + full);
    }
    Some(())
}

/// Finds every word of the index that can be traced as a simple path of
/// adjacent cells on the board, appending one identifier per discovery: for
/// every cell in row-major order, an independent search starts at the root of
/// the index with only that cell visited. When the index is empty, nothing is
/// appended.
#[verifier::loop_isolation(false)]
pub fn find_words<B: Board, C: Charset>(board: &B, prefixes: &Prefixes<C>, words: &mut Vec<usize>)
    requires
        board.wf(),
        board.spec_size() <= 0xffff,
        prefixes.wf(),
    ensures
        final(words)@ == old(words)@ + spec_find_words(board, *prefixes),
        forall|k: int| old(words)@.len() <= k < final(words)@.len()
            ==> found_word(board, *prefixes, #[trigger] final(words)@[k]),
{
    let root = match prefixes.root_index() {
        Some(r) => r,
        None => {
            proof {
                assert(old(words)@ + spec_find_words(board, *prefixes) =~= words@);
            }
            return;
        }
    };
    let node_ref = PrefixNodeRef::new(root, prefixes);
    let ghost arena = prefixes.spec_arena();
    let size = board.size();
    let ghost old_words = words@;
    proof {
        assert(words@.take(old_words.len() as int) =~= old_words);
        assert(spec_find_words(board, *prefixes)
            == spec_search_row(board, arena, root as int, 0, 0));
        assert(spec_search_row(board, arena, root as int, 0, 0)
            =~= words@.skip(old_words.len() as int)
                + spec_search_row(board, arena, root as int, 0, 0));
    }
    let mut y: usize = 0;
    while y < size
        invariant
            y <= size,
            words@.len() >= old_words.len(),
            words@.take(old_words.len() as int) == old_words,
            spec_search_row(board, arena, root as int, 0, 0)
                == words@.skip(old_words.len() as int)
                    + spec_search_row(board, arena, root as int, y as int, 0),
            forall|k: int| old_words.len() <= k < words@.len()
                ==> found_word(board, *prefixes, #[trigger] words@[k]),
        decreases size - y,
    {
        let mut x: usize = 0;
        while x < size
            invariant
                x <= size,
                words@.len() >= old_words.len(),
                words@.take(old_words.len() as int) == old_words,
                spec_search_row(board, arena, root as int, 0, 0)
                    == words@.skip(old_words.len() as int)
                        + spec_search_row(board, arena, root as int, y as int, x as int),
                forall|k: int| old_words.len() <= k < words@.len()
                    ==> found_word(board, *prefixes, #[trigger] words@[k]),
            decreases size - x,
        {
            proof {
                assert(y * size + x < size * size) by (nonlinear_arith)
                    requires 0 <= x < size, 0 <= y < size;
                assert((size as int) * (size as int) <= 0xffff * 0xffff) by (nonlinear_arith)
                    requires 0 <= size as int <= 0xffff;
            }
            let mut path: Vec<usize> = Vec::new();
            let packed = y * size + x;
            path.push(packed);
            let ghost pvs0: Seq<(u16, u16)> = seq![(x as u16, y as u16)];
            let ghost pk = pack_pos(board, x as int, y as int);
            proof {
                assert(pvs0.last() == (x as u16, y as u16));
                assert(path@[0] as int == pk);
                assert(distinct_positions(pvs0));
                assert(is_board_path(board, pvs0));
                assert(pvs0.take(pvs0.len() - 1) =~= Seq::<(u16, u16)>::empty());
                assert(path_codes(board, pvs0.take(pvs0.len() - 1)) =~= Seq::<u8>::empty());
                assert(walk_from(arena, root as int, Seq::<u8>::empty()) == Some(root as int));
                assert(packed_set(Seq::<usize>::empty()) =~= Set::<int>::empty());
                lemma_packed_set_push(Seq::empty(), packed);
                assert(path@ == Seq::<usize>::empty().push(packed));
                assert(packed_set(path@) == Set::empty().insert(pk));
                assert(spec_search_row(board, arena, root as int, y as int, x as int)
                    == spec_search_at(board, arena, root as int, x as u16, y as u16,
                        Set::empty().insert(pk))
                        + spec_search_row(board, arena, root as int, y as int, x as int + 1));
            }
            let ghost words_before = words@;
            let _ = find_words_at(board, &node_ref, path, Ghost(pvs0), x as u16, y as u16, words);
            proof {
                let cur = spec_search_at(board, arena, root as int, x as u16, y as u16,
                    Set::empty().insert(pk));
                assert(words@ == words_before + cur);
                assert(words@.take(old_words.len() as int) =~= old_words);
                assert(words@.skip(old_words.len() as int)
                    =~= words_before.skip(old_words.len() as int) + cur);
                assert(spec_search_row(board, arena, root as int, 0, 0)
                    =~= words@.skip(old_words.len() as int)
                        + spec_search_row(board, arena, root as int, y as int, x as int + 1));
                assert forall|k: int| old_words.len() <= k < words@.len()
                implies found_word(board, *prefixes, #[trigger] words@[k]) by {
                    if k < words_before.len() {
                        assert(words@[k] == words_before[k]);
                        assert(found_word(board, *prefixes, words_before[k]));
                    } else {
                        assert(extends_to_word(board, node_ref.spec_prefixes(), pvs0, words@[k]));
                        assert(node_ref.spec_prefixes() == *prefixes);
                        lemma_extends_found(board, *prefixes, pvs0, words@[k]);
                    }
                }
            }
            x = x + 1;
        }
        proof {
            assert(spec_search_row(board, arena, root as int, y as int, size as int)
                == spec_search_row(board, arena, root as int, y as int + 1, 0));
        }
        y = y + 1;
    }
    proof {
        assert(spec_search_row(board, arena, root as int, size as int, 0)
            =~= Seq::<usize>::empty());
        assert(words@ =~= old_words + words@.skip(old_words.len() as int));
    }
}

/// An independent copy of the visited list, for one recursive branch.
fn copy_path(path: &Vec<usize>) -> (r: Vec<usize>)
    ensures
        r@ == path@,
{
    let n = path.len();
    let mut r: Vec<usize> = Vec::new();
    let mut i: usize = 0;
    while i < n
        invariant
            n == path@.len(),
            i <= n,
            r@ == path@.take(i as int),
        decreases n - i,
    {
        r.push(path[i]);
        proof {
            assert(r@ =~= path@.take(i as int + 1));
        }
        i = i + 1;
    }
    proof {
        assert(path@.take(n as int) =~= path@);
    }
    r
}

} // verus!
