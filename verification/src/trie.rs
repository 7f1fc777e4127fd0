//! Word prefix tree: an arena of nodes addressed by stable integer indices.

use vstd::prelude::*;
use crate::charset::{all_mappable, codes_of, Charset, CharsetMap};
use crate::node::PrefixNode;

verus! {

/// Every stored child index points forward into the arena: a child's index is
/// strictly greater than its parent's, so the node graph is acyclic.
pub open spec fn edges_ok<C: Charset>(arena: Seq<PrefixNode<C>>) -> bool {
    forall|n: int, ch: u8|
        0 <= n < arena.len() && (#[trigger] arena[n].spec_child(ch)) is Some
            ==> n < arena[n].spec_child(ch).unwrap() < arena.len()
}

/// No two distinct edges point at the same node: each node has one parent edge.
pub open spec fn edges_injective<C: Charset>(arena: Seq<PrefixNode<C>>) -> bool {
    forall|n1: int, ch1: u8, n2: int, ch2: u8|
        0 <= n1 < arena.len() && 0 <= n2 < arena.len()
            && (#[trigger] arena[n1].spec_child(ch1)) is Some
            && arena[n1].spec_child(ch1) == #[trigger] arena[n2].spec_child(ch2)
            ==> n1 == n2 && ch1 == ch2
}

/// No edge of the arena points at node `t`.
pub open spec fn no_edge_to<C: Charset>(arena: Seq<PrefixNode<C>>, t: int) -> bool {
    forall|n: int, ch: u8|
        0 <= n < arena.len() && (#[trigger] arena[n].spec_child(ch)) is Some
            ==> arena[n].spec_child(ch).unwrap() != t
}

/// The node reached from node `n` by following the codes of `s`, one edge per
/// code, or `None` as soon as an edge is missing.
pub open spec fn walk_from<C: Charset>(arena: Seq<PrefixNode<C>>, n: int, s: Seq<u8>) -> Option<int>
    decreases s.len(),
{
    if s.len() == 0 {
        Some(n)
    } else if 0 <= n < arena.len() {
        match arena[n].spec_child(s[0]) {
            Some(m) => walk_from(arena, m as int, s.skip(1)),
            None => None,
        }
    } else {
        None
    }
}

/// Walking a concatenation walks the two parts in turn.
pub proof fn lemma_walk_append<C: Charset>(arena: Seq<PrefixNode<C>>, n: int, s1: Seq<u8>, s2: Seq<u8>)
    ensures
        walk_from(arena, n, s1 + s2) == match walk_from(arena, n, s1) {
            Some(m) => walk_from(arena, m, s2),
            None => None::<int>,
        },
    decreases s1.len(),
{
    if s1.len() == 0 {
        assert(s1 + s2 =~= s2);
    } else {
        assert((s1 + s2)[0] == s1[0]);
        if 0 <= n < arena.len() {
            match arena[n].spec_child(s1[0]) {
                Some(m) => {
                    assert((s1 + s2).skip(1) =~= s1.skip(1) + s2);
                    lemma_walk_append(arena, m as int, s1.skip(1), s2);
                }
                None => {}
            }
        }
    }
}

/// A successful walk from an in-range node ends in range, strictly deeper in
/// the arena when at least one edge was taken.
pub proof fn lemma_walk_range<C: Charset>(arena: Seq<PrefixNode<C>>, n: int, s: Seq<u8>)
    requires
        edges_ok(arena),
        0 <= n < arena.len(),
        walk_from(arena, n, s) is Some,
    ensures
        0 <= walk_from(arena, n, s).unwrap() < arena.len(),
        s.len() > 0 ==> walk_from(arena, n, s).unwrap() > n,
    decreases s.len(),
{
    if s.len() > 0 {
        let m = arena[n].spec_child(s[0]).unwrap();
        lemma_walk_range(arena, m as int, s.skip(1));
    }
}

/// In a well-formed arena each node is reached from the root by at most one
/// code sequence.
pub proof fn lemma_walk_unique<C: Charset>(arena: Seq<PrefixNode<C>>, r: int, s1: Seq<u8>, s2: Seq<u8>)
    requires
        edges_ok(arena),
        edges_injective(arena),
        no_edge_to(arena, r),
        0 <= r < arena.len(),
        walk_from(arena, r, s1) is Some,
        walk_from(arena, r, s1) == walk_from(arena, r, s2),
    ensures
        s1 == s2,
    decreases s1.len(),
{
    if s1.len() == 0 {
        if s2.len() > 0 {
            lemma_last_edge(arena, r, s2);
            // an edge would point at the root
            assert(false);
        }
    } else {
        if s2.len() == 0 {
            lemma_last_edge(arena, r, s1);
            assert(false);
        } else {
            let (p1, c1) = lemma_last_edge(arena, r, s1);
            let (p2, c2) = lemma_last_edge(arena, r, s2);
            lemma_walk_unique(arena, r, s1.take(s1.len() - 1), s2.take(s2.len() - 1));
            assert(s1 =~= s1.take(s1.len() - 1).push(s1.last()));
            assert(s2 =~= s2.take(s2.len() - 1).push(s2.last()));
        }
    }
}

/// A successful non-empty walk decomposes into a walk to a parent node and a
/// final edge labelled with the last code.
pub proof fn lemma_last_edge<C: Charset>(arena: Seq<PrefixNode<C>>, r: int, s: Seq<u8>) -> (pc: (int, u8))
    requires
        edges_ok(arena),
        0 <= r < arena.len(),
        s.len() > 0,
        walk_from(arena, r, s) is Some,
    ensures
        0 <= pc.0 < arena.len(),
        pc.1 == s.last(),
        walk_from(arena, r, s.take(s.len() - 1)) == Some(pc.0),
        arena[pc.0].spec_child(pc.1) matches Some(m)
            && m as int == walk_from(arena, r, s).unwrap(),
{
    let prefix = s.take(s.len() - 1);
    let last = s.last();
    assert(s =~= prefix + seq![last]);
    lemma_walk_append(arena, r, prefix, seq![last]);
    let p = walk_from(arena, r, prefix).unwrap();
    lemma_walk_range(arena, r, prefix);
    // unfold the one-step walk
    assert(seq![last][0] == last);
    match arena[p].spec_child(last) {
        Some(mm) => {
            assert(walk_from(arena, mm as int, seq![last].skip(1)) == Some(mm as int)) by {
                assert(seq![last].skip(1) =~= Seq::<u8>::empty());
            }
            assert(walk_from(arena, p, seq![last]) == Some(mm as int));
        }
        None => {
            assert(walk_from(arena, p, seq![last]) is None);
        }
    }
    (p, last)
}

/// The child of node `n` under code `ch`, as an arena position.
pub open spec fn child_at<C: Charset>(arena: Seq<PrefixNode<C>>, n: int, ch: u8) -> Option<int> {
    if 0 <= n < arena.len() {
        match arena[n].spec_child(ch) {
            Some(m) => Some(m as int),
            None => None,
        }
    } else {
        None
    }
}

/// Appending one code to a walk takes one more edge.
pub proof fn lemma_walk_push<C: Charset>(arena: Seq<PrefixNode<C>>, n: int, s: Seq<u8>, ch: u8)
    ensures
        walk_from(arena, n, s.push(ch)) == match walk_from(arena, n, s) {
            Some(m) => child_at(arena, m, ch),
            None => None::<int>,
        },
{
    assert(s.push(ch) =~= s + seq![ch]);
    lemma_walk_append(arena, n, s, seq![ch]);
    match walk_from(arena, n, s) {
        Some(m) => {
            assert(seq![ch][0] == ch);
            if 0 <= m < arena.len() {
                match arena[m].spec_child(ch) {
                    Some(mm) => {
                        assert(walk_from(arena, mm as int, seq![ch].skip(1)) == Some(mm as int))
                            by {
                            assert(seq![ch].skip(1) =~= Seq::<u8>::empty());
                        }
                        assert(walk_from(arena, m, seq![ch]) == Some(mm as int));
                    }
                    None => {
                        assert(walk_from(arena, m, seq![ch]) is None);
                    }
                }
            }
        }
        None => {}
    }
}

/// Walks cannot tell two arenas of equal length apart when every node has the
/// same children in both.
pub proof fn lemma_walk_eq_children<C: Charset>(
    a0: Seq<PrefixNode<C>>,
    a1: Seq<PrefixNode<C>>,
    n: int,
    s: Seq<u8>,
)
    requires
        a0.len() == a1.len(),
        forall|m: int, c: u8| 0 <= m < a0.len() ==> #[trigger] a1[m].spec_child(c) == a0[m].spec_child(c),
    ensures
        walk_from(a1, n, s) == walk_from(a0, n, s),
    decreases s.len(),
{
    if s.len() > 0 && 0 <= n < a0.len() {
        assert(a1[n].spec_child(s[0]) == a0[n].spec_child(s[0]));
        match a0[n].spec_child(s[0]) {
            Some(m) => lemma_walk_eq_children(a0, a1, m as int, s.skip(1)),
            None => {}
        }
    }
}

/// Adding one fresh, childless node at the end of the arena, reached by one
/// new edge, changes no old walk; the only walks that change are those that
/// now end at the new node.
pub proof fn lemma_walk_new_edge<C: Charset>(
    a0: Seq<PrefixNode<C>>,
    a1: Seq<PrefixNode<C>>,
    node: int,
    ch: u8,
    n: int,
    s: Seq<u8>,
)
    requires
        edges_ok(a0),
        a0.len() <= usize::MAX as int,
        a1.len() == a0.len() + 1,
        0 <= node < a0.len(),
        a0[node].spec_child(ch) is None,
        a1[node].spec_child(ch) == Some(a0.len() as usize),
        forall|m: int, c: u8|
            0 <= m < a0.len() && !(m == node && c == ch)
                ==> #[trigger] a1[m].spec_child(c) == a0[m].spec_child(c),
        forall|c: u8| #[trigger] a1[a0.len() as int].spec_child(c) is None,
        0 <= n < a0.len(),
    ensures
        walk_from(a1, n, s) == walk_from(a0, n, s)
            || (walk_from(a1, n, s) == Some(a0.len() as int) && walk_from(a0, n, s) is None),
    decreases s.len(),
{
    if s.len() > 0 {
        if n == node && s[0] == ch {
            assert(walk_from(a0, n, s) is None);
            assert(walk_from(a1, n, s) == walk_from(a1, a0.len() as int, s.skip(1)));
            if s.skip(1).len() == 0 {
                assert(walk_from(a1, a0.len() as int, s.skip(1)) == Some(a0.len() as int));
            } else {
                assert(a1[a0.len() as int].spec_child(s.skip(1)[0]) is None);
                assert(walk_from(a1, a0.len() as int, s.skip(1)) is None);
            }
        } else {
            assert(a1[n].spec_child(s[0]) == a0[n].spec_child(s[0]));
            match a0[n].spec_child(s[0]) {
                Some(m) => {
                    assert(n < m < a0.len());
                    lemma_walk_new_edge(a0, a1, node, ch, m as int, s.skip(1));
                }
                None => {}
            }
        }
    }
}

/// A word prefix tree: an optional root index and an arena of nodes.
pub struct Prefixes<C: Charset> {
    root: Option<usize>,
    arena: Vec<PrefixNode<C>>,
}

impl<C: Charset> Prefixes<C> {
    /// The index of the root node, if the tree is non-empty.
    pub closed spec fn spec_root_index(&self) -> Option<usize> {
        self.root
    }

    /// The nodes of the arena.
    pub closed spec fn spec_arena(&self) -> Seq<PrefixNode<C>> {
        self.arena@
    }

    /// Structural well-formedness: the root is in range and is nobody's child;
    /// edges run strictly forward and no node has two parents.
    pub open spec fn wf(&self) -> bool {
        &&& (self.spec_root_index() matches Some(r) ==> (r as int) < self.spec_arena().len()
            && no_edge_to(self.spec_arena(), r as int))
        &&& edges_ok(self.spec_arena())
        &&& edges_injective(self.spec_arena())
    }

    /// The arena position reached by walking the codes of `s` from the root.
    pub open spec fn path_node(&self, s: Seq<u8>) -> Option<int> {
        match self.spec_root_index() {
            Some(r) => walk_from(self.spec_arena(), r as int, s),
            None => None,
        }
    }

    /// The word identifier recorded at the end of the walk along `s`, if the
    /// walk succeeds and ends at a leaf.
    pub open spec fn word_at(&self, s: Seq<u8>) -> Option<usize> {
        match self.path_node(s) {
            Some(n) => if 0 <= n < self.spec_arena().len() {
                self.spec_arena()[n].spec_word()
            } else {
                None
            },
            None => None,
        }
    }

    /// Gets the root node.
    pub fn root(&self) -> (r: Option<PrefixNodeRef<'_, C>>)
        ensures
            r is Some <==> self.spec_root_index() is Some,
            r matches Some(nr) ==> nr.spec_prefixes() == *self
                && Some(nr.spec_node()) == self.spec_root_index(),
    {
        match self.root {
            Some(root) => Some(PrefixNodeRef::new(root, self)),
            None => None,
        }
    }

    /// Gets the index of the root node in the arena.
    pub fn root_index(&self) -> (r: Option<usize>)
        ensures
            r == self.spec_root_index(),
    {
        self.root
    }

    /// Gets a reference to arena.
    pub fn arena(&self) -> (r: &[PrefixNode<C>])
        ensures
            r@ == self.spec_arena(),
    {
        self.arena.as_slice()
    }

    /// Get a [Prefixes] with a root index.
    pub fn with_root(self, root: usize) -> (r: Self)
        ensures
            r.spec_root_index() == Some(root),
            r.spec_arena() == self.spec_arena(),
    {
        Prefixes { root: Some(root), arena: self.arena }
    }

    /// Get a [Prefixes] with an arena.
    pub fn with_arena(self, arena: Vec<PrefixNode<C>>) -> (r: Self)
        ensures
            r.spec_root_index() == self.spec_root_index(),
            r.spec_arena() == arena@,
    {
        Prefixes { root: self.root, arena }
    }
}

impl<C: Charset> Prefixes<C> {
    /// Gets or inserts the root branch node.
    pub(crate) fn get_or_insert_root(&mut self) -> (r: usize)
        requires
            old(self).wf(),
        ensures
            final(self).wf(),
            final(self).spec_root_index() == Some(r),
            (r as int) < final(self).spec_arena().len(),
            forall|s: Seq<u8>| final(self).word_at(s) == old(self).word_at(s),
            old(self).spec_root_index() matches Some(r0) ==> r == r0 && *final(self) == *old(self),
            old(self).spec_root_index() is None ==> {
                &&& r as int == old(self).spec_arena().len()
                &&& final(self).spec_arena().len() == old(self).spec_arena().len() + 1
                &&& forall|m: int| 0 <= m < old(self).spec_arena().len()
                    ==> #[trigger] final(self).spec_arena()[m] == old(self).spec_arena()[m]
                &&& final(self).spec_arena()[r as int] is Branch
                &&& final(self).spec_arena()[r as int].spec_word() is None
                &&& forall|c: u8| #[trigger] final(self).spec_arena()[r as int].spec_child(c) is None
            },
    {
        match self.root {
            Some(root) => root,
            None => {
                let root = self.arena.len();
                self.arena.push(PrefixNode::branch());
                self.root = Some(root);
                proof {
                    let a0 = old(self).spec_arena();
                    let a1 = self.spec_arena();
                    assert(forall|m: int| 0 <= m < a0.len() ==> a1[m] == a0[m]);
                    assert(forall|c: u8| #[trigger] a1[root as int].spec_child(c) is None);
                    assert(edges_ok(a1)) by {
                        assert forall|n: int, ch: u8|
                            0 <= n < a1.len() && (#[trigger] a1[n].spec_child(ch)) is Some
                        implies n < a1[n].spec_child(ch).unwrap() < a1.len() by {
                            assert(n < a0.len());
                            assert(a1[n].spec_child(ch) == a0[n].spec_child(ch));
                        }
                    }
                    assert(edges_injective(a1)) by {
                        assert forall|n1: int, ch1: u8, n2: int, ch2: u8|
                            0 <= n1 < a1.len() && 0 <= n2 < a1.len()
                                && (#[trigger] a1[n1].spec_child(ch1)) is Some
                                && a1[n1].spec_child(ch1) == #[trigger] a1[n2].spec_child(ch2)
                        implies n1 == n2 && ch1 == ch2 by {
                            assert(n1 < a0.len() && n2 < a0.len());
                            assert(a1[n1].spec_child(ch1) == a0[n1].spec_child(ch1));
                            assert(a1[n2].spec_child(ch2) == a0[n2].spec_child(ch2));
                        }
                    }
                    assert(no_edge_to(a1, root as int)) by {
                        assert forall|n: int, ch: u8|
                            0 <= n < a1.len() && (#[trigger] a1[n].spec_child(ch)) is Some
                        implies a1[n].spec_child(ch).unwrap() != root as int by {
                            assert(n < a0.len());
                            assert(a1[n].spec_child(ch) == a0[n].spec_child(ch));
                        }
                    }
                    assert forall|s: Seq<u8>| self.word_at(s) == old(self).word_at(s) by {
                        if s.len() == 0 {
                            assert(self.word_at(s) == a1[root as int].spec_word());
                        } else {
                            assert(a1[root as int].spec_child(s[0]) is None);
                            assert(walk_from(a1, root as int, s) is None);
                        }
                        assert(old(self).word_at(s) is None);
                        assert(self.word_at(s) is None);
                    }
                }
                root
            }
        }
    }

    /// Gets or inserts a child node for `node` under the code `child_ch`.
    ///
    /// When a child already exists, a branch is promoted to a leaf in place if
    /// `child_node` is a leaf (inheriting the branch's children); otherwise the
    /// existing child is left as it is. When none exists, `child_node` is
    /// appended to the arena and registered as the child.
    pub(crate) fn get_or_insert_child(&mut self, node: usize, child_ch: u8, child_node: PrefixNode<C>) -> (r: usize)
        requires
            old(self).wf(),
            (node as int) < old(self).spec_arena().len(),
            <C::PrefixCharMap as crate::charset::CharsetMap>::spec_valid(child_ch),
            forall|c: u8| child_node.spec_child(c) is None,
        ensures
            final(self).wf(),
            final(self).spec_root_index() == old(self).spec_root_index(),
            (r as int) < final(self).spec_arena().len(),
            final(self).spec_arena()[node as int].spec_child(child_ch) == Some(r),
            old(self).spec_arena()[node as int].spec_child(child_ch) matches Some(c0) ==> {
                &&& r == c0
                &&& final(self).spec_arena().len() == old(self).spec_arena().len()
                &&& forall|m: int, c: u8| 0 <= m < old(self).spec_arena().len()
                    ==> #[trigger] final(self).spec_arena()[m].spec_child(c)
                        == old(self).spec_arena()[m].spec_child(c)
                &&& forall|m: int| 0 <= m < old(self).spec_arena().len() && m != r as int
                    ==> #[trigger] final(self).spec_arena()[m].spec_word()
                        == old(self).spec_arena()[m].spec_word()
                &&& final(self).spec_arena()[r as int].spec_word()
                    == if old(self).spec_arena()[r as int] is Branch && child_node is Leaf {
                        child_node.spec_word()
                    } else {
                        old(self).spec_arena()[r as int].spec_word()
                    }
            },
            old(self).spec_arena()[node as int].spec_child(child_ch) is None ==> {
                &&& r as int == old(self).spec_arena().len()
                &&& final(self).spec_arena().len() == old(self).spec_arena().len() + 1
                &&& forall|m: int, c: u8|
                    0 <= m < old(self).spec_arena().len() && !(m == node as int && c == child_ch)
                        ==> #[trigger] final(self).spec_arena()[m].spec_child(c)
                            == old(self).spec_arena()[m].spec_child(c)
                &&& forall|m: int| 0 <= m < old(self).spec_arena().len()
                    ==> #[trigger] final(self).spec_arena()[m].spec_word()
                        == old(self).spec_arena()[m].spec_word()
                &&& forall|c: u8| #[trigger] final(self).spec_arena()[r as int].spec_child(c) is None
                &&& final(self).spec_arena()[r as int].spec_word() == child_node.spec_word()
            },
    {
        let ghost a0 = self.spec_arena();
        match self.arena[node].child(child_ch) {
            Some(child) => {
                proof {
                    assert(a0[node as int].spec_child(child_ch) == Some(child));
                    assert((node as int) < child < a0.len());
                }
                if self.arena[child].is_branch() && child_node.is_leaf() {
                    let mut promoted = child_node;
                    promoted.copy_children_from(&self.arena[child]);
                    self.arena[child] = promoted;
                    proof {
                        let a1 = self.spec_arena();
                        assert(forall|m: int| 0 <= m < a0.len() && m != child ==> a1[m] == a0[m]);
                        assert(forall|c: u8| #[trigger] a1[child as int].spec_child(c)
                            == a0[child as int].spec_child(c));
                        assert forall|m: int, c: u8| 0 <= m < a0.len()
                        implies #[trigger] a1[m].spec_child(c) == a0[m].spec_child(c) by {
                            if m != child {
                                assert(a1[m] == a0[m]);
                            }
                        }
                        assert(edges_ok(a1)) by {
                            assert forall|n: int, ch: u8|
                                0 <= n < a1.len() && (#[trigger] a1[n].spec_child(ch)) is Some
                            implies n < a1[n].spec_child(ch).unwrap() < a1.len() by {
                                assert(a1[n].spec_child(ch) == a0[n].spec_child(ch));
                            }
                        }
                        assert(edges_injective(a1)) by {
                            assert forall|n1: int, ch1: u8, n2: int, ch2: u8|
                                0 <= n1 < a1.len() && 0 <= n2 < a1.len()
                                    && (#[trigger] a1[n1].spec_child(ch1)) is Some
                                    && a1[n1].spec_child(ch1) == #[trigger] a1[n2].spec_child(ch2)
                            implies n1 == n2 && ch1 == ch2 by {
                                assert(a1[n1].spec_child(ch1) == a0[n1].spec_child(ch1));
                                assert(a1[n2].spec_child(ch2) == a0[n2].spec_child(ch2));
                            }
                        }
                        if self.spec_root_index() is Some {
                            let rt = self.spec_root_index().unwrap() as int;
                            assert(no_edge_to(a1, rt)) by {
                                assert forall|n: int, ch: u8|
                                    0 <= n < a1.len() && (#[trigger] a1[n].spec_child(ch)) is Some
                                implies a1[n].spec_child(ch).unwrap() != rt by {
                                    assert(a1[n].spec_child(ch) == a0[n].spec_child(ch));
                                }
                            }
                        }
                    }
                }
                child
            }
            None => {
                let child = self.arena.len();
                self.arena[node].insert_child(child_ch, child);
                self.arena.push(child_node);
                proof {
                    let a1 = self.spec_arena();
                    assert(a1.len() == a0.len() + 1);
                    assert(forall|m: int| 0 <= m < a0.len() && m != node as int ==> a1[m] == a0[m]);
                    assert(a1[node as int].spec_child(child_ch) == Some(child));
                    assert(forall|c: u8| c != child_ch
                        ==> #[trigger] a1[node as int].spec_child(c) == a0[node as int].spec_child(c));
                    assert(a1[node as int].spec_word() == a0[node as int].spec_word());
                    assert(a1[child as int] == child_node);
                    assert forall|m: int, c: u8|
                        0 <= m < a0.len() && !(m == node as int && c == child_ch)
                    implies #[trigger] a1[m].spec_child(c) == a0[m].spec_child(c) by {
                        if m != node as int {
                            assert(a1[m] == a0[m]);
                        }
                    }
                    assert forall|m: int| 0 <= m < a0.len()
                    implies #[trigger] a1[m].spec_word() == a0[m].spec_word() by {
                        if m != node as int {
                            assert(a1[m] == a0[m]);
                        }
                    }
                    assert(edges_ok(a1)) by {
                        assert forall|n: int, ch: u8|
                            0 <= n < a1.len() && (#[trigger] a1[n].spec_child(ch)) is Some
                        implies n < a1[n].spec_child(ch).unwrap() < a1.len() by {
                            if n == node as int && ch == child_ch {
                                assert(a1[n].spec_child(ch) == Some(child));
                            } else if n < a0.len() {
                                assert(a1[n].spec_child(ch) == a0[n].spec_child(ch));
                            } else {
                                assert(a1[n].spec_child(ch) is None);
                            }
                        }
                    }
                    assert(edges_injective(a1)) by {
                        assert forall|n1: int, ch1: u8, n2: int, ch2: u8|
                            0 <= n1 < a1.len() && 0 <= n2 < a1.len()
                                && (#[trigger] a1[n1].spec_child(ch1)) is Some
                                && a1[n1].spec_child(ch1) == #[trigger] a1[n2].spec_child(ch2)
                        implies n1 == n2 && ch1 == ch2 by {
                            let t = a1[n1].spec_child(ch1).unwrap();
                            if t == child {
                                assert forall|n: int, ch: u8|
                                    0 <= n < a1.len() && (#[trigger] a1[n].spec_child(ch)) == Some(child)
                                implies n == node as int && ch == child_ch by {
                                    if !(n == node as int && ch == child_ch) {
                                        if n < a0.len() {
                                            assert(a1[n].spec_child(ch) == a0[n].spec_child(ch));
                                            assert(a0[n].spec_child(ch).unwrap() < a0.len());
                                        } else {
                                            assert(a1[n].spec_child(ch) is None);
                                        }
                                    }
                                }
                            } else {
                                assert(!(n1 == node as int && ch1 == child_ch));
                                assert(!(n2 == node as int && ch2 == child_ch));
                                assert(n1 < a0.len() && n2 < a0.len());
                                assert(a1[n1].spec_child(ch1) == a0[n1].spec_child(ch1));
                                assert(a1[n2].spec_child(ch2) == a0[n2].spec_child(ch2));
                            }
                        }
                    }
                    if self.spec_root_index() is Some {
                        let rt = self.spec_root_index().unwrap() as int;
                        assert(rt < a0.len());
                        assert(no_edge_to(a1, rt)) by {
                            assert forall|n: int, ch: u8|
                                0 <= n < a1.len() && (#[trigger] a1[n].spec_child(ch)) is Some
                            implies a1[n].spec_child(ch).unwrap() != rt by {
                                if n == node as int && ch == child_ch {
                                    assert(a1[n].spec_child(ch) == Some(child));
                                } else if n < a0.len() {
                                    assert(a1[n].spec_child(ch) == a0[n].spec_child(ch));
                                } else {
                                    assert(a1[n].spec_child(ch) is None);
                                }
                            }
                        }
                    }
                }
                child
            }
        }
    }
}

/// The code sequence of a word, or `None` when some character is outside the
/// charset.
pub(crate) fn word_codes<C: Charset>(word: &str) -> (r: Option<Vec<u8>>)
    ensures
        r is Some <==> all_mappable::<C>(word@),
        r matches Some(v) ==> v@ == codes_of::<C>(word@)
            && forall|j: int| 0 <= j < v@.len()
                ==> <C::PrefixCharMap as CharsetMap>::spec_valid(#[trigger] v@[j]),
{
    let n = word.unicode_len();
    let mut v: Vec<u8> = Vec::new();
    let mut i: usize = 0;
    while i < n
        invariant
            n == word@.len(),
            i <= n,
            v@.len() == i,
            forall|j: int| 0 <= j < i ==> (#[trigger] C::spec_to_code(word@[j])) is Some,
            forall|j: int| 0 <= j < i ==> #[trigger] v@[j] == C::spec_to_code(word@[j]).unwrap(),
            forall|j: int| 0 <= j < i
                ==> <C::PrefixCharMap as CharsetMap>::spec_valid(#[trigger] v@[j]),
        decreases n - i,
    {
        let c = word.get_char(i);
        match C::to_prefix_char(c) {
            Some(code) => {
                v.push(code);
            }
            None => {
                return None;
            }
        }
        i = i + 1;
    }
    proof {
        assert(v@ =~= codes_of::<C>(word@));
    }
    Some(v)
}

impl<C: Charset> Prefixes<C> {
    /// Inserts a word with the given identifier along a non-empty, fully
    /// valid code sequence. An existing word identifier at the end of the
    /// path is never overwritten; everything off the path is untouched.
    pub(crate) fn insert_codes(&mut self, word_index: usize, codes: &Vec<u8>)
        requires
            old(self).wf(),
            codes@.len() > 0,
            forall|j: int| 0 <= j < codes@.len()
                ==> <C::PrefixCharMap as CharsetMap>::spec_valid(#[trigger] codes@[j]),
        ensures
            final(self).wf(),
            final(self).spec_root_index() is Some,
            old(self).spec_root_index() matches Some(r0)
                ==> final(self).spec_root_index() == Some(r0),
            final(self).word_at(codes@) == if old(self).word_at(codes@) is Some {
                old(self).word_at(codes@)
            } else {
                Some(word_index)
            },
            forall|s: Seq<u8>| s != codes@
                ==> #[trigger] final(self).word_at(s) == old(self).word_at(s),
    {
        let mut node = self.get_or_insert_root();
        let ghost t1 = *self;
        let ghost rv = self.spec_root_index().unwrap();
        let n = codes.len();
        let mut i: usize = 0;
        proof {
            assert(codes@.take(0) =~= Seq::<u8>::empty());
        }
        while i + 1 < n
            invariant
                self.wf(),
                self.spec_root_index() == Some(rv),
                (rv as int) < self.spec_arena().len(),
                i < n,
                n == codes@.len(),
                forall|j: int| 0 <= j < codes@.len()
                    ==> <C::PrefixCharMap as CharsetMap>::spec_valid(#[trigger] codes@[j]),
                (node as int) < self.spec_arena().len(),
                walk_from(self.spec_arena(), rv as int, codes@.take(i as int)) == Some(node as int),
                forall|s: Seq<u8>| #[trigger] self.word_at(s) == t1.word_at(s),
            decreases n - i,
        {
            let ch = codes[i];
            let ghost tk = *self;
            let next = self.get_or_insert_child(node, ch, PrefixNode::branch());
            proof {
                let ak = tk.spec_arena();
                let a1 = self.spec_arena();
                match ak[node as int].spec_child(ch) {
                    Some(c0) => {
                        assert forall|s: Seq<u8>| #[trigger] self.word_at(s) == tk.word_at(s) by {
                            lemma_walk_eq_children(ak, a1, rv as int, s);
                            match walk_from(ak, rv as int, s) {
                                Some(m) => {
                                    if 0 <= m < ak.len() {
                                        assert(a1[m].spec_word() == ak[m].spec_word());
                                    }
                                }
                                None => {}
                            }
                        }
                        lemma_walk_eq_children(ak, a1, rv as int, codes@.take(i as int));
                    }
                    None => {
                        assert forall|s: Seq<u8>| #[trigger] self.word_at(s) == tk.word_at(s) by {
                            lemma_walk_new_edge(ak, a1, node as int, ch, rv as int, s);
                            if walk_from(a1, rv as int, s) == walk_from(ak, rv as int, s) {
                                match walk_from(ak, rv as int, s) {
                                    Some(m) => {
                                        lemma_walk_range(ak, rv as int, s);
                                        assert(a1[m].spec_word() == ak[m].spec_word());
                                    }
                                    None => {}
                                }
                            } else {
                                assert(walk_from(a1, rv as int, s) == Some(ak.len() as int));
                                assert(a1[ak.len() as int].spec_word() is None);
                            }
                        }
                        lemma_walk_new_edge(ak, a1, node as int, ch, rv as int, codes@.take(i as int));
                    }
                }
                assert(walk_from(a1, rv as int, codes@.take(i as int)) == Some(node as int));
                lemma_walk_push(a1, rv as int, codes@.take(i as int), ch);
                assert(codes@.take(i as int).push(ch) =~= codes@.take(i as int + 1));
                assert(walk_from(a1, rv as int, codes@.take(i as int + 1)) == Some(next as int));
            }
            node = next;
            i = i + 1;
        }
        // `i` is the last position of the word: attach the leaf.
        let ch = codes[i];
        let ghost tk = *self;
        let leaf = PrefixNode::leaf(word_index);
        let ghost leaf_spec = leaf;
        let last = self.get_or_insert_child(node, ch, leaf);
        proof {
            let ak = tk.spec_arena();
            let a1 = self.spec_arena();
            assert(codes@.take(i as int).push(ch) =~= codes@);
            match ak[node as int].spec_child(ch) {
                Some(c0) => {
                    assert(last == c0);
                    // children maps agree everywhere, so every walk is unchanged
                    assert forall|s: Seq<u8>| walk_from(a1, rv as int, s) == walk_from(ak, rv as int, s) by {
                        lemma_walk_eq_children(ak, a1, rv as int, s);
                    }
                    lemma_walk_push(a1, rv as int, codes@.take(i as int), ch);
                    assert(walk_from(a1, rv as int, codes@) == Some(c0 as int));
                    assert(walk_from(ak, rv as int, codes@) == Some(c0 as int));
                    assert forall|s: Seq<u8>| s != codes@
                    implies #[trigger] self.word_at(s) == tk.word_at(s) by {
                        match walk_from(ak, rv as int, s) {
                            Some(m) => {
                                lemma_walk_range(ak, rv as int, s);
                                if m == c0 as int {
                                    lemma_walk_unique(a1, rv as int, s, codes@);
                                    assert(false);
                                }
                                assert(a1[m].spec_word() == ak[m].spec_word());
                            }
                            None => {}
                        }
                    }
                    // at the word's own path: promote or keep
                    if ak[c0 as int] is Branch {
                        assert(a1[c0 as int].spec_word() == leaf_spec.spec_word());
                        assert(self.word_at(codes@) == Some(word_index));
                        assert(tk.word_at(codes@) is None);
                    } else {
                        assert(a1[c0 as int].spec_word() == ak[c0 as int].spec_word());
                        assert(self.word_at(codes@) == tk.word_at(codes@));
                        assert(tk.word_at(codes@) is Some);
                    }
                }
                None => {
                    assert(last as int == ak.len());
                    assert forall|s: Seq<u8>| s != codes@
                    implies #[trigger] self.word_at(s) == tk.word_at(s) by {
                        lemma_walk_new_edge(ak, a1, node as int, ch, rv as int, s);
                        if walk_from(a1, rv as int, s) == walk_from(ak, rv as int, s) {
                            match walk_from(ak, rv as int, s) {
                                Some(m) => {
                                    lemma_walk_range(ak, rv as int, s);
                                    assert(a1[m].spec_word() == ak[m].spec_word());
                                }
                                None => {}
                            }
                        } else {
                            // the walk ends at the new node: but only the
                            // word's own path reaches it
                            assert(walk_from(a1, rv as int, s) == Some(ak.len() as int));
                            lemma_walk_new_edge(ak, a1, node as int, ch, rv as int, codes@.take(i as int));
                            assert(walk_from(a1, rv as int, codes@.take(i as int)) == Some(node as int));
                            lemma_walk_push(a1, rv as int, codes@.take(i as int), ch);
                            assert(walk_from(a1, rv as int, codes@) == Some(ak.len() as int));
                            lemma_walk_unique(a1, rv as int, s, codes@);
                            assert(false);
                        }
                    }
                    // the word's own path now ends at the fresh leaf
                    lemma_walk_new_edge(ak, a1, node as int, ch, rv as int, codes@.take(i as int));
                    assert(walk_from(a1, rv as int, codes@.take(i as int)) == Some(node as int));
                    lemma_walk_push(a1, rv as int, codes@.take(i as int), ch);
                    assert(walk_from(a1, rv as int, codes@) == Some(ak.len() as int));
                    assert(a1[ak.len() as int].spec_word() == Some(word_index));
                    assert(self.word_at(codes@) == Some(word_index));
                    // and it did not exist before
                    lemma_walk_push(ak, rv as int, codes@.take(i as int), ch);
                    assert(walk_from(ak, rv as int, codes@) is None);
                    assert(tk.word_at(codes@) is None);
                }
            }
            assert forall|s: Seq<u8>| s != codes@
            implies #[trigger] final(self).word_at(s) == old(self).word_at(s) by {
                assert(self.word_at(s) == tk.word_at(s));
                assert(tk.word_at(s) == t1.word_at(s));
                assert(t1.word_at(s) == old(self).word_at(s));
            }
            assert(tk.word_at(codes@) == old(self).word_at(codes@));
        }
    }

    /// Inserts a word into the tree under identifier `word_index`, or inserts
    /// nothing and returns `None` when some character has no charset code.
    pub(crate) fn insert_word(&mut self, word_index: usize, word: &str) -> (r: Option<()>)
        requires
            old(self).wf(),
            word@.len() > 0,
        ensures
            final(self).wf(),
            r is Some <==> all_mappable::<C>(word@),
            all_mappable::<C>(word@) ==> {
                &&& final(self).spec_root_index() is Some
                &&& final(self).word_at(codes_of::<C>(word@))
                    == if old(self).word_at(codes_of::<C>(word@)) is Some {
                        old(self).word_at(codes_of::<C>(word@))
                    } else {
                        Some(word_index)
                    }
                &&& forall|s: Seq<u8>| s != codes_of::<C>(word@)
                    ==> #[trigger] final(self).word_at(s) == old(self).word_at(s)
                &&& old(self).spec_root_index() matches Some(r0)
                    ==> final(self).spec_root_index() == Some(r0)
            },
            !all_mappable::<C>(word@) ==> *final(self) == *old(self),
    {
        match word_codes::<C>(word) {
            Some(codes) => {
                self.insert_codes(word_index, &codes);
                Some(())
            }
            None => None,
        }
    }
}

/// Word `i` of the list survives the bulk insertion filter: it is not an
/// adjacent duplicate of its predecessor (after normalization), its normalized
/// length lies between 3 and `max`, and every normalized character has a code.
pub open spec fn word_kept<C: Charset>(ws: Seq<Seq<char>>, max: int, i: int) -> bool {
    &&& 0 <= i < ws.len()
    &&& (i == 0 || C::spec_normalize(ws[i]) != C::spec_normalize(ws[i - 1]))
    &&& 3 <= C::spec_normalize(ws[i]).len() <= max
    &&& all_mappable::<C>(C::spec_normalize(ws[i]))
}

/// The word identifier that bulk insertion of the first `k` words leaves at
/// code path `s`: the first surviving word whose normalized codes equal `s`.
pub open spec fn expected_word_at<C: Charset>(ws: Seq<Seq<char>>, k: int, max: int, s: Seq<u8>) -> Option<usize>
    decreases k,
{
    if k <= 0 {
        None
    } else if expected_word_at::<C>(ws, k - 1, max, s) is Some {
        expected_word_at::<C>(ws, k - 1, max, s)
    } else if word_kept::<C>(ws, max, k - 1) && codes_of::<C>(C::spec_normalize(ws[k - 1])) == s {
        Some((k - 1) as usize)
    } else {
        None
    }
}

/// Bulk insertion leaves words only at code paths of length between 3 and the
/// maximum: every shorter or longer path answers "no word here".
pub proof fn lemma_expected_word_len<C: Charset>(ws: Seq<Seq<char>>, k: int, max: int, s: Seq<u8>)
    ensures
        expected_word_at::<C>(ws, k, max, s) is Some ==> 3 <= s.len() <= max,
    decreases k,
{
    if k > 0 {
        lemma_expected_word_len::<C>(ws, k - 1, max, s);
    }
}

/// The identifier that bulk insertion leaves at a code path always names a
/// surviving word whose normalized codes are exactly that path.
pub proof fn lemma_expected_word_codes<C: Charset>(ws: Seq<Seq<char>>, k: int, max: int, s: Seq<u8>)
    requires
        ws.len() <= usize::MAX as int,
    ensures
        expected_word_at::<C>(ws, k, max, s) matches Some(w) ==> 0 <= w < ws.len()
            && word_kept::<C>(ws, max, w as int)
            && codes_of::<C>(C::spec_normalize(ws[w as int])) == s,
    decreases k,
{
    if k > 0 {
        lemma_expected_word_codes::<C>(ws, k - 1, max, s);
        if expected_word_at::<C>(ws, k, max, s) is Some
            && expected_word_at::<C>(ws, k - 1, max, s) is None {
            assert(word_kept::<C>(ws, max, k - 1)
                && codes_of::<C>(C::spec_normalize(ws[k - 1])) == s);
            assert(expected_word_at::<C>(ws, k, max, s) == Some((k - 1) as usize));
            assert(0 <= k - 1 < ws.len());
            assert(((k - 1) as usize) as int == k - 1);
        }
    }
}

/// Bulk insertion never answers with an identifier at or beyond the number of
/// words processed.
pub proof fn lemma_expected_word_bound<C: Charset>(ws: Seq<Seq<char>>, k: int, max: int, s: Seq<u8>)
    ensures
        expected_word_at::<C>(ws, k, max, s) matches Some(w) ==> (w as int) < k,
    decreases k,
{
    if k > 0 {
        lemma_expected_word_bound::<C>(ws, k - 1, max, s);
    }
}

/// Every surviving word can be walked: after processing at least `i + 1`
/// words, the code path of word `i`'s normalized form carries an identifier.
pub proof fn lemma_expected_word_present<C: Charset>(ws: Seq<Seq<char>>, k: int, max: int, i: int)
    requires
        0 <= i < k,
        word_kept::<C>(ws, max, i),
    ensures
        expected_word_at::<C>(ws, k, max, codes_of::<C>(C::spec_normalize(ws[i]))) is Some,
    decreases k,
{
    if i < k - 1 {
        lemma_expected_word_present::<C>(ws, k - 1, max, i);
    }
}

/// The identifier at a code path names the first surviving word with that
/// normalized form: a later collision is shadowed by an earlier insertion.
pub proof fn lemma_expected_word_least<C: Charset>(ws: Seq<Seq<char>>, k: int, max: int, s: Seq<u8>, j: int)
    requires
        0 <= j < k,
        word_kept::<C>(ws, max, j),
        codes_of::<C>(C::spec_normalize(ws[j])) == s,
    ensures
        expected_word_at::<C>(ws, k, max, s) matches Some(w) && (w as int) <= j,
    decreases k,
{
    if j < k - 1 {
        lemma_expected_word_least::<C>(ws, k - 1, max, s, j);
    } else {
        lemma_expected_word_bound::<C>(ws, k - 1, max, s);
    }
}

impl<C: Charset> Prefixes<C> {
    /// Create a [Prefixes] from supplied words.
    ///
    /// Ignores words that are adjacent duplicates after normalization, that
    /// contain characters not in the charset, or whose normalized length is
    /// shorter than 3 or longer than `max_word_len`. Each surviving word is
    /// indexed under its position in `words`; when two surviving words
    /// normalize to the same string, the identifier of the first one inserted
    /// survives at the shared leaf.
    pub fn from_words(words: &Vec<String>, max_word_len: usize) -> (t: Self)
        ensures
            t.wf(),
            forall|s: Seq<u8>| #[trigger] t.word_at(s)
                == expected_word_at::<C>(words.deep_view(), words@.len() as int, max_word_len as int, s),
            t.spec_root_index() is Some
                <==> exists|j: int| word_kept::<C>(words.deep_view(), max_word_len as int, j),
            t.spec_root_index() is None ==> t.spec_arena().len() == 0,
    {
        let ghost ws = words.deep_view();
        let ghost max = max_word_len as int;
        let mut prefixes = Prefixes { root: None, arena: Vec::new() };
        let n = words.len();
        let mut i: usize = 0;
        let mut prev: Option<String> = None;
        proof {
            assert(ws.len() == words@.len());
            assert forall|s: Seq<u8>| #[trigger] prefixes.word_at(s)
                == expected_word_at::<C>(ws, 0, max, s) by {}
        }
        while i < n
            invariant
                prefixes.wf(),
                i <= n,
                n == words@.len(),
                ws == words.deep_view(),
                ws.len() == n,
                max == max_word_len as int,
                forall|s: Seq<u8>| #[trigger] prefixes.word_at(s)
                    == expected_word_at::<C>(ws, i as int, max, s),
                prefixes.spec_root_index() is Some
                    <==> exists|j: int| 0 <= j < i && word_kept::<C>(ws, max, j),
                prefixes.spec_root_index() is None ==> prefixes.spec_arena().len() == 0,
                i == 0 ==> prev is None,
                i > 0 ==> (prev matches Some(p) && p@ == C::spec_normalize(ws[i - 1])),
            decreases n - i,
        {
            proof {
                assert(ws[i as int] == words@[i as int]@);
            }
            let word = &words[i];
            let trimmed = C::trim_special_characters(word.as_str());
            let tlen = trimmed.unicode_len();
            let is_dup = match &prev {
                Some(p) => p.eq(&trimmed),
                None => false,
            };
            let ghost tprev = prefixes;
            let ghost kept_now = word_kept::<C>(ws, max, i as int);
            let mut inserted = false;
            if !is_dup && 3 <= tlen && tlen <= max_word_len {
                match prefixes.insert_word(i, trimmed.as_str()) {
                    Some(_) => {
                        inserted = true;
                    }
                    None => {}
                }
            }
            proof {
                let norm = C::spec_normalize(ws[i as int]);
                if inserted {
                    assert(kept_now);
                    assert forall|s: Seq<u8>| #[trigger] prefixes.word_at(s)
                        == expected_word_at::<C>(ws, i as int + 1, max, s) by {
                        if s == codes_of::<C>(norm) {
                            assert(tprev.word_at(s) == expected_word_at::<C>(ws, i as int, max, s));
                        } else {
                            assert(prefixes.word_at(s) == tprev.word_at(s));
                        }
                    }
                    assert(prefixes.spec_root_index() is Some);
                    assert(word_kept::<C>(ws, max, i as int));
                } else {
                    assert(!kept_now) by {
                        if is_dup {
                            assert(i > 0 && norm == C::spec_normalize(ws[i as int - 1]));
                        } else if 3 <= tlen && tlen <= max_word_len {
                            assert(!all_mappable::<C>(norm));
                        } else {
                            assert(!(3 <= norm.len() <= max));
                        }
                    }
                    assert(prefixes == tprev);
                    assert forall|s: Seq<u8>| #[trigger] prefixes.word_at(s)
                        == expected_word_at::<C>(ws, i as int + 1, max, s) by {
                        assert(expected_word_at::<C>(ws, i as int + 1, max, s)
                            == expected_word_at::<C>(ws, i as int, max, s));
                    }
                }
                assert forall|j: int| 0 <= j < i as int + 1 && word_kept::<C>(ws, max, j)
                    implies prefixes.spec_root_index() is Some by {
                    if j < i as int {
                        assert(tprev.spec_root_index() is Some);
                        if inserted {
                            assert(prefixes.spec_root_index() is Some);
                        }
                    }
                }
                if prefixes.spec_root_index() is Some
                    && !(exists|j: int| 0 <= j < i && word_kept::<C>(ws, max, j)) {
                    assert(inserted && kept_now);
                }
            }
            prev = Some(trimmed);
            i = i + 1;
        }
        proof {
            assert forall|j: int| word_kept::<C>(ws, max, j) implies 0 <= j < n as int by {}
        }
        prefixes
    }
}

impl<C: Charset> core::default::Default for Prefixes<C> {
    /// An empty prefix tree: no root, no nodes.
    fn default() -> (r: Self)
        ensures
            r.spec_root_index() is None,
            r.spec_arena().len() == 0,
            r.wf(),
    {
        Prefixes { root: None, arena: Vec::new() }
    }
}

/// A prefix node reference: an arena position paired with its tree.
pub struct PrefixNodeRef<'prefixes, C: Charset> {
    node: usize,
    prefixes: &'prefixes Prefixes<C>,
}

impl<'prefixes, C: Charset> PrefixNodeRef<'prefixes, C> {
    /// The arena position this reference points at.
    pub closed spec fn spec_node(&self) -> usize {
        self.node
    }

    /// The tree this reference points into.
    pub closed spec fn spec_prefixes(&self) -> Prefixes<C> {
        *self.prefixes
    }

    /// The position is inside the arena.
    pub open spec fn in_arena(&self) -> bool {
        (self.spec_node() as int) < self.spec_prefixes().spec_arena().len()
    }

    /// Create a [PrefixNodeRef] from node index and [Prefixes].
    pub fn new(node: usize, prefixes: &'prefixes Prefixes<C>) -> (r: Self)
        ensures
            r.spec_node() == node,
            r.spec_prefixes() == *prefixes,
    {
        PrefixNodeRef { node, prefixes }
    }

    /// Gets node word.
    pub fn word(&self) -> (r: Option<usize>)
        requires
            self.in_arena(),
        ensures
            r == self.spec_prefixes().spec_arena()[self.spec_node() as int].spec_word(),
    {
        self.prefixes.arena[self.node].word()
    }

    /// Gets child node reference.
    pub fn child(&self, ch: u8) -> (r: Option<Self>)
        requires
            self.in_arena(),
        ensures
            r is Some <==> self.spec_prefixes().spec_arena()[self.spec_node() as int].spec_child(ch) is Some,
            r matches Some(nr) ==> nr.spec_prefixes() == self.spec_prefixes()
                && Some(nr.spec_node())
                    == self.spec_prefixes().spec_arena()[self.spec_node() as int].spec_child(ch)
                && (self.spec_prefixes().wf() ==> nr.in_arena()),
    {
        match self.prefixes.arena[self.node].child(ch) {
            Some(child) => Some(PrefixNodeRef::new(child, self.prefixes)),
            None => None,
        }
    }
}

} // verus!
