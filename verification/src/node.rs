//! Prefix tree nodes.

use vstd::prelude::*;
use crate::charset::{Charset, CharsetMap};

verus! {

/// A word prefix node: either an interior `Branch`, or a `Leaf` that marks the
/// end of an indexed word. A `Leaf` may still have children, since a shorter
/// word can be a strict prefix of a longer one.
pub enum PrefixNode<C: Charset> {
    Leaf(PrefixLeaf<C>),
    Branch(PrefixBranch<C>),
}

/// A word prefix leaf node: carries the index of its word in the caller's
/// word list, besides its children.
pub struct PrefixLeaf<C: Charset> {
    pub children: C::PrefixCharMap,
    pub word: usize,
}

/// A word prefix branch node: children only, no word ends here.
pub struct PrefixBranch<C: Charset> {
    pub children: C::PrefixCharMap,
}

impl<C: Charset> PrefixNode<C> {
    /// The child index stored under a charset code, if any.
    pub open spec fn spec_child(&self, ch: u8) -> Option<usize> {
        match self {
            PrefixNode::Leaf(leaf) => leaf.children.spec_get(ch),
            PrefixNode::Branch(branch) => branch.children.spec_get(ch),
        }
    }

    /// The word index recorded at this node: a value exactly for leaves.
    pub open spec fn spec_word(&self) -> Option<usize> {
        match self {
            PrefixNode::Leaf(leaf) => Some(leaf.word),
            PrefixNode::Branch(_) => None,
        }
    }

    /// Creates a new leaf node where `word` is the index to the collection of words.
    pub fn leaf(word: usize) -> (r: Self)
        ensures
            r is Leaf,
            r.spec_word() == Some(word),
            forall|c: u8| r.spec_child(c) is None,
    {
        PrefixNode::Leaf(PrefixLeaf { children: C::PrefixCharMap::empty(), word })
    }

    /// Creates a new branch node.
    pub fn branch() -> (r: Self)
        ensures
            r is Branch,
            r.spec_word() is None,
            forall|c: u8| r.spec_child(c) is None,
    {
        PrefixNode::Branch(PrefixBranch { children: C::PrefixCharMap::empty() })
    }

    /// Determines if node is a leaf node.
    pub fn is_leaf(&self) -> (r: bool)
        ensures
            r == (self is Leaf),
    {
        match self {
            PrefixNode::Leaf(_) => true,
            PrefixNode::Branch(_) => false,
        }
    }

    /// Determines if a node is a branch node.
    pub fn is_branch(&self) -> (r: bool)
        ensures
            r == (self is Branch),
    {
        match self {
            PrefixNode::Leaf(_) => false,
            PrefixNode::Branch(_) => true,
        }
    }

    /// Gets child of node matching supplied charset code.
    pub fn child(&self, ch: u8) -> (r: Option<usize>)
        ensures
            r == self.spec_child(ch),
    {
        self.children().get(ch)
    }

    /// Gets children of node.
    pub fn children(&self) -> (r: &C::PrefixCharMap)
        ensures
            forall|c: u8| r.spec_get(c) == self.spec_child(c),
    {
        match self {
            PrefixNode::Leaf(leaf) => &leaf.children,
            PrefixNode::Branch(branch) => &branch.children,
        }
    }

    /// Gets a mutable reference to children of node.
    pub fn children_mut(&mut self) -> (r: &mut C::PrefixCharMap)
        ensures
            forall|c: u8| (*r).spec_get(c) == old(self).spec_child(c),
            forall|c: u8| final(self).spec_child(c) == (*final(r)).spec_get(c),
            final(self).spec_word() == old(self).spec_word(),
            (*final(self)) is Leaf <==> (*old(self)) is Leaf,
    {
        match self {
            PrefixNode::Leaf(leaf) => &mut leaf.children,
            PrefixNode::Branch(branch) => &mut branch.children,
        }
    }

    /// Registers `val` as the child under code `ch`.
    pub(crate) fn insert_child(&mut self, ch: u8, val: usize)
        requires
            C::PrefixCharMap::spec_valid(ch),
        ensures
            final(self).spec_child(ch) == Some(val),
            forall|c: u8| c != ch ==> final(self).spec_child(c) == old(self).spec_child(c),
            final(self).spec_word() == old(self).spec_word(),
            (*final(self)) is Leaf <==> (*old(self)) is Leaf,
    {
        match self {
            PrefixNode::Leaf(leaf) => leaf.children.insert(ch, val),
            PrefixNode::Branch(branch) => branch.children.insert(ch, val),
        }
    }

    /// Overwrites this node's children with a copy of another node's children.
    pub(crate) fn copy_children_from(&mut self, other: &PrefixNode<C>)
        ensures
            forall|c: u8| final(self).spec_child(c) == other.spec_child(c),
            final(self).spec_word() == old(self).spec_word(),
            (*final(self)) is Leaf <==> (*old(self)) is Leaf,
    {
        match self {
            PrefixNode::Leaf(leaf) => leaf.children.copy_from(other.children()),
            PrefixNode::Branch(branch) => branch.children.copy_from(other.children()),
        }
    }

    /// Gets node word.
    pub fn word(&self) -> (r: Option<usize>)
        ensures
            r == self.spec_word(),
            r is Some <==> self is Leaf,
    {
        match self {
            PrefixNode::Leaf(leaf) => Some(leaf.word),
            PrefixNode::Branch(_) => None,
        }
    }
}

impl<C: Charset> PrefixLeaf<C> {
    /// Create a [PrefixLeaf] with no children.
    pub fn new(word: usize) -> (r: Self)
        ensures
            r.word == word,
            forall|c: u8| r.children.spec_get(c) is None,
    {
        PrefixLeaf { children: C::PrefixCharMap::empty(), word }
    }
}

} // verus!
