//! The nodes of the Huffman tree, together with the mathematical tree
//! model that the contracts of the builder and the code assigner use.

use vstd::prelude::*;
use crate::SPECIAL_CHAR;

verus! {

/// Mathematical model of a Huffman tree: a leaf carries one symbol and
/// its frequency, a branch carries the summed frequency of its two
/// children.  Contracts speak of this model; `Node` is its executable
/// counterpart.
pub enum HuffTree {
    Leaf { sym: char, freq: nat },
    Branch { freq: nat, left: Box<HuffTree>, right: Box<HuffTree> },
}

impl HuffTree {
    /// The frequency stored at the root of the tree.
    pub open spec fn freq(self) -> nat {
        match self {
            HuffTree::Leaf { freq, .. } => freq,
            HuffTree::Branch { freq, .. } => freq,
        }
    }

    /// The set of symbols found at the leaves.
    pub open spec fn syms(self) -> Set<char>
        decreases self,
    {
        match self {
            HuffTree::Leaf { sym, .. } => set![sym],
            HuffTree::Branch { left, right, .. } => left.syms() + right.syms(),
        }
    }

    /// No symbol appears at two different leaves.
    pub open spec fn distinct_syms(self) -> bool
        decreases self,
    {
        match self {
            HuffTree::Leaf { .. } => true,
            HuffTree::Branch { left, right, .. } => {
                &&& left.distinct_syms()
                &&& right.distinct_syms()
                &&& left.syms().disjoint(right.syms())
            },
        }
    }
}

pub type Link = Option<Box<Node>>;

/// One node of the executable Huffman tree.  `code` is written by the
/// code assigner after the tree is built; before that it is empty.
pub struct Node {
    /// The symbol, or `SPECIAL_CHAR` on an internal node.
    pub data: char,
    /// The frequency of `data` in the text, or the children's sum.
    pub freq: usize,
    /// Left child.
    pub l: Link,
    /// Right child.
    pub r: Link,
    /// The bit code assigned to this node by the tree traversal.
    pub code: Vec<bool>,
}

impl Node {
    /// A node is either a leaf (no children) or an internal node with
    /// two children and the internal marker as its `data`.
    pub open spec fn wf(self) -> bool
        decreases self,
    {
        &&& (self.l is Some <==> self.r is Some)
        &&& (self.l is Some ==> {
            &&& self.l->0.wf()
            &&& self.r->0.wf()
            &&& self.data == SPECIAL_CHAR
        })
    }

    /// The mathematical tree this node represents; the `code` fields
    /// are no part of the model.
    pub open spec fn as_tree(self) -> HuffTree
        decreases self,
    {
        if self.l is Some && self.r is Some {
            HuffTree::Branch {
                freq: self.freq as nat,
                left: Box::new(self.l->0.as_tree()),
                right: Box::new(self.r->0.as_tree()),
            }
        } else {
            HuffTree::Leaf { sym: self.data, freq: self.freq as nat }
        }
    }

    /// A fresh leaf for one symbol and its frequency.
    pub fn new_default(data: char, freq: usize) -> (n: Node)
        ensures
            n.wf(),
            n.as_tree() == (HuffTree::Leaf { sym: data, freq: freq as nat }),
            n.data == data,
            n.freq == freq,
            n.l is None,
            n.r is None,
            n.code@ == Seq::<bool>::empty(),
    {
        Node { data, freq, l: None, r: None, code: Vec::new() }
    }

    /// A node built from all five fields.
    pub fn new_param(data: char, freq: usize, l: Link, r: Link, code: Vec<bool>) -> (n: Node)
        ensures
            n.data == data,
            n.freq == freq,
            n.l == l,
            n.r == r,
            n.code == code,
    {
        Node { data, freq, l, r, code }
    }
}

} // verus!

