//! The quadtree: every node carries a palette index, and an inner node
//! has four children, one for each quadrant of its square.

pub mod bits;
pub mod draw;
pub mod image;
pub mod mount;
pub mod qim;
pub mod roundtrip;
pub mod trim;

use vstd::prelude::*;

verus! {

/// A node of the quadtree.
///
/// A leaf stands for a square of one colour. An inner node stands for a
/// square cut into four; its own colour represents the whole square for a
/// viewer that descends no further.
#[derive(Debug, PartialEq, Eq)]
pub struct QuadtreeNode {
    /// The palette index of the node's colour.
    pub color: u32,
    /// The four children of an inner node; `None` in a leaf.
    pub sections: Option<Box<Quadrants>>,
}

/// The children of an inner node, by quadrant.
#[derive(Debug, PartialEq, Eq)]
pub struct Quadrants {
    /// The north-west quadrant, first in every traversal.
    pub nw: QuadtreeNode,
    /// The north-east quadrant, second.
    pub ne: QuadtreeNode,
    /// The south-west quadrant, third.
    pub sw: QuadtreeNode,
    /// The south-east quadrant, fourth.
    pub se: QuadtreeNode,
}

impl Quadrants {
    /// The child in quadrant `q`, counted from 0 in the order north-west,
    /// north-east, south-west, south-east.
    pub open spec fn at(self, q: int) -> QuadtreeNode {
        if q == 0 {
            self.nw
        } else if q == 1 {
            self.ne
        } else if q == 2 {
            self.sw
        } else {
            self.se
        }
    }

    /// Whether all four children are leaves.
    pub open spec fn all_leaves(self) -> bool {
        self.nw.sections is None && self.ne.sections is None && self.sw.sections is None
            && self.se.sections is None
    }

    /// The child in quadrant `q`, counted from 0 in the order north-west,
    /// north-east, south-west, south-east; quadrants above 3 give the last.
    pub fn get(&self, q: u8) -> (child: &QuadtreeNode)
        ensures
            *child == self.at(q as int),
    {
        if q == 0 {
            &self.nw
        } else if q == 1 {
            &self.ne
        } else if q == 2 {
            &self.sw
        } else {
            &self.se
        }
    }

    /// Whether all four children are leaves.
    pub fn leaves_only(&self) -> (all: bool)
        ensures
            all == self.all_leaves(),
    {
        self.nw.sections.is_none() && self.ne.sections.is_none() && self.sw.sections.is_none()
            && self.se.sections.is_none()
    }
}

impl QuadtreeNode {
    /// A leaf of colour `color`.
    pub open spec fn spec_leaf(color: u32) -> QuadtreeNode {
        QuadtreeNode { color, sections: None }
    }

    /// An inner node of colour `color` over the given children.
    pub open spec fn spec_inner(
        color: u32,
        nw: QuadtreeNode,
        ne: QuadtreeNode,
        sw: QuadtreeNode,
        se: QuadtreeNode,
    ) -> QuadtreeNode {
        QuadtreeNode { color, sections: Some(Box::new(Quadrants { nw, ne, sw, se })) }
    }

    /// Whether every colour in the tree is below `bound`.
    pub open spec fn colors_below(self, bound: int) -> bool
        decreases self,
    {
        &&& self.color < bound
        &&& match self.sections {
            None => true,
            Some(q) => q.nw.colors_below(bound) && q.ne.colors_below(bound) && q.sw.colors_below(
                bound,
            ) && q.se.colors_below(bound),
        }
    }

    /// The number of nodes in the tree.
    pub open spec fn node_count(self) -> nat
        decreases self,
    {
        match self.sections {
            None => 1,
            Some(q) => 1 + q.nw.node_count() + q.ne.node_count() + q.sw.node_count()
                + q.se.node_count(),
        }
    }

    /// The number of levels below the root: 0 for a leaf.
    pub open spec fn height(self) -> nat
        decreases self,
    {
        match self.sections {
            None => 0,
            Some(q) => {
                let a = q.nw.height();
                let b = q.ne.height();
                let c = q.sw.height();
                let d = q.se.height();
                let ab = if a >= b {
                    a
                } else {
                    b
                };
                let cd = if c >= d {
                    c
                } else {
                    d
                };
                1 + if ab >= cd {
                    ab
                } else {
                    cd
                }
            },
        }
    }

    /// The node reached from here by the quadrants of `path` in turn, if
    /// the tree goes that deep.
    pub open spec fn descend(self, path: Seq<int>) -> Option<QuadtreeNode>
        decreases path.len(),
    {
        if path.len() == 0 {
            Some(self)
        } else {
            match self.sections {
                None => None,
                Some(q) => if 0 <= path[0] < 4 {
                    q.at(path[0]).descend(path.skip(1))
                } else {
                    None
                },
            }
        }
    }

    /// Whether an inner node stands at the position that `path` leads to.
    pub open spec fn inner_at(self, path: Seq<int>) -> bool {
        match self.descend(path) {
            Some(n) => n.sections is Some,
            None => false,
        }
    }

    /// A leaf of colour `color`.
    pub fn leaf(color: u32) -> (n: QuadtreeNode)
        ensures
            n == QuadtreeNode::spec_leaf(color),
    {
        QuadtreeNode { color, sections: None }
    }

    /// An inner node of colour `color` over the given children.
    pub fn inner(
        color: u32,
        nw: QuadtreeNode,
        ne: QuadtreeNode,
        sw: QuadtreeNode,
        se: QuadtreeNode,
    ) -> (n: QuadtreeNode)
        ensures
            n == QuadtreeNode::spec_inner(color, nw, ne, sw, se),
    {
        QuadtreeNode { color, sections: Some(Box::new(Quadrants { nw, ne, sw, se })) }
    }

    /// Whether the node has no children.
    pub fn is_leaf(&self) -> (leaf: bool)
        ensures
            leaf == (self.sections is None),
    {
        self.sections.is_none()
    }

    /// Whether every colour in the tree is below `bound`.
    pub fn all_colors_below(&self, bound: u64) -> (ok: bool)
        ensures
            ok == self.colors_below(bound as int),
        decreases self,
    {
        if self.color as u64 >= bound {
            return false;
        }
        match &self.sections {
            None => true,
            Some(q) => q.nw.all_colors_below(bound) && q.ne.all_colors_below(bound)
                && q.sw.all_colors_below(bound) && q.se.all_colors_below(bound),
        }
    }
}

impl QuadtreeNode {
    /// A copy of the tree.
    pub fn duplicate(&self) -> (copy: QuadtreeNode)
        ensures
            copy == *self,
        decreases self,
    {
        match &self.sections {
            None => QuadtreeNode { color: self.color, sections: None },
            Some(q) => QuadtreeNode {
                color: self.color,
                sections: Some(
                    Box::new(
                        Quadrants {
                            nw: q.nw.duplicate(),
                            ne: q.ne.duplicate(),
                            sw: q.sw.duplicate(),
                            se: q.se.duplicate(),
                        },
                    ),
                ),
            },
        }
    }
}

impl Clone for QuadtreeNode {
    fn clone(&self) -> (copy: Self)
        ensures
            copy == *self,
    {
        self.duplicate()
    }
}

impl Default for QuadtreeNode {
    /// The empty tree: a single leaf of colour 0.
    fn default() -> (n: Self)
        ensures
            n == QuadtreeNode::spec_leaf(0),
    {
        QuadtreeNode { color: 0, sections: None }
    }
}

} // verus!
