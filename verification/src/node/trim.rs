//! Trimming: a cheap pass that turns some groups of four leaves into one
//! leaf, by how often each colour occurs among the four.

use crate::node::{Quadrants, QuadtreeNode};
use vstd::prelude::*;

verus! {

/// How many of the four values equal `x`.
pub open spec fn occurrences(x: u32, a: u32, b: u32, c: u32, d: u32) -> nat {
    (if a == x { 1nat } else { 0nat }) + (if b == x { 1nat } else { 0nat }) + (if c == x { 1nat } else { 0nat })
        + (if d == x { 1nat } else { 0nat })
}

/// How many different values the four are.
pub open spec fn distinct_count(a: u32, b: u32, c: u32, d: u32) -> nat {
    1 + (if b != a { 1nat } else { 0nat }) + (if c != a && c != b { 1nat } else { 0nat }) + (if d != a && d != b
        && d != c { 1nat } else { 0nat })
}

/// Whether one of the four values occurs exactly three times.
pub open spec fn has_triple(a: u32, b: u32, c: u32, d: u32) -> bool {
    occurrences(a, a, b, c, d) == 3 || occurrences(b, a, b, c, d) == 3
}

/// Whether four leaves of these colours are merged: they are of exactly
/// three colours, or of exactly two of which one occurs three times.
pub open spec fn merges(a: u32, b: u32, c: u32, d: u32) -> bool {
    distinct_count(a, b, c, d) == 3 || (distinct_count(a, b, c, d) == 2 && has_triple(a, b, c, d))
}

impl Quadrants {
    /// Whether these four children, all of them leaves, are merged.
    pub open spec fn merged(self) -> bool {
        merges(self.nw.color, self.ne.color, self.sw.color, self.se.color)
    }
}

impl QuadtreeNode {
    /// The tree after one trimming pass with the depth budget `depth`.
    ///
    /// An inner node whose four children are leaves, reached with a budget
    /// of zero or less, becomes a leaf of its own colour where the
    /// children's colours merge, and stays as it is where they do not.
    /// Below every other inner node the pass goes on with the budget less
    /// one.
    pub open spec fn trimmed(self, depth: int) -> QuadtreeNode
        decreases self,
    {
        match self.sections {
            None => self,
            Some(q) => if depth <= 0 && q.all_leaves() {
                if q.merged() {
                    QuadtreeNode::spec_leaf(self.color)
                } else {
                    self
                }
            } else {
                QuadtreeNode::spec_inner(
                    self.color,
                    q.nw.trimmed(depth - 1),
                    q.ne.trimmed(depth - 1),
                    q.sw.trimmed(depth - 1),
                    q.se.trimmed(depth - 1),
                )
            },
        }
    }

    /// Whether a trimming pass with the budget `depth` finds nothing to
    /// merge in the tree.
    pub open spec fn settled(self, depth: int) -> bool
        decreases self,
    {
        match self.sections {
            None => true,
            Some(q) => if depth <= 0 && q.all_leaves() {
                !q.merged()
            } else {
                q.nw.settled(depth - 1) && q.ne.settled(depth - 1) && q.sw.settled(depth - 1)
                    && q.se.settled(depth - 1)
            },
        }
    }

    /// Whether the tree is a leaf or an inner node over four leaves.
    pub open spec fn flat(self) -> bool {
        match self.sections {
            None => true,
            Some(q) => q.all_leaves(),
        }
    }

    /// Trims the tree once with the depth budget `depth`.
    pub fn trim(&mut self, depth: isize)
        ensures
            *final(self) == old(self).trimmed(depth as int),
        decreases *old(self),
    {
        let mut merge: bool = false;
        match &mut self.sections {
            None => {},
            Some(q) => {
                if depth <= 0 && q.leaves_only() {
                    merge = colors_merge(q.nw.color, q.ne.color, q.sw.color, q.se.color);
                } else {
                    let below: isize = if depth > isize::MIN {
                        depth - 1
                    } else {
                        depth
                    };
                    proof {
                        lemma_spent_budget(q.nw, depth - 1, below as int);
                        lemma_spent_budget(q.ne, depth - 1, below as int);
                        lemma_spent_budget(q.sw, depth - 1, below as int);
                        lemma_spent_budget(q.se, depth - 1, below as int);
                    }
                    q.nw.trim(below);
                    q.ne.trim(below);
                    q.sw.trim(below);
                    q.se.trim(below);
                }
            },
        }
        if merge {
            self.sections = None;
        }
    }
}

/// Whether four leaves of these colours are merged by a trimming pass.
pub fn colors_merge(a: u32, b: u32, c: u32, d: u32) -> (m: bool)
    ensures
        m == merges(a, b, c, d),
{
    let mut distinct: u8 = 1;
    if b != a {
        distinct = distinct + 1;
    }
    if c != a && c != b {
        distinct = distinct + 1;
    }
    if d != a && d != b && d != c {
        distinct = distinct + 1;
    }
    let mut like_a: u8 = 1;
    if b == a {
        like_a = like_a + 1;
    }
    if c == a {
        like_a = like_a + 1;
    }
    if d == a {
        like_a = like_a + 1;
    }
    let mut like_b: u8 = 1;
    if a == b {
        like_b = like_b + 1;
    }
    if c == b {
        like_b = like_b + 1;
    }
    if d == b {
        like_b = like_b + 1;
    }
    distinct == 3 || (distinct == 2 && (like_a == 3 || like_b == 3))
}

/// Once the budget is spent, how far below zero it lies makes no
/// difference.
pub proof fn lemma_spent_budget(t: QuadtreeNode, d1: int, d2: int)
    requires
        d1 == d2 || (d1 <= 0 && d2 <= 0),
    ensures
        t.trimmed(d1) == t.trimmed(d2),
        t.settled(d1) == t.settled(d2),
    decreases t,
{
    match t.sections {
        None => {},
        Some(q) => {
            lemma_spent_budget(q.nw, d1 - 1, d2 - 1);
            lemma_spent_budget(q.ne, d1 - 1, d2 - 1);
            lemma_spent_budget(q.sw, d1 - 1, d2 - 1);
            lemma_spent_budget(q.se, d1 - 1, d2 - 1);
        },
    }
}

/// A pass over a tree in which nothing merges leaves the tree as it is.
pub proof fn law_trim_settled(t: QuadtreeNode, depth: int)
    requires
        t.settled(depth),
    ensures
        t.trimmed(depth) == t,
    decreases t,
{
    match t.sections {
        None => {},
        Some(q) => {
            if depth <= 0 && q.all_leaves() {
            } else {
                law_trim_settled(q.nw, depth - 1);
                law_trim_settled(q.ne, depth - 1);
                law_trim_settled(q.sw, depth - 1);
                law_trim_settled(q.se, depth - 1);
            }
        },
    }
}

/// A pass that leaves a tree as it is has found nothing to merge in it.
pub proof fn law_trim_unchanged(t: QuadtreeNode, depth: int)
    requires
        t.trimmed(depth) == t,
    ensures
        t.settled(depth),
    decreases t,
{
    match t.sections {
        None => {},
        Some(q) => {
            if depth <= 0 && q.all_leaves() {
            } else {
                let once = t.trimmed(depth);
                assert(once.sections->0.nw == q.nw.trimmed(depth - 1));
                assert(once.sections->0.ne == q.ne.trimmed(depth - 1));
                assert(once.sections->0.sw == q.sw.trimmed(depth - 1));
                assert(once.sections->0.se == q.se.trimmed(depth - 1));
                law_trim_unchanged(q.nw, depth - 1);
                law_trim_unchanged(q.ne, depth - 1);
                law_trim_unchanged(q.sw, depth - 1);
                law_trim_unchanged(q.se, depth - 1);
            }
        },
    }
}

/// A second pass with the same budget changes nothing, where the first
/// pass has left no four leaves that merge, and only there.
pub proof fn law_trim_twice(t: QuadtreeNode, depth: int)
    ensures
        t.trimmed(depth).settled(depth) <==> t.trimmed(depth).trimmed(depth) == t.trimmed(depth),
{
    if t.trimmed(depth).settled(depth) {
        law_trim_settled(t.trimmed(depth), depth);
    }
    if t.trimmed(depth).trimmed(depth) == t.trimmed(depth) {
        law_trim_unchanged(t.trimmed(depth), depth);
    }
}

/// On a leaf and on a node over four leaves, trimming twice with the same
/// budget gives what trimming once gives.
pub proof fn law_trim_idempotent_flat(t: QuadtreeNode, depth: int)
    requires
        t.flat(),
    ensures
        t.trimmed(depth).trimmed(depth) == t.trimmed(depth),
{
    match t.sections {
        None => {},
        Some(q) => {
            if depth <= 0 {
            } else {
                assert(q.nw.trimmed(depth - 1) == q.nw);
                assert(q.ne.trimmed(depth - 1) == q.ne);
                assert(q.sw.trimmed(depth - 1) == q.sw);
                assert(q.se.trimmed(depth - 1) == q.se);
                let once = t.trimmed(depth);
                assert(once.sections->0.nw == q.nw);
                assert(once.sections->0.ne == q.ne);
                assert(once.sections->0.sw == q.sw);
                assert(once.sections->0.se == q.se);
            }
        },
    }
}

/// Trimming keeps every colour index that was below a bound below it.
pub proof fn lemma_trim_keeps_colors(t: QuadtreeNode, depth: int, bound: int)
    requires
        t.colors_below(bound),
    ensures
        t.trimmed(depth).colors_below(bound),
    decreases t,
{
    match t.sections {
        None => {},
        Some(q) => {
            lemma_trim_keeps_colors(q.nw, depth - 1, bound);
            lemma_trim_keeps_colors(q.ne, depth - 1, bound);
            lemma_trim_keeps_colors(q.sw, depth - 1, bound);
            lemma_trim_keeps_colors(q.se, depth - 1, bound);
        },
    }
}

} // verus!
