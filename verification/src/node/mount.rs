//! Building a quadtree from a square of palette indices.
//!
//! A square of side 1 is a leaf. A larger square is cut into four, each
//! quarter is built, and the four are merged into one leaf where all of
//! them are leaves and their colours are uniform enough.

use crate::error::MountError;
use crate::node::QuadtreeNode;
use crate::quantization::palette::{entry_at, index_space, Color, Palette};
use crate::quantization::{
    color_distance, color_distance_spec, lemma_nearest, nearest, nearest_or_first,
    palette_entries,
};
use vstd::arithmetic::power2::pow2;
use vstd::prelude::*;

verus! {

/// The top of the uniformity scale: four equal colours are this uniform.
pub const FULL_UNIFORMITY: u32 = 16384;

/// Whether `n` is a power of four.
pub open spec fn is_power_of_four(n: nat) -> bool
    decreases n,
{
    n == 1 || (n >= 4 && n % 4 == 0 && is_power_of_four(n / 4))
}

/// The side of a square of `n` cells, for a power of four `n`.
pub open spec fn side_of(n: nat) -> nat
    decreases n,
{
    if n < 4 {
        1
    } else {
        2 * side_of(n / 4)
    }
}

/// The mean of four colours, each channel on its own and rounded down.
pub open spec fn average(a: Color, b: Color, c: Color, d: Color) -> Color {
    Color {
        r: ((a.r + b.r + c.r + d.r) / 4) as u8,
        g: ((a.g + b.g + c.g + d.g) / 4) as u8,
        b: ((a.b + b.b + c.b + d.b) / 4) as u8,
        a: ((a.a + b.a + c.a + d.a) / 4) as u8,
    }
}

/// The larger of two numbers.
pub open spec fn larger(a: int, b: int) -> int {
    if a >= b {
        a
    } else {
        b
    }
}

/// The greatest squared distance between two of four colours.
pub open spec fn spread(a: Color, b: Color, c: Color, d: Color) -> int {
    larger(
        larger(
            larger(color_distance_spec(a, b), color_distance_spec(a, c)),
            larger(color_distance_spec(a, d), color_distance_spec(b, c)),
        ),
        larger(color_distance_spec(b, d), color_distance_spec(c, d)),
    )
}

/// How uniform four colours are: 16384 less their spread, and 0 where
/// that would be negative.
pub open spec fn uniformity(a: Color, b: Color, c: Color, d: Color) -> int {
    if spread(a, b, c, d) >= 16384 {
        0
    } else {
        16384 - spread(a, b, c, d)
    }
}

/// The colour index that represents four quarters of the colours with
/// the indices `a`, `b`, `c` and `d`: the listed colour nearest to their
/// mean.
pub open spec fn representative(listed: Seq<Color>, a: u32, b: u32, c: u32, d: u32) -> u32 {
    nearest(
        average(
            entry_at(listed, a as int),
            entry_at(listed, b as int),
            entry_at(listed, c as int),
            entry_at(listed, d as int),
        ),
        listed,
    ) as u32
}

/// Whether four leaves of these colour indices are uniform enough for the
/// sensitivity to be merged.
pub open spec fn uniform_enough(
    listed: Seq<Color>,
    a: u32,
    b: u32,
    c: u32,
    d: u32,
    sensitivity: int,
) -> bool {
    uniformity(
        entry_at(listed, a as int),
        entry_at(listed, b as int),
        entry_at(listed, c as int),
        entry_at(listed, d as int),
    ) >= sensitivity
}

/// The tree of the square of side `n` whose top left cell is column `x`
/// of row `y`, in a grid of `side` cells a row.
pub open spec fn region_tree(
    indices: Seq<u32>,
    side: int,
    x: int,
    y: int,
    n: nat,
    listed: Seq<Color>,
    sensitivity: int,
) -> QuadtreeNode
    decreases n,
{
    if n <= 1 {
        QuadtreeNode::spec_leaf(indices[y * side + x])
    } else {
        let h = n / 2;
        let nw = region_tree(indices, side, x, y, h, listed, sensitivity);
        let ne = region_tree(indices, side, x + h, y, h, listed, sensitivity);
        let sw = region_tree(indices, side, x, y + h, h, listed, sensitivity);
        let se = region_tree(indices, side, x + h, y + h, h, listed, sensitivity);
        let color = representative(listed, nw.color, ne.color, sw.color, se.color);
        if nw.sections is None && ne.sections is None && sw.sections is None && se.sections is None
            && uniform_enough(listed, nw.color, ne.color, sw.color, se.color, sensitivity) {
            QuadtreeNode::spec_leaf(color)
        } else {
            QuadtreeNode::spec_inner(color, nw, ne, sw, se)
        }
    }
}

/// The tree of a whole square of indices, row after row.
pub open spec fn mounted_tree(indices: Seq<u32>, listed: Seq<Color>, sensitivity: int) -> QuadtreeNode {
    region_tree(
        indices,
        side_of(indices.len()) as int,
        0,
        0,
        side_of(indices.len()),
        listed,
        sensitivity,
    )
}

/// Whether every index is below `bound`.
pub open spec fn indices_below(indices: Seq<u32>, bound: int) -> bool {
    forall|k: int| 0 <= k < indices.len() ==> (#[trigger] indices[k]) < bound
}

/// The square of the side of a power of four is that power.
pub proof fn lemma_side_of(n: nat)
    requires
        is_power_of_four(n),
    ensures
        side_of(n) * side_of(n) == n,
        side_of(n) >= 1,
    decreases n,
{
    if n >= 4 {
        lemma_side_of(n / 4);
        let s = side_of(n / 4);
        assert(side_of(n) == 2 * s);
        assert((2 * s) * (2 * s) == 4 * (s * s)) by (nonlinear_arith);
        assert(n == 4 * (n / 4));
    } else {
        assert(n == 1);
        assert(side_of(n) == 1);
        assert(1 * 1 == 1) by (nonlinear_arith);
    }
}

/// A cell of a square inside a grid has its offset inside the grid.
pub proof fn lemma_cell(side: int, x: int, y: int)
    requires
        0 <= x < side,
        0 <= y < side,
    ensures
        0 <= y * side + x < side * side,
{
    crate::raster::lemma_position(x, y, side, side);
}

/// The colour of entry `index`: the listed one, or transparent black
/// behind the list.
pub fn entry_of(entries: &[Color], index: u32) -> (c: Color)
    ensures
        c == entry_at(entries@, index as int),
{
    if (index as usize) < entries.len() {
        entries[index as usize]
    } else {
        Color { r: 0, g: 0, b: 0, a: 0 }
    }
}

/// The mean of four colours.
pub fn average_of(a: &Color, b: &Color, c: &Color, d: &Color) -> (m: Color)
    ensures
        m == average(*a, *b, *c, *d),
{
    Color {
        r: ((a.r as u16 + b.r as u16 + c.r as u16 + d.r as u16) / 4) as u8,
        g: ((a.g as u16 + b.g as u16 + c.g as u16 + d.g as u16) / 4) as u8,
        b: ((a.b as u16 + b.b as u16 + c.b as u16 + d.b as u16) / 4) as u8,
        a: ((a.a as u16 + b.a as u16 + c.a as u16 + d.a as u16) / 4) as u8,
    }
}

/// How uniform four colours are, from 0 to 16384.
pub fn uniformity_of(a: &Color, b: &Color, c: &Color, d: &Color) -> (u: u32)
    ensures
        u == uniformity(*a, *b, *c, *d),
        u <= 16384,
{
    let mut most: u32 = color_distance(a, b);
    let ac: u32 = color_distance(a, c);
    if ac > most {
        most = ac;
    }
    let ad: u32 = color_distance(a, d);
    if ad > most {
        most = ad;
    }
    let bc: u32 = color_distance(b, c);
    if bc > most {
        most = bc;
    }
    let bd: u32 = color_distance(b, d);
    if bd > most {
        most = bd;
    }
    let cd: u32 = color_distance(c, d);
    if cd > most {
        most = cd;
    }
    if most >= FULL_UNIFORMITY {
        0
    } else {
        FULL_UNIFORMITY - most
    }
}

/// Builds the tree of one square of the grid.
pub(crate) fn build_region(
    indices: &[u32],
    side: usize,
    x: usize,
    y: usize,
    n: usize,
    entries: &[Color],
    sensitivity: usize,
) -> (t: QuadtreeNode)
    requires
        side * side == indices@.len(),
        n >= 1,
        x + n <= side,
        y + n <= side,
        entries@.len() <= 0x1_0000_0000,
    ensures
        t == region_tree(
            indices@,
            side as int,
            x as int,
            y as int,
            n as nat,
            entries@,
            sensitivity as int,
        ),
    decreases n,
{
    if n <= 1 {
        proof {
            lemma_cell(side as int, x as int, y as int);
        }
        let len: usize = indices.len();
        assert(y * side <= side * side) by (nonlinear_arith)
            requires
                0 <= y <= side,
        ;
        return QuadtreeNode { color: indices[y * side + x], sections: None };
    }
    let h: usize = n / 2;
    let nw = build_region(indices, side, x, y, h, entries, sensitivity);
    let ne = build_region(indices, side, x + h, y, h, entries, sensitivity);
    let sw = build_region(indices, side, x, y + h, h, entries, sensitivity);
    let se = build_region(indices, side, x + h, y + h, h, entries, sensitivity);
    let c0 = entry_of(entries, nw.color);
    let c1 = entry_of(entries, ne.color);
    let c2 = entry_of(entries, sw.color);
    let c3 = entry_of(entries, se.color);
    let mean = average_of(&c0, &c1, &c2, &c3);
    let color: u32 = nearest_or_first(entries, &mean);
    if nw.sections.is_none() && ne.sections.is_none() && sw.sections.is_none()
        && se.sections.is_none() && uniformity_of(&c0, &c1, &c2, &c3) as usize >= sensitivity {
        QuadtreeNode { color, sections: None }
    } else {
        QuadtreeNode::inner(color, nw, ne, sw, se)
    }
}

/// The side of a square of `len` cells, where `len` is a power of four.
pub fn square_side(len: usize) -> (side: Option<usize>)
    ensures
        side is Some <==> is_power_of_four(len as nat),
        side matches Some(s) ==> s == side_of(len as nat) && s * s == len,
{
    if len == 0 {
        return None;
    }
    let mut n: usize = len;
    let mut side: usize = 1;
    assert(1 * 1 * len == len && 1 * side_of(len as nat) == side_of(len as nat))
        by (nonlinear_arith);
    while n > 1 && n % 4 == 0
        invariant
            n >= 1,
            side >= 1,
            side * side * n == len,
            is_power_of_four(n as nat) == is_power_of_four(len as nat),
            side * side_of(n as nat) == side_of(len as nat),
        decreases n,
    {
        proof {
            assert((2 * side) * (2 * side) * (n / 4) == side * side * n) by (nonlinear_arith)
                requires
                    n % 4 == 0,
            ;
            assert((2 * side) * side_of((n / 4) as nat) == side * (2 * side_of((n / 4) as nat)))
                by (nonlinear_arith);
            assert(2 * side <= (2 * side) * (2 * side) * (n / 4)) by (nonlinear_arith)
                requires
                    side >= 1,
                    n / 4 >= 1,
            ;
        }
        n = n / 4;
        side = side * 2;
    }
    if n == 1 {
        assert(side * side * 1 == side * side) by (nonlinear_arith);
        assert(side * 1 == side) by (nonlinear_arith);
        Some(side)
    } else {
        None
    }
}

/// Whether every index is below `bound`.
pub fn all_below(indices: &[u32], bound: u64) -> (ok: bool)
    ensures
        ok == indices_below(indices@, bound as int),
{
    let mut k: usize = 0;
    while k < indices.len()
        invariant
            k <= indices@.len(),
            forall|j: int| 0 <= j < k ==> (#[trigger] indices@[j]) < bound,
        decreases indices.len() - k,
    {
        if indices[k] as u64 >= bound {
            return false;
        }
        k = k + 1;
    }
    true
}

impl QuadtreeNode {
    /// Makes this node the tree of a square of palette indices, given row
    /// after row.
    ///
    /// Four leaves are merged where their uniformity is at least
    /// `sensitivity`. A node's colour is the listed palette colour
    /// nearest to the mean of its quarters' colours. `gradient` tells how
    /// the tree is meant to be drawn and does not change the tree.
    ///
    /// It fails, and leaves the node as it is, where the number of
    /// indices is not a power of four, or else where an index is not an
    /// index of the palette.
    pub fn mount<P: Palette>(
        &mut self,
        indices: &[u32],
        palette: &P,
        sensitivity: usize,
        gradient: bool,
    ) -> (r: Result<(), MountError>)
        requires
            palette.wf(),
        ensures
            match r {
                Ok(()) => {
                    &&& is_power_of_four(indices@.len())
                    &&& indices_below(indices@, pow2(palette.spec_width()) as int)
                    &&& *final(self) == mounted_tree(
                        indices@,
                        palette.listed(),
                        sensitivity as int,
                    )
                    &&& final(self).colors_below(pow2(palette.spec_width()) as int)
                },
                Err(e) => {
                    &&& *final(self) == *old(self)
                    &&& e == if !is_power_of_four(indices@.len()) {
                        MountError::InvalidSize
                    } else {
                        MountError::ColorOutOfRange
                    }
                    &&& is_power_of_four(indices@.len()) ==> !indices_below(
                        indices@,
                        pow2(palette.spec_width()) as int,
                    )
                },
            },
    {
        let _ = gradient;
        let side: usize = match square_side(indices.len()) {
            Some(side) => side,
            None => {
                return Err(MountError::InvalidSize);
            },
        };
        let width: u8 = palette.width();
        if !all_below(indices, index_space(width)) {
            return Err(MountError::ColorOutOfRange);
        }
        let entries = palette_entries(palette);
        let tree = build_region(indices, side, 0, 0, side, entries.as_slice(), sensitivity);
        proof {
            palette.lemma_wf();
            vstd::arithmetic::power2::lemma_pow2_pos(palette.spec_width());
            lemma_region_colors(
                indices@,
                side as int,
                0,
                0,
                side as nat,
                palette.listed(),
                sensitivity as int,
                pow2(palette.spec_width()) as int,
            );
        }
        *self = tree;
        Ok(())
    }
}

/// Every colour of a freshly built tree is an index of the palette: the
/// leaves carry indices of the grid, and every representative is the
/// index of a listed colour.
pub proof fn lemma_region_colors(
    indices: Seq<u32>,
    side: int,
    x: int,
    y: int,
    n: nat,
    listed: Seq<Color>,
    sensitivity: int,
    bound: int,
)
    requires
        side * side == indices.len(),
        n >= 1,
        0 <= x,
        0 <= y,
        x + n <= side,
        y + n <= side,
        indices_below(indices, bound),
        listed.len() <= bound,
        bound >= 1,
    ensures
        region_tree(indices, side, x, y, n, listed, sensitivity).colors_below(bound),
    decreases n,
{
    if n <= 1 {
        lemma_cell(side, x, y);
    } else {
        let h = n / 2;
        lemma_region_colors(indices, side, x, y, h, listed, sensitivity, bound);
        lemma_region_colors(indices, side, x + h as int, y, h, listed, sensitivity, bound);
        lemma_region_colors(indices, side, x, y + h as int, h, listed, sensitivity, bound);
        lemma_region_colors(indices, side, x + h as int, y + h as int, h, listed, sensitivity, bound);
        let nw = region_tree(indices, side, x, y, h, listed, sensitivity);
        let ne = region_tree(indices, side, x + h as int, y, h, listed, sensitivity);
        let sw = region_tree(indices, side, x, y + h as int, h, listed, sensitivity);
        let se = region_tree(indices, side, x + h as int, y + h as int, h, listed, sensitivity);
        let mean = average(
            entry_at(listed, nw.color as int),
            entry_at(listed, ne.color as int),
            entry_at(listed, sw.color as int),
            entry_at(listed, se.color as int),
        );
        if listed.len() > 0 {
            lemma_nearest(mean, listed);
        }
    }
}

/// The colour of a node does not depend on the sensitivity, and a square
/// that is one leaf under a sensitivity is one leaf under every lower
/// one.
pub proof fn lemma_sensitivity(
    indices: Seq<u32>,
    side: int,
    x: int,
    y: int,
    n: nat,
    listed: Seq<Color>,
    low: int,
    high: int,
)
    requires
        low <= high,
    ensures
        region_tree(indices, side, x, y, n, listed, low).color == region_tree(
            indices,
            side,
            x,
            y,
            n,
            listed,
            high,
        ).color,
        region_tree(indices, side, x, y, n, listed, high).sections is None ==> region_tree(
            indices,
            side,
            x,
            y,
            n,
            listed,
            low,
        ).sections is None,
    decreases n,
{
    if n > 1 {
        let h = n / 2;
        lemma_sensitivity(indices, side, x, y, h, listed, low, high);
        lemma_sensitivity(indices, side, x + h as int, y, h, listed, low, high);
        lemma_sensitivity(indices, side, x, y + h as int, h, listed, low, high);
        lemma_sensitivity(indices, side, x + h as int, y + h as int, h, listed, low, high);
    }
}

/// Raising the sensitivity keeps every inner node: a position that holds
/// an inner node under a sensitivity holds one under every higher one.
pub proof fn law_sensitivity_monotone(
    indices: Seq<u32>,
    side: int,
    x: int,
    y: int,
    n: nat,
    listed: Seq<Color>,
    low: int,
    high: int,
    path: Seq<int>,
)
    requires
        low <= high,
        region_tree(indices, side, x, y, n, listed, low).inner_at(path),
    ensures
        region_tree(indices, side, x, y, n, listed, high).inner_at(path),
    decreases n,
{
    lemma_sensitivity(indices, side, x, y, n, listed, low, high);
    let a = region_tree(indices, side, x, y, n, listed, low);
    let b = region_tree(indices, side, x, y, n, listed, high);
    if path.len() > 0 {
        assert(a.sections is Some);
        assert(n > 1);
        let h = n / 2;
        let q = path[0];
        let rest = path.skip(1);
        let dx = if q == 1 || q == 3 {
            h as int
        } else {
            0
        };
        let dy = if q >= 2 {
            h as int
        } else {
            0
        };
        assert(a.sections->0.at(q) == region_tree(indices, side, x + dx, y + dy, h, listed, low));
        assert(b.sections->0.at(q) == region_tree(indices, side, x + dx, y + dy, h, listed, high));
        law_sensitivity_monotone(indices, side, x + dx, y + dy, h, listed, low, high, rest);
    }
}


/// The tree of a square of side `n` has no more levels than the square
/// can be halved: `2^height <= n`.
pub proof fn lemma_region_height(
    indices: Seq<u32>,
    side: int,
    x: int,
    y: int,
    n: nat,
    listed: Seq<Color>,
    sensitivity: int,
)
    requires
        n >= 1,
    ensures
        pow2(region_tree(indices, side, x, y, n, listed, sensitivity).height()) <= n,
    decreases n,
{
    vstd::arithmetic::power2::lemma2_to64();
    if n > 1 {
        let h = n / 2;
        lemma_region_height(indices, side, x, y, h, listed, sensitivity);
        lemma_region_height(indices, side, x + h as int, y, h, listed, sensitivity);
        lemma_region_height(indices, side, x, y + h as int, h, listed, sensitivity);
        lemma_region_height(indices, side, x + h as int, y + h as int, h, listed, sensitivity);
        let t = region_tree(indices, side, x, y, n, listed, sensitivity);
        if t.sections is Some {
            vstd::arithmetic::power2::lemma_pow2_unfold(t.height());
        }
    }
}

} // verus!
