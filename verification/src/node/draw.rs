//! Drawing a quadtree into a square image.
//!
//! A leaf fills its square. With the gradient off it fills it with its
//! colour. With the gradient on, a leaf that has a parent blends between
//! the four corners of its square: the corner that is a corner of the
//! parent's square has the leaf's colour, the corner at the parent's
//! centre has the parent's colour, and each of the two corners on an edge
//! shared with a neighbouring quarter has the mean of the leaf's colour
//! and that neighbour's.

use crate::error::DrawError;
use crate::node::image::{is_power_of_two, power_of_two};
use crate::node::mount::entry_of;
use crate::node::QuadtreeNode;
use crate::quantization::palette::{entry_at, index_space, Color, Palette};
use crate::quantization::palette_entries;
use crate::raster::RgbaImage;
use vstd::arithmetic::power2::pow2;
use vstd::prelude::*;

verus! {

/// What surrounds a quarter of a square: the colour of the square's node,
/// the colours of its four children, and which of them the quarter is.
#[derive(Debug, Clone, Copy, PartialEq, Eq, Structural)]
pub struct Frame {
    /// The colour of the parent node.
    pub parent: Color,
    /// The colour of the parent's north-west child.
    pub nw: Color,
    /// The colour of the parent's north-east child.
    pub ne: Color,
    /// The colour of the parent's south-west child.
    pub sw: Color,
    /// The colour of the parent's south-east child.
    pub se: Color,
    /// The quarter in question, 0 to 3 in that order.
    pub quadrant: u8,
}

impl Frame {
    /// The colour of the child in quarter `q`.
    pub open spec fn sibling(self, q: int) -> Color {
        if q == 0 {
            self.nw
        } else if q == 1 {
            self.ne
        } else if q == 2 {
            self.sw
        } else {
            self.se
        }
    }

    /// The colour of the child in quarter `q`.
    pub fn sibling_of(&self, q: u8) -> (c: Color)
        ensures
            c == self.sibling(q as int),
    {
        if q == 0 {
            self.nw
        } else if q == 1 {
            self.ne
        } else if q == 2 {
            self.sw
        } else {
            self.se
        }
    }
}

/// The mean of two colours, each channel on its own and rounded down.
pub open spec fn mix(a: Color, b: Color) -> Color {
    Color {
        r: ((a.r + b.r) / 2) as u8,
        g: ((a.g + b.g) / 2) as u8,
        b: ((a.b + b.b) / 2) as u8,
        a: ((a.a + b.a) / 2) as u8,
    }
}

/// The colour at a corner of a leaf's square. `cx` is 0 for the west
/// corners and 1 for the east ones, `cy` is 0 for the north corners and 1
/// for the south ones.
pub open spec fn corner(frame: Frame, own: Color, cx: int, cy: int) -> Color {
    let qx = frame.quadrant as int % 2;
    let qy = frame.quadrant as int / 2;
    if cx == qx && cy == qy {
        own
    } else if cx != qx && cy != qy {
        frame.parent
    } else if cx != qx {
        mix(own, frame.sibling(2 * qy + (1 - qx)))
    } else {
        mix(own, frame.sibling(2 * (1 - qy) + qx))
    }
}

/// One channel of the blend between four corner values at the centre of
/// the pixel in column `x` of row `y` of a square of side `n`.
pub open spec fn blend(nw: int, ne: int, sw: int, se: int, n: int, x: int, y: int) -> int {
    let m = 2 * n;
    let wx = 2 * x + 1;
    let wy = 2 * y + 1;
    (nw * ((m - wx) * (m - wy)) + ne * (wx * (m - wy)) + sw * ((m - wx) * wy) + se * (wx * wy)) / (m
        * m)
}

/// The colour of the pixel in column `x` of row `y` of a leaf's square of
/// side `n`.
pub open spec fn leaf_shade(
    own: Color,
    n: int,
    x: int,
    y: int,
    frame: Option<Frame>,
    gradient: bool,
) -> Color {
    match frame {
        Some(f) if gradient => {
            let nw = corner(f, own, 0, 0);
            let ne = corner(f, own, 1, 0);
            let sw = corner(f, own, 0, 1);
            let se = corner(f, own, 1, 1);
            Color {
                r: blend(nw.r as int, ne.r as int, sw.r as int, se.r as int, n, x, y) as u8,
                g: blend(nw.g as int, ne.g as int, sw.g as int, se.g as int, n, x, y) as u8,
                b: blend(nw.b as int, ne.b as int, sw.b as int, se.b as int, n, x, y) as u8,
                a: blend(nw.a as int, ne.a as int, sw.a as int, se.a as int, n, x, y) as u8,
            }
        },
        _ => own,
    }
}

/// The colour that the tree gives the pixel in column `x` of row `y` of
/// its square of side `n`. A node whose square is a single pixel is drawn
/// as a leaf.
pub open spec fn shade(
    t: QuadtreeNode,
    n: nat,
    x: int,
    y: int,
    frame: Option<Frame>,
    gradient: bool,
    listed: Seq<Color>,
) -> Color
    decreases t,
{
    match t.sections {
        Some(q) => if n >= 2 {
            let h = (n / 2) as int;
            let inner = Frame {
                parent: entry_at(listed, t.color as int),
                nw: entry_at(listed, q.nw.color as int),
                ne: entry_at(listed, q.ne.color as int),
                sw: entry_at(listed, q.sw.color as int),
                se: entry_at(listed, q.se.color as int),
                quadrant: 0,
            };
            if y < h {
                if x < h {
                    shade(q.nw, h as nat, x, y, Some(Frame { quadrant: 0, ..inner }), gradient, listed)
                } else {
                    shade(
                        q.ne,
                        h as nat,
                        x - h,
                        y,
                        Some(Frame { quadrant: 1, ..inner }),
                        gradient,
                        listed,
                    )
                }
            } else {
                if x < h {
                    shade(
                        q.sw,
                        h as nat,
                        x,
                        y - h,
                        Some(Frame { quadrant: 2, ..inner }),
                        gradient,
                        listed,
                    )
                } else {
                    shade(
                        q.se,
                        h as nat,
                        x - h,
                        y - h,
                        Some(Frame { quadrant: 3, ..inner }),
                        gradient,
                        listed,
                    )
                }
            }
        } else {
            leaf_shade(entry_at(listed, t.color as int), n as int, x, y, frame, gradient)
        },
        None => leaf_shade(entry_at(listed, t.color as int), n as int, x, y, frame, gradient),
    }
}

/// What stands in the way of drawing a tree into a buffer.
pub open spec fn draw_error(t: QuadtreeNode, width: u32, height: u32, bound: int) -> Option<
    DrawError,
> {
    if width != height {
        Some(DrawError::NonSquare)
    } else if !is_power_of_two(width as nat) {
        Some(DrawError::NonPowerOfTwo)
    } else if !t.colors_below(bound) {
        Some(DrawError::ColorOutOfRange)
    } else {
        None
    }
}

/// The weights of the four corners add up to the whole, so a blend of
/// channel values is a channel value.
pub proof fn lemma_blend(nw: int, ne: int, sw: int, se: int, n: int, x: int, y: int)
    requires
        0 <= nw <= 255,
        0 <= ne <= 255,
        0 <= sw <= 255,
        0 <= se <= 255,
        0 <= x < n,
        0 <= y < n,
    ensures
        0 <= blend(nw, ne, sw, se, n, x, y) <= 255,
        0 <= nw * ((2 * n - (2 * x + 1)) * (2 * n - (2 * y + 1))) <= 255 * (4 * (n * n)),
        0 <= ne * ((2 * x + 1) * (2 * n - (2 * y + 1))) <= 255 * (4 * (n * n)),
        0 <= sw * ((2 * n - (2 * x + 1)) * (2 * y + 1)) <= 255 * (4 * (n * n)),
        0 <= se * ((2 * x + 1) * (2 * y + 1)) <= 255 * (4 * (n * n)),
        (2 * n) * (2 * n) == 4 * (n * n),
        n * n >= 1,
        0 <= (2 * n - (2 * x + 1)) * (2 * n - (2 * y + 1)) <= 4 * (n * n),
        0 <= (2 * x + 1) * (2 * n - (2 * y + 1)) <= 4 * (n * n),
        0 <= (2 * n - (2 * x + 1)) * (2 * y + 1) <= 4 * (n * n),
        0 <= (2 * x + 1) * (2 * y + 1) <= 4 * (n * n),
{
    let m = 2 * n;
    let wx = 2 * x + 1;
    let wy = 2 * y + 1;
    let a = (m - wx) * (m - wy);
    let b = wx * (m - wy);
    let c = (m - wx) * wy;
    let d = wx * wy;
    assert(a >= 0 && b >= 0 && c >= 0 && d >= 0 && a + b + c + d == m * m && m * m == 4 * (n * n)
        && m * m > 0) by (nonlinear_arith)
        requires
            m == 2 * n,
            0 < wx < m,
            0 < wy < m,
            a == (m - wx) * (m - wy),
            b == wx * (m - wy),
            c == (m - wx) * wy,
            d == wx * wy,
    ;
    assert(0 <= nw * a <= 255 * a && 0 <= ne * b <= 255 * b && 0 <= sw * c <= 255 * c && 0 <= se * d
        <= 255 * d) by (nonlinear_arith)
        requires
            a >= 0,
            b >= 0,
            c >= 0,
            d >= 0,
            0 <= nw <= 255,
            0 <= ne <= 255,
            0 <= sw <= 255,
            0 <= se <= 255,
    ;
    let total = nw * a + ne * b + sw * c + se * d;
    assert(0 <= total <= 255 * (m * m));
    assert(0 <= total / (m * m) <= 255) by (nonlinear_arith)
        requires
            0 <= total <= 255 * (m * m),
            m * m > 0,
    ;
}

/// The mean of two colours.
pub fn mix_of(a: &Color, b: &Color) -> (m: Color)
    ensures
        m == mix(*a, *b),
{
    Color {
        r: ((a.r as u16 + b.r as u16) / 2) as u8,
        g: ((a.g as u16 + b.g as u16) / 2) as u8,
        b: ((a.b as u16 + b.b as u16) / 2) as u8,
        a: ((a.a as u16 + b.a as u16) / 2) as u8,
    }
}

/// The colour at a corner of a leaf's square.
pub fn corner_of(frame: &Frame, own: &Color, cx: u8, cy: u8) -> (c: Color)
    requires
        frame.quadrant < 4,
        cx < 2,
        cy < 2,
    ensures
        c == corner(*frame, *own, cx as int, cy as int),
{
    let qx: u8 = frame.quadrant % 2;
    let qy: u8 = frame.quadrant / 2;
    if cx == qx && cy == qy {
        *own
    } else if cx != qx && cy != qy {
        frame.parent
    } else if cx != qx {
        mix_of(own, &frame.sibling_of(2 * qy + (1 - qx)))
    } else {
        mix_of(own, &frame.sibling_of(2 * (1 - qy) + qx))
    }
}

/// One channel of the blend between four corner values.
pub fn blend_of(nw: u8, ne: u8, sw: u8, se: u8, n: u32, x: u32, y: u32) -> (v: u8)
    requires
        x < n,
        y < n,
    ensures
        v == blend(nw as int, ne as int, sw as int, se as int, n as int, x as int, y as int),
{
    proof {
        lemma_blend(nw as int, ne as int, sw as int, se as int, n as int, x as int, y as int);
        assert(n * n <= 0xffff_ffff * 0xffff_ffff) by (nonlinear_arith)
            requires
                0 <= n <= 0xffff_ffff,
        ;
    }
    let m: u128 = 2 * n as u128;
    let wx: u128 = 2 * x as u128 + 1;
    let wy: u128 = 2 * y as u128 + 1;
    let a: u128 = (m - wx) * (m - wy);
    let b: u128 = wx * (m - wy);
    let c: u128 = (m - wx) * wy;
    let d: u128 = wx * wy;
    let total: u128 = nw as u128 * a + ne as u128 * b + sw as u128 * c + se as u128 * d;
    (total / (m * m)) as u8
}

/// The colour of a pixel of a leaf's square.
pub fn leaf_shade_of(own: &Color, n: u32, x: u32, y: u32, frame: &Option<Frame>, gradient: bool) -> (c:
    Color)
    requires
        x < n,
        y < n,
        frame matches Some(f) ==> f.quadrant < 4,
    ensures
        c == leaf_shade(*own, n as int, x as int, y as int, *frame, gradient),
{
    match frame {
        Some(f) => {
            if gradient {
                let nw = corner_of(f, own, 0, 0);
                let ne = corner_of(f, own, 1, 0);
                let sw = corner_of(f, own, 0, 1);
                let se = corner_of(f, own, 1, 1);
                Color {
                    r: blend_of(nw.r, ne.r, sw.r, se.r, n, x, y),
                    g: blend_of(nw.g, ne.g, sw.g, se.g, n, x, y),
                    b: blend_of(nw.b, ne.b, sw.b, se.b, n, x, y),
                    a: blend_of(nw.a, ne.a, sw.a, se.a, n, x, y),
                }
            } else {
                *own
            }
        },
        None => *own,
    }
}

impl QuadtreeNode {
    /// The colour that the tree gives one pixel of its square of side `n`.
    pub fn shade_at(
        &self,
        n: u32,
        x: u32,
        y: u32,
        frame: Option<Frame>,
        gradient: bool,
        entries: &[Color],
    ) -> (c: Color)
        requires
            is_power_of_two(n as nat),
            x < n,
            y < n,
            frame matches Some(f) ==> f.quadrant < 4,
        ensures
            c == shade(*self, n as nat, x as int, y as int, frame, gradient, entries@),
        decreases self,
    {
        let own = entry_of(entries, self.color);
        match &self.sections {
            Some(q) => {
                if n >= 2 {
                    let h: u32 = n / 2;
                    let parent = own;
                    let nw = entry_of(entries, q.nw.color);
                    let ne = entry_of(entries, q.ne.color);
                    let sw = entry_of(entries, q.sw.color);
                    let se = entry_of(entries, q.se.color);
                    if y < h {
                        if x < h {
                            q.nw.shade_at(
                                h,
                                x,
                                y,
                                Some(Frame { parent, nw, ne, sw, se, quadrant: 0 }),
                                gradient,
                                entries,
                            )
                        } else {
                            q.ne.shade_at(
                                h,
                                x - h,
                                y,
                                Some(Frame { parent, nw, ne, sw, se, quadrant: 1 }),
                                gradient,
                                entries,
                            )
                        }
                    } else {
                        if x < h {
                            q.sw.shade_at(
                                h,
                                x,
                                y - h,
                                Some(Frame { parent, nw, ne, sw, se, quadrant: 2 }),
                                gradient,
                                entries,
                            )
                        } else {
                            q.se.shade_at(
                                h,
                                x - h,
                                y - h,
                                Some(Frame { parent, nw, ne, sw, se, quadrant: 3 }),
                                gradient,
                                entries,
                            )
                        }
                    }
                } else {
                    leaf_shade_of(&own, n, x, y, &frame, gradient)
                }
            },
            None => leaf_shade_of(&own, n, x, y, &frame, gradient),
        }
    }

    /// Draws the tree into `out`, which it fills.
    ///
    /// It fails, and leaves `out` as it is, where `out` is not a square,
    /// or else where its side is not a power of two, or else where a
    /// colour of the tree is not an index of the palette.
    pub fn to_image<P: Palette>(&self, out: &mut RgbaImage, palette: &P, gradient: bool) -> (r:
        Result<(), DrawError>)
        requires
            old(out).wf(),
            palette.wf(),
        ensures
            final(out).wf(),
            final(out).width == old(out).width,
            final(out).height == old(out).height,
            match r {
                Ok(()) => {
                    &&& draw_error(
                        *self,
                        old(out).width,
                        old(out).height,
                        pow2(palette.spec_width()) as int,
                    ) is None
                    &&& forall|x: int, y: int|
                        0 <= x < old(out).width && 0 <= y < old(out).width ==> #[trigger] final(out)
                            .pixel(x, y) == shade(
                            *self,
                            old(out).width as nat,
                            x,
                            y,
                            None,
                            gradient,
                            palette.listed(),
                        )
                },
                Err(e) => *final(out) == *old(out) && draw_error(
                    *self,
                    old(out).width,
                    old(out).height,
                    pow2(palette.spec_width()) as int,
                ) == Some(e),
            },
    {
        if out.width != out.height {
            return Err(DrawError::NonSquare);
        }
        if !power_of_two(out.width) {
            return Err(DrawError::NonPowerOfTwo);
        }
        let width: u8 = palette.width();
        if !self.all_colors_below(index_space(width)) {
            return Err(DrawError::ColorOutOfRange);
        }
        let entries = palette_entries(palette);
        let side: u32 = out.width;
        let total: usize = out.pixels.len();
        let mut pixels: Vec<Color> = Vec::new();
        let mut k: usize = 0;
        while k < total
            invariant
                k <= total,
                total == side * side,
                side >= 1,
                is_power_of_two(side as nat),
                entries@ == palette.listed(),
                pixels@.len() == k,
                forall|j: int|
                    0 <= j < k ==> #[trigger] pixels@[j] == shade(
                        *self,
                        side as nat,
                        j % (side as int),
                        j / (side as int),
                        None,
                        gradient,
                        palette.listed(),
                    ),
            decreases total - k,
        {
            let x: u32 = (k % side as usize) as u32;
            let y: u32 = (k / side as usize) as u32;
            proof {
                let s = side as int;
                assert(0 <= (k as int) / s < s) by (nonlinear_arith)
                    requires
                        0 <= k < s * s,
                        s >= 1,
                ;
            }
            pixels.push(self.shade_at(side, x, y, None, gradient, entries.as_slice()));
            k = k + 1;
        }
        out.pixels = pixels;
        proof {
            let s = side as int;
            assert forall|x: int, y: int| 0 <= x < s && 0 <= y < s implies #[trigger] out.pixel(x, y)
                == shade(*self, side as nat, x, y, None, gradient, palette.listed()) by {
                crate::raster::lemma_position(x, y, s, s);
                let j = y * s + x;
                vstd::arithmetic::div_mod::lemma_fundamental_div_mod_converse(j, s, y, x);
                assert(out.pixels@[j] == shade(
                    *self,
                    side as nat,
                    j % s,
                    j / s,
                    None,
                    gradient,
                    palette.listed(),
                ));
            }
        }
        Ok(())
    }
}

} // verus!
