//! From an image to its quadtree.

use crate::error::AnalyzeError;
use crate::node::mount::{
    build_region, is_power_of_four, lemma_region_colors, mounted_tree, region_tree, side_of,
};
use crate::node::QuadtreeNode;
use crate::quantization::palette::{Color, Palette};
use crate::quantization::{lemma_nearest, nearest, palette_entries, quantize_to_palette};
use crate::raster::RgbaImage;
use vstd::arithmetic::power2::pow2;
use vstd::prelude::*;

verus! {

/// Whether `n` is a power of two.
pub open spec fn is_power_of_two(n: nat) -> bool
    decreases n,
{
    n == 1 || (n >= 2 && n % 2 == 0 && is_power_of_two(n / 2))
}

/// The palette index of each pixel: that of the listed colour nearest to
/// it.
pub open spec fn quantized(pixels: Seq<Color>, listed: Seq<Color>) -> Seq<u32> {
    Seq::new(pixels.len(), |k: int| nearest(pixels[k], listed) as u32)
}

/// What stands in the way of making a tree from an image of this size.
pub open spec fn size_error(width: u32, height: u32) -> Option<AnalyzeError> {
    if width != height {
        Some(AnalyzeError::NonSquare)
    } else if !is_power_of_two(width as nat) {
        Some(AnalyzeError::NonPowerOfTwo)
    } else {
        None
    }
}

/// The tree of a square image under a palette that lists `listed`.
pub open spec fn image_tree(img: RgbaImage, listed: Seq<Color>, sensitivity: int) -> QuadtreeNode {
    region_tree(
        quantized(img.pixels@, listed),
        img.width as int,
        0,
        0,
        img.width as nat,
        listed,
        sensitivity,
    )
}

/// Whether `n` is a power of two.
pub fn power_of_two(n: u32) -> (is: bool)
    ensures
        is == is_power_of_two(n as nat),
{
    if n == 0 {
        return false;
    }
    let mut m: u32 = n;
    while m > 1 && m % 2 == 0
        invariant
            m >= 1,
            is_power_of_two(m as nat) == is_power_of_two(n as nat),
        decreases m,
    {
        m = m / 2;
    }
    m == 1
}

/// What stands in the way of making a tree from an image of this size:
/// sides that differ, or else a side that is not a power of two.
pub fn check_size(width: u32, height: u32) -> (e: Option<AnalyzeError>)
    ensures
        e == size_error(width, height),
{
    if width != height {
        Some(AnalyzeError::NonSquare)
    } else if !power_of_two(width) {
        Some(AnalyzeError::NonPowerOfTwo)
    } else {
        None
    }
}

impl QuadtreeNode {
    /// Makes this node the quadtree of an image: every pixel is replaced
    /// by the index of the nearest listed palette colour, and the tree is
    /// built from the indices.
    ///
    /// Four leaves are merged where their uniformity is at least
    /// `sensitivity`. `gradient` tells how the tree is meant to be drawn
    /// and does not change the tree. An image that is to be smoothed
    /// first is smoothed by the caller.
    ///
    /// It fails, and leaves the node as it is, where the image is not a
    /// square or its side is not a power of two.
    pub fn from_image<P: Palette>(
        &mut self,
        img: &RgbaImage,
        palette: &P,
        sensitivity: usize,
        gradient: bool,
    ) -> (r: Result<(), AnalyzeError>)
        requires
            img.wf(),
            palette.wf(),
        ensures
            match r {
                Ok(()) => {
                    &&& size_error(img.width, img.height) is None
                    &&& *final(self) == image_tree(*img, palette.listed(), sensitivity as int)
                    &&& final(self).colors_below(pow2(palette.spec_width()) as int)
                },
                Err(e) => *final(self) == *old(self) && size_error(img.width, img.height) == Some(e),
            },
    {
        let _ = gradient;
        match check_size(img.width, img.height) {
            Some(e) => {
                return Err(e);
            },
            None => {},
        }
        let palettified = quantize_to_palette(img, palette);
        let entries = palette_entries(palette);
        let side: usize = img.width as usize;
        proof {
            palette.lemma_wf();
            vstd::arithmetic::power2::lemma_pow2_pos(palette.spec_width());
            assert(palettified@ =~= quantized(img.pixels@, palette.listed()));
            assert forall|k: int| 0 <= k < palettified@.len() implies (#[trigger] palettified@[k])
                < pow2(palette.spec_width()) by {
                if palette.listed().len() > 0 {
                    lemma_nearest(img.pixels@[k], palette.listed());
                }
            }
            lemma_region_colors(
                palettified@,
                side as int,
                0,
                0,
                side as nat,
                palette.listed(),
                sensitivity as int,
                pow2(palette.spec_width()) as int,
            );
        }
        *self = build_region(
            palettified.as_slice(),
            side,
            0,
            0,
            side,
            entries.as_slice(),
            sensitivity,
        );
        Ok(())
    }
}


/// The square of a power of two is a power of four, and its side is that
/// power of two.
pub proof fn lemma_square_of_power(side: nat)
    requires
        is_power_of_two(side),
    ensures
        is_power_of_four(side * side),
        side_of(side * side) == side,
    decreases side,
{
    if side >= 2 {
        let half = side / 2;
        lemma_square_of_power(half);
        assert(side * side == 4 * (half * half)) by (nonlinear_arith)
            requires
                side == 2 * half,
        ;
        assert(half * half >= 1) by (nonlinear_arith)
            requires
                half >= 1,
        ;
        assert((side * side) / 4 == half * half);
    } else {
        assert(side * side == 1) by (nonlinear_arith)
            requires
                side == 1,
        ;
    }
}

/// The tree of an image is the tree mounted from the image's palette
/// indices.
pub proof fn law_image_tree_is_mounted(img: RgbaImage, listed: Seq<Color>, sensitivity: int)
    requires
        img.wf(),
        size_error(img.width, img.height) is None,
    ensures
        is_power_of_four(img.pixels@.len()),
        image_tree(img, listed, sensitivity) == mounted_tree(
            quantized(img.pixels@, listed),
            listed,
            sensitivity,
        ),
{
    lemma_square_of_power(img.width as nat);
}

} // verus!
