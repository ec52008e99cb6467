//! Lossy quadtree image compression: palette selection, quantization, tree
//! construction and trimming, the QIM byte format, and rendering.

pub mod error;
pub mod node;
pub mod quantization;
pub mod raster;
pub mod status;

pub use error::{AnalyzeError, DecodeError, DrawError, EncodeError, MountError};
pub use node::{Quadrants, QuadtreeNode};
pub use raster::RgbaImage;

use node::draw::{draw_error, shade};
use node::image::{image_tree, size_error};
use node::qim::{parse_qim, qim_bytes, tree_bits, QimImage};
use node::roundtrip::lemma_within_dynamic_capacity;
use node::trim::lemma_trim_keeps_colors;
use quantization::palette::{capped, DynamicPalette, DynamicPaletteView, Palette};
use quantization::{generate_palette, palette_colors};
use vstd::arithmetic::power2::pow2;
use vstd::prelude::*;

verus! {

/// The depth budget of each trimming pass that `generate_quadtree` runs.
pub const TRIM_DEPTH: isize = 6;

/// A quadtree together with the palette that its colours index.
#[derive(Debug)]
pub struct TreeWithPalette {
    pub tree: QuadtreeNode,
    pub palette: DynamicPaletteView,
}

/// Why an image could not be turned into QIM bytes.
#[derive(Debug, Clone, Copy, PartialEq, Eq, Structural)]
pub enum CompressError {
    /// The image has no quadtree.
    Analyze(AnalyzeError),
    /// The quadtree could not be written: it has more bits than a bit
    /// buffer holds.
    Serialization,
}

/// Why QIM bytes could not be turned into an image.
#[derive(Debug, Clone, Copy, PartialEq, Eq, Structural)]
pub enum ExpandError {
    /// The bytes hold no tree.
    Decode(DecodeError),
    /// The tree could not be drawn.
    Draw(DrawError),
}

/// The tree `t` after `passes` trimming passes with the budget `depth`.
pub open spec fn trimmed_times(t: QuadtreeNode, depth: int, passes: nat) -> QuadtreeNode
    decreases passes,
{
    if passes == 0 {
        t
    } else {
        trimmed_times(t, depth, (passes - 1) as nat).trimmed(depth)
    }
}

/// The split threshold for the sensitivity fraction `s / (s + 1)` on the
/// scale from 0 to 16384.
pub open spec fn split_threshold_spec(s: int) -> int {
    16384 * s / (s + 1)
}

/// The split threshold for the sensitivity fraction `s / (s + 1)`:
/// `16384 * s / (s + 1)`, rounded down.
pub fn split_threshold(s: usize) -> (t: usize)
    ensures
        t == split_threshold_spec(s as int),
        t < 16384,
{
    let wide: u128 = 16384 * (s as u128) / (s as u128 + 1);
    proof {
        let n = s as int;
        assert(16384 * n / (n + 1) < 16384) by (nonlinear_arith)
            requires
                n >= 0,
        ;
    }
    wide as usize
}

/// Trimming keeps every colour index below a bound, however often it is
/// done.
pub proof fn lemma_trimmed_times_colors(t: QuadtreeNode, depth: int, passes: nat, bound: int)
    requires
        t.colors_below(bound),
    ensures
        trimmed_times(t, depth, passes).colors_below(bound),
    decreases passes,
{
    if passes > 0 {
        lemma_trimmed_times_colors(t, depth, (passes - 1) as nat, bound);
        lemma_trim_keeps_colors(trimmed_times(t, depth, (passes - 1) as nat), depth, bound);
    }
}

/// The quadtree of an image under a palette.
///
/// The tree is built from `prepared` with the split threshold
/// `sensitivity` and then trimmed `trim` times with a depth budget of 6.
///
/// It fails where `prepared` is not a square or its side is not a power
/// of two.
pub fn build_quadtree<P: Palette>(
    prepared: &RgbaImage,
    palette: &P,
    sensitivity: usize,
    trim: usize,
) -> (r: Result<QuadtreeNode, AnalyzeError>)
    requires
        prepared.wf(),
        palette.wf(),
    ensures
        match r {
            Ok(tree) => {
                &&& size_error(prepared.width, prepared.height) is None
                &&& tree == trimmed_times(
                    image_tree(*prepared, palette.listed(), sensitivity as int),
                    6,
                    trim as nat,
                )
                &&& tree.colors_below(pow2(palette.spec_width()) as int)
            },
            Err(e) => size_error(prepared.width, prepared.height) == Some(e),
        },
{
    let mut tree = QuadtreeNode::leaf(0);
    match tree.from_image(prepared, palette, sensitivity, true) {
        Ok(()) => {},
        Err(e) => {
            return Err(e);
        },
    }
    let ghost built = tree;
    let mut pass: usize = 0;
    while pass < trim
        invariant
            pass <= trim,
            tree == trimmed_times(built, 6, pass as nat),
        decreases trim - pass,
    {
        tree.trim(TRIM_DEPTH);
        pass = pass + 1;
    }
    proof {
        lemma_trimmed_times_colors(built, 6, trim as nat, pow2(palette.spec_width()) as int);
    }
    Ok(tree)
}

/// The quadtree and the palette of an image.
///
/// The palette is chosen from the pixels of `source` with the merging
/// distance `dedup`. The tree is built from `prepared`, which is `source`
/// or `source` smoothed, with the split threshold `sensitivity`, and then
/// trimmed `trim` times with a depth budget of 6.
///
/// It fails where `prepared` is not a square or its side is not a power
/// of two.
pub fn generate_quadtree(
    source: &RgbaImage,
    prepared: &RgbaImage,
    dedup: u32,
    sensitivity: usize,
    trim: usize,
) -> (r: Result<TreeWithPalette, AnalyzeError>)
    requires
        prepared.wf(),
    ensures
        match r {
            Ok(made) => {
                &&& size_error(prepared.width, prepared.height) is None
                &&& made.palette.wf()
                &&& made.palette.listed() == capped(
                    palette_colors(source.pixels@, dedup as int),
                    0x100_0000,
                )
                &&& made.tree == trimmed_times(
                    image_tree(*prepared, made.palette.listed(), sensitivity as int),
                    6,
                    trim as nat,
                )
                &&& made.tree.colors_below(pow2(made.palette.spec_width()) as int)
            },
            Err(e) => size_error(prepared.width, prepared.height) == Some(e),
        },
{
    let palette: DynamicPaletteView = generate_palette(source, dedup);
    match build_quadtree(prepared, &palette, sensitivity, trim) {
        Ok(tree) => Ok(TreeWithPalette { tree, palette }),
        Err(e) => Err(e),
    }
}

/// The image of side `width` that a tree draws with its palette, leaves
/// blended toward their neighbours.
///
/// It fails where `width` is not a power of two, or else where a colour
/// of the tree is not an index of the palette.
pub fn generate_img<P: Palette>(width: u32, tree: &QuadtreeNode, palette: &P) -> (r: Result<
    RgbaImage,
    DrawError,
>)
    requires
        palette.wf(),
        width * width <= usize::MAX,
    ensures
        match r {
            Ok(img) => {
                &&& draw_error(*tree, width, width, pow2(palette.spec_width()) as int) is None
                &&& img.wf()
                &&& img.width == width
                &&& img.height == width
                &&& forall|x: int, y: int|
                    0 <= x < width && 0 <= y < width ==> #[trigger] img.pixel(x, y) == shade(
                        *tree,
                        width as nat,
                        x,
                        y,
                        None,
                        true,
                        palette.listed(),
                    )
            },
            Err(e) => draw_error(*tree, width, width, pow2(palette.spec_width()) as int) == Some(e),
        },
{
    let mut output_buf = RgbaImage::new(width, width);
    match tree.to_image(&mut output_buf, palette, true) {
        Ok(()) => Ok(output_buf),
        Err(e) => Err(e),
    }
}

/// The QIM bytes of an image: its quadtree and palette as
/// `generate_quadtree` makes them, encoded.
///
/// It fails where the image has no quadtree, and where the tree has more
/// bits than a bit buffer holds.
pub fn im2qim(
    source: &RgbaImage,
    prepared: &RgbaImage,
    dedup: u32,
    sensitivity: usize,
    trim: usize,
) -> (r: Result<Vec<u8>, CompressError>)
    requires
        prepared.wf(),
    ensures
        match r {
            Ok(bytes) => {
                let listed = capped(palette_colors(source.pixels@, dedup as int), 0x100_0000);
                let width = quantization::palette::dynamic_width(listed.len());
                &&& size_error(prepared.width, prepared.height) is None
                &&& bytes@ == qim_bytes(
                    trimmed_times(image_tree(*prepared, listed, sensitivity as int), 6, trim as nat),
                    width,
                    listed,
                )
            },
            Err(CompressError::Analyze(e)) => size_error(prepared.width, prepared.height) == Some(e),
            Err(CompressError::Serialization) => {
                let listed = capped(palette_colors(source.pixels@, dedup as int), 0x100_0000);
                let width = quantization::palette::dynamic_width(listed.len());
                &&& size_error(prepared.width, prepared.height) is None
                &&& tree_bits(
                    trimmed_times(image_tree(*prepared, listed, sensitivity as int), 6, trim as nat),
                    width,
                ).len() > node::bits::max_bits()
            },
        },
{
    let made = match generate_quadtree(source, prepared, dedup, sensitivity, trim) {
        Ok(made) => made,
        Err(e) => {
            return Err(CompressError::Analyze(e));
        },
    };
    let width: u8 = made.palette.width();
    if !made.tree.fits_bit_buffer(width) {
        return Err(CompressError::Serialization);
    }
    match made.tree.to_qim(&made.palette) {
        Ok(bytes) => Ok(bytes),
        Err(_) => {
            proof {
                assert(false);
            }
            Err(CompressError::Serialization)
        },
    }
}

/// The image of side `width` that QIM bytes hold.
///
/// It fails where the bytes hold no tree, and where the tree cannot be
/// drawn at that size.
pub fn qim2im(source: &[u8], width: u32) -> (r: Result<RgbaImage, ExpandError>)
    requires
        source@.len() <= node::bits::max_bytes(),
        width * width <= usize::MAX,
    ensures
        match r {
            Ok(img) => {
                &&& parse_qim(source@, 0x100_0000) matches Ok(image)
                &&& img.wf()
                &&& img.width == width
                &&& img.height == width
                &&& forall|x: int, y: int|
                    0 <= x < width && 0 <= y < width ==> #[trigger] img.pixel(x, y) == shade(
                        image.tree,
                        width as nat,
                        x,
                        y,
                        None,
                        true,
                        image.colors,
                    )
            },
            Err(ExpandError::Decode(e)) => parse_qim(source@, 0x100_0000) == Err::<
                QimImage,
                DecodeError,
            >(e),
            Err(ExpandError::Draw(e)) => {
                &&& parse_qim(source@, 0x100_0000) matches Ok(image)
                &&& draw_error(
                    image.tree,
                    width,
                    width,
                    pow2(quantization::palette::dynamic_width(image.colors.len())) as int,
                ) == Some(e)
            },
        },
{
    let (tree, palette): (QuadtreeNode, DynamicPaletteView) = match QuadtreeNode::from_qim(source) {
        Ok(pair) => pair,
        Err(e) => {
            return Err(ExpandError::Decode(e));
        },
    };
    proof {
        let image = parse_qim(source@, 0x100_0000)->Ok_0;
        lemma_within_dynamic_capacity(image.width, (source@[7] / 32) as nat);
        assert(capped(image.colors, 0x100_0000) =~= image.colors);
    }
    match generate_img(width, &tree, &palette) {
        Ok(img) => Ok(img),
        Err(e) => Err(ExpandError::Draw(e)),
    }
}

} // verus!
