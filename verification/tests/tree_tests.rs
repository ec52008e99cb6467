use quompressor::error::{AnalyzeError, MountError};
use quompressor::node::image::{check_size, power_of_two};
use quompressor::node::mount::{all_below, average_of, entry_of, square_side, uniformity_of};
use quompressor::node::trim::colors_merge;
use quompressor::node::{Quadrants, QuadtreeNode};
use quompressor::quantization::palette::{Color, DynamicPalette, DynamicPaletteView, Palette};
use quompressor::raster::RgbaImage;

fn rgba(r: u8, g: u8, b: u8, a: u8) -> Color {
    Color::new(r, g, b, a)
}

fn grey(v: u8) -> Color {
    Color::new(v, v, v, 255)
}

fn leaf(color: u32) -> QuadtreeNode {
    QuadtreeNode::leaf(color)
}

fn four(color: u32, a: u32, b: u32, c: u32, d: u32) -> QuadtreeNode {
    QuadtreeNode::inner(color, leaf(a), leaf(b), leaf(c), leaf(d))
}

fn inner_positions(tree: &QuadtreeNode, path: &mut Vec<u8>, found: &mut Vec<Vec<u8>>) {
    if let Some(q) = &tree.sections {
        found.push(path.clone());
        for quadrant in 0..4u8 {
            path.push(quadrant);
            inner_positions(q.get(quadrant), path, found);
            path.pop();
        }
    }
}

fn all_colors(tree: &QuadtreeNode, found: &mut Vec<u32>) {
    found.push(tree.color);
    if let Some(q) = &tree.sections {
        for quadrant in 0..4u8 {
            all_colors(q.get(quadrant), found);
        }
    }
}

#[test]
fn node_constructors_and_accessors() {
    let l = leaf(7);
    assert!(l.is_leaf());
    assert_eq!(l.color, 7);
    assert_eq!(QuadtreeNode::default(), leaf(0));
    let n = four(9, 1, 2, 3, 4);
    assert!(!n.is_leaf());
    let q: &Quadrants = n.sections.as_ref().expect("an inner node has children");
    assert_eq!(q.nw, leaf(1));
    assert_eq!(q.ne, leaf(2));
    assert_eq!(q.sw, leaf(3));
    assert_eq!(q.se, leaf(4));
    assert_eq!(q.get(0), &leaf(1));
    assert_eq!(q.get(1), &leaf(2));
    assert_eq!(q.get(2), &leaf(3));
    assert_eq!(q.get(3), &leaf(4));
    assert!(q.leaves_only());
    let deep = QuadtreeNode::inner(0, n.clone(), leaf(0), leaf(0), leaf(0));
    assert!(!deep.sections.as_ref().expect("inner").leaves_only());
    assert_eq!(deep.duplicate(), deep);
    assert_ne!(deep, n);
}

#[test]
fn all_colors_below_looks_at_every_node() {
    let t = QuadtreeNode::inner(3, four(9, 1, 2, 3, 4), leaf(15), leaf(0), four(2, 7, 7, 7, 8));
    assert!(t.all_colors_below(16));
    assert!(!t.all_colors_below(15));
    assert!(!four(16, 0, 0, 0, 0).all_colors_below(16));
    assert!(!four(0, 0, 0, 0, 16).all_colors_below(16));
    assert!(leaf(u32::MAX).all_colors_below(1 << 32));
}

#[test]
fn square_side_of_powers_of_four() {
    assert_eq!(square_side(0), None);
    assert_eq!(square_side(1), Some(1));
    assert_eq!(square_side(2), None);
    assert_eq!(square_side(4), Some(2));
    assert_eq!(square_side(8), None);
    assert_eq!(square_side(9), None);
    assert_eq!(square_side(12), None);
    assert_eq!(square_side(16), Some(4));
    assert_eq!(square_side(64), Some(8));
    assert_eq!(square_side(1 << 22), Some(2048));
    assert_eq!(square_side((1 << 22) + 4), None);
}

#[test]
fn power_of_two_sides() {
    assert!(!power_of_two(0));
    assert!(power_of_two(1));
    assert!(power_of_two(2));
    assert!(!power_of_two(3));
    assert!(power_of_two(2048));
    assert!(!power_of_two(2050));
    assert!(power_of_two(1 << 31));
    assert!(!power_of_two(u32::MAX));
    assert_eq!(check_size(4, 4), None);
    assert_eq!(check_size(4, 8), Some(AnalyzeError::NonSquare));
    assert_eq!(check_size(3, 3), Some(AnalyzeError::NonPowerOfTwo));
    assert_eq!(check_size(3, 5), Some(AnalyzeError::NonSquare));
    assert_eq!(check_size(0, 0), Some(AnalyzeError::NonPowerOfTwo));
}

#[test]
fn mean_and_uniformity_of_four_colours() {
    let a = rgba(0, 10, 255, 255);
    let b = rgba(1, 10, 255, 255);
    let c = rgba(2, 11, 255, 0);
    let d = rgba(4, 12, 254, 255);
    // (0 + 1 + 2 + 4) / 4 = 1, 43 / 4 = 10, 1019 / 4 = 254, 765 / 4 = 191
    assert_eq!(average_of(&a, &b, &c, &d), rgba(1, 10, 254, 191));
    assert_eq!(uniformity_of(&a, &a, &a, &a), 16384);
    assert_eq!(uniformity_of(&grey(0), &grey(0), &grey(0), &rgba(10, 0, 0, 255)), 16284);
    // the greatest of the six distances counts
    assert_eq!(
        uniformity_of(&rgba(0, 0, 0, 255), &rgba(3, 0, 0, 255), &rgba(0, 4, 0, 255), &rgba(3, 4, 0, 255)),
        16384 - 25
    );
    assert_eq!(uniformity_of(&rgba(0, 0, 0, 255), &rgba(128, 0, 0, 255), &a, &a), 0);
    assert_eq!(uniformity_of(&rgba(0, 0, 0, 0), &rgba(255, 255, 255, 255), &a, &a), 0);
    // a spread of exactly 16384 is no longer uniform at all
    assert_eq!(uniformity_of(&grey(0), &rgba(128, 0, 0, 255), &grey(0), &grey(0)), 0);
    assert_eq!(uniformity_of(&grey(0), &rgba(127, 15, 5, 255), &grey(0), &grey(0)), 5);
}

#[test]
fn entry_of_and_all_below() {
    let listed = [grey(1), grey(2)];
    assert_eq!(entry_of(&listed, 0), grey(1));
    assert_eq!(entry_of(&listed, 1), grey(2));
    assert_eq!(entry_of(&listed, 2), rgba(0, 0, 0, 0));
    assert!(all_below(&[0, 15, 3], 16));
    assert!(!all_below(&[0, 16, 3], 16));
    assert!(all_below(&[], 0));
}

#[test]
fn mount_builds_a_leaf_from_a_uniform_square() {
    let palette = DynamicPaletteView::from_colors(vec![grey(5), grey(200)]);
    let mut tree = leaf(9);
    assert_eq!(tree.mount(&[1; 16], &palette, 16384, true), Ok(()));
    assert_eq!(tree, leaf(1));
    assert_eq!(tree.mount(&[0], &palette, 16384, false), Ok(()));
    assert_eq!(tree, leaf(0));
}

#[test]
fn mount_merges_by_uniformity() {
    // the colours 0 and 1 are 100 apart: uniformity 16284
    let palette = DynamicPaletteView::from_colors(vec![grey(0), rgba(10, 0, 0, 255)]);
    let indices = [0, 0, 0, 1];
    let mut tree = leaf(0);
    assert_eq!(tree.mount(&indices, &palette, 16284, true), Ok(()));
    // the mean (2, 0, 0, 255) is nearest to colour 0
    assert_eq!(tree, leaf(0));
    assert_eq!(tree.mount(&indices, &palette, 16285, true), Ok(()));
    assert_eq!(tree, four(0, 0, 0, 0, 1));
    assert_eq!(tree.mount(&indices, &palette, 0, true), Ok(()));
    assert_eq!(tree, leaf(0));
}

#[test]
fn mount_represents_a_node_by_the_colour_nearest_the_mean() {
    let palette = DynamicPaletteView::from_colors(vec![
        rgba(0, 0, 0, 255),
        rgba(100, 0, 0, 255),
        rgba(40, 0, 0, 255),
    ]);
    let mut tree = leaf(0);
    // mean red (0 + 0 + 100 + 100) / 4 = 50, nearest to 40
    assert_eq!(tree.mount(&[0, 0, 1, 1], &palette, 16384, true), Ok(()));
    assert_eq!(tree, four(2, 0, 0, 1, 1));
}

#[test]
fn mount_cuts_the_square_into_quadrants() {
    let palette = DynamicPaletteView::from_colors(vec![
        grey(0),
        grey(60),
        grey(120),
        grey(180),
        grey(240),
    ]);
    let indices = [
        0, 0, 1, 2,
        0, 0, 3, 4,
        2, 2, 4, 4,
        2, 3, 4, 4,
    ];
    let mut tree = leaf(0);
    assert_eq!(tree.mount(&indices, &palette, 16384, true), Ok(()));
    // north-west and south-east are uniform; the others keep their leaves
    // north-east: mean grey (60 + 120 + 180 + 240) / 4 = 150, nearest to 120 (tie with 180)
    // south-west: mean grey (120 + 120 + 120 + 180) / 4 = 135, nearest to 120
    // root: mean grey (0 + 120 + 120 + 240) / 4 = 120
    assert_eq!(
        tree,
        QuadtreeNode::inner(2, leaf(0), four(2, 1, 2, 3, 4), four(2, 2, 2, 2, 3), leaf(4))
    );
}

#[test]
fn mount_refuses_bad_sizes_and_indices() {
    let palette = DynamicPaletteView::from_colors(vec![grey(0)]);
    let mut tree = leaf(3);
    assert_eq!(tree.mount(&[], &palette, 0, true), Err(MountError::InvalidSize));
    assert_eq!(tree.mount(&[0, 0], &palette, 0, true), Err(MountError::InvalidSize));
    assert_eq!(tree.mount(&[0; 8], &palette, 0, true), Err(MountError::InvalidSize));
    assert_eq!(tree.mount(&[0; 12], &palette, 0, true), Err(MountError::InvalidSize));
    assert_eq!(tree.mount(&[0, 0, 16, 0], &palette, 0, true), Err(MountError::ColorOutOfRange));
    // the size is looked at first
    assert_eq!(tree.mount(&[16, 0], &palette, 0, true), Err(MountError::InvalidSize));
    assert_eq!(tree, leaf(3));
    // an index behind the list, and within the width, is a colour
    assert_eq!(tree.mount(&[0, 0, 15, 0], &palette, 16384, true), Ok(()));
    assert_eq!(tree, four(0, 0, 0, 15, 0));
}

#[test]
fn from_image_quantizes_and_builds() {
    let palette = DynamicPaletteView::from_colors(vec![grey(0), grey(255)]);
    let img = RgbaImage::from_pixels(
        2,
        2,
        vec![grey(10), grey(250), grey(120), grey(130)],
    )
    .expect("four pixels");
    let mut tree = leaf(0);
    assert_eq!(tree.from_image(&img, &palette, 16384, true), Ok(()));
    // mean grey (0 + 255 + 0 + 255) / 4 = 127, nearest to 0
    assert_eq!(tree, four(0, 0, 1, 0, 1));
    assert_eq!(tree.from_image(&img, &palette, 0, false), Ok(()));
    assert_eq!(tree, leaf(0));
}

#[test]
fn from_image_refuses_bad_sizes() {
    let palette = DynamicPaletteView::from_colors(vec![grey(0)]);
    let mut tree = leaf(6);
    let img = RgbaImage::from_pixels(3, 3, vec![grey(0); 9]).expect("nine pixels");
    assert_eq!(tree.from_image(&img, &palette, 0, true), Err(AnalyzeError::NonPowerOfTwo));
    let img = RgbaImage::from_pixels(4, 8, vec![grey(0); 32]).expect("thirty-two pixels");
    assert_eq!(tree.from_image(&img, &palette, 0, true), Err(AnalyzeError::NonSquare));
    let img = RgbaImage::from_pixels(8, 4, vec![grey(0); 32]).expect("thirty-two pixels");
    assert_eq!(tree.from_image(&img, &palette, 0, true), Err(AnalyzeError::NonSquare));
    let img = RgbaImage::from_pixels(0, 0, Vec::new()).expect("no pixels");
    assert_eq!(tree.from_image(&img, &palette, 0, true), Err(AnalyzeError::NonPowerOfTwo));
    assert_eq!(tree, leaf(6));
}

#[test]
fn fresh_trees_hold_palette_indices_only() {
    let colors: Vec<Color> = (0..40u8).map(|i| rgba(i * 6, 255 - i * 3, i, 255)).collect();
    let palette = DynamicPaletteView::from_colors(colors);
    let pixels: Vec<Color> = (0..64u32)
        .map(|k| rgba((k * 37 % 256) as u8, (k * 91 % 256) as u8, (k * 13 % 256) as u8, 255))
        .collect();
    let img = RgbaImage::from_pixels(8, 8, pixels).expect("sixty-four pixels");
    for sensitivity in [0usize, 8000, 16000, 16384, 20000] {
        let mut tree = leaf(0);
        assert_eq!(tree.from_image(&img, &palette, sensitivity, true), Ok(()));
        let mut found = Vec::new();
        all_colors(&tree, &mut found);
        assert!(found.iter().all(|c| (*c as u64) < (1u64 << palette.width())));
        assert!(found.iter().all(|c| (*c as usize) < palette.len()));
        assert!(tree.all_colors_below(1 << palette.width()));
    }
}

#[test]
fn raising_the_sensitivity_keeps_every_inner_node() {
    let palette = DynamicPaletteView::from_colors((0..16u8).map(|i| grey(i * 16)).collect());
    let indices: Vec<u32> = (0..256u32).map(|k| ((k % 16) / 2 + (k / 16) / 2) % 16).collect();
    let mut last: Vec<Vec<u8>> = Vec::new();
    let mut seen_growth = false;
    for sensitivity in [0usize, 1, 15000, 16000, 16127, 16128, 16129, 16384, 16385, 99999] {
        let mut tree = leaf(0);
        assert_eq!(tree.mount(&indices, &palette, sensitivity, true), Ok(()));
        let mut found = Vec::new();
        inner_positions(&tree, &mut Vec::new(), &mut found);
        for position in &last {
            assert!(found.contains(position));
        }
        seen_growth = seen_growth || found.len() > last.len();
        last = found;
    }
    assert!(seen_growth);
    // with the sensitivity 0 all is one leaf; above 16384 nothing merges
    let mut tree = leaf(0);
    assert_eq!(tree.mount(&indices, &palette, 0, true), Ok(()));
    assert!(tree.is_leaf());
    assert_eq!(tree.mount(&indices, &palette, 16385, true), Ok(()));
    let mut found = Vec::new();
    inner_positions(&tree, &mut Vec::new(), &mut found);
    assert_eq!(found.len(), 1 + 4 + 16 + 64);
}

#[test]
fn colors_merge_by_their_frequencies() {
    assert!(colors_merge(1, 1, 2, 3));
    assert!(colors_merge(1, 2, 3, 1));
    assert!(colors_merge(3, 2, 2, 1));
    assert!(colors_merge(1, 1, 1, 2));
    assert!(colors_merge(2, 1, 1, 1));
    assert!(colors_merge(1, 2, 1, 1));
    assert!(!colors_merge(1, 1, 2, 2));
    assert!(!colors_merge(1, 2, 1, 2));
    assert!(!colors_merge(1, 2, 2, 1));
    assert!(!colors_merge(1, 1, 1, 1));
    assert!(!colors_merge(1, 2, 3, 4));
}

#[test]
fn trim_collapse() {
    let mut tree = QuadtreeNode::inner(
        0,
        leaf(0),
        QuadtreeNode::inner(4, leaf(5), four(7, 1, 1, 2, 3), leaf(5), leaf(6)),
        leaf(0),
        leaf(0),
    );
    tree.trim(0);
    assert_eq!(
        tree,
        QuadtreeNode::inner(
            0,
            leaf(0),
            QuadtreeNode::inner(4, leaf(5), leaf(7), leaf(5), leaf(6)),
            leaf(0),
            leaf(0),
        )
    );
    let mut alone = four(7, 1, 1, 2, 3);
    alone.trim(0);
    assert_eq!(alone, leaf(7));
}

#[test]
fn trim_preservation() {
    let before = QuadtreeNode::inner(
        0,
        leaf(0),
        QuadtreeNode::inner(4, leaf(5), four(7, 1, 1, 2, 2), leaf(5), leaf(6)),
        leaf(0),
        leaf(0),
    );
    let mut tree = before.clone();
    tree.trim(0);
    assert_eq!(tree, before);
    let mut alone = four(7, 1, 1, 2, 2);
    alone.trim(0);
    assert_eq!(alone, four(7, 1, 1, 2, 2));
}

#[test]
fn trim_spends_its_budget_on_the_way_down() {
    let tree = QuadtreeNode::inner(9, four(7, 1, 1, 2, 3), leaf(0), leaf(0), leaf(0));
    let mut t = tree.clone();
    t.trim(2);
    assert_eq!(t, tree);
    let mut t = tree.clone();
    t.trim(1);
    assert_eq!(t, QuadtreeNode::inner(9, leaf(7), leaf(0), leaf(0), leaf(0)));
    let mut t = tree.clone();
    t.trim(-5);
    assert_eq!(t, QuadtreeNode::inner(9, leaf(7), leaf(0), leaf(0), leaf(0)));
    let mut t = tree.clone();
    t.trim(isize::MIN);
    assert_eq!(t, QuadtreeNode::inner(9, leaf(7), leaf(0), leaf(0), leaf(0)));
    let mut t = four(7, 1, 1, 2, 3);
    t.trim(1);
    assert_eq!(t, four(7, 1, 1, 2, 3));
    let mut t = leaf(3);
    t.trim(0);
    assert_eq!(t, leaf(3));
}

#[test]
fn trimming_twice_is_trimming_once_on_flat_trees() {
    for tree in [leaf(4), four(7, 1, 1, 2, 3), four(7, 1, 1, 2, 2), four(7, 1, 1, 1, 2)] {
        for depth in [-1isize, 0, 1, 6] {
            let mut once = tree.clone();
            once.trim(depth);
            let mut twice = once.clone();
            twice.trim(depth);
            assert_eq!(twice, once);
        }
    }
}

#[test]
fn a_second_pass_merges_what_the_first_made_leaves() {
    let tree = QuadtreeNode::inner(
        9,
        four(5, 1, 1, 2, 3),
        four(5, 1, 1, 2, 3),
        four(6, 1, 1, 2, 3),
        four(7, 1, 1, 2, 3),
    );
    let mut once = tree.clone();
    once.trim(0);
    assert_eq!(once, four(9, 5, 5, 6, 7));
    let mut twice = once.clone();
    twice.trim(0);
    assert_eq!(twice, leaf(9));
}
