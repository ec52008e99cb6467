use quompressor::error::{AnalyzeError, DecodeError, DrawError, EncodeError, MountError};
use quompressor::node::QuadtreeNode;
use quompressor::quantization::generate_palette;
use quompressor::quantization::palette::{Color, DynamicPalette, DynamicPaletteView, Palette};
use quompressor::raster::RgbaImage;
use quompressor::status::{analyze_exit_code, decode_exit_code, draw_exit_code};
use quompressor::{
    build_quadtree, generate_img, generate_quadtree, im2qim, qim2im, split_threshold, CompressError, ExpandError,
    TreeWithPalette,
};

fn rgba(r: u8, g: u8, b: u8, a: u8) -> Color {
    Color::new(r, g, b, a)
}

fn leaf(color: u32) -> QuadtreeNode {
    QuadtreeNode::leaf(color)
}

fn image(width: u32, height: u32, pixels: Vec<Color>) -> RgbaImage {
    RgbaImage::from_pixels(width, height, pixels).expect("pixel count fits the size")
}

fn landscape(side: u32) -> RgbaImage {
    let mut pixels = Vec::new();
    for y in 0..side {
        for x in 0..side {
            let sky = y < side / 2;
            let sun = (x as i32 - 11).pow(2) + (y as i32 - 4).pow(2) < 9;
            let hill = y as i32 > side as i32 - 3 - ((x as i32 - 5).abs() / 2);
            pixels.push(if sun {
                rgba(250, 220, 40 + (x % 3) as u8, 255)
            } else if hill {
                rgba(30 + (x * 2) as u8, 120 + (y * 3) as u8, 40, 255)
            } else if sky {
                rgba(90, 140 + (y * 4) as u8, 230 - (x * 2) as u8, 255)
            } else {
                rgba(200 - (y * 5) as u8, 180, 150 + (x % 4) as u8, 200)
            });
        }
    }
    image(side, side, pixels)
}

fn smoothed(img: &RgbaImage, sigma: f32) -> RgbaImage {
    let mut raw = Vec::new();
    for p in &img.pixels {
        raw.extend_from_slice(&p.channels());
    }
    let buffer = image::RgbaImage::from_raw(img.width, img.height, raw).expect("four bytes a pixel");
    let blurred = image::imageops::blur(&buffer, sigma);
    let pixels = blurred.pixels().map(|p| rgba(p.0[0], p.0[1], p.0[2], p.0[3])).collect();
    image(img.width, img.height, pixels)
}

#[test]
fn split_threshold_maps_the_sensitivity_fraction() {
    assert_eq!(split_threshold(63), 16128);
    assert_eq!(split_threshold(0), 0);
    assert_eq!(split_threshold(1), 8192);
    assert_eq!(split_threshold(2), 10922);
    assert_eq!(split_threshold(16383), 16383);
    assert_eq!(split_threshold(usize::MAX), 16383);
}

#[test]
fn uniform_image() {
    let img = image(8, 8, vec![rgba(128, 64, 32, 255); 64]);
    let made: TreeWithPalette =
        generate_quadtree(&img, &img, 256, 0, 0).expect("the image is a square of side 8");
    assert_eq!(made.tree, leaf(0));
    assert_eq!(made.palette.to_rgba(0), Ok(rgba(128, 64, 32, 255)));
    let bytes = made.tree.to_qim(&made.palette).expect("colour 0 is in the palette");
    let width = ((bytes[7] & 0x1f) + 1) as usize;
    let stored = ((bytes[7] >> 5) as usize + 9) * (1 << width) / 16;
    assert!(stored >= 9);
    assert_eq!(&bytes[8..12], &[128, 64, 32, 255]);
    assert_eq!(bytes.len(), 8 + 4 * stored + 1);
    assert_eq!(im2qim(&img, &img, 256, 0, 0), Ok(bytes));
}

#[test]
fn quadrant_checkerboard() {
    let red = rgba(255, 0, 0, 255);
    let green = rgba(0, 255, 0, 255);
    let blue = rgba(0, 0, 255, 255);
    let black = rgba(0, 0, 0, 255);
    let img = image(2, 2, vec![red, green, blue, black]);
    let made = generate_quadtree(&img, &img, 1, split_threshold(63), 0)
        .expect("the image is a square of side 2");
    for color in [red, green, blue, black] {
        assert!(made.palette.colors.contains(&color));
    }
    assert_eq!(made.palette.len(), 4);
    let q = made.tree.sections.as_ref().expect("the root is an inner node");
    assert!(q.leaves_only());
    assert_eq!(made.palette.to_rgba(q.nw.color), Ok(red));
    assert_eq!(made.palette.to_rgba(q.ne.color), Ok(green));
    assert_eq!(made.palette.to_rgba(q.sw.color), Ok(blue));
    assert_eq!(made.palette.to_rgba(q.se.color), Ok(black));
}

#[test]
fn encode_decode_fidelity() {
    let source = landscape(16);
    let prepared = smoothed(&source, 1.0);
    let made = generate_quadtree(&source, &prepared, 256, 16128, 0)
        .expect("the image is a square of side 16");
    assert!(made.tree.fits_bit_buffer(made.palette.width()));
    let bytes = made.tree.to_qim(&made.palette).expect("a fresh tree fits its palette");
    let (tree, palette): (QuadtreeNode, DynamicPaletteView) =
        QuadtreeNode::from_qim(&bytes).expect("the bytes are complete");
    assert_eq!(tree, made.tree);
    let width = ((bytes[7] & 0x1f) + 1) as usize;
    let stored = ((bytes[7] >> 5) as usize + 9) * (1 << width) / 16;
    assert_eq!(palette.len(), 1 << width);
    assert_eq!(palette.width(), made.palette.width());
    for index in 0..stored {
        let color = palette.to_rgba(index as u32).expect("a stored colour");
        assert_eq!(made.palette.to_rgba(index as u32), Ok(color));
        assert_eq!(&bytes[8 + 4 * index..12 + 4 * index], &color.channels());
    }
    for index in stored..(1 << width) {
        assert_eq!(palette.colors[index], rgba(0, 0, 0, 0));
        assert_eq!(made.palette.to_rgba(index as u32), Ok(rgba(0, 0, 0, 0)));
    }
}

#[test]
fn round_trip_without_trim() {
    for side in [1u32, 2, 4, 8, 16, 32] {
        for dedup in [0u32, 1, 64, 256, 4000] {
            for sensitivity in [0usize, 12000, 16128, 16384, 16385] {
                let img = landscape(side);
                let made = generate_quadtree(&img, &img, dedup, sensitivity, 0)
                    .expect("the side is a power of two");
                let bytes = made.tree.to_qim(&made.palette).expect("a fresh tree fits its palette");
                assert_eq!(&bytes[..7], b"QuadIM\x01");
                let (tree, palette): (QuadtreeNode, DynamicPaletteView) =
                    QuadtreeNode::from_qim(&bytes).expect("the bytes are complete");
                assert_eq!(tree, made.tree);
                assert_eq!(palette.width(), made.palette.width());
                for index in 0..(1u32 << palette.width()) {
                    assert_eq!(palette.to_rgba(index), made.palette.to_rgba(index));
                }
                assert_eq!(tree.to_qim(&palette), Ok(bytes));
            }
        }
    }
}

#[test]
fn invalid_dimensions() {
    let img = image(3, 3, vec![rgba(1, 2, 3, 255); 9]);
    assert_eq!(
        generate_quadtree(&img, &img, 256, 0, 0).map(|made| made.tree),
        Err(AnalyzeError::NonPowerOfTwo)
    );
    assert_eq!(im2qim(&img, &img, 256, 0, 0), Err(CompressError::Analyze(AnalyzeError::NonPowerOfTwo)));
    let img = image(4, 8, vec![rgba(1, 2, 3, 255); 32]);
    assert_eq!(
        generate_quadtree(&img, &img, 256, 0, 0).map(|made| made.tree),
        Err(AnalyzeError::NonSquare)
    );
    assert_eq!(im2qim(&img, &img, 256, 0, 0), Err(CompressError::Analyze(AnalyzeError::NonSquare)));
}

#[test]
fn generate_quadtree_trims_as_often_as_told() {
    let img = landscape(16);
    let palette: DynamicPaletteView = generate_palette(&img, 256);
    let mut expected = leaf(0);
    assert_eq!(expected.from_image(&img, &palette, 16128, true), Ok(()));
    for passes in 0..4usize {
        let made = generate_quadtree(&img, &img, 256, 16128, passes)
            .expect("the image is a square of side 16");
        assert_eq!(made.palette.colors, palette.colors);
        assert_eq!(made.tree, expected);
        expected.trim(6);
    }
}

#[test]
fn build_quadtree_builds_and_trims_under_a_given_palette() {
    let img = landscape(16);
    let palette: DynamicPaletteView = generate_palette(&img, 256);
    for passes in 0..3usize {
        let made = generate_quadtree(&img, &img, 256, 16128, passes)
            .expect("the image is a square of side 16");
        assert_eq!(build_quadtree(&img, &palette, 16128, passes), Ok(made.tree));
    }
    let bad = image(4, 8, vec![rgba(1, 2, 3, 255); 32]);
    assert_eq!(build_quadtree(&bad, &palette, 16128, 0), Err(AnalyzeError::NonSquare));
    let bad = image(6, 6, vec![rgba(1, 2, 3, 255); 36]);
    assert_eq!(build_quadtree(&bad, &palette, 16128, 0), Err(AnalyzeError::NonPowerOfTwo));
}

#[test]
fn generate_quadtree_takes_the_palette_from_the_source() {
    let source = image(2, 2, vec![rgba(10, 0, 0, 255); 4]);
    let prepared = image(2, 2, vec![rgba(200, 0, 0, 255); 4]);
    let made = generate_quadtree(&source, &prepared, 256, 0, 0).expect("a square of side 2");
    assert_eq!(made.palette.colors, vec![rgba(10, 0, 0, 255)]);
    assert_eq!(made.tree, leaf(0));
}

#[test]
fn generate_img_draws_with_gradient() {
    let palette = DynamicPaletteView::from_colors(vec![
        rgba(0, 0, 0, 255),
        rgba(100, 0, 0, 255),
        rgba(200, 0, 0, 255),
        rgba(40, 0, 0, 255),
    ]);
    let tree = QuadtreeNode::inner(1, leaf(0), leaf(1), leaf(2), leaf(3));
    let img = generate_img(2, &tree, &palette).expect("side 2 is a power of two");
    assert_eq!(img.width(), 2);
    assert_eq!(img.height(), 2);
    assert_eq!(
        img.pixels,
        vec![rgba(62, 0, 0, 255), rgba(80, 0, 0, 255), rgba(130, 0, 0, 255), rgba(82, 0, 0, 255)]
    );
    assert_eq!(generate_img(3, &tree, &palette).map(|i| i.pixels), Err(DrawError::NonPowerOfTwo));
    assert_eq!(generate_img(0, &tree, &palette).map(|i| i.pixels), Err(DrawError::NonPowerOfTwo));
    assert_eq!(
        generate_img(2, &leaf(16), &palette).map(|i| i.pixels),
        Err(DrawError::ColorOutOfRange)
    );
}

#[test]
fn qim2im_decodes_and_draws() {
    let img = image(
        2,
        2,
        vec![rgba(255, 0, 0, 255), rgba(0, 255, 0, 255), rgba(0, 0, 255, 255), rgba(0, 0, 0, 255)],
    );
    let bytes = im2qim(&img, &img, 1, 16128, 0).expect("a square of side 2");
    let made = generate_quadtree(&img, &img, 1, 16128, 0).expect("a square of side 2");
    let drawn = qim2im(&bytes, 4).expect("the bytes are complete");
    let direct = generate_img(4, &made.tree, &made.palette).expect("side 4 is a power of two");
    assert_eq!(drawn.pixels, direct.pixels);
    assert_eq!(drawn.width(), 4);
    // the outer corners keep the colours of the image
    assert_eq!(drawn.get_pixel(0, 0).r > 128, true);
    assert_eq!(qim2im(&bytes, 3).map(|i| i.pixels), Err(ExpandError::Draw(DrawError::NonPowerOfTwo)));
    assert_eq!(
        qim2im(&bytes[..10], 4).map(|i| i.pixels),
        Err(ExpandError::Decode(DecodeError::InsufficientData))
    );
    assert_eq!(
        qim2im(b"not a file", 4).map(|i| i.pixels),
        Err(ExpandError::Decode(DecodeError::MissingHeader))
    );
    let mut other = bytes.clone();
    other[7] = 24;
    assert_eq!(
        qim2im(&other, 4).map(|i| i.pixels),
        Err(ExpandError::Decode(DecodeError::PaletteTooLarge))
    );
}

#[test]
fn error_messages() {
    assert_eq!(
        AnalyzeError::NonSquare.message(),
        "the image buffer's dimensions are not equal; the image is not a square."
    );
    assert_eq!(
        AnalyzeError::NonPowerOfTwo.message(),
        "the image buffer's dimensions are not powers of two."
    );
    assert_eq!(
        EncodeError::ColorOutOfRange.message(),
        "a color specified in the quadtree is outside the range of the palette."
    );
    assert_eq!(DecodeError::InsufficientData.message(), "a node number was expected but not found.");
    assert_eq!(DecodeError::MissingHeader.message(), "there was no valid QIM file header.");
    assert_eq!(
        DecodeError::PaletteTooLarge.message(),
        "the stored palette exceeds the capacity of the receiving palette."
    );
    assert_eq!(MountError::InvalidSize.message(), "the size of the index buffer is not a power of 4.");
    assert_eq!(
        MountError::ColorOutOfRange.message(),
        "a pixel has a color outside the extent of the palette."
    );
    assert_eq!(
        DrawError::NonSquare.message(),
        "the image buffer's dimensions are not equal; the image is not a square."
    );
    assert_eq!(
        DrawError::NonPowerOfTwo.message(),
        "the image buffer's dimensions are not powers of two."
    );
    assert_eq!(
        DrawError::ColorOutOfRange.message(),
        "a color specified in the quadtree is outside the range of the palette."
    );
}

#[test]
fn exit_codes_by_failure() {
    assert_eq!(analyze_exit_code(AnalyzeError::NonSquare), 2);
    assert_eq!(analyze_exit_code(AnalyzeError::NonPowerOfTwo), 2);
    assert_eq!(decode_exit_code(DecodeError::MissingHeader), 4);
    assert_eq!(decode_exit_code(DecodeError::InsufficientData), 4);
    assert_eq!(decode_exit_code(DecodeError::PaletteTooLarge), 5);
    assert_eq!(draw_exit_code(DrawError::NonSquare), 2);
    assert_eq!(draw_exit_code(DrawError::NonPowerOfTwo), 2);
    assert_eq!(draw_exit_code(DrawError::ColorOutOfRange), 4);
    assert_eq!(quompressor::status::EXIT_OK, 0);
    assert_eq!(quompressor::status::EXIT_IO, 3);
    assert_eq!(quompressor::status::EXIT_OTHER, 10);
}
