use quompressor::error::{DecodeError, EncodeError};
use quompressor::node::bits::BitBuffer;
use quompressor::node::QuadtreeNode;
use quompressor::quantization::palette::{Color, DynamicPalette, DynamicPaletteView, Palette};

fn rgba(r: u8, g: u8, b: u8, a: u8) -> Color {
    Color::new(r, g, b, a)
}

fn leaf(color: u32) -> QuadtreeNode {
    QuadtreeNode::leaf(color)
}

fn four(color: u32, a: u32, b: u32, c: u32, d: u32) -> QuadtreeNode {
    QuadtreeNode::inner(color, leaf(a), leaf(b), leaf(c), leaf(d))
}

fn palette_of(count: u8) -> DynamicPaletteView {
    DynamicPaletteView::from_colors(
        (0..count).map(|i| rgba(i.wrapping_mul(7), i, 255 - i, 255)).collect(),
    )
}

fn header_with(byte7: u8) -> Vec<u8> {
    let mut bytes = b"QuadIM\x01".to_vec();
    bytes.push(byte7);
    bytes
}

#[test]
fn bit_buffer_packs_the_first_bit_highest() {
    let mut b = BitBuffer::new();
    assert_eq!(b.len(), 0);
    assert_eq!(b.to_bytes(), Vec::<u8>::new());
    assert!(b.push(true));
    assert!(b.push(false));
    assert!(b.push(true));
    assert_eq!(b.len(), 3);
    assert_eq!(b.get(0), Some(true));
    assert_eq!(b.get(1), Some(false));
    assert_eq!(b.get(2), Some(true));
    assert_eq!(b.get(3), None);
    assert_eq!(b.to_bytes(), vec![0b1010_0000]);
    for _ in 0..6 {
        assert!(b.push(true));
    }
    assert_eq!(b.len(), 9);
    assert_eq!(b.to_bytes(), vec![0b1011_1111, 0b1000_0000]);
}

#[test]
fn bit_buffer_reads_bytes_highest_bit_first() {
    let b = BitBuffer::from_bytes(&[0b1010_0000, 0x01]).expect("two bytes fit");
    assert_eq!(b.len(), 16);
    assert_eq!(b.get(0), Some(true));
    assert_eq!(b.get(1), Some(false));
    assert_eq!(b.get(2), Some(true));
    assert_eq!(b.get(3), Some(false));
    assert_eq!(b.get(14), Some(false));
    assert_eq!(b.get(15), Some(true));
    assert_eq!(b.get(16), None);
    assert_eq!(b.to_bytes(), vec![0b1010_0000, 0x01]);
    let empty = BitBuffer::from_bytes(&[]).expect("no bytes fit");
    assert_eq!(empty.len(), 0);
}

#[test]
fn encode_writes_nodes_in_pre_order() {
    let palette = palette_of(4);
    let tree = four(1, 0, 1, 2, 3);
    let mut buffer = BitBuffer::new();
    assert_eq!(tree.encode(&mut buffer, &palette), Ok(()));
    assert_eq!(buffer.len(), 25);
    // 1 0001, 0 0000, 0 0001, 0 0010, 0 0011
    assert_eq!(buffer.to_bytes(), vec![0x88, 0x02, 0x21, 0x80]);
}

#[test]
fn encode_appends_to_what_the_buffer_holds() {
    let palette = palette_of(4);
    let mut buffer = BitBuffer::new();
    assert!(buffer.push(true));
    assert_eq!(leaf(5).encode(&mut buffer, &palette), Ok(()));
    // 1, then 0 0101
    assert_eq!(buffer.len(), 6);
    assert_eq!(buffer.to_bytes(), vec![0b1001_0100]);
}

#[test]
fn encode_refuses_a_colour_outside_the_palette() {
    let palette = palette_of(4);
    let mut buffer = BitBuffer::new();
    assert_eq!(leaf(16).encode(&mut buffer, &palette), Err(EncodeError::ColorOutOfRange));
    let mut buffer = BitBuffer::new();
    assert!(buffer.push(true));
    assert_eq!(
        four(0, 1, 2, 3, 16).encode(&mut buffer, &palette),
        Err(EncodeError::ColorOutOfRange)
    );
    // nothing was written
    assert_eq!(buffer.len(), 1);
    assert_eq!(buffer.to_bytes(), vec![0x80]);
    let mut buffer = BitBuffer::new();
    assert_eq!(leaf(15).encode(&mut buffer, &palette), Ok(()));
}

#[test]
fn decode_reads_what_encode_wrote() {
    let palette = palette_of(16);
    let tree = QuadtreeNode::inner(3, four(9, 1, 2, 3, 4), leaf(15), leaf(0), four(2, 7, 7, 7, 8));
    let mut buffer = BitBuffer::new();
    assert_eq!(tree.encode(&mut buffer, &palette), Ok(()));
    assert_eq!(buffer.len(), 13 * 5);
    let mut read = QuadtreeNode::default();
    assert_eq!(read.decode(&buffer, &palette, 0), Ok(13 * 5));
    assert_eq!(read, tree);
}

#[test]
fn decode_starts_where_it_is_told() {
    let palette = palette_of(4);
    let mut buffer = BitBuffer::new();
    assert!(buffer.push(true));
    assert!(buffer.push(true));
    assert_eq!(leaf(5).encode(&mut buffer, &palette), Ok(()));
    let mut read = QuadtreeNode::default();
    assert_eq!(read.decode(&buffer, &palette, 2), Ok(7));
    assert_eq!(read, leaf(5));
}

#[test]
fn decode_fails_where_the_bits_end_inside_a_node() {
    let palette = palette_of(4);
    let buffer = BitBuffer::from_bytes(&[0x88, 0x02, 0x21]).expect("three bytes fit");
    let mut read = four(9, 8, 7, 6, 5);
    assert_eq!(read.decode(&buffer, &palette, 0), Err(DecodeError::InsufficientData));
    // the node is as it was
    assert_eq!(read, four(9, 8, 7, 6, 5));
    let mut short = BitBuffer::new();
    for _ in 0..4 {
        assert!(short.push(false));
    }
    let mut read = QuadtreeNode::default();
    assert_eq!(read.decode(&short, &palette, 0), Err(DecodeError::InsufficientData));
    assert_eq!(read.decode(&short, &palette, 4), Err(DecodeError::InsufficientData));
    assert_eq!(read.decode(&short, &palette, 40), Err(DecodeError::InsufficientData));
    assert!(short.push(true));
    assert_eq!(read.decode(&short, &palette, 0), Ok(5));
    assert_eq!(read, leaf(1));
}

#[test]
fn to_qim_of_a_single_leaf() {
    let palette = DynamicPaletteView::from_colors(vec![rgba(128, 64, 32, 255)]);
    let bytes = leaf(0).to_qim(&palette).expect("colour 0 is in the palette");
    let mut expected = header_with(3);
    expected.extend_from_slice(&[128, 64, 32, 255]);
    expected.extend_from_slice(&[0; 32]);
    expected.push(0);
    assert_eq!(bytes, expected);
    assert_eq!(bytes.len(), 8 + 4 * 9 + 1);
}

#[test]
fn to_qim_starts_with_the_header() {
    for count in [1u8, 4, 16, 17, 200] {
        let palette = palette_of(count);
        let bytes = four(0, 0, 0, 0, 0).to_qim(&palette).expect("colour 0 is in the palette");
        assert_eq!(&bytes[..7], b"QuadIM\x01");
        assert_eq!(bytes[7] & 0x1f, palette.width() - 1);
    }
}

#[test]
fn to_qim_stores_between_nine_sixteenths_and_all_of_the_palette() {
    for count in 0u16..=300 {
        let palette = DynamicPaletteView::from_colors(
            (0..count).map(|i| rgba((i % 256) as u8, (i / 256) as u8, 1, 255)).collect(),
        );
        let space = 1usize << palette.width();
        let bytes = leaf(0).to_qim(&palette).expect("colour 0 is in the palette");
        let code = (bytes[7] >> 5) as usize;
        let stored = (code + 9) * space / 16;
        let tree_bytes = (1 + palette.width() as usize + 7) / 8;
        assert_eq!(bytes.len(), 8 + 4 * stored + tree_bytes);
        assert!(16 * stored >= 9 * space);
        assert!(stored <= space);
        assert!(stored >= count as usize);
        // no smaller code would have held the colours
        if code > 0 {
            assert!((code + 8) * space / 16 < count as usize);
        }
    }
}

#[test]
fn to_qim_leaves_out_trailing_transparent_colours() {
    let mut colors = vec![rgba(1, 1, 1, 255); 10];
    colors.extend(vec![rgba(0, 0, 0, 0); 6]);
    let palette = DynamicPaletteView::from_colors(colors);
    assert_eq!(palette.width(), 4);
    let bytes = leaf(0).to_qim(&palette).expect("colour 0 is in the palette");
    assert_eq!(bytes[7], (1 << 5) | 3);
    assert_eq!(bytes.len(), 8 + 4 * 10 + 1);
}

#[test]
fn to_qim_refuses_a_colour_outside_the_palette() {
    let palette = palette_of(3);
    assert_eq!(leaf(16).to_qim(&palette), Err(EncodeError::ColorOutOfRange));
    assert_eq!(four(0, 0, 0, 99, 0).to_qim(&palette), Err(EncodeError::ColorOutOfRange));
    assert!(leaf(15).to_qim(&palette).is_ok());
}

#[test]
fn fits_bit_buffer_for_small_trees() {
    assert!(leaf(0).fits_bit_buffer(4));
    assert!(four(0, 1, 2, 3, 4).fits_bit_buffer(32));
}

#[test]
fn encoded_bits_counts_one_bit_and_the_width_for_each_node() {
    assert_eq!(leaf(0).encoded_bits(4), Some(5));
    assert_eq!(leaf(0).encoded_bits(32), Some(33));
    assert_eq!(leaf(0).encoded_bits(0), Some(1));
    assert_eq!(four(0, 1, 2, 3, 4).encoded_bits(4), Some(25));
    let deep = QuadtreeNode::inner(3, four(9, 1, 2, 3, 4), leaf(15), leaf(0), four(2, 7, 7, 7, 8));
    assert_eq!(deep.encoded_bits(7), Some(13 * 8));
    assert_eq!(deep.nodes_up_to(13), Some(13));
    assert_eq!(deep.nodes_up_to(12), None);
    assert_eq!(deep.nodes_up_to(0), None);
    assert_eq!(leaf(0).nodes_up_to(1), Some(1));
    // what the buffer needs for encode is what encoded_bits says
    let palette = palette_of(4);
    let mut buffer = BitBuffer::new();
    assert_eq!(BitBuffer::limit(), usize::MAX / 8);
    assert_eq!(buffer.room(), usize::MAX / 8);
    assert!(buffer.push(true));
    assert_eq!(buffer.room(), usize::MAX / 8 - 1);
    assert!(deep.encoded_bits(palette.width()).expect("a small tree") <= buffer.room());
    assert_eq!(deep.encode(&mut buffer, &palette), Ok(()));
    assert_eq!(buffer.len(), 1 + 13 * 5);
}

#[test]
fn from_qim_reads_tree_and_palette() {
    let mut bytes = header_with(3);
    for i in 0..9u8 {
        bytes.extend_from_slice(&[i, i + 1, i + 2, 255]);
    }
    bytes.extend_from_slice(&[0x88, 0x02, 0x21, 0x80]);
    let (tree, palette): (QuadtreeNode, DynamicPaletteView) =
        QuadtreeNode::from_qim(&bytes).expect("the bytes are complete");
    assert_eq!(tree, four(1, 0, 1, 2, 3));
    assert_eq!(palette.width(), 4);
    // one colour for each of the 16 indices: the 9 stored, then transparent black
    assert_eq!(palette.len(), 16);
    assert_eq!(palette.to_rgba(0), Ok(rgba(0, 1, 2, 255)));
    assert_eq!(palette.to_rgba(8), Ok(rgba(8, 9, 10, 255)));
    for index in 9..16 {
        assert_eq!(palette.colors[index], rgba(0, 0, 0, 0));
    }
    assert_eq!(palette.to_rgba(16), Err(()));
}

#[test]
fn from_qim_fills_the_palette_up_to_its_index_space() {
    let mut bytes = header_with(3);
    bytes.extend_from_slice(&[9, 9, 9, 9]);
    bytes.extend_from_slice(&[0; 32]);
    // 1 0000, 0 0001, 0 0010, 0 0011, 0 0100
    bytes.extend_from_slice(&[0x80, 0x44, 0x32, 0x00]);
    assert_eq!(bytes.len(), 48);
    let (tree, palette): (QuadtreeNode, DynamicPaletteView) =
        QuadtreeNode::from_qim(&bytes).expect("the bytes are complete");
    assert_eq!(tree, four(0, 1, 2, 3, 4));
    let mut expected = vec![rgba(9, 9, 9, 9)];
    expected.extend(vec![rgba(0, 0, 0, 0); 15]);
    assert_eq!(palette.colors, expected);
    assert_eq!(palette.get_slice().map(|s| s.len()), Some(16));
    // every length code of a width gives as many colours
    for code in 0..8u8 {
        for width in [4u8, 5, 8] {
            let space = 1usize << width;
            let stored = (code as usize + 9) * space / 16;
            let mut bytes = header_with((code << 5) | (width - 1));
            for i in 0..stored {
                bytes.extend_from_slice(&[(i % 251) as u8 + 1, 2, 3, 4]);
            }
            bytes.extend_from_slice(&[0, 0]);
            let (_, palette): (QuadtreeNode, DynamicPaletteView) =
                QuadtreeNode::from_qim(&bytes).expect("the bytes are complete");
            assert_eq!(palette.len(), space);
            assert_eq!(palette.width(), width);
            for i in 0..space {
                let expected =
                    if i < stored { rgba((i % 251) as u8 + 1, 2, 3, 4) } else { rgba(0, 0, 0, 0) };
                assert_eq!(palette.colors[i], expected);
            }
        }
    }
}

#[test]
fn from_qim_ignores_what_follows_the_tree() {
    let mut bytes = header_with(3);
    bytes.extend_from_slice(&[7; 36]);
    bytes.extend_from_slice(&[0b0010_1111, 0xff, 0xff]);
    let (tree, _palette): (QuadtreeNode, DynamicPaletteView) =
        QuadtreeNode::from_qim(&bytes).expect("the bytes are complete");
    assert_eq!(tree, leaf(5));
}

#[test]
fn from_qim_wants_the_header() {
    let decode = |bytes: &[u8]| QuadtreeNode::from_qim::<DynamicPaletteView>(bytes).map(|_| ());
    assert_eq!(decode(b""), Err(DecodeError::MissingHeader));
    assert_eq!(decode(b"Quad"), Err(DecodeError::MissingHeader));
    assert_eq!(decode(b"QuadIM"), Err(DecodeError::MissingHeader));
    assert_eq!(decode(b"QuadIM\x02"), Err(DecodeError::MissingHeader));
    assert_eq!(decode(b"QuadIN\x01"), Err(DecodeError::MissingHeader));
    // magic and version are right, and nothing follows them
    assert_eq!(decode(b"QuadIM\x01"), Err(DecodeError::InsufficientData));
    let mut good = header_with(3);
    good.extend_from_slice(&[0; 37]);
    assert_eq!(decode(&good), Ok(()));
    let mut magic = good.clone();
    magic[0] = b'q';
    assert_eq!(decode(&magic), Err(DecodeError::MissingHeader));
    let mut magic = good.clone();
    magic[5] = b'N';
    assert_eq!(decode(&magic), Err(DecodeError::MissingHeader));
    let mut version = good.clone();
    version[6] = 2;
    assert_eq!(decode(&version), Err(DecodeError::MissingHeader));
    let mut version = good.clone();
    version[6] = 0;
    assert_eq!(decode(&version), Err(DecodeError::MissingHeader));
}

#[test]
fn from_qim_fails_where_the_bytes_end_early() {
    let decode = |bytes: &[u8]| QuadtreeNode::from_qim::<DynamicPaletteView>(bytes).map(|_| ());
    let mut bytes = header_with(3);
    assert_eq!(decode(&bytes), Err(DecodeError::InsufficientData));
    bytes.extend_from_slice(&[0; 35]);
    assert_eq!(decode(&bytes), Err(DecodeError::InsufficientData));
    bytes.push(0);
    // the palette is complete, the tree is missing
    assert_eq!(decode(&bytes), Err(DecodeError::InsufficientData));
    bytes.push(0x80);
    // an inner node without its children
    assert_eq!(decode(&bytes), Err(DecodeError::InsufficientData));
    bytes.extend_from_slice(&[0, 0]);
    // 1 0000, then 0 0000 0 0000  0 0000 0, and the fourth child cut short
    assert_eq!(decode(&bytes), Err(DecodeError::InsufficientData));
    bytes.push(0);
    assert_eq!(decode(&bytes), Ok(()));
}

#[test]
fn from_qim_refuses_a_palette_beyond_capacity() {
    let decode = |bytes: &[u8]| QuadtreeNode::from_qim::<DynamicPaletteView>(bytes).map(|_| ());
    // width 25 stores at least 9 * 2^21 colours, more than 2^24
    assert_eq!(decode(&header_with(24)), Err(DecodeError::PaletteTooLarge));
    assert_eq!(decode(&header_with(31)), Err(DecodeError::PaletteTooLarge));
    assert_eq!(decode(&header_with((7 << 5) | 31)), Err(DecodeError::PaletteTooLarge));
    // width 24 with all 2^24 colours is within capacity, and not there
    assert_eq!(decode(&header_with((7 << 5) | 23)), Err(DecodeError::InsufficientData));
    // a bad header is reported first
    let mut bytes = header_with(24);
    bytes[6] = 9;
    assert_eq!(decode(&bytes), Err(DecodeError::MissingHeader));
}

#[test]
fn from_qim_reads_narrow_palettes() {
    // width 2, length code 3: (3 + 9) * 4 / 16 = 3 colours
    let mut bytes = header_with((3 << 5) | 1);
    bytes.extend_from_slice(&[10, 0, 0, 255, 20, 0, 0, 255, 30, 0, 0, 255]);
    // an inner node of colour 2 over leaves 0, 1, 2, 3 in three bits each
    // 1 10, 0 00, 0 01, 0 10, 0 11
    bytes.extend_from_slice(&[0b1100_0000, 0b1010_0110]);
    let (tree, palette): (QuadtreeNode, DynamicPaletteView) =
        QuadtreeNode::from_qim(&bytes).expect("the bytes are complete");
    assert_eq!(tree, four(2, 0, 1, 2, 3));
    assert_eq!(
        palette.colors,
        vec![rgba(10, 0, 0, 255), rgba(20, 0, 0, 255), rgba(30, 0, 0, 255), rgba(0, 0, 0, 0)]
    );
    // width 1, length code 0: (0 + 9) * 2 / 16 = 1 colour
    let mut bytes = header_with(0);
    bytes.extend_from_slice(&[1, 2, 3, 4, 0b0100_0000]);
    let (tree, palette): (QuadtreeNode, DynamicPaletteView) =
        QuadtreeNode::from_qim(&bytes).expect("the bytes are complete");
    assert_eq!(tree, leaf(1));
    assert_eq!(palette.colors, vec![rgba(1, 2, 3, 4), rgba(0, 0, 0, 0)]);
    assert_eq!(palette.width(), 4);
}

#[test]
fn decoding_what_was_encoded_gives_it_back() {
    let trees = vec![
        leaf(0),
        leaf(15),
        four(3, 0, 1, 2, 3),
        QuadtreeNode::inner(3, four(9, 1, 2, 3, 4), leaf(15), leaf(0), four(2, 7, 7, 7, 8)),
        QuadtreeNode::inner(
            1,
            QuadtreeNode::inner(2, four(3, 4, 5, 6, 7), leaf(1), leaf(2), leaf(3)),
            leaf(4),
            leaf(5),
            leaf(6),
        ),
    ];
    for count in [1u8, 9, 10, 16, 17, 100, 255] {
        let palette = palette_of(count);
        let space = 1u32 << palette.width();
        for tree in &trees {
            let bytes = tree.to_qim(&palette).expect("the colours are in the palette");
            let (read, read_palette): (QuadtreeNode, DynamicPaletteView) =
                QuadtreeNode::from_qim(&bytes).expect("the bytes are complete");
            assert_eq!(&read, tree);
            assert_eq!(read_palette.width(), palette.width());
            for index in 0..space {
                assert_eq!(read_palette.to_rgba(index), palette.to_rgba(index));
            }
            assert_eq!(read_palette.to_rgba(space), Err(()));
            // and encoding that again gives the same bytes
            assert_eq!(read.to_qim(&read_palette), Ok(bytes));
        }
    }
}

#[test]
fn encoding_what_was_decoded_gives_it_back() {
    // a file without slack: the least length code, the tree's last bit in
    // the last byte, and zero bits behind it
    let mut bytes = header_with((2 << 5) | 3);
    for i in 0..11u8 {
        bytes.extend_from_slice(&[i + 1, 0, 0, 255]);
    }
    bytes.extend_from_slice(&[0x88, 0x02, 0x21, 0x80]);
    let (tree, palette): (QuadtreeNode, DynamicPaletteView) =
        QuadtreeNode::from_qim(&bytes).expect("the bytes are complete");
    assert_eq!(tree.to_qim(&palette), Ok(bytes.clone()));
    // with slack after the tree, the bytes come back without it
    let mut padded = bytes.clone();
    padded.push(0);
    let (tree, palette): (QuadtreeNode, DynamicPaletteView) =
        QuadtreeNode::from_qim(&padded).expect("the bytes are complete");
    assert_eq!(tree.to_qim(&palette), Ok(bytes));
}
