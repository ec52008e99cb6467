//! The QIM byte format: a header, the palette, and the tree as a stream
//! of bits.
//!
//! A file starts with the six bytes `QuadIM` and the version byte 1. The
//! eighth byte holds the palette's bit width less one in its low five
//! bits and, in its high three bits, a code for the number of palette
//! colours stored. The colours follow, four bytes each. The rest is the
//! tree: for each node, in pre-order, one bit that tells whether it has
//! children and then its colour index in as many bits as the palette is
//! wide, the most significant first.

use crate::error::{DecodeError, EncodeError};
use crate::node::bits::{
    bit_seq, bits_msb, bitvec_as_raw_slice, bitvec_from_slice, bitvec_index, bitvec_len,
    bitvec_new, bitvec_push, lemma_bit_at, lemma_bits_len, lemma_value_bound, max_bits, max_bytes,
    pack, unpack, value_msb, BitBuffer,
};
use crate::node::{Quadrants, QuadtreeNode};
use crate::quantization::palette::{
    capped, entry_at, index_space, transparent, Color, DynamicPalette, Palette,
};
use crate::quantization::palette_entries;
use vstd::arithmetic::power2::pow2;
use vstd::prelude::*;

verus! {

/// The bits of one node: whether it has children, then its colour.
pub open spec fn node_bits(inner: bool, color: u32, width: nat) -> Seq<bool> {
    seq![inner] + bits_msb(color as nat, width)
}

/// The bits of a tree: each node's bits, a node before its children and
/// the children in the order north-west, north-east, south-west,
/// south-east.
pub open spec fn tree_bits(t: QuadtreeNode, width: nat) -> Seq<bool>
    decreases t,
{
    match t.sections {
        None => node_bits(false, t.color, width),
        Some(q) => node_bits(true, t.color, width) + tree_bits(q.nw, width) + tree_bits(
            q.ne,
            width,
        ) + tree_bits(q.sw, width) + tree_bits(q.se, width),
    }
}

/// What reading a tree gives: the tree and the place behind its last bit.
pub struct Parsed {
    pub tree: QuadtreeNode,
    pub next: int,
}

/// Whether the place `next` lies behind `at` and within the bits. Every
/// place behind a tree that was read from `at` or later does.
pub open spec fn advanced(bits: Seq<bool>, at: int, next: int) -> bool {
    at < next <= bits.len()
}

/// The tree that the bits from `at` on spell, with the place behind its
/// last bit; `None` where the bits end inside a node.
///
/// A node is one bit that tells whether it has children, then its colour
/// in `width` bits, then its four children.
pub open spec fn parse_tree(bits: Seq<bool>, width: nat, at: int) -> Option<Parsed>
    decreases bits.len() - at,
{
    if at < 0 || at + 1 + width > bits.len() {
        None
    } else {
        let color = value_msb(bits.subrange(at + 1, at + 1 + width)) as u32;
        if !bits[at] {
            Some(Parsed { tree: QuadtreeNode::spec_leaf(color), next: at + 1 + width })
        } else {
            match parse_tree(bits, width, at + 1 + width) {
                Some(nw) if advanced(bits, at, nw.next) => match parse_tree(bits, width, nw.next) {
                    Some(ne) if advanced(bits, at, ne.next) => match parse_tree(
                        bits,
                        width,
                        ne.next,
                    ) {
                        Some(sw) if advanced(bits, at, sw.next) => match parse_tree(
                            bits,
                            width,
                            sw.next,
                        ) {
                            Some(se) => Some(
                                Parsed {
                                    tree: QuadtreeNode::spec_inner(
                                        color,
                                        nw.tree,
                                        ne.tree,
                                        sw.tree,
                                        se.tree,
                                    ),
                                    next: se.next,
                                },
                            ),
                            None => None,
                        },
                        _ => None,
                    },
                    _ => None,
                },
                _ => None,
            }
        }
    }
}

/// The number of bits of a tree is one and the width for each node.
pub proof fn lemma_tree_bits_len(t: QuadtreeNode, width: nat)
    ensures
        tree_bits(t, width).len() == t.node_count() * (1 + width),
        tree_bits(t, width).len() >= 1 + width,
    decreases t,
{
    lemma_bits_len(t.color as nat, width);
    assert(1 * (1 + width) == 1 + width) by (nonlinear_arith);
    match t.sections {
        None => {},
        Some(q) => {
            lemma_tree_bits_len(q.nw, width);
            lemma_tree_bits_len(q.ne, width);
            lemma_tree_bits_len(q.sw, width);
            lemma_tree_bits_len(q.se, width);
            let w1 = 1 + width;
            assert((1 + q.nw.node_count() + q.ne.node_count() + q.sw.node_count()
                + q.se.node_count()) * w1 == w1 + q.nw.node_count() * w1 + q.ne.node_count() * w1
                + q.sw.node_count() * w1 + q.se.node_count() * w1) by (nonlinear_arith);
        },
    }
}

/// Appends the `width` low bits of `color`, the most significant first.
fn push_color(buffer: &mut BitBuffer, color: u32, width: u8)
    requires
        1 <= width <= 32,
        bit_seq(*old(buffer)).len() + width <= max_bits(),
    ensures
        bit_seq(*final(buffer)) == bit_seq(*old(buffer)) + bits_msb(color as nat, width as nat),
{
    let ghost start = bit_seq(*buffer);
    let ghost all = bits_msb(color as nat, width as nat);
    proof {
        lemma_bits_len(color as nat, width as nat);
    }
    let mut k: u8 = 0;
    assert(bit_seq(*buffer) =~= start + all.take(0));
    while k < width
        invariant
            k <= width <= 32,
            all == bits_msb(color as nat, width as nat),
            all.len() == width,
            start.len() + width <= max_bits(),
            bit_seq(*buffer) == start + all.take(k as int),
        decreases width - k,
    {
        let place: u64 = index_space(width - 1 - k);
        let bit: bool = (color as u64 / place) % 2 == 1;
        proof {
            lemma_bit_at(color as nat, width as nat, k as int);
            assert(bit == all[k as int]);
        }
        bitvec_push(buffer, bit);
        assert(bit_seq(*buffer) =~= start + all.take(k + 1));
        k = k + 1;
    }
    assert(all.take(k as int) =~= all);
}

/// The number spelt by the `width` bits from `at` on.
fn read_color(buffer: &BitBuffer, at: usize, width: u8) -> (color: u32)
    requires
        1 <= width <= 32,
        at + width <= bit_seq(*buffer).len(),
    ensures
        color == value_msb(bit_seq(*buffer).subrange(at as int, at + width)),
{
    let ghost bits = bit_seq(*buffer);
    let len: usize = bitvec_len(buffer);
    let mut n: u64 = 0;
    let mut k: u8 = 0;
    proof {
        vstd::arithmetic::power2::lemma2_to64();
    }
    while k < width
        invariant
            k <= width <= 32,
            bits == bit_seq(*buffer),
            at + width <= bits.len() == len,
            n == value_msb(bits.subrange(at as int, at + k)),
            n < pow2(k as nat) <= 0x1_0000_0000,
        decreases width - k,
    {
        let bit: bool = bitvec_index(buffer, at + k as usize);
        proof {
            let wider = bits.subrange(at as int, at + k + 1);
            assert(wider.drop_last() =~= bits.subrange(at as int, at + k));
            assert(wider.last() == bit);
            lemma_value_bound(wider);
            vstd::arithmetic::power2::lemma2_to64();
            if k + 1 < 32 {
                vstd::arithmetic::power2::lemma_pow2_strictly_increases((k + 1) as nat, 32);
            }
        }
        n = 2 * n + if bit {
            1
        } else {
            0
        };
        k = k + 1;
    }
    n as u32
}

impl QuadtreeNode {
    /// Appends the tree's bits to `buffer`, each colour in as many bits
    /// as the palette is wide.
    ///
    /// It fails, and leaves the buffer as it is, where a colour of the
    /// tree is not an index of the palette.
    pub fn encode<P: Palette>(&self, buffer: &mut BitBuffer, palette: &P) -> (r: Result<
        (),
        EncodeError,
    >)
        requires
            palette.wf(),
            bit_seq(*old(buffer)).len() + tree_bits(*self, palette.spec_width()).len()
                <= max_bits(),
        ensures
            match r {
                Ok(()) => self.colors_below(pow2(palette.spec_width()) as int) && bit_seq(
                    *final(buffer),
                ) == bit_seq(*old(buffer)) + tree_bits(*self, palette.spec_width()),
                Err(e) => e == EncodeError::ColorOutOfRange && !self.colors_below(
                    pow2(palette.spec_width()) as int,
                ) && bit_seq(*final(buffer)) == bit_seq(*old(buffer)),
            },
    {
        let width: u8 = palette.width();
        if !self.all_colors_below(index_space(width)) {
            return Err(EncodeError::ColorOutOfRange);
        }
        self.push_tree(buffer, width);
        Ok(())
    }

    /// Appends the bits of a tree whose colours fit the width.
    fn push_tree(&self, buffer: &mut BitBuffer, width: u8)
        requires
            1 <= width <= 32,
            bit_seq(*old(buffer)).len() + tree_bits(*self, width as nat).len() <= max_bits(),
        ensures
            bit_seq(*final(buffer)) == bit_seq(*old(buffer)) + tree_bits(*self, width as nat),
        decreases self,
    {
        let ghost w = width as nat;
        let ghost start = bit_seq(*buffer);
        proof {
            lemma_tree_bits_len(*self, w);
            lemma_bits_len(self.color as nat, w);
        }
        bitvec_push(buffer, self.sections.is_some());
        push_color(buffer, self.color, width);
        assert(bit_seq(*buffer) =~= start + node_bits(self.sections is Some, self.color, w));
        match &self.sections {
            None => {},
            Some(q) => {
                proof {
                    lemma_tree_bits_len(q.nw, w);
                    lemma_tree_bits_len(q.ne, w);
                    lemma_tree_bits_len(q.sw, w);
                    lemma_tree_bits_len(q.se, w);
                }
                q.nw.push_tree(buffer, width);
                q.ne.push_tree(buffer, width);
                q.sw.push_tree(buffer, width);
                q.se.push_tree(buffer, width);
                assert(bit_seq(*buffer) =~= start + tree_bits(*self, w));
            },
        }
    }

    /// Reads a tree from the bits of `buffer` from `curr_ind` on, each
    /// colour in as many bits as the palette is wide, and gives the place
    /// behind the tree's last bit.
    ///
    /// It fails, and leaves the node as it is, where the bits end inside
    /// a node of the tree.
    pub fn decode<P: Palette>(&mut self, buffer: &BitBuffer, palette: &P, curr_ind: usize) -> (r:
        Result<usize, DecodeError>)
        requires
            palette.wf(),
        ensures
            match r {
                Ok(next) => parse_tree(bit_seq(*buffer), palette.spec_width(), curr_ind as int)
                    == Some(Parsed { tree: *final(self), next: next as int }) && curr_ind < next
                    <= bit_seq(*buffer).len(),
                Err(e) => e == DecodeError::InsufficientData && parse_tree(
                    bit_seq(*buffer),
                    palette.spec_width(),
                    curr_ind as int,
                ) is None && *final(self) == *old(self),
            },
    {
        let width: u8 = palette.width();
        self.decode_width(buffer, width, curr_ind)
    }

    /// Reads a tree from the bits of `buffer` from `curr_ind` on, each
    /// colour in `width` bits.
    fn decode_width(&mut self, buffer: &BitBuffer, width: u8, curr_ind: usize) -> (r: Result<
        usize,
        DecodeError,
    >)
        requires
            1 <= width <= 32,
        ensures
            match r {
                Ok(next) => parse_tree(bit_seq(*buffer), width as nat, curr_ind as int) == Some(
                    Parsed { tree: *final(self), next: next as int },
                ) && curr_ind < next <= bit_seq(*buffer).len(),
                Err(e) => e == DecodeError::InsufficientData && parse_tree(
                    bit_seq(*buffer),
                    width as nat,
                    curr_ind as int,
                ) is None && *final(self) == *old(self),
            },
        decreases bit_seq(*buffer).len() - curr_ind,
    {
        let len: usize = bitvec_len(buffer);
        if curr_ind >= len || len - curr_ind < 1 + width as usize {
            return Err(DecodeError::InsufficientData);
        }
        let color: u32 = read_color(buffer, curr_ind + 1, width);
        let should_recurse: bool = bitvec_index(buffer, curr_ind);
        let next: usize = curr_ind + 1 + width as usize;
        if !should_recurse {
            self.color = color;
            self.sections = None;
            return Ok(next);
        }
        let mut nw = QuadtreeNode { color: 0, sections: None };
        let a: usize = match nw.decode_width(buffer, width, next) {
            Ok(a) => a,
            Err(e) => {
                return Err(e);
            },
        };
        let mut ne = QuadtreeNode { color: 0, sections: None };
        let b: usize = match ne.decode_width(buffer, width, a) {
            Ok(b) => b,
            Err(e) => {
                return Err(e);
            },
        };
        let mut sw = QuadtreeNode { color: 0, sections: None };
        let c: usize = match sw.decode_width(buffer, width, b) {
            Ok(c) => c,
            Err(e) => {
                return Err(e);
            },
        };
        let mut se = QuadtreeNode { color: 0, sections: None };
        let d: usize = match se.decode_width(buffer, width, c) {
            Ok(d) => d,
            Err(e) => {
                return Err(e);
            },
        };
        self.color = color;
        self.sections = Some(Box::new(Quadrants { nw, ne, sw, se }));
        Ok(d)
    }

    /// The number of bits that the tree takes at `width` bits a colour,
    /// or `None` where they are more than a bit buffer holds. A buffer
    /// with that much room meets what `encode` requires.
    pub fn encoded_bits(&self, width: u8) -> (bits: Option<usize>)
        requires
            width <= 32,
        ensures
            bits == if tree_bits(*self, width as nat).len() <= max_bits() {
                Some(tree_bits(*self, width as nat).len() as usize)
            } else {
                None
            },
    {
        let per_node: usize = 1 + width as usize;
        let limit: usize = (usize::MAX / 8) / per_node;
        proof {
            lemma_tree_bits_len(*self, width as nat);
            let n = self.node_count() as int;
            let m = max_bits();
            let d = per_node as int;
            assert(n * d <= m <==> n <= m / d) by (nonlinear_arith)
                requires
                    d > 0,
                    n >= 0,
                    m >= 0,
            ;
        }
        match self.nodes_up_to(limit) {
            Some(nodes) => Some(nodes * per_node),
            None => None,
        }
    }

    /// Whether the tree's bits, at `width` bits a colour, fit a bit buffer.
    pub fn fits_bit_buffer(&self, width: u8) -> (fits: bool)
        requires
            width <= 32,
        ensures
            fits == (tree_bits(*self, width as nat).len() <= max_bits()),
    {
        self.encoded_bits(width).is_some()
    }

    /// The number of nodes, or `None` where they are more than `limit`.
    pub fn nodes_up_to(&self, limit: usize) -> (n: Option<usize>)
        ensures
            n == if self.node_count() <= limit {
                Some(self.node_count() as usize)
            } else {
                None
            },
        decreases self,
    {
        if limit < 1 {
            return None;
        }
        match &self.sections {
            None => Some(1),
            Some(q) => {
                let a: usize = match q.nw.nodes_up_to(limit - 1) {
                    Some(a) => a,
                    None => {
                        return None;
                    },
                };
                let b: usize = match q.ne.nodes_up_to(limit - 1 - a) {
                    Some(b) => b,
                    None => {
                        return None;
                    },
                };
                let c: usize = match q.sw.nodes_up_to(limit - 1 - a - b) {
                    Some(c) => c,
                    None => {
                        return None;
                    },
                };
                let d: usize = match q.se.nodes_up_to(limit - 1 - a - b - c) {
                    Some(d) => d,
                    None => {
                        return None;
                    },
                };
                Some(1 + a + b + c + d)
            },
        }
    }

    /// The QIM bytes of the tree with its palette.
    ///
    /// It fails where a colour of the tree is not an index of the
    /// palette, and only there.
    pub fn to_qim<P: Palette>(&self, palette: &P) -> (r: Result<Vec<u8>, EncodeError>)
        requires
            palette.wf(),
            tree_bits(*self, palette.spec_width()).len() <= max_bits(),
        ensures
            match r {
                Ok(bytes) => {
                    &&& self.colors_below(pow2(palette.spec_width()) as int)
                    &&& bytes@ == qim_bytes(*self, palette.spec_width(), palette.listed())
                    &&& bytes@.len() >= 8
                    &&& bytes@.take(7) == header()
                },
                Err(e) => e == EncodeError::ColorOutOfRange && !self.colors_below(
                    pow2(palette.spec_width()) as int,
                ),
            },
    {
        let mut bit_buf = bitvec_new();
        match self.encode(&mut bit_buf, palette) {
            Err(e) => {
                return Err(e);
            },
            Ok(()) => {},
        }
        let width: u8 = palette.width();
        let space: u64 = index_space(width);
        let entries = palette_entries(palette);
        proof {
            palette.lemma_wf();
        }
        let used: usize = used_entries(&entries);
        let code: u8 = choose_code(space, used as u64);
        let count: u64 = entries_for(code, space);
        proof {
            lemma_stored_len(space as nat, used as nat);
        }
        let mut ret: Vec<u8> = Vec::new();
        ret.push(0x51);
        ret.push(0x75);
        ret.push(0x61);
        ret.push(0x64);
        ret.push(0x49);
        ret.push(0x4d);
        ret.push(1);
        ret.push(code * 32 + (width - 1));
        let ghost head = ret@;
        assert(head =~= header() + seq![(code * 32 + (width - 1)) as u8]);
        let mut c: u64 = 0;
        while c < count
            invariant
                c <= count <= space,
                space == pow2(palette.spec_width()),
                space <= 0x1_0000_0000,
                palette.wf(),
                ret@ == head + palette_block(palette.listed(), c as nat),
            decreases count - c,
        {
            let ghost before = ret@;
            match palette.to_rgba(c as u32) {
                Ok(color) => {
                    ret.push(color.r);
                    ret.push(color.g);
                    ret.push(color.b);
                    ret.push(color.a);
                },
                Err(_) => {
                    assert(false);
                },
            }
            assert(ret@ =~= head + palette_block(palette.listed(), (c + 1) as nat)) by {
                let wider = palette_block(palette.listed(), (c + 1) as nat);
                let block = palette_block(palette.listed(), c as nat);
                assert forall|i: int| 0 <= i < ret@.len() implies ret@[i] == (head + wider)[i] by {
                    if i >= head.len() + block.len() {
                        let k = i - head.len();
                        assert(k / 4 == c);
                    } else {
                        assert(ret@[i] == before[i]);
                    }
                }
            }
            c = c + 1;
        }
        let mut tree_bytes = bitvec_as_raw_slice(&bit_buf);
        ret.append(&mut tree_bytes);
        assert(ret@ =~= qim_bytes(*self, palette.spec_width(), palette.listed()));
        assert(ret@.take(7) =~= header());
        Ok(ret)
    }

    /// The tree and the palette that QIM bytes hold.
    ///
    /// The palette is made from as many colours as the header's width
    /// gives indices: the colours that the bytes store, filled up with
    /// transparent black. The tree's colours are read in as many bits as
    /// the header says.
    ///
    /// It fails with `MissingHeader` where the first seven bytes are not
    /// the magic and the version, with `PaletteTooLarge` where more
    /// colours are stored than the palette type holds, and with
    /// `InsufficientData` where the bytes end before the eighth byte, in
    /// the palette or inside the tree.
    pub fn from_qim<P: DynamicPalette>(source: &[u8]) -> (r: Result<(QuadtreeNode, P), DecodeError>)
        requires
            source@.len() <= max_bytes(),
        ensures
            match r {
                Ok((tree, palette)) => {
                    &&& palette.wf()
                    &&& parse_qim(source@, P::spec_capacity()) matches Ok(image)
                    &&& image.tree == tree
                    &&& palette.listed() == capped(image.colors, P::spec_capacity())
                },
                Err(e) => parse_qim(source@, P::spec_capacity()) == Err::<QimImage, DecodeError>(e),
            },
    {
        if source.len() < 7 {
            return Err(DecodeError::MissingHeader);
        }
        if source[0] != 0x51 || source[1] != 0x75 || source[2] != 0x61 || source[3] != 0x64
            || source[4] != 0x49 || source[5] != 0x4d || source[6] != 1 {
            assert(!(source@.take(7) =~= header()));
            return Err(DecodeError::MissingHeader);
        }
        assert(source@.take(7) =~= header());
        if source.len() < 8 {
            return Err(DecodeError::InsufficientData);
        }
        let width: u8 = source[7] % 32 + 1;
        let code: u8 = source[7] / 32;
        let space: u64 = index_space(width);
        let count: u64 = entries_for(code, space);
        if count > P::capacity() {
            return Err(DecodeError::PaletteTooLarge);
        }
        if (source.len() as u64) < 8 + 4 * count {
            return Err(DecodeError::InsufficientData);
        }
        let stored: usize = count as usize;
        let start: usize = 8 + 4 * stored;
        let tail = vstd::slice::slice_subrange(source, start, source.len());
        assert(tail@ =~= source@.skip(start as int));
        let tree_bits = bitvec_from_slice(tail);
        let mut tree = QuadtreeNode { color: 0, sections: None };
        match tree.decode_width(&tree_bits, width, 0) {
            Ok(_) => {},
            Err(e) => {
                return Err(e);
            },
        }
        proof {
            lemma_length_for(code as nat, width as nat);
        }
        let slots: usize = space as usize;
        let len: usize = source.len();
        let mut pal: Vec<Color> = Vec::new();
        let mut i: usize = 0;
        while i < slots
            invariant
                i <= slots,
                stored <= slots,
                len == source@.len(),
                8 + 4 * stored <= source@.len(),
                pal@.len() == i,
                forall|k: int|
                    0 <= k < i ==> pal@[k] == if k < stored {
                        stored_color(source@, k)
                    } else {
                        transparent()
                    },
            decreases slots - i,
        {
            if i < stored {
                let at: usize = 8 + 4 * i;
                pal.push(
                    Color { r: source[at], g: source[at + 1], b: source[at + 2], a: source[at + 3] },
                );
            } else {
                pal.push(Color { r: 0, g: 0, b: 0, a: 0 });
            }
            i = i + 1;
        }
        assert(pal@ =~= decoded_colors(source@, count as nat, space as nat));
        let palette = P::from_colors(pal);
        Ok((tree, palette))
    }
}

/// The six bytes that every QIM file starts with, `QuadIM`, followed by
/// the version byte.
pub open spec fn header() -> Seq<u8> {
    seq![0x51u8, 0x75u8, 0x61u8, 0x64u8, 0x49u8, 0x4du8, 1u8]
}

/// The number of entries of `listed` up to its last one that is not
/// transparent black.
pub open spec fn used_len(listed: Seq<Color>) -> nat
    decreases listed.len(),
{
    if listed.len() == 0 {
        0
    } else if listed.last() == transparent() {
        used_len(listed.drop_last())
    } else {
        listed.len()
    }
}

/// The number of colours stored under the length code `code` for a
/// palette of `space` indices.
pub open spec fn length_for(code: nat, space: nat) -> nat {
    (code + 9) * space / 16
}

/// The least number of colours that a file stores for a palette of
/// `space` indices: nine sixteenths of them, rounded up.
pub open spec fn least_length(space: nat) -> nat {
    (9 * space + 15) / 16
}

/// The first length code from `code` up to 7 that stores `need` colours.
pub open spec fn code_from(space: nat, need: nat, code: nat) -> nat
    decreases 7 - code,
{
    if code >= 7 || length_for(code, space) >= need {
        code
    } else {
        code_from(space, need, code + 1)
    }
}

/// The length code written for a palette of `space` indices of which the
/// first `used` matter: the smallest code that stores them all and no
/// fewer than `least_length`.
pub open spec fn length_code(space: nat, used: nat) -> nat {
    code_from(
        space,
        if used >= least_length(space) {
            used
        } else {
            least_length(space)
        },
        0,
    )
}

/// The number of colours written for a palette of `space` indices of
/// which the first `used` matter.
pub open spec fn stored_len(space: nat, used: nat) -> nat {
    length_for(length_code(space, used), space)
}

/// Channel `k` of a colour in the order red, green, blue, alpha.
pub open spec fn channel(c: Color, k: int) -> u8 {
    if k == 0 {
        c.r
    } else if k == 1 {
        c.g
    } else if k == 2 {
        c.b
    } else {
        c.a
    }
}

/// The bytes of the first `count` palette entries, four for each.
pub open spec fn palette_block(listed: Seq<Color>, count: nat) -> Seq<u8> {
    Seq::new(4 * count, |i: int| channel(entry_at(listed, i / 4), i % 4))
}

/// The QIM bytes of a tree with a palette of bit width `width` that lists
/// `listed`.
pub open spec fn qim_bytes(t: QuadtreeNode, width: nat, listed: Seq<Color>) -> Seq<u8> {
    let space = pow2(width);
    let code = length_code(space, used_len(listed));
    header() + seq![(code * 32 + (width - 1)) as u8] + palette_block(
        listed,
        length_for(code, space),
    ) + pack(tree_bits(t, width))
}

/// What QIM bytes hold: the tree, the palette's bit width and the colours
/// of all the palette's indices.
pub struct QimImage {
    pub tree: QuadtreeNode,
    pub width: nat,
    pub colors: Seq<Color>,
}

/// The colour stored as entry `k` of the palette of a file.
pub open spec fn stored_color(source: Seq<u8>, k: int) -> Color {
    Color { r: source[8 + 4 * k], g: source[8 + 4 * k + 1], b: source[8 + 4 * k + 2], a: source[8 + 4 * k + 3] }
}

/// The colours that a palette is made from when a file is read: one for
/// each of the `space` indices, the `count` stored ones first and
/// transparent black behind them.
pub open spec fn decoded_colors(source: Seq<u8>, count: nat, space: nat) -> Seq<Color> {
    Seq::new(
        space,
        |k: int|
            if k < count {
                stored_color(source, k)
            } else {
                transparent()
            },
    )
}

/// What the bytes `source` hold for a palette type that lists at most
/// `capacity` colours, or the reason why they hold nothing.
///
/// The header is missing where the first seven bytes are not the magic
/// and the version. Data is insufficient where the eighth byte, a stored
/// colour or a bit of the tree is not there.
pub open spec fn parse_qim(source: Seq<u8>, capacity: nat) -> Result<QimImage, DecodeError> {
    if source.len() < 7 || source.take(7) != header() {
        Err(DecodeError::MissingHeader)
    } else if source.len() < 8 {
        Err(DecodeError::InsufficientData)
    } else {
        let width = (source[7] % 32 + 1) as nat;
        let count = length_for((source[7] / 32) as nat, pow2(width));
        if count > capacity {
            Err(DecodeError::PaletteTooLarge)
        } else if source.len() < 8 + 4 * count {
            Err(DecodeError::InsufficientData)
        } else {
            match parse_tree(unpack(source.skip(8 + 4 * count as int)), width, 0) {
                None => Err(DecodeError::InsufficientData),
                Some(p) => Ok(
                    QimImage {
                        tree: p.tree,
                        width,
                        colors: decoded_colors(source, count, pow2(width)),
                    },
                ),
            }
        }
    }
}

/// A length code stores no more colours than there are indices, and from
/// width 4 on it stores `code + 9` sixteenths of them, which is more than
/// half.
pub proof fn lemma_length_for(code: nat, width: nat)
    requires
        code <= 7,
    ensures
        length_for(code, pow2(width)) <= pow2(width),
        width >= 4 ==> length_for(code, pow2(width)) == (code + 9) * pow2((width - 4) as nat),
        width >= 4 ==> pow2(width) <= 2 * length_for(code, pow2(width)),
        width < 4 ==> pow2(width) <= 8,
{
    let space = pow2(width);
    vstd::arithmetic::power2::lemma2_to64();
    assert((code + 9) * space <= 16 * space) by (nonlinear_arith)
        requires
            code <= 7,
    ;
    if width >= 4 {
        let sixteenth = pow2((width - 4) as nat);
        vstd::arithmetic::power2::lemma_pow2_adds((width - 4) as nat, 4);
        assert(space == sixteenth * 16);
        assert((code + 9) * (sixteenth * 16) == ((code + 9) * sixteenth) * 16) by (nonlinear_arith);
        assert(9 * sixteenth <= (code + 9) * sixteenth) by (nonlinear_arith);
    } else {
        if width < 3 {
            vstd::arithmetic::power2::lemma_pow2_strictly_increases(width, 3);
        }
    }
}

/// The stored length lies between nine sixteenths of the index space and
/// all of it, and holds every colour that matters.
pub proof fn lemma_stored_len(space: nat, used: nat)
    requires
        used <= space,
    ensures
        length_code(space, used) <= 7,
        9 * space <= 16 * stored_len(space, used),
        stored_len(space, used) <= space,
        used <= stored_len(space, used),
{
    let need = if used >= least_length(space) {
        used
    } else {
        least_length(space)
    };
    lemma_code_from(space, need, 0);
}

/// `code_from` gives a code up to 7 that stores what is needed, where all
/// of the index space is enough.
pub proof fn lemma_code_from(space: nat, need: nat, code: nat)
    requires
        code <= 7,
        need <= space,
    ensures
        code <= code_from(space, need, code) <= 7,
        length_for(code_from(space, need, code), space) >= need,
        length_for(code_from(space, need, code), space) <= space,
        forall|c: nat| code <= c < code_from(space, need, code) ==> length_for(c, space) < need,
    decreases 7 - code,
{
    if code >= 7 || length_for(code, space) >= need {
        assert(length_for(7, space) == space);
        assert(length_for(code, space) <= space) by {
            assert((code + 9) * space <= 16 * space) by (nonlinear_arith)
                requires
                    code <= 7,
            ;
        }
    } else {
        lemma_code_from(space, need, code + 1);
    }
}

/// The number of colours stored under a length code.
fn entries_for(code: u8, space: u64) -> (count: u64)
    requires
        code <= 7,
        space <= 0x1_0000_0000,
    ensures
        count == length_for(code as nat, space as nat),
        count <= space,
{
    assert((code + 9) * space <= 16 * space <= 16 * 0x1_0000_0000) by (nonlinear_arith)
        requires
            0 <= code <= 7,
            0 <= space <= 0x1_0000_0000,
    ;
    (code as u64 + 9) * space / 16
}

/// The number of entries up to the last one that is not transparent.
fn used_entries(entries: &Vec<Color>) -> (used: usize)
    ensures
        used == used_len(entries@),
        used <= entries@.len(),
{
    let mut used: usize = entries.len();
    assert(entries@.take(used as int) =~= entries@);
    while used > 0 && entries[used - 1].is_transparent()
        invariant
            used <= entries@.len(),
            used_len(entries@) == used_len(entries@.take(used as int)),
        decreases used,
    {
        assert(entries@.take(used as int).drop_last() =~= entries@.take(used - 1));
        used = used - 1;
    }
    used
}

/// The length code for a palette of `space` indices of which the first
/// `used` matter.
fn choose_code(space: u64, used: u64) -> (code: u8)
    requires
        1 <= space <= 0x1_0000_0000,
        used <= space,
    ensures
        code == length_code(space as nat, used as nat),
        code <= 7,
{
    let least: u64 = (9 * space + 15) / 16;
    let need: u64 = if used >= least {
        used
    } else {
        least
    };
    let mut code: u8 = 0;
    while code < 7 && entries_for(code, space) < need
        invariant
            code <= 7,
            1 <= space <= 0x1_0000_0000,
            code_from(space as nat, need as nat, code as nat) == length_code(
                space as nat,
                used as nat,
            ),
        decreases 7 - code,
    {
        code = code + 1;
    }
    code
}

} // verus!
