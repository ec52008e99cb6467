//! Laws of the QIM format: what is written is read back, and what is
//! read is written back.

use crate::node::bits::{
    bits_msb, lemma_bits_len, lemma_pack_unpack, lemma_unpack_pack, lemma_value_bound,
    lemma_value_of_bits, octet, pack, unpack, value_msb,
};
use crate::node::qim::{
    decoded_colors, header, lemma_length_for, lemma_stored_len, lemma_tree_bits_len, length_code,
    length_for, node_bits, palette_block, parse_qim, parse_tree, qim_bytes, stored_color,
    stored_len, tree_bits, used_len, Parsed, QimImage,
};
use crate::node::QuadtreeNode;
use crate::quantization::palette::{
    capped, dynamic_width, entry_at, full_table, lemma_width_from, transparent, Color,
};
use vstd::arithmetic::power2::{lemma2_to64, lemma_pow2_pos, lemma_pow2_strictly_increases, pow2};
use vstd::prelude::*;

verus! {

/// A width of at most 32 bits has an index space of at most `2^32`.
pub proof fn lemma_space_bound(width: nat)
    requires
        width <= 32,
    ensures
        1 <= pow2(width) <= 0x1_0000_0000,
{
    lemma2_to64();
    lemma_pow2_pos(width);
    if width < 32 {
        lemma_pow2_strictly_increases(width, 32);
    }
}

/// Where the bits from `at` on are the bits of a tree whose colours fit
/// the width, parsing there gives that tree and the place behind it.
pub proof fn lemma_parse_tree_bits(bits: Seq<bool>, width: nat, at: int, t: QuadtreeNode)
    requires
        width <= 32,
        0 <= at,
        at + tree_bits(t, width).len() <= bits.len(),
        bits.subrange(at, at + tree_bits(t, width).len()) == tree_bits(t, width),
        t.colors_below(pow2(width) as int),
    ensures
        parse_tree(bits, width, at) == Some(
            Parsed { tree: t, next: at + tree_bits(t, width).len() },
        ),
    decreases t,
{
    let all = tree_bits(t, width);
    let own = bits_msb(t.color as nat, width);
    lemma_tree_bits_len(t, width);
    lemma_bits_len(t.color as nat, width);
    lemma_space_bound(width);
    assert(bits[at] == all[0]);
    assert(bits.subrange(at + 1, at + 1 + width) =~= own) by {
        assert forall|i: int| 0 <= i < width implies bits[at + 1 + i] == own[i] by {
            assert(bits[at + 1 + i] == all[1 + i]);
        }
    }
    lemma_value_of_bits(t.color as nat, width);
    assert((t.color as nat) % pow2(width) == t.color) by {
        vstd::arithmetic::div_mod::lemma_small_mod(t.color as nat, pow2(width));
    }
    match t.sections {
        None => {},
        Some(q) => {
            let b0 = tree_bits(q.nw, width);
            let b1 = tree_bits(q.ne, width);
            let b2 = tree_bits(q.sw, width);
            let b3 = tree_bits(q.se, width);
            lemma_tree_bits_len(q.nw, width);
            lemma_tree_bits_len(q.ne, width);
            lemma_tree_bits_len(q.sw, width);
            lemma_tree_bits_len(q.se, width);
            let at_nw = at + 1 + width;
            let at_ne = at_nw + b0.len();
            let at_sw = at_ne + b1.len();
            let at_se = at_sw + b2.len();
            assert(all.len() == 1 + width + b0.len() + b1.len() + b2.len() + b3.len());
            assert(bits.subrange(at_nw, at_nw + b0.len()) =~= b0) by {
                assert forall|i: int| 0 <= i < b0.len() implies bits[at_nw + i] == b0[i] by {
                    assert(bits[at_nw + i] == all[1 + width + i]);
                }
            }
            assert(bits.subrange(at_ne, at_ne + b1.len()) =~= b1) by {
                assert forall|i: int| 0 <= i < b1.len() implies bits[at_ne + i] == b1[i] by {
                    assert(bits[at_ne + i] == all[1 + width + b0.len() + i]);
                }
            }
            assert(bits.subrange(at_sw, at_sw + b2.len()) =~= b2) by {
                assert forall|i: int| 0 <= i < b2.len() implies bits[at_sw + i] == b2[i] by {
                    assert(bits[at_sw + i] == all[1 + width + b0.len() + b1.len() + i]);
                }
            }
            assert(bits.subrange(at_se, at_se + b3.len()) =~= b3) by {
                assert forall|i: int| 0 <= i < b3.len() implies bits[at_se + i] == b3[i] by {
                    assert(bits[at_se + i] == all[1 + width + b0.len() + b1.len() + b2.len() + i]);
                }
            }
            lemma_parse_tree_bits(bits, width, at_nw, q.nw);
            lemma_parse_tree_bits(bits, width, at_ne, q.ne);
            lemma_parse_tree_bits(bits, width, at_sw, q.sw);
            lemma_parse_tree_bits(bits, width, at_se, q.se);
            assert(QuadtreeNode::spec_inner(t.color, q.nw, q.ne, q.sw, q.se) == t);
        },
    }
}

/// A tree that was parsed lies in the bits it was parsed from: they are
/// its bits, and its colours fit the width.
pub proof fn lemma_parse_tree_sound(bits: Seq<bool>, width: nat, at: int)
    requires
        width <= 32,
        parse_tree(bits, width, at) is Some,
    ensures
        ({
            let t = parse_tree(bits, width, at)->0.tree;
            let next = parse_tree(bits, width, at)->0.next;
            &&& at + 1 + width <= next <= bits.len()
            &&& bits.subrange(at, next) == tree_bits(t, width)
            &&& t.colors_below(pow2(width) as int)
        }),
    decreases bits.len() - at,
{
    let t = parse_tree(bits, width, at)->0.tree;
    let next = parse_tree(bits, width, at)->0.next;
    let own = bits.subrange(at + 1, at + 1 + width);
    lemma_value_bound(own);
    lemma_space_bound(width);
    crate::node::bits::lemma_bits_of_value(own);
    assert(t.color == value_msb(own));
    let at_nw = at + 1 + width;
    if !bits[at] {
        assert(bits.subrange(at, next) =~= node_bits(false, t.color, width));
    } else {
        lemma_parse_tree_sound(bits, width, at_nw);
        let nw = parse_tree(bits, width, at_nw)->0.tree;
        let at_ne = parse_tree(bits, width, at_nw)->0.next;
        lemma_parse_tree_sound(bits, width, at_ne);
        let ne = parse_tree(bits, width, at_ne)->0.tree;
        let at_sw = parse_tree(bits, width, at_ne)->0.next;
        lemma_parse_tree_sound(bits, width, at_sw);
        let sw = parse_tree(bits, width, at_sw)->0.tree;
        let at_se = parse_tree(bits, width, at_sw)->0.next;
        lemma_parse_tree_sound(bits, width, at_se);
        let se = parse_tree(bits, width, at_se)->0.tree;
        let behind = parse_tree(bits, width, at_se)->0.next;
        assert(t == QuadtreeNode::spec_inner(t.color, nw, ne, sw, se));
        assert(bits.subrange(at, next) =~= node_bits(true, t.color, width) + bits.subrange(at_nw, at_ne)
            + bits.subrange(at_ne, at_sw) + bits.subrange(at_sw, at_se) + bits.subrange(at_se, behind));
    }
}

/// Every entry behind the used ones is transparent black.
pub proof fn lemma_used_len(listed: Seq<Color>)
    ensures
        used_len(listed) <= listed.len(),
        forall|i: int| used_len(listed) <= i ==> entry_at(listed, i) == transparent(),
    decreases listed.len(),
{
    if listed.len() > 0 && listed.last() == transparent() {
        lemma_used_len(listed.drop_last());
        assert forall|i: int| used_len(listed) <= i implies entry_at(listed, i) == transparent() by {
            if i < listed.len() - 1 {
                assert(entry_at(listed.drop_last(), i) == transparent());
            }
        }
    }
}

/// Every encoded file starts with the bytes `QuadIM` and the version 1.
pub proof fn law_header(t: QuadtreeNode, width: nat, listed: Seq<Color>)
    ensures
        qim_bytes(t, width, listed).len() >= 8,
        qim_bytes(t, width, listed).take(7) == header(),
        header() == seq![0x51u8, 0x75u8, 0x61u8, 0x64u8, 0x49u8, 0x4du8, 1u8],
{
    assert(qim_bytes(t, width, listed).take(7) =~= header());
}

/// The number of colours that an encoded file stores is at least nine
/// sixteenths of the palette's index space and at most all of it, and the
/// file is as long as its header, its colours and its tree take.
pub proof fn law_palette_length(t: QuadtreeNode, width: nat, listed: Seq<Color>)
    requires
        listed.len() <= pow2(width),
    ensures
        ({
            let space = pow2(width);
            let count = stored_len(space, used_len(listed));
            &&& 9 * space <= 16 * count
            &&& count <= space
            &&& used_len(listed) <= count
            &&& qim_bytes(t, width, listed).len() == 8 + 4 * count + (tree_bits(t, width).len() + 7)
                / 8
        }),
{
    lemma_used_len(listed);
    lemma_stored_len(pow2(width), used_len(listed));
}

/// Decoding what was encoded gives the tree back, and for the palette a
/// colour for each index: the palette's full table. The colours that the
/// file leaves out are transparent black in the palette too.
pub proof fn law_decode_encode(t: QuadtreeNode, width: nat, listed: Seq<Color>, capacity: nat)
    requires
        1 <= width <= 32,
        listed.len() <= pow2(width),
        t.colors_below(pow2(width) as int),
        stored_len(pow2(width), used_len(listed)) <= capacity,
    ensures
        parse_qim(qim_bytes(t, width, listed), capacity) == Ok::<QimImage, crate::error::DecodeError>(
            QimImage { tree: t, width, colors: full_table(listed, width) },
        ),
{
    let space = pow2(width);
    let code = length_code(space, used_len(listed));
    let count = length_for(code, space);
    let bytes = qim_bytes(t, width, listed);
    let block = palette_block(listed, count);
    let tb = tree_bits(t, width);
    lemma_space_bound(width);
    lemma_used_len(listed);
    lemma_stored_len(space, used_len(listed));
    assert(bytes.take(7) =~= header());
    let b7 = (code * 32 + (width - 1)) as u8;
    assert(bytes[7] == b7);
    assert(b7 % 32 + 1 == width);
    assert(b7 / 32 == code);
    assert(decoded_colors(bytes, count, space) =~= full_table(listed, width)) by {
        assert forall|k: int| 0 <= k < count implies stored_color(bytes, k) == entry_at(listed, k) by {
            assert(bytes[8 + 4 * k] == block[4 * k]);
            assert(bytes[8 + 4 * k + 1] == block[4 * k + 1]);
            assert(bytes[8 + 4 * k + 2] == block[4 * k + 2]);
            assert(bytes[8 + 4 * k + 3] == block[4 * k + 3]);
            assert((4 * k) / 4 == k && (4 * k + 1) / 4 == k && (4 * k + 2) / 4 == k && (4 * k + 3) / 4
                == k);
        }
    }
    assert(bytes.skip(8 + 4 * count as int) =~= pack(tb));
    lemma_unpack_pack(tb);
    lemma_tree_bits_len(t, width);
    let read = unpack(pack(tb));
    assert(read.subrange(0, tb.len() as int) =~= tb);
    lemma_parse_tree_bits(read, width, 0, t);
}

/// Whether a file has no slack: its length code is the least that holds
/// its colours, its tree ends in its last byte, and the bits behind the
/// tree are zero.
pub open spec fn without_slack(source: Seq<u8>) -> bool {
    let width = (source[7] % 32 + 1) as nat;
    let code = (source[7] / 32) as nat;
    let space = pow2(width);
    let count = length_for(code, space);
    let tail = source.skip(8 + 4 * count as int);
    let next = parse_tree(unpack(tail), width, 0)->0.next;
    &&& length_code(space, used_len(decoded_colors(source, count, space))) == code
    &&& tail.len() == (next + 7) / 8
    &&& forall|i: int| next <= i < 8 * tail.len() ==> !(#[trigger] unpack(tail)[i])
}

/// Encoding what was decoded from a file without slack gives the file
/// back.
pub proof fn law_encode_decode(source: Seq<u8>, capacity: nat)
    requires
        parse_qim(source, capacity) is Ok,
        without_slack(source),
    ensures
        ({
            let image = parse_qim(source, capacity)->Ok_0;
            qim_bytes(image.tree, image.width, image.colors) == source
        }),
{
    let image = parse_qim(source, capacity)->Ok_0;
    let width = image.width;
    let code = (source[7] / 32) as nat;
    let space = pow2(width);
    let count = length_for(code, space);
    let tail = source.skip(8 + 4 * count as int);
    let read = unpack(tail);
    let t = parse_tree(read, width, 0)->0.tree;
    let next = parse_tree(read, width, 0)->0.next;
    let written = qim_bytes(image.tree, width, image.colors);
    lemma_space_bound(width);
    lemma_length_for(code, width);
    lemma_parse_tree_sound(read, width, 0);
    let tb = tree_bits(t, width);
    assert(tb == read.subrange(0, next));
    assert(pack(tb) =~= tail) by {
        lemma_pack_unpack(tail);
        assert(pack(tb).len() == tail.len());
        assert forall|j: int| 0 <= j < tail.len() implies pack(tb)[j] == pack(read)[j] by {
            assert(octet(tb, j) =~= octet(read, j)) by {
                assert forall|k: int| 0 <= k < 8 implies octet(tb, j)[k] == octet(read, j)[k] by {
                    if 8 * j + k >= next {
                        assert(!read[8 * j + k]);
                    }
                }
            }
        }
    }
    let block = palette_block(image.colors, count);
    assert(source.take(7) == header());
    assert forall|i: int| 0 <= i < source.len() implies written[i] == source[i] by {
        if i < 7 {
            assert(source.take(7)[i] == source[i]);
        } else if i == 7 {
            assert(code * 32 + (width - 1) == source[7]);
        } else if i < 8 + 4 * count {
            let k = (i - 8) / 4;
            assert(written[i] == block[i - 8]);
            assert(image.colors[k] == stored_color(source, k));
        } else {
            assert(written[i] == pack(tb)[i - 8 - 4 * count]);
        }
    }
    assert(written =~= source);
}

/// The used length of a list is the only place behind which all is
/// transparent black and before which the last entry is not.
pub proof fn lemma_used_len_is(listed: Seq<Color>, used: nat)
    requires
        used <= listed.len(),
        used > 0 ==> listed[used - 1] != transparent(),
        forall|i: int| used <= i < listed.len() ==> listed[i] == transparent(),
    ensures
        used_len(listed) == used,
    decreases listed.len(),
{
    if listed.len() > 0 && listed.last() == transparent() {
        assert(used < listed.len());
        lemma_used_len_is(listed.drop_last(), used);
    }
}

/// The last used entry of a list is not transparent black.
pub proof fn lemma_used_len_last(listed: Seq<Color>)
    ensures
        used_len(listed) <= listed.len(),
        used_len(listed) > 0 ==> listed[used_len(listed) - 1] != transparent(),
    decreases listed.len(),
{
    if listed.len() > 0 && listed.last() == transparent() {
        lemma_used_len_last(listed.drop_last());
        let u = used_len(listed);
        if u > 0 {
            assert(listed.drop_last()[u - 1] == listed[u - 1]);
        }
    }
}

/// A palette's full table has the used length of the palette's list.
pub proof fn lemma_table_used_len(width: nat, listed: Seq<Color>)
    requires
        listed.len() <= pow2(width),
    ensures
        used_len(full_table(listed, width)) == used_len(listed),
{
    let table = full_table(listed, width);
    let used = used_len(listed);
    lemma_used_len(listed);
    lemma_used_len_last(listed);
    assert forall|i: int| used <= i < table.len() implies table[i] == transparent() by {
        assert(entry_at(listed, i) == transparent());
    }
    lemma_used_len_is(table, used);
}

/// Every encoded file is without slack, so that encoding what is decoded
/// from it gives it back.
pub proof fn law_encoded_without_slack(
    t: QuadtreeNode,
    width: nat,
    listed: Seq<Color>,
    capacity: nat,
)
    requires
        1 <= width <= 32,
        listed.len() <= pow2(width),
        t.colors_below(pow2(width) as int),
        stored_len(pow2(width), used_len(listed)) <= capacity,
    ensures
        parse_qim(qim_bytes(t, width, listed), capacity) is Ok,
        without_slack(qim_bytes(t, width, listed)),
{
    let space = pow2(width);
    let code = length_code(space, used_len(listed));
    let count = length_for(code, space);
    let bytes = qim_bytes(t, width, listed);
    let tb = tree_bits(t, width);
    law_decode_encode(t, width, listed, capacity);
    lemma_space_bound(width);
    lemma_used_len(listed);
    lemma_stored_len(space, used_len(listed));
    lemma_table_used_len(width, listed);
    let b7 = (code * 32 + (width - 1)) as u8;
    assert(bytes[7] == b7);
    assert(b7 % 32 + 1 == width);
    assert(b7 / 32 == code);
    let image = parse_qim(bytes, capacity)->Ok_0;
    assert(image.colors == decoded_colors(bytes, count, space));
    assert(decoded_colors(bytes, count, space) == full_table(listed, width));
    let tail = bytes.skip(8 + 4 * count as int);
    assert(tail =~= pack(tb));
    lemma_unpack_pack(tb);
    lemma_tree_bits_len(t, width);
    let read = unpack(tail);
    assert(read.subrange(0, tb.len() as int) =~= tb);
    lemma_parse_tree_bits(read, width, 0, t);
}

/// A dynamic palette made from one colour for each index of a width from
/// 4 to 24 has that width: a file of such a width gives its reader a
/// dynamic palette of the same width.
pub proof fn law_decoded_width(width: nat)
    requires
        4 <= width <= 24,
    ensures
        dynamic_width(pow2(width)) == width,
        pow2(width) <= 0x100_0000,
{
    let count = pow2(width);
    lemma2_to64();
    if width < 24 {
        lemma_pow2_strictly_increases(width, 24);
    }
    lemma_width_from(count, 4);
    let w = dynamic_width(count);
    if w < width {
        lemma_pow2_strictly_increases(w, width);
    }
}

/// A file that stores no more colours than a dynamic palette holds has no
/// more indices than that either: the palette made from it lists a colour
/// for every index.
pub proof fn lemma_within_dynamic_capacity(width: nat, code: nat)
    requires
        1 <= width <= 32,
        code <= 7,
        length_for(code, pow2(width)) <= 0x100_0000,
    ensures
        pow2(width) <= 0x100_0000,
{
    lemma2_to64();
    lemma_length_for(code, width);
    if width >= 25 {
        let sixteenth = pow2((width - 4) as nat);
        if width > 25 {
            lemma_pow2_strictly_increases(21, (width - 4) as nat);
        }
        assert(sixteenth >= 0x20_0000);
        assert((code + 9) * sixteenth >= 9 * 0x20_0000) by (nonlinear_arith)
            requires
                sixteenth >= 0x20_0000,
        ;
    } else if width < 24 {
        lemma_pow2_strictly_increases(width, 24);
    }
}

/// A tree with a dynamic palette comes back from its file as it went in:
/// the file holds the tree and the palette's full table, the table fits a
/// dynamic palette, and the dynamic palette made from it has the same
/// width and the same table.
pub proof fn law_round_trip_dynamic(t: QuadtreeNode, listed: Seq<Color>)
    requires
        listed.len() <= 0x100_0000,
        t.colors_below(pow2(dynamic_width(listed.len())) as int),
    ensures
        ({
            let width = dynamic_width(listed.len());
            let table = full_table(listed, width);
            &&& parse_qim(qim_bytes(t, width, listed), 0x100_0000) == Ok::<
                QimImage,
                crate::error::DecodeError,
            >(QimImage { tree: t, width, colors: table })
            &&& capped(table, 0x100_0000) == table
            &&& dynamic_width(table.len()) == width
            &&& full_table(table, width) == table
        }),
{
    let width = dynamic_width(listed.len());
    let table = full_table(listed, width);
    lemma2_to64();
    lemma_width_from(listed.len(), 4);
    lemma_used_len(listed);
    lemma_stored_len(pow2(width), used_len(listed));
    law_decoded_width(width);
    law_decode_encode(t, width, listed, 0x100_0000);
    assert(capped(table, 0x100_0000) =~= table);
    assert(full_table(table, width) =~= table);
}

} // verus!
