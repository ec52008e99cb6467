//! Colours and palettes: a palette maps an index of a fixed bit width to an
//! RGBA colour.

use vstd::arithmetic::power2::{lemma2_to64, lemma_pow2_strictly_increases, lemma_pow2_unfold, pow2};
use vstd::prelude::*;

verus! {

/// An RGBA colour, eight bits per channel.
#[derive(Debug, Clone, Copy, PartialEq, Eq, Structural, Hash)]
pub struct Color {
    pub r: u8,
    pub g: u8,
    pub b: u8,
    pub a: u8,
}

/// The colour that stands for every palette entry that is not listed.
pub open spec fn transparent() -> Color {
    Color { r: 0, g: 0, b: 0, a: 0 }
}

/// The colour at `index` of a palette that lists `listed` and treats what
/// follows as transparent black.
pub open spec fn entry_at(listed: Seq<Color>, index: int) -> Color {
    if 0 <= index < listed.len() {
        listed[index]
    } else {
        transparent()
    }
}

/// The first `limit` elements of `s`, or all of `s` where it has fewer.
pub open spec fn capped<A>(s: Seq<A>, limit: nat) -> Seq<A> {
    s.take(
        if s.len() <= limit {
            s.len() as int
        } else {
            limit as int
        },
    )
}

/// The full table of a palette of bit width `width` that lists `listed`:
/// `2^width` colours, the listed ones first.
pub open spec fn full_table(listed: Seq<Color>, width: nat) -> Seq<Color> {
    Seq::new(pow2(width), |i: int| entry_at(listed, i))
}

impl Color {
    /// Builds a colour from its four channels.
    pub fn new(r: u8, g: u8, b: u8, a: u8) -> (c: Color)
        ensures
            c == (Color { r, g, b, a }),
    {
        Color { r, g, b, a }
    }

    /// The four channels in the order red, green, blue, alpha.
    pub fn channels(&self) -> (ch: [u8; 4])
        ensures
            ch@ == seq![self.r, self.g, self.b, self.a],
    {
        let ch = [self.r, self.g, self.b, self.a];
        assert(ch@ =~= seq![self.r, self.g, self.b, self.a]);
        ch
    }

    /// Whether this is transparent black, the value of an unlisted entry.
    pub fn is_transparent(&self) -> (t: bool)
        ensures
            t == (*self == transparent()),
    {
        self.r == 0 && self.g == 0 && self.b == 0 && self.a == 0
    }
}

/// `2^width` as a machine integer.
pub fn index_space(width: u8) -> (c: u64)
    requires
        width <= 32,
    ensures
        c == pow2(width as nat),
        1 <= c <= 0x1_0000_0000,
{
    proof {
        lemma2_to64();
        if width < 32 {
            lemma_pow2_strictly_increases(width as nat, 32);
        }
        vstd::arithmetic::power2::lemma_pow2_pos(width as nat);
        vstd::bits::lemma_u64_shl_is_mul(1, width as u64);
    }
    1u64 << width
}

/// A mapping from indices of a fixed bit width to RGBA colours.
///
/// A palette of width `w` has `2^w` entries. It lists the first few of them;
/// every entry after the listed ones is transparent black.
pub trait Palette {
    /// The invariant that every method relies on.
    spec fn wf(&self) -> bool;

    /// The bit width of an index.
    spec fn spec_width(&self) -> nat;

    /// The colours that the palette lists, by index.
    spec fn listed(&self) -> Seq<Color>;

    /// A valid palette has a width from 1 to 32 and lists no more colours
    /// than its indices can address.
    proof fn lemma_wf(&self)
        requires
            self.wf(),
        ensures
            1 <= self.spec_width() <= 32,
            self.listed().len() <= pow2(self.spec_width()),
    ;

    /// The bit width of an index, from 1 to 32.
    fn width(&self) -> (w: u8)
        requires
            self.wf(),
        ensures
            w == self.spec_width(),
            1 <= w <= 32,
    ;

    /// The colour of entry `c`, or an error when `c` is not an index of
    /// this palette.
    fn to_rgba(&self, c: u32) -> (r: Result<Color, ()>)
        requires
            self.wf(),
        ensures
            c < pow2(self.spec_width()) ==> r == Ok::<Color, ()>(entry_at(self.listed(), c as int)),
            c >= pow2(self.spec_width()) ==> r is Err,
    ;

    /// The listed colours as a slice, where the palette stores them so. A
    /// palette that gives no slice lists all of its `2^width` entries.
    fn get_slice(&self) -> (r: Option<&[Color]>)
        requires
            self.wf(),
        ensures
            match r {
                Some(s) => s@ == self.listed(),
                None => self.listed().len() == pow2(self.spec_width()),
            },
    ;
}

/// A palette that can be made from a list of colours.
pub trait DynamicPalette: Palette + Sized {
    /// The largest number of colours that a palette of this type lists.
    spec fn spec_capacity() -> nat;

    /// The capacity is at least one colour and at most `2^32`.
    proof fn lemma_capacity()
        ensures
            1 <= Self::spec_capacity() <= 0x1_0000_0000,
    ;

    /// The largest number of colours that a palette of this type lists.
    fn capacity() -> (n: u64)
        ensures
            n == Self::spec_capacity(),
    ;

    /// The palette that lists `colors`, or as many of them as it can hold.
    fn from_colors(colors: Vec<Color>) -> (p: Self)
        ensures
            p.wf(),
            p.listed() == capped(colors@, Self::spec_capacity()),
    ;
}

/// The narrowest index width of a `DynamicPaletteView`.
pub const MIN_DYNAMIC_WIDTH: u8 = 4;

/// The widest index width of a `DynamicPaletteView`.
pub const MAX_DYNAMIC_WIDTH: u8 = 24;

/// The largest number of colours that a `DynamicPaletteView` lists: `2^24`.
pub const MAX_DYNAMIC_COLORS: usize = 0x100_0000;

/// The width from `from` upward that a dynamic palette of `count` colours
/// gets: the first one whose index space holds them all, at most 24.
pub open spec fn width_from(count: nat, from: nat) -> nat
    decreases 24 - from,
{
    if from >= 24 || pow2(from) >= count {
        from
    } else {
        width_from(count, from + 1)
    }
}

/// The index width of a dynamic palette that lists `count` colours: the
/// smallest width from 4 to 24 with `2^width >= count`.
pub open spec fn dynamic_width(count: nat) -> nat {
    width_from(count, 4)
}

/// A palette held as a list of colours. Its width follows from the number
/// of colours: at least 4 bits, at most 24.
#[derive(Debug, Clone)]
pub struct DynamicPaletteView {
    /// The listed colours, by index.
    pub colors: Vec<Color>,
    /// The bit width of an index.
    pub width: u8,
}

/// `width_from` stays between its start and 24 and reaches the count where
/// the count is within capacity.
pub proof fn lemma_width_from(count: nat, from: nat)
    requires
        from <= 24,
    ensures
        from <= width_from(count, from) <= 24,
        count <= pow2(24) ==> pow2(width_from(count, from)) >= count,
        forall|w: nat| from <= w < width_from(count, from) ==> pow2(w) < count,
    decreases 24 - from,
{
    if from >= 24 || pow2(from) >= count {
    } else {
        lemma_width_from(count, from + 1);
    }
}

impl DynamicPaletteView {
    /// The number of listed colours.
    pub fn len(&self) -> (n: usize)
        ensures
            n == self.colors@.len(),
    {
        self.colors.len()
    }

    /// The width that a palette of `count` colours gets.
    pub fn width_for(count: usize) -> (w: u8)
        ensures
            w == dynamic_width(count as nat),
            4 <= w <= 24,
    {
        let mut w: u8 = 4;
        let mut space: u64 = 16;
        proof {
            lemma2_to64();
        }
        while w < 24 && space < count as u64
            invariant
                4 <= w <= 24,
                space == pow2(w as nat),
                space <= 0x100_0000,
                width_from(count as nat, w as nat) == dynamic_width(count as nat),
            decreases 24 - w,
        {
            proof {
                lemma_pow2_unfold((w + 1) as nat);
                lemma2_to64();
                if w + 1 < 24 {
                    lemma_pow2_strictly_increases((w + 1) as nat, 24);
                }
            }
            w = w + 1;
            space = space * 2;
        }
        w
    }
}

impl Palette for DynamicPaletteView {
    open spec fn wf(&self) -> bool {
        &&& self.colors@.len() <= 0x100_0000
        &&& self.width == dynamic_width(self.colors@.len())
    }

    open spec fn spec_width(&self) -> nat {
        self.width as nat
    }

    open spec fn listed(&self) -> Seq<Color> {
        self.colors@
    }

    proof fn lemma_wf(&self) {
        lemma2_to64();
        lemma_width_from(self.colors@.len(), 4);
    }

    fn width(&self) -> (w: u8) {
        proof {
            self.lemma_wf();
        }
        self.width
    }

    fn to_rgba(&self, c: u32) -> (r: Result<Color, ()>) {
        proof {
            self.lemma_wf();
        }
        if (c as usize) < self.colors.len() {
            Ok(self.colors[c as usize])
        } else if (c as u64) < index_space(self.width) {
            Ok(Color { r: 0, g: 0, b: 0, a: 0 })
        } else {
            Err(())
        }
    }

    fn get_slice(&self) -> (r: Option<&[Color]>) {
        Some(self.colors.as_slice())
    }
}

impl DynamicPalette for DynamicPaletteView {
    open spec fn spec_capacity() -> nat {
        0x100_0000
    }

    proof fn lemma_capacity() {
    }

    fn capacity() -> (n: u64) {
        0x100_0000
    }

    fn from_colors(colors: Vec<Color>) -> (p: Self) {
        let mut colors = colors;
        if colors.len() > MAX_DYNAMIC_COLORS {
            colors.truncate(MAX_DYNAMIC_COLORS);
        }
        let width = DynamicPaletteView::width_for(colors.len());
        DynamicPaletteView { colors, width }
    }
}

impl Default for DynamicPaletteView {
    /// The palette that lists no colour.
    fn default() -> (p: Self)
        ensures
            p.wf(),
            p.listed() == Seq::<Color>::empty(),
            p.spec_width() == 4,
    {
        proof {
            lemma2_to64();
        }
        DynamicPaletteView { colors: Vec::new(), width: 4 }
    }
}

} // verus!
