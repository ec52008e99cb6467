//! Palette selection and quantization: choosing representative colours
//! for an image and mapping each pixel to the nearest of them.

pub mod palette;

use crate::raster::RgbaImage;
use palette::{capped, Color, DynamicPalette, Palette};
use std::collections::HashMap;
use vstd::prelude::*;

verus! {

broadcast use vstd::std_specs::hash::group_hash_axioms;

/// The distance between two channel values.
pub open spec fn abs_diff(a: int, b: int) -> int {
    if a >= b {
        a - b
    } else {
        b - a
    }
}

/// The squared length of a vector of four components.
pub open spec fn len_squared(a: int, b: int, c: int, d: int) -> int {
    a * a + b * b + c * c + d * d
}

/// The squared Euclidean distance between two colours, all four channels
/// weighted alike.
pub open spec fn color_distance_spec(a: Color, b: Color) -> int {
    len_squared(
        abs_diff(a.r as int, b.r as int),
        abs_diff(a.g as int, b.g as int),
        abs_diff(a.b as int, b.b as int),
        abs_diff(a.a as int, b.a as int),
    )
}

/// The distance by which colours are merged into one palette entry: like
/// `color_distance_spec`, with the alpha difference divided by four first.
pub open spec fn dedup_distance_spec(a: Color, b: Color) -> int {
    len_squared(
        abs_diff(a.r as int, b.r as int),
        abs_diff(a.g as int, b.g as int),
        abs_diff(a.b as int, b.b as int),
        abs_diff(a.a as int, b.a as int) / 4,
    )
}

/// The absolute difference of two channel values.
pub fn abs_sub(a: u8, b: u8) -> (d: u8)
    ensures
        d == abs_diff(a as int, b as int),
{
    if a >= b {
        a - b
    } else {
        b - a
    }
}

/// The squared length of a vector of four channel differences.
pub fn vec4_len_squared(a: u8, b: u8, c: u8, d: u8) -> (n: u32)
    ensures
        n == len_squared(a as int, b as int, c as int, d as int),
        n <= 4 * 255 * 255,
{
    assert(a * a <= 255 * 255 && b * b <= 255 * 255 && c * c <= 255 * 255 && d * d <= 255 * 255)
        by (nonlinear_arith)
        requires
            0 <= a <= 255,
            0 <= b <= 255,
            0 <= c <= 255,
            0 <= d <= 255,
    ;
    (a as u32 * a as u32) + (b as u32 * b as u32) + (c as u32 * c as u32) + (d as u32 * d as u32)
}

/// The squared Euclidean distance between two colours.
pub fn color_distance(a: &Color, b: &Color) -> (n: u32)
    ensures
        n == color_distance_spec(*a, *b),
        n <= 4 * 255 * 255,
{
    vec4_len_squared(abs_sub(a.r, b.r), abs_sub(a.g, b.g), abs_sub(a.b, b.b), abs_sub(a.a, b.a))
}

/// The distance by which colours are merged: alpha counts a quarter.
pub fn dedup_distance(a: &Color, b: &Color) -> (n: u32)
    ensures
        n == dedup_distance_spec(*a, *b),
        n <= 4 * 255 * 255,
{
    vec4_len_squared(abs_sub(a.r, b.r), abs_sub(a.g, b.g), abs_sub(a.b, b.b), abs_sub(a.a, b.a) / 4)
}

/// Channel sums wide enough for any number of pixels.
#[derive(Debug, Clone, Copy, PartialEq, Eq, Structural)]
pub struct BigColor {
    pub r: i128,
    pub g: i128,
    pub b: i128,
    pub a: i128,
}

/// Bound within which channel sums are added without overflow.
pub open spec fn sum_limit() -> int {
    0x2000_0000_0000_0000_0000_0000_0000_0000
}

impl BigColor {
    /// Whether each channel lies between `lo` and `hi`.
    pub open spec fn within(self, lo: int, hi: int) -> bool {
        &&& lo <= self.r <= hi
        &&& lo <= self.g <= hi
        &&& lo <= self.b <= hi
        &&& lo <= self.a <= hi
    }
}

/// The channel-wise sum of two colour sums.
pub fn color_add_big(a: BigColor, b: BigColor) -> (s: BigColor)
    requires
        a.within(-sum_limit(), sum_limit()),
        b.within(-sum_limit(), sum_limit()),
    ensures
        s.r == a.r + b.r,
        s.g == a.g + b.g,
        s.b == a.b + b.b,
        s.a == a.a + b.a,
{
    BigColor { r: a.r + b.r, g: a.g + b.g, b: a.b + b.b, a: a.a + b.a }
}

/// A colour with each channel multiplied by `b`.
pub fn color_mul(a: &Color, b: i128) -> (p: BigColor)
    requires
        -sum_limit() / 256 <= b <= sum_limit() / 256,
    ensures
        p.r == a.r * b,
        p.g == a.g * b,
        p.b == a.b * b,
        p.a == a.a * b,
{
    assert(forall|x: int|
        0 <= x <= 255 ==> -sum_limit() <= #[trigger] (x * b) <= sum_limit()) by (nonlinear_arith)
        requires
            -sum_limit() / 256 <= b <= sum_limit() / 256,
    ;
    assert(-sum_limit() <= a.r * b <= sum_limit());
    assert(-sum_limit() <= a.g * b <= sum_limit());
    assert(-sum_limit() <= a.b * b <= sum_limit());
    assert(-sum_limit() <= a.a * b <= sum_limit());
    BigColor { r: a.r as i128 * b, g: a.g as i128 * b, b: a.b as i128 * b, a: a.a as i128 * b }
}

/// The quotient of `a` by `b`, rounded toward zero.
pub open spec fn quotient(a: int, b: int) -> int {
    if a >= 0 {
        a / b
    } else {
        -((-a) / b)
    }
}

/// The lowest eight bits of a number, as a channel value.
pub open spec fn low_byte(x: int) -> u8 {
    (x % 256) as u8
}

/// Whether `a` can be divided by `b` in the machine: `b` is not zero and
/// the quotient is not one above the greatest number.
pub open spec fn divides(a: i128, b: i128) -> bool {
    b != 0 && !(a == i128::MIN && b == -1)
}

/// A quotient is no farther from zero than what was divided.
pub proof fn lemma_quotient_range(a: int, b: int)
    requires
        b != 0,
    ensures
        a >= 0 ==> -a <= quotient(a, b) <= a,
        a < 0 ==> a <= quotient(a, b) <= -a,
        a < 0 && b != -1 ==> quotient(a, b) < -a,
{
    let n = if a >= 0 {
        a
    } else {
        -a
    };
    assert(-n <= n / b <= n) by (nonlinear_arith)
        requires
            n >= 0,
            b != 0,
    ;
    if a < 0 && b != -1 {
        assert(n / b > -n) by (nonlinear_arith)
            requires
                n > 0,
                b != 0,
                b != -1,
        ;
    }
}

/// The quotient of two numbers, rounded toward zero.
fn divide(a: i128, b: i128) -> (q: i128)
    requires
        divides(a, b),
    ensures
        q == quotient(a as int, b as int),
{
    proof {
        lemma_quotient_range(a as int, b as int);
    }
    a / b
}

/// The lowest eight bits of a number.
fn low_byte_of(q: i128) -> (c: u8)
    ensures
        c == low_byte(q as int),
{
    let m: i128 = q % 256;
    let n: i128 = if m < 0 {
        m + 256
    } else {
        m
    };
    n as u8
}

/// A colour sum divided by `b`: each channel's quotient, rounded toward
/// zero, and of that the lowest eight bits. For the sum of `b` channel
/// values that is their mean.
pub fn color_div(a: BigColor, b: i128) -> (c: Color)
    requires
        divides(a.r, b),
        divides(a.g, b),
        divides(a.b, b),
        divides(a.a, b),
    ensures
        c.r == low_byte(quotient(a.r as int, b as int)),
        c.g == low_byte(quotient(a.g as int, b as int)),
        c.b == low_byte(quotient(a.b as int, b as int)),
        c.a == low_byte(quotient(a.a as int, b as int)),
        b > 0 && a.within(0, 255 * b) ==> c.r == a.r / b && c.g == a.g / b && c.b == a.b / b && c.a
            == a.a / b,
{
    proof {
        if b > 0 && a.within(0, 255 * b) {
            lemma_quotient_is_channel(a.r as int, b as int);
            lemma_quotient_is_channel(a.g as int, b as int);
            lemma_quotient_is_channel(a.b as int, b as int);
            lemma_quotient_is_channel(a.a as int, b as int);
        }
    }
    Color {
        r: low_byte_of(divide(a.r, b)),
        g: low_byte_of(divide(a.g, b)),
        b: low_byte_of(divide(a.b, b)),
        a: low_byte_of(divide(a.a, b)),
    }
}

/// A sum of channel values divided by their number is a channel value.
pub proof fn lemma_quotient_is_channel(sum: int, weight: int)
    requires
        weight > 0,
        0 <= sum <= 255 * weight,
    ensures
        0 <= sum / weight <= 255,
{
    assert(0 <= sum / weight <= 255) by (nonlinear_arith)
        requires
            weight > 0,
            0 <= sum <= 255 * weight,
    ;
}


/// The position of the first element of `s` that satisfies `p`, or the
/// length of `s` where none does.
pub open spec fn first_index<A>(s: Seq<A>, p: spec_fn(A) -> bool) -> int
    decreases s.len(),
{
    if s.len() == 0 {
        0
    } else {
        let k = first_index(s.drop_last(), p);
        if k < s.len() - 1 {
            k
        } else if p(s.last()) {
            s.len() - 1
        } else {
            s.len() as int
        }
    }
}

/// `first_index` names an element that satisfies the predicate and has
/// none before it that does.
pub proof fn lemma_first_index<A>(s: Seq<A>, p: spec_fn(A) -> bool)
    ensures
        0 <= first_index(s, p) <= s.len(),
        first_index(s, p) < s.len() ==> p(s[first_index(s, p)]),
        forall|j: int| 0 <= j < first_index(s, p) ==> !p(#[trigger] s[j]),
    decreases s.len(),
{
    if s.len() > 0 {
        lemma_first_index(s.drop_last(), p);
        let k = first_index(s.drop_last(), p);
        assert forall|j: int| 0 <= j < first_index(s, p) implies !p(#[trigger] s[j]) by {
            if j < s.len() - 1 {
                assert(s.drop_last()[j] == s[j]);
            }
        }
        if k < s.len() - 1 {
            assert(s.drop_last()[k] == s[k]);
        }
    }
}

/// An index with the two properties of `first_index` is `first_index`.
pub proof fn lemma_first_index_is<A>(s: Seq<A>, p: spec_fn(A) -> bool, k: int)
    requires
        0 <= k <= s.len(),
        k < s.len() ==> p(s[k]),
        forall|j: int| 0 <= j < k ==> !p(#[trigger] s[j]),
    ensures
        first_index(s, p) == k,
{
    lemma_first_index(s, p);
    let f = first_index(s, p);
    if f < k {
        assert(!p(s[f]));
    }
    if k < f {
        assert(!p(s[k]));
    }
}

/// A colour with the number of pixels that have it.
pub struct Tally {
    pub color: Color,
    pub count: nat,
}

/// The histogram `h` after one more pixel of colour `c`.
pub open spec fn tally(h: Seq<Tally>, c: Color) -> Seq<Tally> {
    let k = first_index(h, |t: Tally| t.color == c);
    if k < h.len() {
        h.update(k, Tally { color: c, count: h[k].count + 1 })
    } else {
        h.push(Tally { color: c, count: 1 })
    }
}

/// The histogram of `pixels`: each colour once, in the order in which the
/// colours first occur, with its number of occurrences.
pub open spec fn histogram(pixels: Seq<Color>) -> Seq<Tally>
    decreases pixels.len(),
{
    if pixels.len() == 0 {
        Seq::empty()
    } else {
        tally(histogram(pixels.drop_last()), pixels.last())
    }
}

/// The number of pixels that a histogram counts.
pub open spec fn weight(h: Seq<Tally>) -> nat
    decreases h.len(),
{
    if h.len() == 0 {
        0
    } else {
        weight(h.drop_last()) + h.last().count
    }
}

/// A group of similar colours: the colour that founded it, the sums of
/// its members' channels weighted by their counts, and its pixel count.
pub struct Cluster {
    pub head: Color,
    pub r: int,
    pub g: int,
    pub b: int,
    pub a: int,
    pub total: int,
}

impl Cluster {
    /// The cluster of one colour with `count` pixels.
    pub open spec fn of(c: Color, count: int) -> Cluster {
        Cluster { head: c, r: c.r * count, g: c.g * count, b: c.b * count, a: c.a * count, total: count }
    }

    /// This cluster with `count` more pixels of colour `c`.
    pub open spec fn plus(self, c: Color, count: int) -> Cluster {
        Cluster {
            head: self.head,
            r: self.r + c.r * count,
            g: self.g + c.g * count,
            b: self.b + c.b * count,
            a: self.a + c.a * count,
            total: self.total + count,
        }
    }

    /// A cluster of at least one pixel whose sums are sums of channel
    /// values.
    pub open spec fn sound(self) -> bool {
        &&& self.total >= 1
        &&& 0 <= self.r <= 255 * self.total
        &&& 0 <= self.g <= 255 * self.total
        &&& 0 <= self.b <= 255 * self.total
        &&& 0 <= self.a <= 255 * self.total
    }

    /// The weighted mean of the members, each channel divided on its own
    /// and rounded toward zero.
    pub open spec fn centroid(self) -> Color {
        Color {
            r: (self.r / self.total) as u8,
            g: (self.g / self.total) as u8,
            b: (self.b / self.total) as u8,
            a: (self.a / self.total) as u8,
        }
    }
}

/// The clusters `cs` after the colour `c` with `count` pixels: it joins the
/// first cluster whose founder is nearer than `threshold`, or founds one.
pub open spec fn absorb(cs: Seq<Cluster>, c: Color, count: int, threshold: int) -> Seq<Cluster> {
    let k = first_index(cs, |x: Cluster| dedup_distance_spec(x.head, c) < threshold);
    if k < cs.len() {
        cs.update(k, cs[k].plus(c, count))
    } else {
        cs.push(Cluster::of(c, count))
    }
}

/// The clusters of a histogram, its colours taken in order.
pub open spec fn clusters(h: Seq<Tally>, threshold: int) -> Seq<Cluster>
    decreases h.len(),
{
    if h.len() == 0 {
        Seq::empty()
    } else {
        absorb(clusters(h.drop_last(), threshold), h.last().color, h.last().count as int, threshold)
    }
}

/// The number of pixels in all of `cs`.
pub open spec fn mass(cs: Seq<Cluster>) -> int
    decreases cs.len(),
{
    if cs.len() == 0 {
        0
    } else {
        mass(cs.drop_last()) + cs.last().total
    }
}

/// The ranking `r` with `c` entered: before the first cluster of fewer
/// pixels, so behind every cluster of as many.
pub open spec fn enter(r: Seq<Cluster>, c: Cluster) -> Seq<Cluster> {
    r.insert(first_index(r, |x: Cluster| x.total < c.total), c)
}

/// The clusters by falling pixel count; clusters of equal count keep
/// their order.
pub open spec fn ranked(cs: Seq<Cluster>) -> Seq<Cluster>
    decreases cs.len(),
{
    if cs.len() == 0 {
        Seq::empty()
    } else {
        enter(ranked(cs.drop_last()), cs.last())
    }
}

/// The colours chosen for an image of these pixels: the centroids of its
/// clusters, the heaviest cluster first.
pub open spec fn palette_colors(pixels: Seq<Color>, threshold: int) -> Seq<Color> {
    let r = ranked(clusters(histogram(pixels), threshold));
    Seq::new(r.len(), |i: int| r[i].centroid())
}



/// A colour as one number: its channels as the four bytes, red highest.
pub open spec fn key_of(c: Color) -> int {
    ((c.r * 256 + c.g) * 256 + c.b) * 256 + c.a
}

/// The number that stands for a colour where colours are looked up.
pub fn color_key(c: &Color) -> (k: u32)
    ensures
        k == key_of(*c),
{
    ((c.r as u32 * 256 + c.g as u32) * 256 + c.b as u32) * 256 + c.a as u32
}

/// Different colours have different keys.
pub proof fn lemma_key_injective(a: Color, b: Color)
    requires
        key_of(a) == key_of(b),
    ensures
        a == b,
{
}

/// A colour with the number of pixels that have it.
#[derive(Debug, Clone, Copy, PartialEq, Eq, Structural)]
pub struct WeightedColor {
    pub color: Color,
    pub count: u64,
}

/// The histogram that a list of weighted colours stands for.
pub open spec fn tallies(s: Seq<WeightedColor>) -> Seq<Tally> {
    Seq::new(s.len(), |i: int| Tally { color: s[i].color, count: s[i].count as nat })
}

/// Counting one more pixel adds one to the weight.
pub proof fn lemma_weight_tally(h: Seq<Tally>, c: Color)
    ensures
        weight(tally(h, c)) == weight(h) + 1,
    decreases h.len(),
{
    let p = |t: Tally| t.color == c;
    lemma_first_index(h, p);
    let k = first_index(h, p);
    if k < h.len() {
        let h2 = h.update(k, Tally { color: c, count: h[k].count + 1 });
        if k == h.len() - 1 {
            assert(h2.drop_last() =~= h.drop_last());
        } else {
            lemma_first_index(h.drop_last(), p);
            assert(first_index(h.drop_last(), p) == k);
            assert(h2.drop_last() =~= tally(h.drop_last(), c));
            lemma_weight_tally(h.drop_last(), c);
        }
    } else {
        assert(h.push(Tally { color: c, count: 1 }).drop_last() =~= h);
    }
}

/// A histogram counts every pixel once.
pub proof fn lemma_weight_histogram(pixels: Seq<Color>)
    ensures
        weight(histogram(pixels)) == pixels.len(),
    decreases pixels.len(),
{
    if pixels.len() > 0 {
        lemma_weight_histogram(pixels.drop_last());
        lemma_weight_tally(histogram(pixels.drop_last()), pixels.last());
    }
}

/// A part of a histogram weighs no more than the whole.
pub proof fn lemma_weight_prefix(h: Seq<Tally>, n: int)
    requires
        0 <= n <= h.len(),
    ensures
        weight(h.take(n)) <= weight(h),
    decreases h.len() - n,
{
    if n < h.len() {
        lemma_weight_prefix(h, n + 1);
        assert(h.take(n + 1).drop_last() =~= h.take(n));
    } else {
        assert(h.take(n) =~= h);
    }
}

/// The histogram of an image's pixels.
pub fn histogram_of(pixels: &Vec<Color>) -> (entries: Vec<WeightedColor>)
    ensures
        tallies(entries@) == histogram(pixels@),
{
    let mut entries: Vec<WeightedColor> = Vec::new();
    let mut index: HashMap<u32, usize> = HashMap::new();
    let mut i: usize = 0;
    assert(tallies(entries@) =~= histogram(pixels@.take(0)));
    while i < pixels.len()
        invariant
            i <= pixels.len(),
            tallies(entries@) == histogram(pixels@.take(i as int)),
            forall|j: int|
                0 <= j < entries@.len() ==> index@.contains_key(
                    #[trigger] key_of(entries@[j].color) as u32,
                ) && index@[key_of(entries@[j].color) as u32] == j,
            forall|k: u32| #[trigger]
                index@.contains_key(k) ==> index@[k] < entries@.len() && key_of(
                    entries@[index@[k] as int].color,
                ) == k,
            forall|j: int| 0 <= j < entries@.len() ==> (#[trigger] entries@[j]).count <= i,
        decreases pixels.len() - i,
    {
        let c = pixels[i];
        let key = color_key(&c);
        let ghost h = histogram(pixels@.take(i as int));
        let ghost same = |t: Tally| t.color == c;
        proof {
            assert(pixels@.take(i + 1).drop_last() =~= pixels@.take(i as int));
            assert(pixels@.take(i + 1).last() == c);
            lemma_first_index(h, same);
        }
        let found: Option<usize> = match index.get(&key) {
            Some(at) => Some(*at),
            None => None,
        };
        match found {
            Some(at) => {
                let old_entry = entries[at];
                proof {
                    lemma_key_injective(old_entry.color, c);
                    let f = first_index(h, same);
                    if f < h.len() {
                        assert(h[f] == tallies(entries@)[f]);
                        assert(key_of(entries@[f].color) as u32 == key);
                    } else {
                        assert(h[at as int] == tallies(entries@)[at as int]);
                        assert(!same(h[at as int]));
                    }
                    assert(f == at);
                }
                entries.set(at, WeightedColor { color: c, count: old_entry.count + 1 });
                assert(tallies(entries@) =~= tally(h, c));
            },
            None => {
                proof {
                    let f = first_index(h, same);
                    if f < h.len() {
                        assert(h[f] == tallies(entries@)[f]);
                        assert(key_of(entries@[f].color) as u32 == key);
                    }
                    assert(f == h.len());
                }
                index.insert(key, entries.len());
                entries.push(WeightedColor { color: c, count: 1 });
                assert(tallies(entries@) =~= tally(h, c));
                assert forall|j: int| 0 <= j < entries@.len() implies index@.contains_key(
                    #[trigger] key_of(entries@[j].color) as u32,
                ) && index@[key_of(entries@[j].color) as u32] == j by {
                    if j < entries@.len() - 1 {
                        assert(key_of(entries@[j].color) as u32 != key);
                    }
                }
            },
        }
        i = i + 1;
    }
    assert(pixels@.take(i as int) =~= pixels@);
    entries
}


/// Every count of a histogram is at least one.
pub proof fn lemma_histogram_counts(pixels: Seq<Color>)
    ensures
        forall|j: int| 0 <= j < histogram(pixels).len() ==> (#[trigger] histogram(pixels)[j]).count >= 1,
    decreases pixels.len(),
{
    if pixels.len() > 0 {
        lemma_histogram_counts(pixels.drop_last());
        lemma_first_index(histogram(pixels.drop_last()), |t: Tally| t.color == pixels.last());
    }
}

/// Whether every cluster of `cs` is sound.
pub open spec fn all_sound(cs: Seq<Cluster>) -> bool {
    forall|k: int| 0 <= k < cs.len() ==> (#[trigger] cs[k]).sound()
}

/// Taking in a colour with at least one pixel keeps the clusters sound
/// and adds its pixels to their mass.
pub proof fn lemma_absorb(cs: Seq<Cluster>, c: Color, count: int, threshold: int)
    requires
        all_sound(cs),
        count >= 1,
    ensures
        all_sound(absorb(cs, c, count, threshold)),
        mass(absorb(cs, c, count, threshold)) == mass(cs) + count,
{
    let near = |x: Cluster| dedup_distance_spec(x.head, c) < threshold;
    lemma_first_index(cs, near);
    let k = first_index(cs, near);
    assert(forall|x: int| 0 <= x <= 255 ==> 0 <= #[trigger] (x * count) <= 255 * count)
        by (nonlinear_arith)
        requires
            count >= 1,
    ;
    assert(0 <= c.r * count <= 255 * count);
    assert(0 <= c.g * count <= 255 * count);
    assert(0 <= c.b * count <= 255 * count);
    assert(0 <= c.a * count <= 255 * count);
    if k < cs.len() {
        assert(cs[k].sound());
        lemma_mass_update(cs, k, cs[k].plus(c, count));
    } else {
        assert(cs.push(Cluster::of(c, count)).drop_last() =~= cs);
    }
}

/// Replacing one cluster changes the mass by the change of its total.
pub proof fn lemma_mass_update(cs: Seq<Cluster>, k: int, c: Cluster)
    requires
        0 <= k < cs.len(),
    ensures
        mass(cs.update(k, c)) == mass(cs) - cs[k].total + c.total,
    decreases cs.len(),
{
    if k == cs.len() - 1 {
        assert(cs.update(k, c).drop_last() =~= cs.drop_last());
    } else {
        assert(cs.update(k, c).drop_last() =~= cs.drop_last().update(k, c));
        lemma_mass_update(cs.drop_last(), k, c);
    }
}

/// No cluster has more pixels than all of them together.
pub proof fn lemma_mass_bounds(cs: Seq<Cluster>, k: int)
    requires
        all_sound(cs),
        0 <= k < cs.len(),
    ensures
        cs[k].total <= mass(cs),
        mass(cs) >= 0,
    decreases cs.len(),
{
    lemma_mass_nonnegative(cs.drop_last());
    assert(cs.last().sound());
    if k < cs.len() - 1 {
        lemma_mass_bounds(cs.drop_last(), k);
    }
}

/// The mass of sound clusters is not negative.
pub proof fn lemma_mass_nonnegative(cs: Seq<Cluster>)
    requires
        all_sound(cs),
    ensures
        mass(cs) >= 0,
    decreases cs.len(),
{
    if cs.len() > 0 {
        assert(cs.last().sound());
        lemma_mass_nonnegative(cs.drop_last());
    }
}

/// Entering a sound cluster into a sound ranking leaves it sound.
pub proof fn lemma_ranked_sound(cs: Seq<Cluster>)
    requires
        all_sound(cs),
    ensures
        all_sound(ranked(cs)),
        ranked(cs).len() == cs.len(),
    decreases cs.len(),
{
    if cs.len() > 0 {
        lemma_ranked_sound(cs.drop_last());
        let r = ranked(cs.drop_last());
        lemma_first_index(r, |x: Cluster| x.total < cs.last().total);
        assert(cs.last().sound());
    }
}

/// A group of similar colours as the machine holds it.
#[derive(Debug, Clone, Copy, PartialEq, Eq, Structural)]
pub struct Bucket {
    pub head: Color,
    pub sum: BigColor,
    pub total: i128,
}

/// The cluster that a bucket stands for.
pub open spec fn cluster_of(b: Bucket) -> Cluster {
    Cluster {
        head: b.head,
        r: b.sum.r as int,
        g: b.sum.g as int,
        b: b.sum.b as int,
        a: b.sum.a as int,
        total: b.total as int,
    }
}

/// The clusters that a list of buckets stands for.
pub open spec fn clusters_of(s: Seq<Bucket>) -> Seq<Cluster> {
    Seq::new(s.len(), |i: int| cluster_of(s[i]))
}

/// The first bucket whose founder is nearer to `c` than `threshold`.
fn find_bucket(buckets: &Vec<Bucket>, c: &Color, threshold: u32) -> (k: usize)
    ensures
        k == first_index(
            clusters_of(buckets@),
            |x: Cluster| dedup_distance_spec(x.head, *c) < threshold as int,
        ),
        k <= buckets@.len(),
{
    let ghost near = |x: Cluster| dedup_distance_spec(x.head, *c) < threshold as int;
    let mut k: usize = 0;
    while k < buckets.len()
        invariant
            k <= buckets@.len(),
            near == (|x: Cluster| dedup_distance_spec(x.head, *c) < threshold as int),
            forall|j: int| 0 <= j < k ==> !near(#[trigger] clusters_of(buckets@)[j]),
        decreases buckets.len() - k,
    {
        if dedup_distance(&buckets[k].head, c) < threshold {
            proof {
                assert(near(clusters_of(buckets@)[k as int]));
                lemma_first_index_is(clusters_of(buckets@), near, k as int);
            }
            return k;
        }
        k = k + 1;
    }
    proof {
        lemma_first_index_is(clusters_of(buckets@), near, k as int);
    }
    k
}

/// Groups the colours of a histogram: each joins the first bucket whose
/// founder is nearer than `threshold`, or founds a new one.
fn cluster_colors(hist: &Vec<WeightedColor>, threshold: u32) -> (buckets: Vec<Bucket>)
    requires
        weight(tallies(hist@)) <= u64::MAX,
        forall|j: int| 0 <= j < hist@.len() ==> (#[trigger] hist@[j]).count >= 1,
    ensures
        clusters_of(buckets@) == clusters(tallies(hist@), threshold as int),
        all_sound(clusters_of(buckets@)),
{
    let ghost h = tallies(hist@);
    let mut buckets: Vec<Bucket> = Vec::new();
    let mut j: usize = 0;
    assert(clusters_of(buckets@) =~= clusters(h.take(0), threshold as int));
    while j < hist.len()
        invariant
            j <= hist@.len(),
            h == tallies(hist@),
            weight(h) <= u64::MAX,
            forall|i: int| 0 <= i < hist@.len() ==> (#[trigger] hist@[i]).count >= 1,
            clusters_of(buckets@) == clusters(h.take(j as int), threshold as int),
            all_sound(clusters_of(buckets@)),
            mass(clusters_of(buckets@)) == weight(h.take(j as int)),
        decreases hist.len() - j,
    {
        let entry = hist[j];
        let ghost cs = clusters_of(buckets@);
        proof {
            assert(h.take(j + 1).drop_last() =~= h.take(j as int));
            assert(h.take(j + 1).last() == h[j as int]);
            lemma_weight_prefix(h, j + 1);
            lemma_absorb(cs, entry.color, entry.count as int, threshold as int);
            lemma_mass_nonnegative(cs);
        }
        let k = find_bucket(&buckets, &entry.color, threshold);
        let weight: i128 = entry.count as i128;
        let part = color_mul(&entry.color, weight);
        assert(part.within(0, 255 * weight)) by (nonlinear_arith)
            requires
                weight >= 1,
                part.r == entry.color.r * weight,
                part.g == entry.color.g * weight,
                part.b == entry.color.b * weight,
                part.a == entry.color.a * weight,
        ;
        if k < buckets.len() {
            let b = buckets[k];
            proof {
                lemma_mass_bounds(cs, k as int);
                assert(cs[k as int].sound());
                assert(cs[k as int] == cluster_of(b));
            }
            let sum = color_add_big(b.sum, part);
            buckets.set(k, Bucket { head: b.head, sum, total: b.total + weight });
        } else {
            buckets.push(Bucket { head: entry.color, sum: part, total: weight });
        }
        assert(clusters_of(buckets@) =~= absorb(cs, entry.color, entry.count as int, threshold as int));
        j = j + 1;
    }
    assert(h.take(j as int) =~= h);
    buckets
}

/// Orders buckets by falling pixel count, buckets of equal count in the
/// order given.
fn rank_buckets(buckets: &Vec<Bucket>) -> (rank: Vec<Bucket>)
    ensures
        clusters_of(rank@) == ranked(clusters_of(buckets@)),
{
    let ghost cs = clusters_of(buckets@);
    let mut rank: Vec<Bucket> = Vec::new();
    let mut j: usize = 0;
    assert(clusters_of(rank@) =~= ranked(cs.take(0)));
    while j < buckets.len()
        invariant
            j <= buckets@.len(),
            cs == clusters_of(buckets@),
            clusters_of(rank@) == ranked(cs.take(j as int)),
        decreases buckets.len() - j,
    {
        let b = buckets[j];
        let ghost r = clusters_of(rank@);
        let ghost lighter = |x: Cluster| x.total < b.total as int;
        proof {
            assert(cs.take(j + 1).drop_last() =~= cs.take(j as int));
            assert(cs.take(j + 1).last() == cluster_of(b));
        }
        let mut slot: usize = 0;
        while slot < rank.len() && rank[slot].total >= b.total
            invariant
                slot <= rank@.len(),
                r == clusters_of(rank@),
                forall|i: int| 0 <= i < slot ==> !lighter(#[trigger] r[i]),
                lighter == (|x: Cluster| x.total < b.total as int),
            decreases rank.len() - slot,
        {
            slot = slot + 1;
        }
        proof {
            if slot < rank@.len() {
                assert(lighter(r[slot as int]));
            }
            lemma_first_index_is(r, lighter, slot as int);
        }
        rank.insert(slot, b);
        assert(clusters_of(rank@) =~= enter(r, cluster_of(b)));
        j = j + 1;
    }
    assert(cs.take(j as int) =~= cs);
    rank
}

/// The centroid of each bucket, in the order given.
fn centroids(rank: &Vec<Bucket>) -> (colors: Vec<Color>)
    requires
        all_sound(clusters_of(rank@)),
    ensures
        colors@ == Seq::new(rank@.len(), |i: int| cluster_of(rank@[i]).centroid()),
{
    let mut colors: Vec<Color> = Vec::new();
    let mut j: usize = 0;
    while j < rank.len()
        invariant
            j <= rank@.len(),
            all_sound(clusters_of(rank@)),
            colors@.len() == j,
            forall|i: int| 0 <= i < j ==> colors@[i] == cluster_of(#[trigger] rank@[i]).centroid(),
        decreases rank.len() - j,
    {
        let b = rank[j];
        proof {
            assert(clusters_of(rank@)[j as int].sound());
            lemma_quotient_is_channel(b.sum.r as int, b.total as int);
            lemma_quotient_is_channel(b.sum.g as int, b.total as int);
            lemma_quotient_is_channel(b.sum.b as int, b.total as int);
            lemma_quotient_is_channel(b.sum.a as int, b.total as int);
        }
        colors.push(color_div(b.sum, b.total));
        j = j + 1;
    }
    assert(colors@ =~= Seq::new(rank@.len(), |i: int| cluster_of(rank@[i]).centroid()));
    colors
}

/// Selects a palette for an image.
///
/// The image's colours are counted, in the order in which they first
/// occur. Each colour joins the first group whose founding colour is
/// nearer than `dedup_thres` by `dedup_distance`, or founds a new group.
/// The palette lists the groups' weighted mean colours, the group with
/// the most pixels first, as far as the palette type has room.
pub fn generate_palette<P: DynamicPalette>(img: &RgbaImage, dedup_thres: u32) -> (p: P)
    ensures
        p.wf(),
        p.listed() == capped(palette_colors(img.pixels@, dedup_thres as int), P::spec_capacity()),
{
    let hist = histogram_of(&img.pixels);
    let count: usize = img.pixels.len();
    proof {
        assert(weight(histogram(img.pixels@)) == count) by {
            lemma_weight_histogram(img.pixels@);
        }
        lemma_histogram_counts(img.pixels@);
        assert forall|j: int| 0 <= j < hist@.len() implies (#[trigger] hist@[j]).count >= 1 by {
            assert(tallies(hist@)[j].count >= 1);
        }
    }
    let buckets = cluster_colors(&hist, dedup_thres);
    let rank = rank_buckets(&buckets);
    proof {
        lemma_ranked_sound(clusters_of(buckets@));
    }
    let colors = centroids(&rank);
    assert(colors@ =~= palette_colors(img.pixels@, dedup_thres as int));
    P::from_colors(colors)
}


/// The index of the colour of `candidates` that is nearest to `p` by
/// `color_distance_spec`; of several equally near ones, the lowest index.
pub open spec fn nearest(p: Color, candidates: Seq<Color>) -> int
    decreases candidates.len(),
{
    if candidates.len() <= 1 {
        0
    } else {
        let k = nearest(p, candidates.drop_last());
        if color_distance_spec(p, candidates.last()) < color_distance_spec(p, candidates[k]) {
            candidates.len() - 1
        } else {
            k
        }
    }
}

/// Whether `i` is the index of a colour nearest to `p`, and the lowest
/// such index.
pub open spec fn is_nearest(p: Color, candidates: Seq<Color>, i: int) -> bool {
    &&& 0 <= i < candidates.len()
    &&& forall|j: int|
        0 <= j < candidates.len() ==> color_distance_spec(p, candidates[i]) <= color_distance_spec(
            p,
            #[trigger] candidates[j],
        )
    &&& forall|j: int|
        0 <= j < i ==> color_distance_spec(p, candidates[i]) < color_distance_spec(
            p,
            #[trigger] candidates[j],
        )
}

/// No candidate is strictly nearer to the pixel than the one that
/// `nearest` names, and none before it is as near.
pub proof fn lemma_nearest(p: Color, candidates: Seq<Color>)
    requires
        candidates.len() > 0,
    ensures
        is_nearest(p, candidates, nearest(p, candidates)),
    decreases candidates.len(),
{
    if candidates.len() > 1 {
        let front = candidates.drop_last();
        lemma_nearest(p, front);
        let k = nearest(p, front);
        let n = nearest(p, candidates);
        assert(front[k] == candidates[k]);
        assert forall|j: int| 0 <= j < candidates.len() implies color_distance_spec(
            p,
            candidates[n],
        ) <= color_distance_spec(p, #[trigger] candidates[j]) by {
            if j < candidates.len() - 1 {
                assert(front[j] == candidates[j]);
            }
        }
        assert forall|j: int| 0 <= j < n implies color_distance_spec(p, candidates[n])
            < color_distance_spec(p, #[trigger] candidates[j]) by {
            assert(front[j] == candidates[j]);
        }
    }
}

/// Only one index is nearest.
pub proof fn lemma_nearest_unique(p: Color, candidates: Seq<Color>, i: int)
    requires
        is_nearest(p, candidates, i),
    ensures
        i == nearest(p, candidates),
{
    lemma_nearest(p, candidates);
    let n = nearest(p, candidates);
    if i < n {
        assert(color_distance_spec(p, candidates[n]) < color_distance_spec(p, candidates[i]));
        assert(color_distance_spec(p, candidates[i]) <= color_distance_spec(p, candidates[n]));
    }
    if n < i {
        assert(color_distance_spec(p, candidates[i]) < color_distance_spec(p, candidates[n]));
        assert(color_distance_spec(p, candidates[n]) <= color_distance_spec(p, candidates[i]));
    }
}

/// The index of the candidate nearest to `p`, the lowest of several.
pub fn nearest_index(candidates: &[Color], p: &Color) -> (at: u32)
    requires
        0 < candidates@.len() <= 0x1_0000_0000,
    ensures
        at == nearest(*p, candidates@),
        at < candidates@.len(),
{
    let mut best: usize = 0;
    let mut best_distance: u32 = color_distance(p, &candidates[0]);
    let mut j: usize = 1;
    assert(candidates@.take(1).drop_last().len() == 0);
    while j < candidates.len()
        invariant
            1 <= j <= candidates@.len(),
            best < j,
            best == nearest(*p, candidates@.take(j as int)),
            best_distance == color_distance_spec(*p, candidates@[best as int]),
        decreases candidates.len() - j,
    {
        let d: u32 = color_distance(p, &candidates[j]);
        proof {
            assert(candidates@.take(j + 1).drop_last() =~= candidates@.take(j as int));
            assert(candidates@.take(j + 1).last() == candidates@[j as int]);
            assert(candidates@.take(j + 1)[best as int] == candidates@[best as int]);
        }
        if d < best_distance {
            best = j;
            best_distance = d;
        }
        j = j + 1;
    }
    assert(candidates@.take(j as int) =~= candidates@);
    best as u32
}

/// The index of the listed colour nearest to `p`, and 0 for an empty
/// list.
pub fn nearest_or_first(entries: &[Color], p: &Color) -> (at: u32)
    requires
        entries@.len() <= 0x1_0000_0000,
    ensures
        at == nearest(*p, entries@),
        at == 0 || at < entries@.len(),
{
    if entries.len() == 0 {
        0
    } else {
        nearest_index(entries, p)
    }
}

/// The colours that a palette lists, as a vector.
pub fn palette_entries<P: Palette>(palette: &P) -> (entries: Vec<Color>)
    requires
        palette.wf(),
    ensures
        entries@ == palette.listed(),
        entries@.len() <= 0x1_0000_0000,
{
    proof {
        palette.lemma_wf();
        vstd::arithmetic::power2::lemma2_to64();
        if palette.spec_width() < 32 {
            vstd::arithmetic::power2::lemma_pow2_strictly_increases(palette.spec_width(), 32);
        }
    }
    match palette.get_slice() {
        Some(s) => vstd::slice::slice_to_vec(s),
        None => {
            let width: u8 = palette.width();
            let space: u64 = palette::index_space(width);
            let mut entries: Vec<Color> = Vec::new();
            let mut n: u64 = 0;
            while n < space
                invariant
                    n <= space,
                    space == vstd::arithmetic::power2::pow2(palette.spec_width()),
                    space <= 0x1_0000_0000,
                    palette.wf(),
                    palette.listed().len() == space,
                    entries@.len() == n,
                    forall|i: int| 0 <= i < n ==> entries@[i] == palette.listed()[i],
                decreases space - n,
            {
                match palette.to_rgba(n as u32) {
                    Ok(c) => {
                        entries.push(c);
                    },
                    Err(_) => {
                        assert(false);
                    },
                }
                n = n + 1;
            }
            assert(entries@ =~= palette.listed());
            entries
        },
    }
}

/// The palette index of each pixel, row after row.
///
/// Each pixel gets the index of the listed palette colour nearest to it by
/// `color_distance`; where several are equally near, the lowest index. With
/// a palette that lists no colour, every pixel gets index 0.
pub fn quantize_to_palette<P: Palette>(img: &RgbaImage, palette: &P) -> (indices: Vec<u32>)
    requires
        palette.wf(),
    ensures
        indices@.len() == img.pixels@.len(),
        forall|k: int|
            0 <= k < indices@.len() ==> #[trigger] indices@[k] == nearest(
                img.pixels@[k],
                palette.listed(),
            ),
{
    let palette_colors = palette_entries(palette);
    let mut quant_cache: HashMap<u32, u32> = HashMap::new();
    let mut indices: Vec<u32> = Vec::new();
    let mut k: usize = 0;
    while k < img.pixels.len()
        invariant
            k <= img.pixels@.len(),
            palette_colors@ == palette.listed(),
            palette_colors@.len() <= 0x1_0000_0000,
            indices@.len() == k,
            forall|i: int|
                0 <= i < k ==> #[trigger] indices@[i] == nearest(img.pixels@[i], palette.listed()),
            forall|key: u32, c: Color| #[trigger]
                quant_cache@.contains_key(key) && key == #[trigger] key_of(c) ==> quant_cache@[key]
                    == nearest(c, palette.listed()),
        decreases img.pixels.len() - k,
    {
        let pix = img.pixels[k];
        let key = color_key(&pix);
        let known: Option<u32> = match quant_cache.get(&key) {
            Some(c) => Some(*c),
            None => None,
        };
        let c: u32 = match known {
            Some(c) => c,
            None => {
                let c: u32 = nearest_or_first(palette_colors.as_slice(), &pix);
                quant_cache.insert(key, c);
                assert forall|key2: u32, c2: Color| #[trigger]
                    quant_cache@.contains_key(key2) && key2 == #[trigger] key_of(c2) implies quant_cache@[key2]
                    == nearest(c2, palette.listed()) by {
                    if key2 == key {
                        lemma_key_injective(c2, pix);
                    }
                }
                c
            },
        };
        indices.push(c);
        k = k + 1;
    }
    indices
}


/// The merging distance is never negative and never above
/// `3 * 255^2 + 63^2`.
pub proof fn lemma_dedup_distance_range(a: Color, b: Color)
    ensures
        0 <= dedup_distance_spec(a, b) <= 199044,
{
    let dr = abs_diff(a.r as int, b.r as int);
    let dg = abs_diff(a.g as int, b.g as int);
    let db = abs_diff(a.b as int, b.b as int);
    let da = abs_diff(a.a as int, b.a as int) / 4;
    assert(0 <= dr * dr <= 65025 && 0 <= dg * dg <= 65025 && 0 <= db * db <= 65025 && 0 <= da * da
        <= 3969) by (nonlinear_arith)
        requires
            0 <= dr <= 255,
            0 <= dg <= 255,
            0 <= db <= 255,
            0 <= da <= 63,
    ;
}

/// There are never more clusters than colours; with a threshold of zero
/// every colour founds its own, and with a threshold above every distance
/// all colours share one.
pub proof fn lemma_clusters_len(h: Seq<Tally>, threshold: int)
    ensures
        clusters(h, threshold).len() <= h.len(),
        h.len() > 0 ==> clusters(h, threshold).len() >= 1,
        threshold <= 0 ==> clusters(h, threshold).len() == h.len(),
        threshold > 199044 && h.len() > 0 ==> clusters(h, threshold).len() == 1,
    decreases h.len(),
{
    if h.len() > 0 {
        let front = clusters(h.drop_last(), threshold);
        let c = h.last().color;
        let near = |x: Cluster| dedup_distance_spec(x.head, c) < threshold;
        lemma_clusters_len(h.drop_last(), threshold);
        lemma_first_index(front, near);
        let k = first_index(front, near);
        if k < front.len() {
            lemma_dedup_distance_range(front[k].head, c);
        }
        if front.len() > 0 {
            lemma_dedup_distance_range(front[0].head, c);
            if threshold > 199044 {
                assert(near(front[0]));
            }
        }
    }
}

/// A ranking has as many clusters as were ranked.
pub proof fn lemma_ranked_len(cs: Seq<Cluster>)
    ensures
        ranked(cs).len() == cs.len(),
    decreases cs.len(),
{
    if cs.len() > 0 {
        lemma_ranked_len(cs.drop_last());
        lemma_first_index(ranked(cs.drop_last()), |x: Cluster| x.total < cs.last().total);
    }
}

/// A ranking is in the order of falling pixel counts.
pub proof fn law_ranked_descending(cs: Seq<Cluster>)
    ensures
        forall|i: int, j: int|
            0 <= i <= j < ranked(cs).len() ==> (#[trigger] ranked(cs)[i]).total >= (
            #[trigger] ranked(cs)[j]).total,
    decreases cs.len(),
{
    if cs.len() > 0 {
        let r = ranked(cs.drop_last());
        let c = cs.last();
        let lighter = |x: Cluster| x.total < c.total;
        law_ranked_descending(cs.drop_last());
        lemma_first_index(r, lighter);
        let k = first_index(r, lighter);
        let out = ranked(cs);
        assert(out == r.insert(k, c));
        assert forall|i: int, j: int| 0 <= i <= j < out.len() implies (#[trigger] out[i]).total >= (
        #[trigger] out[j]).total by {
            if i < k {
                assert(!lighter(r[i]));
            }
            if j > k {
                assert(lighter(r[k]));
                assert(r[k].total >= r[j - 1].total);
            }
            if i < k && j < k {
                assert(r[i].total >= r[j].total);
            }
            if i > k && j > k {
                assert(r[i - 1].total >= r[j - 1].total);
            }
        }
    }
}

/// No threshold gives more palette colours than the threshold zero, under
/// which every colour of the image becomes one; and an image that has a
/// pixel gets at least one palette colour, and exactly one under a
/// threshold above every distance.
pub proof fn law_dedup_extremes(pixels: Seq<Color>, threshold: int)
    ensures
        palette_colors(pixels, threshold).len() <= palette_colors(pixels, 0).len(),
        palette_colors(pixels, 0).len() == histogram(pixels).len(),
        pixels.len() > 0 ==> palette_colors(pixels, threshold).len() >= 1,
        pixels.len() > 0 && threshold > 199044 ==> palette_colors(pixels, threshold).len() == 1,
{
    let h = histogram(pixels);
    lemma_clusters_len(h, threshold);
    lemma_clusters_len(h, 0);
    lemma_ranked_len(clusters(h, threshold));
    lemma_ranked_len(clusters(h, 0));
    if pixels.len() > 0 {
        lemma_first_index(histogram(pixels.drop_last()), |t: Tally| t.color == pixels.last());
    }
}


/// How many of the pixels have the colour `c`.
pub open spec fn pixel_count(pixels: Seq<Color>, c: Color) -> nat
    decreases pixels.len(),
{
    if pixels.len() == 0 {
        0
    } else {
        pixel_count(pixels.drop_last(), c) + if pixels.last() == c {
            1nat
        } else {
            0nat
        }
    }
}

/// Whether the histogram `h` has an entry for the colour `c`.
pub open spec fn counted(h: Seq<Tally>, c: Color) -> bool {
    first_index(h, |t: Tally| t.color == c) < h.len()
}

/// A colour that no pixel has is counted zero times.
pub proof fn lemma_absent_count(pixels: Seq<Color>, c: Color)
    requires
        forall|k: int| 0 <= k < pixels.len() ==> pixels[k] != c,
    ensures
        pixel_count(pixels, c) == 0,
    decreases pixels.len(),
{
    if pixels.len() > 0 {
        assert forall|k: int| 0 <= k < pixels.drop_last().len() implies pixels.drop_last()[k]
            != c by {
            assert(pixels.drop_last()[k] == pixels[k]);
        }
        lemma_absent_count(pixels.drop_last(), c);
    }
}

/// A histogram has every colour of the image, each once, with the number
/// of pixels of that colour.
pub proof fn law_histogram(pixels: Seq<Color>)
    ensures
        forall|i: int, j: int|
            0 <= i < j < histogram(pixels).len() ==> (#[trigger] histogram(pixels)[i]).color != (
            #[trigger] histogram(pixels)[j]).color,
        forall|j: int|
            0 <= j < histogram(pixels).len() ==> (#[trigger] histogram(pixels)[j]).count
                == pixel_count(pixels, histogram(pixels)[j].color),
        forall|k: int| 0 <= k < pixels.len() ==> counted(histogram(pixels), #[trigger] pixels[k]),
    decreases pixels.len(),
{
    if pixels.len() > 0 {
        let front = pixels.drop_last();
        let c = pixels.last();
        let h = histogram(front);
        let out = histogram(pixels);
        let same = |t: Tally| t.color == c;
        law_histogram(front);
        lemma_first_index(h, same);
        let at = first_index(h, same);
        assert forall|j: int| 0 <= j < out.len() implies (#[trigger] out[j]).count == pixel_count(
            pixels,
            out[j].color,
        ) by {
            if j < h.len() {
                assert(h[j].count == pixel_count(front, h[j].color));
                if j != at {
                    assert(out[j] == h[j]);
                    if at < h.len() {
                        assert(h[j].color != h[at].color);
                    } else {
                        assert(!same(h[j]));
                    }
                } else {
                    assert(same(h[at]));
                }
            } else {
                assert(at == h.len());
                assert forall|k: int| 0 <= k < front.len() implies front[k] != c by {
                    if front[k] == c {
                        assert(counted(h, front[k]));
                    }
                }
                lemma_absent_count(front, c);
            }
        }
        assert forall|k: int| 0 <= k < pixels.len() implies counted(out, #[trigger] pixels[k]) by {
            let like = |t: Tally| t.color == pixels[k];
            if k < pixels.len() - 1 {
                assert(front[k] == pixels[k]);
                assert(counted(h, front[k]));
                lemma_first_index(h, like);
                let f = first_index(h, like);
                assert(like(out[f]));
            } else {
                if at < h.len() {
                    assert(like(out[at]));
                } else {
                    assert(like(out[h.len() as int]));
                }
            }
            lemma_first_index(out, like);
        }
    }
}

/// A ranking holds the clusters that were ranked, each as often as it was
/// given.
pub proof fn law_ranked_permutes(cs: Seq<Cluster>)
    ensures
        ranked(cs).to_multiset() == cs.to_multiset(),
    decreases cs.len(),
{
    broadcast use vstd::seq_lib::group_to_multiset_ensures;

    if cs.len() > 0 {
        let front = cs.drop_last();
        let c = cs.last();
        let r = ranked(front);
        law_ranked_permutes(front);
        lemma_first_index(r, |x: Cluster| x.total < c.total);
        let k = first_index(r, |x: Cluster| x.total < c.total);
        let out = r.insert(k, c);
        assert(out.remove(k) =~= r);
        assert(out[k] == c);
        vstd::seq_lib::to_multiset_remove(out, k);
        assert(out.to_multiset().count(c) > 0) by {
            assert(out.contains(c));
        }
        assert(out.to_multiset() =~= r.to_multiset().insert(c));
        assert(front.push(c) =~= cs);
        vstd::seq_lib::to_multiset_build(front, c);
    } else {
        assert(ranked(cs) =~= cs);
    }
}


/// Filtering a sequence in which nothing passes gives nothing.
pub proof fn lemma_filter_none(s: Seq<Cluster>, pred: spec_fn(Cluster) -> bool)
    requires
        forall|i: int| 0 <= i < s.len() ==> !pred(#[trigger] s[i]),
    ensures
        s.filter(pred) == Seq::<Cluster>::empty(),
    decreases s.len(),
{
    reveal(Seq::filter);
    if s.len() > 0 {
        assert forall|i: int| 0 <= i < s.drop_last().len() implies !pred(
            #[trigger] s.drop_last()[i],
        ) by {
            assert(s.drop_last()[i] == s[i]);
        }
        lemma_filter_none(s.drop_last(), pred);
    }
}

/// A ranking keeps the clusters of one pixel count in the order in which
/// they were given.
pub proof fn law_ranked_stable(cs: Seq<Cluster>, total: int)
    ensures
        ranked(cs).filter(|c: Cluster| c.total == total) == cs.filter(
            |c: Cluster| c.total == total,
        ),
    decreases cs.len(),
{
    reveal(Seq::filter);
    let same = |c: Cluster| c.total == total;
    if cs.len() > 0 {
        let front = cs.drop_last();
        let c = cs.last();
        let r = ranked(front);
        let lighter = |x: Cluster| x.total < c.total;
        law_ranked_stable(front, total);
        law_ranked_descending(front);
        lemma_first_index(r, lighter);
        let k = first_index(r, lighter);
        let head = r.take(k);
        let tail = r.skip(k);
        assert(r =~= head + tail);
        assert(r.insert(k, c) =~= head.push(c) + tail);
        Seq::filter_distributes_over_add(head, tail, same);
        Seq::filter_distributes_over_add(head.push(c), tail, same);
        assert(head.push(c).drop_last() =~= head);
        if c.total == total {
            assert forall|i: int| 0 <= i < tail.len() implies !same(#[trigger] tail[i]) by {
                assert(lighter(r[k]));
                assert(r[k].total >= r[k + i].total);
            }
            lemma_filter_none(tail, same);
            assert(r.filter(same) =~= head.filter(same));
            assert(ranked(cs).filter(same) =~= head.filter(same).push(c));
        } else {
            assert(ranked(cs).filter(same) =~= r.filter(same));
        }
    }
}

} // verus!
