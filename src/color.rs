//! Colors: the record a color source supplies, the color built from it, and
//! the similarity score between two colors.
//!
//! OKLab coordinates are integers in ten-thousandths (`6280` is `0.6280`);
//! distances and saturations are worked out in millionths, and a similarity
//! is again in ten-thousandths, `10000` being `1.0`.

use vstd::prelude::*;
use vstd::string::StringExecFns;
use vstd::math::abs;
use crate::fixed::{
    div_round, isqrt, icbrt, div_round_i128, sqrt_floor, cbrt_floor, lemma_isqrt_is,
    lemma_div_round_bound, lemma_div_round_zero,
};
use crate::key::{search_key_of, search_key};

verus! {

/// Which text color reads well on top of a color.
#[derive(Debug, Default, Clone, Copy, PartialEq, Eq, Structural)]
pub enum TextColor {
    #[default]
    White,
    Black,
}

/// A color record as a color source supplies it. `l`, `a` and `b` are its
/// OKLab coordinates rounded to ten-thousandths; `best_contrast` is the
/// source's text-contrast tag, `"white"` or `"black"`.
#[derive(Debug, Clone)]
pub struct RawColor {
    pub name: String,
    pub hex: String,
    pub l: i32,
    pub a: i32,
    pub b: i32,
    pub best_contrast: String,
}

/// A named color with its search key, display hex string, OKLab coordinates
/// in ten-thousandths and contrast tag.
#[derive(Debug, Default, Clone)]
pub struct Color {
    pub name: String,
    pub search_name: Vec<char>,
    pub hex: String,
    pub l: i32,
    pub a: i32,
    pub b: i32,
    pub text_color: TextColor,
}

/// Largest magnitude, in ten-thousandths, of a raw OKLab coordinate. Colors
/// of the sRGB gamut stay well inside it.
pub const LAB_LIMIT: i32 = 20000;

/// A raw record whose coordinates lie in the accepted range.
pub open spec fn raw_in_range(raw: RawColor) -> bool {
    &&& -LAB_LIMIT <= raw.l <= LAB_LIMIT
    &&& -LAB_LIMIT <= raw.a <= LAB_LIMIT
    &&& -LAB_LIMIT <= raw.b <= LAB_LIMIT
}

/// The smoothing curve `(3 - 2x) x²` on a lightness in ten-thousandths,
/// rounded back to ten-thousandths.
pub open spec fn smoothstep_spec(x: int) -> int {
    div_round((30000 - 2 * x) * x * x, 100_000_000)
}

/// Applies the lightness smoothing curve.
pub fn smoothstep(x: i32) -> (r: i32)
    requires
        -LAB_LIMIT <= x <= LAB_LIMIT,
    ensures
        r == smoothstep_spec(x as int),
{
    let w: i128 = 30000 - 2 * (x as i128);
    assert(0 <= (x as int) * (x as int) <= 400_000_000) by (nonlinear_arith)
        requires
            -20000 <= x <= 20000,
    ;
    let sq: i128 = (x as i128) * (x as i128);
    assert(0 <= sq <= 400_000_000) by (nonlinear_arith)
        requires
            sq == (x as int) * (x as int),
            -20000 <= x <= 20000,
    ;
    assert(-4_000_000_000_000 <= w * sq <= 28_000_000_000_000) by (nonlinear_arith)
        requires
            -10000 <= w <= 70000,
            0 <= sq <= 400_000_000,
    ;
    let n: i128 = w * sq;
    assert(n == (30000 - 2 * x) * x * x) by (nonlinear_arith)
        requires
            n == w * sq,
            w == 30000 - 2 * x,
            sq == x * x,
    ;
    let r = div_round_i128(n, 100_000_000);
    proof {
        lemma_div_round_bound(n as int, 100_000_000, 280_000);
    }
    r as i32
}

/// The contrast tag named by a source's text, if it names one.
pub open spec fn contrast_of(s: Seq<char>) -> Option<TextColor> {
    if s == "white"@ {
        Some(TextColor::White)
    } else if s == "black"@ {
        Some(TextColor::Black)
    } else {
        None
    }
}

/// Reads a source's contrast tag.
pub fn parse_contrast(s: &String) -> (r: Option<TextColor>)
    ensures
        r == contrast_of(s@),
{
    let white = String::from_str("white");
    let black = String::from_str("black");
    if *s == white {
        Some(TextColor::White)
    } else if *s == black {
        Some(TextColor::Black)
    } else {
        None
    }
}

impl RawColor {
    /// The record's contrast tag is one of the two known ones.
    pub open spec fn is_valid(&self) -> bool {
        contrast_of(self.best_contrast@) is Some
    }
}

impl Color {
    /// `self` is the color that `raw` describes: same name and hex string,
    /// the name's search key, smoothed lightness and the parsed contrast tag.
    pub open spec fn built_from(&self, raw: RawColor) -> bool {
        &&& self.name@ == raw.name@
        &&& self.search_name@ == search_key_of(raw.name@)
        &&& self.hex@ == raw.hex@
        &&& self.l == smoothstep_spec(raw.l as int)
        &&& self.a == raw.a
        &&& self.b == raw.b
        &&& contrast_of(raw.best_contrast@) == Some(self.text_color)
    }
}

impl RawColor {
    /// Builds the color that this record describes; `None` when its
    /// contrast tag is neither `"white"` nor `"black"`.
    pub fn color(&self) -> (r: Option<Color>)
        requires
            raw_in_range(*self),
        ensures
            r is Some <==> self.is_valid(),
            r matches Some(c) ==> c.built_from(*self),
    {
        let text_color = match parse_contrast(&self.best_contrast) {
            Some(t) => t,
            None => {
                return None;
            },
        };
        let search_name = search_key(&self.name);
        let l = smoothstep(self.l);
        Some(
            Color {
                name: self.name.clone(),
                search_name,
                hex: self.hex.clone(),
                l,
                a: self.a,
                b: self.b,
                text_color,
            },
        )
    }
}

/// The square of an integer.
pub open spec fn sq(x: int) -> int {
    x * x
}

/// Euclidean distance between two colors' coordinates, in millionths.
pub open spec fn dist_spec(x: Color, y: Color) -> int {
    isqrt((sq(x.l - y.l) + sq(x.a - y.a) + sq(x.b - y.b)) * 10_000)
}

/// Saturation of a color, the cube root of `a² + b²`, in millionths.
pub open spec fn saturation_spec(c: Color) -> int {
    icbrt((sq(c.a as int) + sq(c.b as int)) * 10_000_000_000)
}

/// The saturation penalty `1 - 0.75 |sat(x) - sat(y)|`, in quarter-millionths.
pub open spec fn penalty_spec(x: Color, y: Color) -> int {
    4_000_000 - 3 * abs(saturation_spec(x) - saturation_spec(y))
}

/// Similarity `1 - dist · penalty`, in ten-thousandths.
pub open spec fn similarity_spec(x: Color, y: Color) -> int {
    10_000 - div_round(dist_spec(x, y) * penalty_spec(x, y), 400_000_000)
}

proof fn lemma_sq_i32_bound(x: int)
    requires
        -0x8000_0000 <= x <= 0x8000_0000,
    ensures
        0 <= sq(x) <= 0x4000_0000_0000_0000,
{
    assert(0 <= x * x <= 0x4000_0000_0000_0000) by (nonlinear_arith)
        requires
            -0x8000_0000 <= x <= 0x8000_0000,
    ;
}

proof fn lemma_sq_diff_bound(x: int)
    requires
        -0x1_0000_0000 <= x <= 0x1_0000_0000,
    ensures
        0 <= sq(x) <= 0x1_0000_0000_0000_0000,
{
    assert(0 <= x * x <= 0x1_0000_0000_0000_0000) by (nonlinear_arith)
        requires
            -0x1_0000_0000 <= x <= 0x1_0000_0000,
    ;
}

impl Color {
    /// Saturation in millionths.
    fn saturation(&self) -> (r: u128)
        ensures
            r == saturation_spec(*self),
            r < 0x2_0000_0000,
    {
        let a = self.a as i128;
        let b = self.b as i128;
        proof {
            lemma_sq_i32_bound(a as int);
            lemma_sq_i32_bound(b as int);
        }
        let s = ((a * a + b * b) as u128) * 10_000_000_000;
        cbrt_floor(s)
    }

    /// Distance in millionths.
    fn dist(&self, other: &Self) -> (r: u128)
        ensures
            r == dist_spec(*self, *other),
            r < 0x200_0000_0000,
    {
        let d_l = self.l as i128 - other.l as i128;
        let d_a = self.a as i128 - other.a as i128;
        let d_b = self.b as i128 - other.b as i128;
        proof {
            lemma_sq_diff_bound(d_l as int);
            lemma_sq_diff_bound(d_a as int);
            lemma_sq_diff_bound(d_b as int);
        }
        let s = ((d_l * d_l + d_a * d_a + d_b * d_b) as u128) * 10_000;
        sqrt_floor(s)
    }

    /// How alike two colors look: `10000` for identical coordinates, smaller
    /// as they grow apart, and possibly negative.
    pub fn similarity(&self, other: &Self) -> (r: i64)
        ensures
            r == similarity_spec(*self, *other),
    {
        let dist = self.dist(other) as i128;
        let s1 = self.saturation() as i128;
        let s2 = other.saturation() as i128;
        let diff: i128 = if s1 >= s2 { s1 - s2 } else { s2 - s1 };
        let pen: i128 = 4_000_000 - 3 * diff;
        assert(-0x2000_0000_0000_0000_0000 <= dist * pen <= 0x2000_0000_0000_0000_0000)
            by (nonlinear_arith)
            requires
                0 <= dist < 0x200_0000_0000,
                -0x10_0000_0000 <= pen <= 4_000_000,
        ;
        let prod: i128 = dist * pen;
        let q = div_round_i128(prod, 400_000_000);
        proof {
            lemma_div_round_bound(prod as int, 400_000_000, 0x2_0000_0000_0000);
        }
        (10_000 - q) as i64
    }
}

/// A color is as similar as can be to itself: its similarity is exactly `1.0`.
pub proof fn lemma_similarity_reflexive(x: Color)
    ensures
        similarity_spec(x, x) == 10_000,
{
    assert(sq(x.l - x.l) + sq(x.a - x.a) + sq(x.b - x.b) == 0);
    lemma_isqrt_is(0, 0);
    assert(dist_spec(x, x) == 0);
    assert(dist_spec(x, x) * penalty_spec(x, x) == 0);
    lemma_div_round_zero(400_000_000);
}

/// Similarity does not depend on the order of its arguments.
pub proof fn lemma_similarity_symmetric(x: Color, y: Color)
    ensures
        similarity_spec(x, y) == similarity_spec(y, x),
{
    assert(sq(x.l - y.l) == sq(y.l - x.l)) by (nonlinear_arith);
    assert(sq(x.a - y.a) == sq(y.a - x.a)) by (nonlinear_arith);
    assert(sq(x.b - y.b) == sq(y.b - x.b)) by (nonlinear_arith);
}

} // verus!
