//! The affine map from pixel coordinates to sample points of the plane.
//!
//! A grid of `width` by `height` pixels looks at the window
//! `[-right, right] x [-top, top]`, where `right = top * width / height`, so
//! that a pixel is as wide as it is high. Along each axis the samples are
//! evenly spaced and include both ends of the interval. An axis with a single
//! sample has it at the lower end.

use vstd::prelude::*;
use crate::fraction::{
    is_lowest_terms_of,
    lemma_equal_parts,
    lemma_lowest_terms_unique,
    Fraction,
};

verus! {

/// Why a grid cannot be built.
#[derive(Clone, Copy, Debug, PartialEq, Eq, Structural)]
pub enum GridError {
    /// The width or the height is zero.
    NoPixels,
    /// The upper edge of the window is not above the real axis.
    EmptyWindow,
    /// Before it is reduced, a numerator or denominator of some sample point
    /// does not fit in 64 bits.
    TooFine,
}

/// A point of the plane with rational coordinates.
#[derive(Clone, Copy, Debug)]
pub struct Sample {
    pub re: Fraction,
    pub im: Fraction,
}

/// What a grid is made of: its size in pixels and the upper edge of its
/// window, as numerator and denominator.
pub struct GridView {
    pub width: int,
    pub height: int,
    pub top: (int, int),
}

/// A sampling of a window of the plane, one sample per pixel.
#[derive(Clone, Copy, Debug)]
pub struct Grid {
    width: u32,
    height: u32,
    top: Fraction,
}

/// The number of steps between the first and the last of `n` samples.
pub open spec fn span(n: int) -> int {
    if n > 1 {
        n - 1
    } else {
        1
    }
}

/// Where sample `i` of `n` lies between -1 and 1, in units of `1 / span(n)`.
pub open spec fn offset(i: int, n: int) -> int {
    2 * i - span(n)
}

impl GridView {
    /// Numerator of the real part of the sample in column `x`.
    pub open spec fn re_numer(self, x: int) -> int {
        self.top.0 * self.width * offset(x, self.width)
    }

    /// Denominator of the real part of every sample.
    pub open spec fn re_denom(self) -> int {
        self.top.1 * self.height * span(self.width)
    }

    /// Numerator of the imaginary part of the sample in row `y`.
    pub open spec fn im_numer(self, y: int) -> int {
        self.top.0 * offset(y, self.height)
    }

    /// Denominator of the imaginary part of every sample.
    pub open spec fn im_denom(self) -> int {
        self.top.1 * span(self.height)
    }

    /// Every numerator and denominator above fits in 64 bits.
    pub open spec fn fits(self) -> bool {
        &&& self.top.0 * self.width * span(self.width) <= i64::MAX
        &&& self.top.1 * self.height * span(self.width) <= i64::MAX
        &&& self.top.0 * span(self.height) <= i64::MAX
        &&& self.top.1 * span(self.height) <= i64::MAX
    }

    /// At least one pixel, a window of positive height, and sample points
    /// that fit.
    pub open spec fn wf(self) -> bool {
        &&& 1 <= self.width <= u32::MAX
        &&& 1 <= self.height <= u32::MAX
        &&& 0 < self.top.0 <= i64::MAX
        &&& 0 < self.top.1 <= i64::MAX
        &&& self.fits()
    }

    /// `s` is the sample of pixel `(x, y)`, each coordinate in lowest terms.
    pub open spec fn is_sample(self, x: int, y: int, s: Sample) -> bool {
        &&& is_lowest_terms_of(s.re@, self.re_numer(x), self.re_denom())
        &&& is_lowest_terms_of(s.im@, self.im_numer(y), self.im_denom())
    }
}

impl View for Grid {
    type V = GridView;

    closed spec fn view(&self) -> GridView {
        GridView { width: self.width as int, height: self.height as int, top: self.top@ }
    }
}

/// `a * b * c` for three unsigned factors, in 128 bits.
fn product(a: u64, b: u32, c: u32) -> (p: u128)
    ensures
        p == a * b * c,
{
    assert(a * b <= 0xffff_ffff_ffff_ffff * 0xffff_ffff) by (nonlinear_arith)
        requires
            0 <= a <= 0xffff_ffff_ffff_ffff,
            0 <= b <= 0xffff_ffff,
    ;
    assert(a * b * c <= 0xffff_ffff_ffff_ffff * 0xffff_ffff * 0xffff_ffff) by (nonlinear_arith)
        requires
            0 <= a * b <= 0xffff_ffff_ffff_ffff * 0xffff_ffff,
            0 <= c <= 0xffff_ffff,
    ;
    (a as u128) * (b as u128) * (c as u128)
}

/// A numerator `scale * off` stays within the bound that `scale * span` meets.
proof fn lemma_scaled_offset(scale: int, off: int, span: int, bound: int)
    requires
        0 <= scale,
        -span <= off <= span,
        scale * span <= bound,
    ensures
        -bound <= scale * off <= bound,
{
    assert(scale * off <= scale * span && -(scale * span) <= scale * off) by (nonlinear_arith)
        requires
            0 <= scale,
            -span <= off <= span,
    ;
}

impl Grid {
    #[verifier::type_invariant]
    closed spec fn inv(self) -> bool {
        self@.wf()
    }

    /// A grid of `width` by `height` pixels on the window whose upper edge is
    /// `top`.
    pub fn new(width: u32, height: u32, top: Fraction) -> (r: Result<Grid, GridError>)
        ensures
            match r {
                Ok(g) => {
                    &&& g@ == (GridView { width: width as int, height: height as int, top: top@ })
                    &&& g@.wf()
                },
                Err(GridError::NoPixels) => width == 0 || height == 0,
                Err(GridError::EmptyWindow) => width > 0 && height > 0 && top@.0 <= 0,
                Err(GridError::TooFine) => {
                    &&& width > 0 && height > 0 && top@.0 > 0
                    &&& !(GridView { width: width as int, height: height as int, top: top@ }).fits()
                },
            },
    {
        if width == 0 || height == 0 {
            return Err(GridError::NoPixels);
        }
        let numer: i64 = top.numer();
        let denom: i64 = top.denom();
        if numer <= 0 {
            return Err(GridError::EmptyWindow);
        }
        let span_w: u32 = if width > 1 { width - 1 } else { 1 };
        let span_h: u32 = if height > 1 { height - 1 } else { 1 };
        let limit: u128 = 0x7fff_ffff_ffff_ffff;
        let fits = product(numer as u64, width, span_w) <= limit
            && product(denom as u64, height, span_w) <= limit
            && product(numer as u64, span_h, 1) <= limit
            && product(denom as u64, span_h, 1) <= limit;
        if !fits {
            return Err(GridError::TooFine);
        }
        Ok(Grid { width, height, top })
    }

    /// The number of columns.
    pub fn width(&self) -> (w: u32)
        ensures
            w == self@.width,
    {
        self.width
    }

    /// The number of rows.
    pub fn height(&self) -> (h: u32)
        ensures
            h == self@.height,
    {
        self.height
    }

    /// The upper edge of the window.
    pub fn top(&self) -> (t: Fraction)
        ensures
            t@ == self@.top,
    {
        self.top
    }

    /// The sample point of the pixel in column `x` and row `y`.
    pub fn sample(&self, x: u32, y: u32) -> (s: Sample)
        requires
            x < self@.width,
            y < self@.height,
        ensures
            self@.is_sample(x as int, y as int, s),
    {
        proof {
            use_type_invariant(self);
        }
        let numer: i64 = self.top.numer();
        let denom: i64 = self.top.denom();
        let span_w: i64 = if self.width > 1 { self.width as i64 - 1 } else { 1 };
        let span_h: i64 = if self.height > 1 { self.height as i64 - 1 } else { 1 };
        let off_x: i64 = 2 * (x as i64) - span_w;
        let off_y: i64 = 2 * (y as i64) - span_h;
        proof {
            let v = self@;
            let limit = i64::MAX as int;
            assert(0 <= v.top.0 * v.width) by (nonlinear_arith)
                requires
                    0 <= v.top.0,
                    0 <= v.width,
            ;
            assert(v.top.0 * v.width <= v.top.0 * v.width * span(v.width)) by (nonlinear_arith)
                requires
                    0 <= v.top.0 * v.width,
                    1 <= span(v.width),
            ;
            lemma_scaled_offset(v.top.0 * v.width, off_x as int, span(v.width), limit);
            assert(0 < v.top.1 * v.height) by (nonlinear_arith)
                requires
                    0 < v.top.1,
                    0 < v.height,
            ;
            assert(v.top.1 * v.height <= v.top.1 * v.height * span(v.width) && 0 < v.top.1
                * v.height * span(v.width)) by (nonlinear_arith)
                requires
                    0 < v.top.1 * v.height,
                    1 <= span(v.width),
            ;
            lemma_scaled_offset(v.top.0, off_y as int, span(v.height), limit);
            assert(0 < v.top.1 * span(v.height)) by (nonlinear_arith)
                requires
                    0 < v.top.1,
                    1 <= span(v.height),
            ;
        }
        let re_numer: i64 = numer * (self.width as i64) * off_x;
        let re_denom: i64 = denom * (self.height as i64) * span_w;
        let im_numer: i64 = numer * off_y;
        let im_denom: i64 = denom * span_h;
        let re = Fraction::reduced(re_numer, re_denom);
        let im = Fraction::reduced(im_numer, im_denom);
        Sample { re, im }
    }
}

/// The first pixel samples the lower left corner of the window and the last
/// pixel, on a grid with more than one row and column, the upper right one.
pub proof fn lemma_corners(g: GridView)
    requires
        g.wf(),
    ensures
        g.re_numer(0) == -g.top.0 * g.width * span(g.width),
        g.im_numer(0) == -g.top.0 * span(g.height),
        g.width > 1 ==> g.re_numer(g.width - 1) == g.top.0 * g.width * span(g.width),
        g.height > 1 ==> g.im_numer(g.height - 1) == g.top.0 * span(g.height),
{
    assert(g.top.0 * g.width * (-span(g.width)) == -g.top.0 * g.width * span(g.width))
        by (nonlinear_arith);
    assert(g.top.0 * (-span(g.height)) == -g.top.0 * span(g.height)) by (nonlinear_arith);
}

/// Neighbouring samples are the same distance apart everywhere: the map is
/// affine in each pixel coordinate.
pub proof fn lemma_evenly_spaced(g: GridView, x: int, y: int)
    ensures
        g.re_numer(x + 1) - g.re_numer(x) == 2 * (g.top.0 * g.width),
        g.im_numer(y + 1) - g.im_numer(y) == 2 * g.top.0,
{
    assert(g.top.0 * g.width * (2 * (x + 1) - span(g.width)) - g.top.0 * g.width * (2 * x - span(
        g.width,
    )) == 2 * (g.top.0 * g.width)) by (nonlinear_arith);
    assert(g.top.0 * (2 * (y + 1) - span(g.height)) - g.top.0 * (2 * y - span(g.height)) == 2
        * g.top.0) by (nonlinear_arith);
}

/// A pixel has one sample point.
pub proof fn lemma_sample_unique(g: GridView, x: int, y: int, s: Sample, t: Sample)
    requires
        g.wf(),
        g.is_sample(x, y, s),
        g.is_sample(x, y, t),
    ensures
        s == t,
{
    assert(g.re_denom() > 0) by (nonlinear_arith)
        requires
            g.re_denom() == g.top.1 * g.height * span(g.width),
            g.top.1 > 0,
            g.height > 0,
            span(g.width) > 0,
    ;
    assert(g.im_denom() > 0) by (nonlinear_arith)
        requires
            g.im_denom() == g.top.1 * span(g.height),
            g.top.1 > 0,
            span(g.height) > 0,
    ;
    lemma_lowest_terms_unique(s.re@, t.re@, g.re_numer(x), g.re_denom());
    lemma_lowest_terms_unique(s.im@, t.im@, g.im_numer(y), g.im_denom());
    lemma_equal_parts(s.re, t.re);
    lemma_equal_parts(s.im, t.im);
}

} // verus!
