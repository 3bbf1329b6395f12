//! Display-time corrections for scanned pages.
//!
//! A rendered page is reduced to an 8-bit gray image, and the corrections
//! below work on that image: histogram based contrast stretching, the level
//! analysis behind automatic levelling, and thresholding to black and white.

use vstd::prelude::*;
use vstd::arithmetic::div_mod::lemma_div_is_ordered;

verus! {

/// Image correction settings. Strengths run from 0 (off) to 100 (full).
#[derive(Clone, Copy, PartialEq, Eq, Structural, Hash, Debug)]
pub struct Enhance {
    /// Share of the stretched histogram that is mixed into the original.
    pub contrast: u8,
    /// Strength of the unsharp mask.
    pub sharpen: u8,
    /// Move the dark and background levels of each page to fixed targets.
    pub auto_level: bool,
    /// Black and white thresholding; when set, no other correction applies.
    pub binarize: bool,
}

/// A strength clamped to the range `0..=100`.
pub open spec fn clamped_strength(x: u8) -> u8 {
    if x > 100 { 100 } else { x }
}

impl Enhance {
    /// No correction at all.
    pub fn none() -> (e: Self)
        ensures
            e.contrast == 0,
            e.sharpen == 0,
            !e.auto_level,
            !e.binarize,
    {
        Enhance { contrast: 0, sharpen: 0, auto_level: false, binarize: false }
    }

    /// Settings with both strengths clamped to `0..=100` and automatic levelling off.
    pub fn new(contrast: u8, sharpen: u8, binarize: bool) -> (e: Self)
        ensures
            e.contrast == clamped_strength(contrast),
            e.sharpen == clamped_strength(sharpen),
            !e.auto_level,
            e.binarize == binarize,
    {
        Enhance {
            contrast: if contrast > 100 { 100 } else { contrast },
            sharpen: if sharpen > 100 { 100 } else { sharpen },
            auto_level: false,
            binarize,
        }
    }
}

impl Default for Enhance {
    /// No correction at all.
    fn default() -> (e: Self)
        ensures
            e.contrast == 0,
            e.sharpen == 0,
            !e.auto_level,
            !e.binarize,
    {
        Enhance::none()
    }
}

/// An 8-bit gray image stored row by row.
///
/// The pixel count `width * height` always fits in a `u32`.
#[derive(PartialEq, Eq, Debug)]
pub struct GrayImage {
    width: u32,
    height: u32,
    pixels: Vec<u8>,
}

impl View for GrayImage {
    type V = Seq<u8>;

    /// The pixels, row by row.
    closed spec fn view(&self) -> Seq<u8> {
        self.pixels@
    }
}

impl Clone for GrayImage {
    /// A copy with the same size and pixels.
    fn clone(&self) -> (r: Self)
        ensures
            r.w() == self.w(),
            r.h() == self.h(),
            r@ == self@,
    {
        proof {
            use_type_invariant(self);
        }
        let pixels = self.pixels.clone();
        proof {
            assert(pixels@ =~= self.pixels@);
        }
        GrayImage { width: self.width, height: self.height, pixels }
    }
}

/// Position of pixel `(x, y)` in the row-major pixel sequence.
pub open spec fn pixel_index(width: int, x: int, y: int) -> int {
    y * width + x
}

impl GrayImage {
    #[verifier::type_invariant]
    spec fn well_formed(self) -> bool {
        &&& self.pixels.len() == self.width * self.height
        &&& self.width * self.height <= u32::MAX
    }

    /// The width in pixels.
    pub closed spec fn w(&self) -> u32 {
        self.width
    }

    /// The height in pixels.
    pub closed spec fn h(&self) -> u32 {
        self.height
    }

    /// Wraps a row-major pixel buffer; `None` when its length is not
    /// `width * height` or that count does not fit in a `u32`.
    pub fn from_raw(width: u32, height: u32, pixels: Vec<u8>) -> (r: Option<GrayImage>)
        ensures
            r is Some <==> (pixels@.len() == width * height && width * height <= u32::MAX),
            r matches Some(img) ==> img.w() == width && img.h() == height && img@ == pixels@,
    {
        proof {
            lemma_u32_product(width, height);
        }
        let n: u64 = width as u64 * height as u64;
        if n <= u32::MAX as u64 && pixels.len() as u64 == n {
            Some(GrayImage { width, height, pixels })
        } else {
            None
        }
    }

    /// An image of the given size with every pixel set to `value`.
    pub fn from_pixel(width: u32, height: u32, value: u8) -> (img: GrayImage)
        requires
            width * height <= u32::MAX,
        ensures
            img.w() == width,
            img.h() == height,
            img@ == Seq::new((width * height) as nat, |i: int| value),
    {
        let n: usize = (width as u64 * height as u64) as usize;
        let mut pixels: Vec<u8> = Vec::new();
        while pixels.len() < n
            invariant
                pixels.len() <= n,
                n == width * height,
                forall|i: int| 0 <= i < pixels.len() ==> pixels@[i] == value,
            decreases n - pixels.len(),
        {
            pixels.push(value);
        }
        let img = GrayImage { width, height, pixels };
        assert(img@ =~= Seq::new((width * height) as nat, |i: int| value));
        img
    }

    /// A black image of the given size.
    pub fn new(width: u32, height: u32) -> (img: GrayImage)
        requires
            width * height <= u32::MAX,
        ensures
            img.w() == width,
            img.h() == height,
            img@ == Seq::new((width * height) as nat, |i: int| 0u8),
    {
        GrayImage::from_pixel(width, height, 0)
    }

    /// The width in pixels.
    pub fn width(&self) -> (r: u32)
        ensures
            r == self.w(),
    {
        self.width
    }

    /// The height in pixels.
    pub fn height(&self) -> (r: u32)
        ensures
            r == self.h(),
    {
        self.height
    }

    /// The pixels, row by row.
    pub fn as_raw(&self) -> (r: &Vec<u8>)
        ensures
            r@ == self@,
    {
        &self.pixels
    }

    /// Gives up the image and returns its pixels, row by row.
    pub fn into_raw(self) -> (r: Vec<u8>)
        ensures
            r@ == self@,
    {
        self.pixels
    }

    /// The value of pixel `(x, y)`.
    pub fn get_pixel(&self, x: u32, y: u32) -> (v: u8)
        requires
            x < self.w(),
            y < self.h(),
        ensures
            v == self@[pixel_index(self.w() as int, x as int, y as int)],
    {
        proof {
            use_type_invariant(self);
            lemma_index_in_bounds(self.width as int, self.height as int, x as int, y as int);
        }
        let i: usize = (y as u64 * self.width as u64 + x as u64) as usize;
        self.pixels[i]
    }

    /// Sets pixel `(x, y)` to `value`.
    pub fn put_pixel(&mut self, x: u32, y: u32, value: u8)
        requires
            x < old(self).w(),
            y < old(self).h(),
        ensures
            final(self).w() == old(self).w(),
            final(self).h() == old(self).h(),
            final(self)@ == old(self)@.update(
                pixel_index(old(self).w() as int, x as int, y as int),
                value,
            ),
    {
        proof {
            use_type_invariant(&*self);
            lemma_index_in_bounds(self.width as int, self.height as int, x as int, y as int);
        }
        let i: usize = (y as u64 * self.width as u64 + x as u64) as usize;
        let mut taken = GrayImage { width: 0, height: 0, pixels: Vec::new() };
        std::mem::swap(&mut taken, self);
        let GrayImage { width, height, mut pixels } = taken;
        pixels.set(i, value);
        *self = GrayImage { width, height, pixels };
    }

    /// An image of the same size whose pixels are `pixels`.
    fn with_pixels(&self, pixels: Vec<u8>) -> (img: GrayImage)
        requires
            pixels@.len() == self@.len(),
        ensures
            img.w() == self.w(),
            img.h() == self.h(),
            img@ == pixels@,
    {
        proof {
            use_type_invariant(self);
        }
        GrayImage { width: self.width, height: self.height, pixels }
    }
}

proof fn lemma_u32_product(a: u32, b: u32)
    ensures
        0 <= a * b <= u64::MAX,
{
    assert(0 <= (a as int) * (b as int) <= 0xffff_ffff * 0xffff_ffff) by (nonlinear_arith)
        requires
            a <= 0xffff_ffff,
            b <= 0xffff_ffff,
    ;
}

proof fn lemma_index_in_bounds(w: int, h: int, x: int, y: int)
    requires
        0 <= x < w,
        0 <= y < h,
    ensures
        0 <= y * w + x < w * h,
{
    assert(0 <= y * w) by (nonlinear_arith)
        requires
            0 <= y,
            0 <= w,
    ;
    assert(y * w + x < w * h) by (nonlinear_arith)
        requires
            0 <= x < w,
            0 <= y < h,
    ;
}

// ---------------------------------------------------------------------------
// Histograms
// ---------------------------------------------------------------------------

/// How many entries of `s` equal `v`.
pub open spec fn count_of(s: Seq<u8>, v: int) -> nat
    decreases s.len(),
{
    if s.len() == 0 {
        0
    } else {
        count_of(s.drop_last(), v) + if s.last() == v { 1nat } else { 0nat }
    }
}

/// The luminance histogram of a pixel sequence: entry `v` counts the pixels of value `v`.
pub open spec fn histogram_of(s: Seq<u8>) -> Seq<u32> {
    Seq::new(256, |v: int| count_of(s, v) as u32)
}

/// The pixel count that the corrections divide by: `width * height`, at least 1.
pub open spec fn pixel_total(img: GrayImage) -> int {
    if img.w() * img.h() == 0 {
        1
    } else {
        img.w() * img.h()
    }
}

/// Sum of the first `n` entries of `h`.
pub open spec fn prefix_sum(h: Seq<u32>, n: int) -> int
    decreases n,
{
    if n <= 0 {
        0
    } else {
        prefix_sum(h, n - 1) + h[n - 1]
    }
}

/// Sum of the entries of `h` from index `v` to 255.
pub open spec fn suffix_sum(h: Seq<u32>, v: int) -> int
    decreases 256 - v,
{
    if v >= 256 || v < 0 {
        0
    } else {
        h[v] + suffix_sum(h, v + 1)
    }
}

proof fn lemma_count_bound(s: Seq<u8>, v: int)
    ensures
        count_of(s, v) <= s.len(),
    decreases s.len(),
{
    if s.len() > 0 {
        lemma_count_bound(s.drop_last(), v);
    }
}

proof fn lemma_count_push(s: Seq<u8>, x: u8, v: int)
    ensures
        count_of(s.push(x), v) == count_of(s, v) + if x == v { 1nat } else { 0nat },
{
    assert(s.push(x).drop_last() =~= s);
}

/// Counts the pixels of each value, and returns the counts with the pixel
/// total (`width * height`, at least 1).
pub fn histogram(gray: &GrayImage) -> (r: (Vec<u32>, u32))
    ensures
        r.0@ == histogram_of(gray@),
        r.1 == pixel_total(*gray),
{
    proof {
        use_type_invariant(gray);
    }
    let mut hist: Vec<u32> = Vec::new();
    while hist.len() < 256
        invariant
            hist.len() <= 256,
            forall|v: int| 0 <= v < hist.len() ==> hist@[v] == 0,
        decreases 256 - hist.len(),
    {
        hist.push(0);
    }
    let pixels = &gray.pixels;
    let n = pixels.len();
    let mut i: usize = 0;
    while i < n
        invariant
            n == pixels@.len(),
            pixels@ == gray@,
            n <= u32::MAX,
            i <= n,
            hist.len() == 256,
            forall|v: int| 0 <= v < 256 ==> hist@[v] == count_of(pixels@.take(i as int), v),
        decreases n - i,
    {
        let p = pixels[i];
        proof {
            assert(pixels@.take(i as int + 1) =~= pixels@.take(i as int).push(p));
            assert forall|v: int| 0 <= v < 256 implies count_of(pixels@.take(i as int + 1), v)
                == count_of(pixels@.take(i as int), v) + if p == v { 1nat } else { 0nat } by {
                lemma_count_push(pixels@.take(i as int), p, v);
            }
            lemma_count_bound(pixels@.take(i as int + 1), p as int);
        }
        let c = hist[p as usize];
        hist.set(p as usize, c + 1);
        i = i + 1;
    }
    proof {
        assert(pixels@.take(n as int) =~= gray@);
        assert(hist@ =~= histogram_of(gray@));
    }
    let wh = gray.width * gray.height;
    let total = if wh == 0 { 1 } else { wh };
    (hist, total)
}

// ---------------------------------------------------------------------------
// Percentiles
// ---------------------------------------------------------------------------

/// The first level `v >= from` whose cumulative count `prefix_sum(h, v + 1)`
/// reaches `t`; `none` when no level does.
pub open spec fn first_reaching(h: Seq<u32>, t: int, from: int, none: int) -> int
    decreases 256 - from,
{
    if from >= 256 || from < 0 {
        none
    } else if prefix_sum(h, from + 1) >= t {
        from
    } else {
        first_reaching(h, t, from + 1, none)
    }
}

/// The count that a percentile query must reach: `total * permille / 1000`
/// (permille capped at 1000), at least 1.
pub open spec fn percentile_target(total: int, permille: int) -> int {
    let p = if permille > 1000 { 1000 } else { permille };
    let t = (total * p) / 1000;
    if t < 1 { 1 } else { t }
}

/// The luminance at the given per-mille position (0 to 1000) of a histogram:
/// the first level whose cumulative count reaches the target, 255 when none does.
pub fn percentile(hist: &Vec<u32>, total: u32, permille: u32) -> (r: u8)
    requires
        hist@.len() == 256,
    ensures
        r == first_reaching(hist@, percentile_target(total as int, permille as int), 0, 255),
{
    let p: u64 = if permille > 1000 { 1000 } else { permille as u64 };
    proof {
        assert(0 <= total as int * p as int <= u32::MAX * 1000) by (nonlinear_arith)
            requires
                p <= 1000,
        ;
    }
    let t0: u64 = (total as u64 * p) / 1000;
    let target: u64 = if t0 < 1 { 1 } else { t0 };
    let mut accumulated: u64 = 0;
    let mut v: usize = 0;
    while v < 256
        invariant
            hist@.len() == 256,
            v <= 256,
            target == percentile_target(total as int, permille as int),
            accumulated == prefix_sum(hist@, v as int),
            accumulated <= v * u32::MAX,
            first_reaching(hist@, target as int, 0, 255) == first_reaching(
                hist@,
                target as int,
                v as int,
                255,
            ),
        decreases 256 - v,
    {
        accumulated = accumulated + hist[v] as u64;
        if accumulated >= target {
            return v as u8;
        }
        v = v + 1;
    }
    255
}


// ---------------------------------------------------------------------------
// Contrast stretching
// ---------------------------------------------------------------------------

/// Scanning down from level `255 - skipped`, the first level `v` whose count
/// from `v` to 255 reaches `t`; `none` when no level does.
pub open spec fn last_reaching(h: Seq<u32>, t: int, skipped: int, none: int) -> int
    decreases 256 - skipped,
{
    if skipped >= 256 || skipped < 0 {
        none
    } else if suffix_sum(h, 255 - skipped) >= t {
        255 - skipped
    } else {
        last_reaching(h, t, skipped + 1, none)
    }
}

/// The low end of the stretch: the first level at which more than `cut`
/// pixels lie at or below it (0 when there is none).
pub open spec fn stretch_low(h: Seq<u32>, cut: int) -> int {
    first_reaching(h, cut + 1, 0, 0)
}

/// The high end of the stretch: the last level at which more than `cut`
/// pixels lie at or above it (255 when there is none).
pub open spec fn stretch_high(h: Seq<u32>, cut: int) -> int {
    last_reaching(h, cut + 1, 0, 255)
}

/// The stretched value of level `v`: `[lo, hi]` is mapped linearly onto
/// `[0, 255]`, rounding down, and levels outside it are clamped.
pub open spec fn stretch_level(lo: int, hi: int, v: int) -> int {
    if v <= lo {
        0
    } else if v >= hi {
        255
    } else {
        (v - lo) * 255 / (hi - lo)
    }
}

/// Mix of an original and a stretched level with the given strength in percent,
/// rounded to nearest.
pub open spec fn blend_level(orig: int, stretched: int, amount: int) -> int {
    (orig * (100 - amount) + stretched * amount + 50) / 100
}

/// The pixels after contrast stretching with strength `amount` (capped at 100),
/// where `cut` pixels at each end of the histogram count as outliers. The
/// pixels are unchanged when the strength is 0 or the stretch range is empty.
pub open spec fn stretched_pixels(s: Seq<u8>, amount: int, cut: int) -> Seq<u8> {
    let a = if amount > 100 { 100 } else { amount };
    let h = histogram_of(s);
    let lo = stretch_low(h, cut);
    let hi = stretch_high(h, cut);
    if a == 0 || hi <= lo {
        s
    } else {
        Seq::new(s.len(), |i: int| blend_level(s[i] as int, stretch_level(lo, hi, s[i] as int), a) as u8)
    }
}

fn stretch_low_level(hist: &Vec<u32>, cut: u32) -> (lo: usize)
    requires
        hist@.len() == 256,
    ensures
        lo == stretch_low(hist@, cut as int),
        lo < 256,
{
    let mut acc: u64 = 0;
    let mut v: usize = 0;
    while v < 256
        invariant
            hist@.len() == 256,
            v <= 256,
            acc == prefix_sum(hist@, v as int),
            acc <= v * u32::MAX,
            stretch_low(hist@, cut as int) == first_reaching(hist@, cut + 1, v as int, 0),
        decreases 256 - v,
    {
        acc = acc + hist[v] as u64;
        if acc > cut as u64 {
            return v;
        }
        v = v + 1;
    }
    0
}

fn stretch_high_level(hist: &Vec<u32>, cut: u32) -> (hi: usize)
    requires
        hist@.len() == 256,
    ensures
        hi == stretch_high(hist@, cut as int),
        hi < 256,
{
    let mut acc: u64 = 0;
    let mut k: usize = 0;
    while k < 256
        invariant
            hist@.len() == 256,
            k <= 256,
            acc == suffix_sum(hist@, 256 - k),
            acc <= k * u32::MAX,
            stretch_high(hist@, cut as int) == last_reaching(hist@, cut + 1, k as int, 255),
        decreases 256 - k,
    {
        let v: usize = 255 - k;
        acc = acc + hist[v] as u64;
        if acc > cut as u64 {
            return v;
        }
        k = k + 1;
    }
    255
}

proof fn lemma_stretch_level_range(lo: int, hi: int, v: int)
    requires
        0 <= lo < hi,
    ensures
        0 <= stretch_level(lo, hi, v) <= 255,
{
    if lo < v < hi {
        assert(0 <= (v - lo) * 255 / (hi - lo) < 255) by (nonlinear_arith)
            requires
                0 < v - lo < hi - lo,
        ;
    }
}

proof fn lemma_blend_range(orig: int, stretched: int, amount: int)
    requires
        0 <= orig <= 255,
        0 <= stretched <= 255,
        0 <= amount <= 100,
    ensures
        0 <= blend_level(orig, stretched, amount) <= 255,
        orig * (100 - amount) + stretched * amount + 50 <= 25550,
{
    assert(0 <= orig * (100 - amount) + stretched * amount <= 25500) by (nonlinear_arith)
        requires
            0 <= orig <= 255,
            0 <= stretched <= 255,
            0 <= amount <= 100,
    ;
}

/// Stretches the histogram so that `[lo, hi]` spans the full range and mixes
/// the result into the original with strength `amount` (capped at 100).
/// `cut` is the number of pixels at each end of the histogram treated as
/// outliers when finding `lo` and `hi` (2% of the pixel total, which the
/// caller computes).
pub fn contrast_stretch_amount(gray: GrayImage, amount: u8, cut: u32) -> (r: GrayImage)
    ensures
        r.w() == gray.w(),
        r.h() == gray.h(),
        r@ == stretched_pixels(gray@, amount as int, cut as int),
        amount == 0 ==> r@ == gray@,
{
    let amount: u16 = if amount > 100 { 100 } else { amount as u16 };
    if amount == 0 {
        return gray;
    }
    let (hist, _total) = histogram(&gray);
    let lo = stretch_low_level(&hist, cut);
    let hi = stretch_high_level(&hist, cut);
    if hi <= lo {
        return gray;
    }
    let mut lut: Vec<u8> = Vec::new();
    let mut v: usize = 0;
    while v < 256
        invariant
            lo < hi < 256,
            v <= 256,
            lut@.len() == v,
            forall|u: int| 0 <= u < v ==> lut@[u] == stretch_level(lo as int, hi as int, u),
        decreases 256 - v,
    {
        proof {
            lemma_stretch_level_range(lo as int, hi as int, v as int);
        }
        let level: u8 = if v <= lo {
            0
        } else if v >= hi {
            255
        } else {
            ((v - lo) * 255 / (hi - lo)) as u8
        };
        lut.push(level);
        v = v + 1;
    }
    let pixels = gray.as_raw();
    let n = pixels.len();
    let mut out: Vec<u8> = Vec::new();
    let mut i: usize = 0;
    while i < n
        invariant
            n == pixels@.len(),
            pixels@ == gray@,
            lo < hi < 256,
            1 <= amount <= 100,
            lut@.len() == 256,
            forall|u: int| 0 <= u < 256 ==> lut@[u] == stretch_level(lo as int, hi as int, u),
            i <= n,
            out@.len() == i,
            forall|j: int|
                0 <= j < i ==> out@[j] == blend_level(
                    pixels@[j] as int,
                    stretch_level(lo as int, hi as int, pixels@[j] as int),
                    amount as int,
                ) as u8,
        decreases n - i,
    {
        let p = pixels[i];
        let original: u16 = p as u16;
        let stretched: u16 = lut[p as usize] as u16;
        proof {
            lemma_stretch_level_range(lo as int, hi as int, p as int);
            lemma_blend_range(original as int, stretched as int, amount as int);
        }
        let mixed: u16 = (original * (100 - amount) + stretched * amount + 50) / 100;
        out.push(mixed as u8);
        i = i + 1;
    }
    let r = gray.with_pixels(out);
    proof {
        assert(r@ =~= stretched_pixels(gray@, amount as int, cut as int));
    }
    r
}

/// Full-strength contrast stretching: the levels between the two outlier
/// cuts are spread over `[0, 255]`.
pub fn contrast_stretch(gray: GrayImage, cut: u32) -> (r: GrayImage)
    ensures
        r.w() == gray.w(),
        r.h() == gray.h(),
        r@ == stretched_pixels(gray@, 100, cut as int),
{
    contrast_stretch_amount(gray, 100, cut)
}

// ---------------------------------------------------------------------------
// Thresholding
// ---------------------------------------------------------------------------

/// The pixels after thresholding: white above `threshold`, black otherwise.
pub open spec fn thresholded_pixels(s: Seq<u8>, threshold: u8) -> Seq<u8> {
    Seq::new(s.len(), |i: int| if s[i] > threshold { 255u8 } else { 0u8 })
}

/// Turns every pixel above `threshold` white and every other pixel black.
pub fn binarize(gray: GrayImage, threshold: u8) -> (r: GrayImage)
    ensures
        r.w() == gray.w(),
        r.h() == gray.h(),
        r@ == thresholded_pixels(gray@, threshold),
{
    let pixels = gray.as_raw();
    let n = pixels.len();
    let mut out: Vec<u8> = Vec::new();
    let mut i: usize = 0;
    while i < n
        invariant
            n == pixels@.len(),
            pixels@ == gray@,
            i <= n,
            out@.len() == i,
            forall|j: int| 0 <= j < i ==> out@[j] == if pixels@[j] > threshold { 255u8 } else { 0u8 },
        decreases n - i,
    {
        let v: u8 = if pixels[i] > threshold { 255 } else { 0 };
        out.push(v);
        i = i + 1;
    }
    let r = gray.with_pixels(out);
    proof {
        assert(r@ =~= thresholded_pixels(gray@, threshold));
    }
    r
}


// ---------------------------------------------------------------------------
// Automatic levels
// ---------------------------------------------------------------------------

/// The dark level (1st percentile) and background level (95th percentile) of
/// a histogram, or `None` when the page has too little contrast for levelling
/// (the two are less than 24 apart) or is too dark (dark level above 200).
pub open spec fn auto_levels(h: Seq<u32>, total: int) -> Option<(u8, u8)> {
    let dark = first_reaching(h, percentile_target(total, 10), 0, 255);
    let background = first_reaching(h, percentile_target(total, 950), 0, 255);
    let spread = if background >= dark { background - dark } else { 0 };
    if spread < 24 || dark > 200 {
        None
    } else {
        Some((dark as u8, background as u8))
    }
}

proof fn lemma_first_reaching_range(h: Seq<u32>, t: int, from: int, none: int)
    requires
        0 <= from,
        0 <= none <= 255,
    ensures
        0 <= first_reaching(h, t, from, none) <= 255,
    decreases 256 - from,
{
    if from < 256 && prefix_sum(h, from + 1) < t {
        lemma_first_reaching_range(h, t, from + 1, none);
    }
}

proof fn lemma_last_reaching_range(h: Seq<u32>, t: int, skipped: int, none: int)
    requires
        0 <= skipped,
        0 <= none <= 255,
    ensures
        0 <= last_reaching(h, t, skipped, none) <= 255,
    decreases 256 - skipped,
{
    if skipped < 256 && suffix_sum(h, 255 - skipped) < t {
        lemma_last_reaching_range(h, t, skipped + 1, none);
    }
}

/// The dark and background levels used by automatic levelling, from the
/// histogram and pixel total of a page; `None` when the page is left alone.
pub fn auto_level_levels(hist: &Vec<u32>, total: u32) -> (r: Option<(u8, u8)>)
    requires
        hist@.len() == 256,
    ensures
        r == auto_levels(hist@, total as int),
        r matches Some((dark, background)) ==> dark <= 200 && dark + 24 <= background,
{
    let dark = percentile(hist, total, 10);
    let background = percentile(hist, total, 950);
    let spread: u8 = if background >= dark { background - dark } else { 0 };
    if spread < 24 || dark > 200 {
        None
    } else {
        Some((dark, background))
    }
}

/// The lowest level counted as background: 16 below the background level, at least 0.
pub open spec fn background_floor(background: u8) -> int {
    if background >= 16 { background - 16 } else { 0 }
}

/// The number of pixels at or above `background_floor(background)`; the share
/// of such pixels tells a text page (many) from a photograph (few).
pub fn background_pixels(hist: &Vec<u32>, background: u8) -> (r: u64)
    requires
        hist@.len() == 256,
    ensures
        r == suffix_sum(hist@, background_floor(background)),
{
    let floor: usize = if background >= 16 { (background - 16) as usize } else { 0 };
    let mut acc: u64 = 0;
    let mut k: usize = 256;
    while k > floor
        invariant
            hist@.len() == 256,
            floor <= k <= 256,
            acc == suffix_sum(hist@, k as int),
            acc <= (256 - k) * u32::MAX,
        decreases k,
    {
        k = k - 1;
        acc = acc + hist[k] as u64;
    }
    acc
}

/// What automatic levelling of a page works with: its dark and background
/// levels, the number of background pixels, and the pixel total.
#[derive(Clone, Copy, PartialEq, Eq, Structural, Debug)]
pub struct AutoLevelPlan {
    pub dark: u8,
    pub background: u8,
    pub background_pixels: u64,
    pub total: u32,
}

/// The levelling plan for a page at strength `amount` (capped at 100):
/// `None`, and the page is left as it is, when the strength is 0 or the level
/// analysis finds levelling pointless; otherwise the levels and counts of the page.
pub open spec fn auto_level_plan_of(s: Seq<u8>, total: int, amount: u8) -> Option<AutoLevelPlan> {
    if clamped_strength(amount) == 0 {
        None
    } else {
        match auto_levels(histogram_of(s), total) {
            None => None,
            Some((dark, background)) => Some(
                AutoLevelPlan {
                    dark,
                    background,
                    background_pixels: suffix_sum(histogram_of(s), background_floor(background)) as u64,
                    total: total as u32,
                },
            ),
        }
    }
}

/// Decides whether automatic levelling at strength `amount` changes the page
/// and, if so, gathers the levels and counts it works with.
pub fn plan_auto_level(gray: &GrayImage, amount: u8) -> (r: Option<AutoLevelPlan>)
    ensures
        r == auto_level_plan_of(gray@, pixel_total(*gray), amount),
        r is None <==> (clamped_strength(amount) == 0 || auto_levels(
            histogram_of(gray@),
            pixel_total(*gray),
        ) is None),
{
    if amount == 0 {
        return None;
    }
    let (hist, total) = histogram(gray);
    match auto_level_levels(&hist, total) {
        None => None,
        Some((dark, background)) => {
            let count = background_pixels(&hist, background);
            Some(AutoLevelPlan { dark, background, background_pixels: count, total })
        },
    }
}

/// The pixels with each level replaced through a table of 256 levels.
pub open spec fn mapped_pixels(s: Seq<u8>, table: Seq<u8>) -> Seq<u8> {
    Seq::new(s.len(), |i: int| table[s[i] as int])
}

/// Replaces every pixel `v` of the image by `table[v]`.
pub fn apply_levels(gray: GrayImage, table: &[u8; 256]) -> (r: GrayImage)
    ensures
        r.w() == gray.w(),
        r.h() == gray.h(),
        r@ == mapped_pixels(gray@, table@),
{
    let pixels = gray.as_raw();
    let n = pixels.len();
    let mut out: Vec<u8> = Vec::new();
    let mut i: usize = 0;
    while i < n
        invariant
            n == pixels@.len(),
            pixels@ == gray@,
            i <= n,
            out@.len() == i,
            forall|j: int| 0 <= j < i ==> out@[j] == table@[pixels@[j] as int],
        decreases n - i,
    {
        let v: u8 = table[pixels[i] as usize];
        out.push(v);
        i = i + 1;
    }
    let r = gray.with_pixels(out);
    proof {
        assert(r@ =~= mapped_pixels(gray@, table@));
    }
    r
}

/// Automatic levelling at strength `amount` (capped at 100). A page for
/// which `plan_auto_level` finds nothing to do (strength 0, too little
/// contrast, or too dark) comes back unchanged. Otherwise `level_table`
/// gives, from the plan, the new value of each of the 256 gray levels, and
/// every pixel is mapped through that table.
pub fn auto_level_adjust<F: Fn(AutoLevelPlan) -> [u8; 256]>(
    gray: GrayImage,
    amount: u8,
    level_table: F,
) -> (r: GrayImage)
    requires
        forall|plan: AutoLevelPlan| call_requires(level_table, (plan,)),
    ensures
        r.w() == gray.w(),
        r.h() == gray.h(),
        (clamped_strength(amount) == 0 || auto_levels(histogram_of(gray@), pixel_total(gray))
            is None) ==> r@ == gray@,
        match auto_level_plan_of(gray@, pixel_total(gray), amount) {
            None => r@ == gray@,
            Some(plan) => exists|table: [u8; 256]|
                call_ensures(level_table, (plan,), table) && r@ == mapped_pixels(gray@, table@),
        },
{
    match plan_auto_level(&gray, amount) {
        None => gray,
        Some(plan) => {
            let table = level_table(plan);
            apply_levels(gray, &table)
        },
    }
}

// ---------------------------------------------------------------------------
// Planning a correction
// ---------------------------------------------------------------------------

/// What happens to the contrast of a gray page.
#[derive(Clone, Copy, PartialEq, Eq, Structural, Debug)]
pub enum ContrastStep {
    /// Contrast is left as it is.
    Unchanged,
    /// Automatic levelling with the given strength.
    AutoLevel(u8),
    /// Histogram stretching with the given strength.
    Stretch(u8),
}

/// The steps that a correction setting asks for.
#[derive(Clone, Copy, PartialEq, Eq, Structural, Debug)]
pub enum EnhancePlan {
    /// Convert to gray and threshold at the Otsu level; nothing else.
    Binarize,
    /// Leave the image as it is (it is not even converted to gray).
    Unchanged,
    /// Convert to gray, apply the contrast step, then sharpen with the given
    /// strength (0: no sharpening).
    Gray { contrast: ContrastStep, sharpen: u8 },
}

/// The plan for a correction setting: thresholding wins over everything
/// else; with both strengths at 0 nothing is done; otherwise the contrast
/// step (levelling or stretching, as chosen) precedes sharpening.
pub open spec fn enhance_plan(e: Enhance) -> EnhancePlan {
    if e.binarize {
        EnhancePlan::Binarize
    } else if e.contrast == 0 && e.sharpen == 0 {
        EnhancePlan::Unchanged
    } else {
        let contrast = if e.contrast == 0 {
            ContrastStep::Unchanged
        } else if e.auto_level {
            ContrastStep::AutoLevel(e.contrast)
        } else {
            ContrastStep::Stretch(e.contrast)
        };
        EnhancePlan::Gray { contrast, sharpen: e.sharpen }
    }
}

/// Decides which correction steps a setting asks for.
pub fn plan_enhance(e: Enhance) -> (p: EnhancePlan)
    ensures
        p == enhance_plan(e),
        e.binarize ==> p == EnhancePlan::Binarize,
{
    if e.binarize {
        EnhancePlan::Binarize
    } else if e.contrast == 0 && e.sharpen == 0 {
        EnhancePlan::Unchanged
    } else {
        let contrast = if e.contrast == 0 {
            ContrastStep::Unchanged
        } else if e.auto_level {
            ContrastStep::AutoLevel(e.contrast)
        } else {
            ContrastStep::Stretch(e.contrast)
        };
        EnhancePlan::Gray { contrast, sharpen: e.sharpen }
    }
}

/// What a correction setting asks for: thresholding whenever it is on, whatever
/// the strengths; nothing at all when it is off and both strengths are 0;
/// otherwise a gray page with the chosen contrast step (none at contrast 0,
/// levelling when automatic levels are on, stretching when they are off) and
/// the sharpening strength as set.
pub proof fn lemma_enhance_plan_cases(e: Enhance)
    ensures
        e.binarize ==> enhance_plan(e) == EnhancePlan::Binarize,
        !e.binarize && e.contrast == 0 && e.sharpen == 0 ==> enhance_plan(e)
            == EnhancePlan::Unchanged,
        !e.binarize && (e.contrast > 0 || e.sharpen > 0) ==> enhance_plan(e) is Gray,
        enhance_plan(e) matches EnhancePlan::Gray { contrast, sharpen } ==> {
            &&& sharpen == e.sharpen
            &&& e.contrast == 0 ==> contrast == ContrastStep::Unchanged
            &&& e.contrast > 0 && e.auto_level ==> contrast == ContrastStep::AutoLevel(e.contrast)
            &&& e.contrast > 0 && !e.auto_level ==> contrast == ContrastStep::Stretch(e.contrast)
        },
{
}

// ---------------------------------------------------------------------------
// Laws
// ---------------------------------------------------------------------------

proof fn lemma_first_reaching_at_least(h: Seq<u32>, t: int, from: int)
    requires
        0 <= from <= 255,
    ensures
        from <= first_reaching(h, t, from, 255),
    decreases 256 - from,
{
    assert(first_reaching(h, t, 256, 255) == 255);
    if prefix_sum(h, from + 1) < t && from + 1 <= 255 {
        lemma_first_reaching_at_least(h, t, from + 1);
    }
}

proof fn lemma_first_reaching_monotone(h: Seq<u32>, t1: int, t2: int, from: int)
    requires
        t1 <= t2,
        0 <= from,
    ensures
        first_reaching(h, t1, from, 255) <= first_reaching(h, t2, from, 255),
    decreases 256 - from,
{
    if from < 256 {
        if prefix_sum(h, from + 1) >= t2 {
        } else if prefix_sum(h, from + 1) >= t1 {
            assert(first_reaching(h, t2, 256, 255) == 255);
            if from + 1 <= 255 {
                lemma_first_reaching_at_least(h, t2, from + 1);
            }
        } else {
            lemma_first_reaching_monotone(h, t1, t2, from + 1);
        }
    }
}

/// A higher per-mille position never gives a lower percentile level.
pub proof fn lemma_percentile_monotone(h: Seq<u32>, total: int, p1: int, p2: int)
    requires
        0 <= total,
        0 <= p1 <= p2,
    ensures
        first_reaching(h, percentile_target(total, p1), 0, 255) <= first_reaching(
            h,
            percentile_target(total, p2),
            0,
            255,
        ),
{
    let q1 = if p1 > 1000 { 1000 } else { p1 };
    let q2 = if p2 > 1000 { 1000 } else { p2 };
    assert(total * q1 <= total * q2) by (nonlinear_arith)
        requires
            0 <= total,
            q1 <= q2,
    ;
    lemma_div_is_ordered(total * q1, total * q2, 1000);
    lemma_first_reaching_monotone(
        h,
        percentile_target(total, p1),
        percentile_target(total, p2),
        0,
    );
}

proof fn lemma_stretch_level_monotone(lo: int, hi: int, v1: int, v2: int)
    requires
        0 <= lo < hi,
        v1 <= v2,
    ensures
        stretch_level(lo, hi, v1) <= stretch_level(lo, hi, v2),
{
    lemma_stretch_level_range(lo, hi, v1);
    lemma_stretch_level_range(lo, hi, v2);
    if lo < v1 && v2 < hi {
        assert((v1 - lo) * 255 <= (v2 - lo) * 255) by (nonlinear_arith)
            requires
                v1 <= v2,
        ;
        lemma_div_is_ordered((v1 - lo) * 255, (v2 - lo) * 255, hi - lo);
    }
}

proof fn lemma_blend_monotone(o1: int, s1: int, o2: int, s2: int, amount: int)
    requires
        o1 <= o2,
        s1 <= s2,
        0 <= amount <= 100,
    ensures
        blend_level(o1, s1, amount) <= blend_level(o2, s2, amount),
{
    assert(o1 * (100 - amount) + s1 * amount <= o2 * (100 - amount) + s2 * amount)
        by (nonlinear_arith)
        requires
            o1 <= o2,
            s1 <= s2,
            0 <= amount <= 100,
    ;
    lemma_div_is_ordered(
        o1 * (100 - amount) + s1 * amount + 50,
        o2 * (100 - amount) + s2 * amount + 50,
        100,
    );
}

/// Contrast stretching keeps the order of pixel values: a pixel that was no
/// brighter than another is still no brighter afterwards.
pub proof fn lemma_stretch_keeps_order(s: Seq<u8>, amount: int, cut: int, i: int, j: int)
    requires
        0 <= amount,
        0 <= i < s.len(),
        0 <= j < s.len(),
        s[i] <= s[j],
    ensures
        stretched_pixels(s, amount, cut)[i] <= stretched_pixels(s, amount, cut)[j],
{
    let a = if amount > 100 { 100 } else { amount };
    let h = histogram_of(s);
    let lo = stretch_low(h, cut);
    let hi = stretch_high(h, cut);
    lemma_first_reaching_range(h, cut + 1, 0, 0);
    lemma_last_reaching_range(h, cut + 1, 0, 255);
    if a != 0 && lo < hi {
        let li = stretch_level(lo, hi, s[i] as int);
        let lj = stretch_level(lo, hi, s[j] as int);
        lemma_stretch_level_monotone(lo, hi, s[i] as int, s[j] as int);
        lemma_stretch_level_range(lo, hi, s[i] as int);
        lemma_stretch_level_range(lo, hi, s[j] as int);
        lemma_blend_range(s[i] as int, li, a);
        lemma_blend_range(s[j] as int, lj, a);
        lemma_blend_monotone(s[i] as int, li, s[j] as int, lj, a);
    }
}

/// At full strength, stretching sends the levels at or below the low end to
/// black and those at or above the high end to white.
pub proof fn lemma_full_stretch_ends(s: Seq<u8>, cut: int, i: int)
    requires
        0 <= i < s.len(),
        stretch_low(histogram_of(s), cut) < stretch_high(histogram_of(s), cut),
    ensures
        s[i] <= stretch_low(histogram_of(s), cut) ==> stretched_pixels(s, 100, cut)[i] == 0,
        s[i] >= stretch_high(histogram_of(s), cut) ==> stretched_pixels(s, 100, cut)[i] == 255,
{
}

} // verus!
