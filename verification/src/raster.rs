//! Adaptive vectorizer: grayscale tile statistics, automatic (Otsu)
//! binarization level, statistics-driven threshold tuning, edge detection,
//! row-voting line detection and segment merging.
//!
//! Thresholds carry three fractional digits: a value of `1000` stands for one
//! gray level (the executable code holds no fractions).
use vstd::prelude::*;
use vstd::pervasive::VecAdditionalExecFns;

verus! {

/// Largest accepted tile extent in pixels.
pub const TILE_DIM_MAX: u32 = 1024;

/// A grayscale raster tile, row-major, one byte per pixel.
#[derive(Clone, Debug)]
pub struct GrayImage {
    pub w: u32,
    pub h: u32,
    pub data: Vec<u8>,
}

impl GrayImage {
    /// Well-formedness: row-major storage of exactly `w * h` pixels, with
    /// both extents bounded by the largest tile size.
    pub open spec fn wf(self) -> bool {
        &&& self.data@.len() == self.w * self.h
        &&& self.w <= TILE_DIM_MAX
        &&& self.h <= TILE_DIM_MAX
    }

    /// Pixel value at `(x, y)`.
    pub open spec fn at(self, x: int, y: int) -> u8 {
        self.data@[y * self.w + x]
    }

    /// A tile filled with one gray level.
    pub fn filled(w: u32, h: u32, v: u8) -> (r: GrayImage)
        requires
            w <= TILE_DIM_MAX,
            h <= TILE_DIM_MAX,
        ensures
            r.wf(),
            r.w == w,
            r.h == h,
            forall|i: int| 0 <= i < r.data@.len() ==> r.data@[i] == v,
    {
        proof {
            assert(w * h <= 0x100000) by (nonlinear_arith)
                requires
                    w <= 1024,
                    h <= 1024,
            ;
        }
        let n = (w as usize) * (h as usize);
        let mut data: Vec<u8> = Vec::new();
        let mut i: usize = 0;
        while i < n
            invariant
                0 <= i <= n,
                data@.len() == i,
                forall|k: int| 0 <= k < i ==> data@[k] == v,
            decreases n - i,
        {
            data.push(v);
            i = i + 1;
        }
        GrayImage { w, h, data }
    }

    /// Build a tile from row-major pixel bytes.
    pub fn from_pixels(w: u32, h: u32, data: Vec<u8>) -> (r: GrayImage)
        requires
            w <= TILE_DIM_MAX,
            h <= TILE_DIM_MAX,
            data@.len() == w * h,
        ensures
            r.wf(),
            r.w == w,
            r.h == h,
            r.data == data,
    {
        GrayImage { w, h, data }
    }

    pub fn width(&self) -> (r: u32)
        ensures
            r == self.w,
    {
        self.w
    }

    pub fn height(&self) -> (r: u32)
        ensures
            r == self.h,
    {
        self.h
    }

    /// The raw row-major pixel bytes.
    pub fn pixels(&self) -> (r: &Vec<u8>)
        ensures
            r@ == self.data@,
    {
        &self.data
    }
}

/// Sum of the pixel values of `s[0..k)`.
pub open spec fn px_sum(s: Seq<u8>, k: int) -> nat
    decreases k,
{
    if k <= 0 {
        0
    } else {
        (px_sum(s, k - 1) + s[k - 1]) as nat
    }
}

/// Sum of the squared pixel values of `s[0..k)`.
pub open spec fn px_sum_sq(s: Seq<u8>, k: int) -> nat
    decreases k,
{
    if k <= 0 {
        0
    } else {
        (px_sum_sq(s, k - 1) + s[k - 1] * s[k - 1]) as nat
    }
}

proof fn lemma_px_sums_bound(s: Seq<u8>, k: int)
    requires
        0 <= k <= s.len(),
    ensures
        px_sum(s, k) <= 255 * k,
        px_sum_sq(s, k) <= 65025 * k,
    decreases k,
{
    if k > 0 {
        lemma_px_sums_bound(s, k - 1);
        assert(s[k - 1] * s[k - 1] <= 65025) by (nonlinear_arith)
            requires
                0 <= s[k - 1] <= 255,
        ;
    }
}

/// Mean and spread statistics of a tile: the sum and the sum of squares of
/// its pixel values (the exact integer core of mean and standard deviation).
pub fn grayscale_stats(gray: &GrayImage) -> (r: (u64, u64))
    requires
        gray.wf(),
    ensures
        r.0 == px_sum(gray.data@, gray.data@.len() as int),
        r.1 == px_sum_sq(gray.data@, gray.data@.len() as int),
{
    proof {
        assert(gray.w * gray.h <= 0x100000) by (nonlinear_arith)
            requires
                gray.w <= 1024,
                gray.h <= 1024,
        ;
    }
    let n = gray.data.len();
    let mut sum: u64 = 0;
    let mut sum_sq: u64 = 0;
    let mut i: usize = 0;
    while i < n
        invariant
            0 <= i <= n == gray.data@.len() <= 0x100000,
            sum == px_sum(gray.data@, i as int),
            sum_sq == px_sum_sq(gray.data@, i as int),
        decreases n - i,
    {
        proof {
            lemma_px_sums_bound(gray.data@, i as int);
        }
        let v = gray.data[i];
        proof {
            assert((v as u64) * (v as u64) <= 65025) by (nonlinear_arith)
                requires
                    v <= 255,
            ;
        }
        sum = sum + (v as u64);
        sum_sq = sum_sq + (v as u64) * (v as u64);
        i = i + 1;
    }
    (sum, sum_sq)
}

/// The tile's standard deviation exceeds `50` gray levels, stated without
/// division: `var > 2500` iff `n * sum_sq - sum^2 > 2500 * n^2`.
pub open spec fn spec_high_contrast(s: Seq<u8>) -> bool {
    let n = s.len() as int;
    let sum = px_sum(s, n) as int;
    let sq = px_sum_sq(s, n) as int;
    n * sq - sum * sum > 2500 * n * n
}

/// Decide whether the tile is high-contrast (standard deviation above `50`).
pub fn high_contrast(gray: &GrayImage) -> (r: bool)
    requires
        gray.wf(),
    ensures
        r == spec_high_contrast(gray.data@),
{
    let (sum, sum_sq) = grayscale_stats(gray);
    let n = gray.data.len() as u64;
    proof {
        assert(gray.w * gray.h <= 0x100000) by (nonlinear_arith)
            requires
                gray.w <= 1024,
                gray.h <= 1024,
        ;
        lemma_px_sums_bound(gray.data@, gray.data@.len() as int);
        assert(sum <= 255 * 0x100000 && sum_sq <= 65025 * 0x100000 && n <= 0x100000);
        assert(n * sum_sq <= 0x100000 * (65025 * 0x100000) && sum * sum <= (255 * 0x100000) * (255
            * 0x100000) && 2500 * n * n <= 2500 * 0x100000 * 0x100000) by (nonlinear_arith)
            requires
                0 <= sum <= 255 * 0x100000,
                0 <= sum_sq <= 65025 * 0x100000,
                0 <= n <= 0x100000,
        ;
    }
    let lhs: u128 = (n as u128) * (sum_sq as u128);
    let rhs: u128 = (sum as u128) * (sum as u128) + 2500u128 * (n as u128) * (n as u128);
    lhs > rhs
}

/// Count of pixels in `s` equal to `v`.
pub open spec fn count_px(s: Seq<u8>, v: int) -> nat
    decreases s.len(),
{
    if s.len() == 0 {
        0
    } else {
        count_px(s.drop_last(), v) + (if s.last() == v {
            1nat
        } else {
            0nat
        })
    }
}

/// Count of pixels with value at most `t`.
pub open spec fn cum_count(s: Seq<u8>, t: int) -> nat
    decreases t + 1,
{
    if t < 0 {
        0
    } else {
        cum_count(s, t - 1) + count_px(s, t)
    }
}

/// Sum of pixel values over pixels with value at most `t`.
pub open spec fn cum_sum(s: Seq<u8>, t: int) -> nat
    decreases t + 1,
{
    if t < 0 {
        0
    } else {
        (cum_sum(s, t - 1) + t * count_px(s, t)) as nat
    }
}

proof fn lemma_count_le_len(s: Seq<u8>, v: int)
    ensures
        count_px(s, v) <= s.len(),
    decreases s.len(),
{
    if s.len() > 0 {
        lemma_count_le_len(s.drop_last(), v);
    }
}

proof fn lemma_cum_count_push(s: Seq<u8>, x: u8, t: int)
    requires
        t >= -1,
    ensures
        cum_count(s.push(x), t) == cum_count(s, t) + if x <= t {
            1int
        } else {
            0int
        },
        cum_sum(s.push(x), t) == cum_sum(s, t) + if x <= t {
            x as int
        } else {
            0int
        },
    decreases t + 1,
{
    if t >= 0 {
        lemma_cum_count_push(s, x, t - 1);
        assert(s.push(x).drop_last() =~= s);
        assert(count_px(s.push(x), t) == count_px(s, t) + (if x == t {
            1nat
        } else {
            0nat
        }));
        if x == t {
            assert(t * count_px(s.push(x), t) == t * count_px(s, t) + t) by (nonlinear_arith)
                requires
                    count_px(s.push(x), t) == count_px(s, t) + 1,
            ;
        } else {
            assert(t * count_px(s.push(x), t) == t * count_px(s, t)) by (nonlinear_arith)
                requires
                    count_px(s.push(x), t) == count_px(s, t),
            ;
        }
    }
}

proof fn lemma_cum_totals(s: Seq<u8>)
    ensures
        cum_count(s, 255) == s.len(),
        cum_sum(s, 255) == px_sum(s, s.len() as int),
        cum_sum(s, 255) <= 255 * s.len(),
    decreases s.len(),
{
    if s.len() == 0 {
        assert(s =~= Seq::<u8>::empty());
        lemma_cum_empty(255);
    } else {
        let s0 = s.drop_last();
        lemma_cum_totals(s0);
        assert(s0.push(s.last()) =~= s);
        lemma_cum_count_push(s0, s.last(), 255);
        assert(px_sum(s, s.len() as int) == px_sum(s, s.len() - 1) + s.last());
        assert(px_sum(s, s.len() - 1) == px_sum(s0, s0.len() as int)) by {
            lemma_px_sum_agree(s0, s, s0.len() as int);
        }
    }
    lemma_px_sums_bound(s, s.len() as int);
}

proof fn lemma_px_sum_agree(a: Seq<u8>, b: Seq<u8>, k: int)
    requires
        0 <= k <= a.len(),
        k <= b.len(),
        forall|i: int| 0 <= i < k ==> a[i] == b[i],
    ensures
        px_sum(a, k) == px_sum(b, k),
    decreases k,
{
    if k > 0 {
        lemma_px_sum_agree(a, b, k - 1);
    }
}

proof fn lemma_cum_empty(t: int)
    ensures
        cum_count(Seq::<u8>::empty(), t) == 0,
        cum_sum(Seq::<u8>::empty(), t) == 0,
    decreases t + 1,
{
    if t >= 0 {
        lemma_cum_empty(t - 1);
        assert(t * count_px(Seq::<u8>::empty(), t) == 0) by (nonlinear_arith)
            requires
                count_px(Seq::<u8>::empty(), t) == 0,
        ;
    }
}

proof fn lemma_cum_monotone(s: Seq<u8>, t1: int, t2: int)
    requires
        t1 <= t2,
    ensures
        cum_count(s, t1) <= cum_count(s, t2),
        cum_sum(s, t1) <= cum_sum(s, t2),
        cum_sum(s, t1) <= 255 * cum_count(s, t1) || t1 > 255,
    decreases t2 - t1 + (if t1 > 0 {
        t1
    } else {
        0
    }),
{
    if t1 < t2 {
        lemma_cum_monotone(s, t1, t2 - 1);
        lemma_cum_monotone(s, t1, t1);
        if t2 >= 0 {
            assert(t2 * count_px(s, t2) >= 0) by (nonlinear_arith)
                requires
                    t2 >= 0,
            ;
        }
    } else if t1 >= 0 && t1 <= 255 {
        lemma_cum_monotone_self(s, t1);
    }
}

proof fn lemma_cum_monotone_self(s: Seq<u8>, t: int)
    requires
        0 <= t <= 255,
    ensures
        cum_sum(s, t) <= 255 * cum_count(s, t),
    decreases t,
{
    if t > 0 {
        lemma_cum_monotone_self(s, t - 1);
    }
    assert(0 <= t * count_px(s, t) <= 255 * count_px(s, t)) by (nonlinear_arith)
        requires
            0 <= t <= 255,
    ;
    assert(cum_sum(s, t) == cum_sum(s, t - 1) + t * count_px(s, t));
    assert(cum_count(s, t) == cum_count(s, t - 1) + count_px(s, t));
    assert(255 * cum_count(s, t) == 255 * cum_count(s, t - 1) + 255 * count_px(s, t))
        by (nonlinear_arith)
        requires
            cum_count(s, t) == cum_count(s, t - 1) + count_px(s, t),
    ;
}

/// Otsu between-class separation score of threshold `t` on the tile `s`:
/// `(sum0*n1 - sum1*n0)^2 / (n0*n1)`, zero when either class is empty.
pub open spec fn otsu_score(s: Seq<u8>, t: int) -> int {
    let n = s.len() as int;
    let n0 = cum_count(s, t) as int;
    let s0 = cum_sum(s, t) as int;
    let n1 = n - n0;
    let s1 = px_sum(s, n) - s0;
    if n0 == 0 || n1 == 0 {
        0
    } else {
        let a = s0 * n1 - s1 * n0;
        (a * a) / (n0 * n1)
    }
}

/// Best threshold among `0..=t` by Otsu score, earliest threshold winning
/// ties.
pub open spec fn otsu_best(s: Seq<u8>, t: int) -> int
    decreases t,
{
    if t <= 0 {
        0
    } else {
        let b = otsu_best(s, t - 1);
        if otsu_score(s, t) > otsu_score(s, b) {
            t
        } else {
            b
        }
    }
}

/// Law: the chosen threshold scores at least as well as every threshold up
/// to `t`.
pub proof fn lemma_otsu_best_max(s: Seq<u8>, t: int)
    requires
        t >= 0,
    ensures
        forall|u: int| 0 <= u <= t ==> #[trigger] otsu_score(s, u) <= otsu_score(s, otsu_best(s, t)),
        0 <= otsu_best(s, t) <= t,
    decreases t,
{
    if t > 0 {
        lemma_otsu_best_max(s, t - 1);
    }
}

/// Histogram of the pixel values.
fn histogram(data: &Vec<u8>) -> (r: Vec<u32>)
    requires
        data@.len() <= 0x100000,
    ensures
        r@.len() == 256,
        forall|v: int| 0 <= v < 256 ==> r@[v] == count_px(data@, v),
{
    let mut h: Vec<u32> = Vec::new();
    let mut k: usize = 0;
    while k < 256
        invariant
            h@.len() == k <= 256,
            forall|v: int| 0 <= v < k ==> h@[v] == 0,
        decreases 256 - k,
    {
        h.push(0);
        k = k + 1;
    }
    let n = data.len();
    let mut i: usize = 0;
    proof {
        assert(data@.take(0) =~= Seq::<u8>::empty());
        assert forall|v: int| 0 <= v < 256 implies h@[v] == count_px(data@.take(0), v) by {
            assert(count_px(data@.take(0), v) == 0);
        }
    }
    while i < n
        invariant
            h@.len() == 256,
            0 <= i <= n == data@.len() <= 0x100000,
            forall|v: int| 0 <= v < 256 ==> h@[v] == count_px(data@.take(i as int), v),
        decreases n - i,
    {
        let b = data[i] as usize;
        proof {
            lemma_count_le_len(data@.take(i as int), b as int);
        }
        let cur = h[b];
        h.set(b, cur + 1);
        proof {
            let t1 = data@.take(i + 1);
            assert(t1.drop_last() =~= data@.take(i as int));
            assert(t1.last() == data@[i as int]);
            assert forall|v: int| 0 <= v < 256 implies h@[v] == count_px(t1, v) by {
                assert(count_px(t1, v) == count_px(data@.take(i as int), v) + (if t1.last() == v {
                    1nat
                } else {
                    0nat
                }));
            }
        }
        i = i + 1;
    }
    proof {
        assert(data@.take(n as int) =~= data@);
    }
    h
}

/// Automatic binarization level: the threshold with the best between-class
/// separation (Otsu's method), earliest threshold winning ties.
pub fn otsu_level(gray: &GrayImage) -> (r: u8)
    requires
        gray.wf(),
    ensures
        r as int == otsu_best(gray.data@, 255),
        forall|t: int|
            0 <= t < 256 ==> otsu_score(gray.data@, t) <= otsu_score(gray.data@, r as int),
{
    let ghost d = gray.data@;
    proof {
        assert(gray.w * gray.h <= 0x100000) by (nonlinear_arith)
            requires
                gray.w <= 1024,
                gray.h <= 1024,
        ;
        lemma_cum_totals(gray.data@);
    }
    let hist = histogram(&gray.data);
    let n: u64 = gray.data.len() as u64;
    let mut s_total: u64 = 0;
    let mut t: usize = 0;
    while t < 256
        invariant
            hist@.len() == 256,
            forall|v: int| 0 <= v < 256 ==> hist@[v] == count_px(d, v),
            d == gray.data@,
            d.len() <= 0x100000,
            0 <= t <= 256,
            s_total == cum_sum(d, t as int - 1),
            s_total <= 255 * d.len(),
        decreases 256 - t,
    {
        proof {
            lemma_count_le_len(d, t as int);
            lemma_cum_monotone(d, t as int, 255);
            lemma_cum_totals(d);
            assert((t as int) * count_px(d, t as int) <= 255 * count_px(d, t as int))
                by (nonlinear_arith)
                requires
                    0 <= t as int <= 255,
            ;
        }
        s_total = s_total + (t as u64) * (hist[t] as u64);
        t = t + 1;
    }
    proof {
        lemma_cum_totals(d);
    }
    let mut n0: u64 = 0;
    let mut s0: u64 = 0;
    let mut best: usize = 0;
    let mut best_score: u128 = 0;
    let mut t: usize = 0;
    while t < 256
        invariant
            hist@.len() == 256,
            forall|v: int| 0 <= v < 256 ==> hist@[v] == count_px(d, v),
            d == gray.data@,
            d.len() <= 0x100000,
            n == d.len(),
            s_total == cum_sum(d, 255),
            s_total == px_sum(d, d.len() as int),
            s_total <= 255 * d.len(),
            0 <= t <= 256,
            n0 == cum_count(d, t as int - 1),
            s0 == cum_sum(d, t as int - 1),
            0 <= best < 256,
            best <= t,
            best as int == otsu_best(d, t as int - 1),
            t == 0 ==> best_score == 0 && best == 0,
            t > 0 ==> best_score == otsu_score(d, best as int),
        decreases 256 - t,
    {
        proof {
            lemma_count_le_len(d, t as int);
            lemma_cum_monotone(d, t as int, 255);
            lemma_cum_monotone(d, t as int - 1, 255);
            lemma_cum_totals(d);
            assert(0 <= (t as int) * count_px(d, t as int) <= 255 * count_px(d, t as int))
                by (nonlinear_arith)
                requires
                    0 <= t as int <= 255,
            ;
        }
        n0 = n0 + (hist[t] as u64);
        s0 = s0 + (t as u64) * (hist[t] as u64);
        let n1 = n - n0;
        let s1 = s_total - s0;
        let sc: u128 = if n0 == 0 || n1 == 0 {
            0
        } else {
            proof {
                assert((s0 as int) * (n1 as int) <= 0x10000000 * 0x100000 && (s1 as int) * (
                n0 as int) <= 0x10000000 * 0x100000 && (n0 as int) * (n1 as int) <= 0x100000
                    * 0x100000 && 1 <= (n0 as int) * (n1 as int)) by (nonlinear_arith)
                    requires
                        0 <= s0 <= 0x10000000,
                        0 <= s1 <= 0x10000000,
                        1 <= n0 <= 0x100000,
                        1 <= n1 <= 0x100000,
                ;
            }
            let a_pos: i128 = (s0 as i128) * (n1 as i128);
            let a_neg: i128 = (s1 as i128) * (n0 as i128);
            let aa: u128 = if a_pos >= a_neg {
                (a_pos - a_neg) as u128
            } else {
                (a_neg - a_pos) as u128
            };
            proof {
                let a = (s0 as int) * (n1 as int) - (s1 as int) * (n0 as int);
                assert(aa * aa == a * a) by (nonlinear_arith)
                    requires
                        aa == if a >= 0 {
                            a
                        } else {
                            -a
                        },
                ;
                assert(aa * aa <= 0x100000000000000 * 0x100000000000000) by (nonlinear_arith)
                    requires
                        0 <= aa <= 0x100000000000000,
                ;
            }
            (aa * aa) / ((n0 as u128) * (n1 as u128))
        };
        proof {
            assert(sc == otsu_score(d, t as int));
        }
        if sc > best_score {
            best = t;
            best_score = sc;
        }
        t = t + 1;
    }
    proof {
        lemma_otsu_best_max(d, 255);
    }
    best as u8
}

/// Contrast adjustment, low and high edge thresholds (in thousandths of a
/// gray level) and the line-detection vote threshold, tuned from the tile's
/// own statistics: high-contrast tiles (standard deviation above 50) tighten
/// the thresholds by a factor of 0.85 and lower the vote threshold to 26.
pub open spec fn spec_auto_tune(s: Seq<u8>, otsu: u8) -> (int, int, int) {
    let hc = spec_high_contrast(s);
    let low_raw = otsu * (if hc {
        425int
    } else {
        500int
    });
    let high_raw = otsu * (if hc {
        1020int
    } else {
        1200int
    });
    let low = if low_raw > 1000 {
        low_raw
    } else {
        1000int
    };
    let high = if high_raw > low + 1000 {
        high_raw
    } else {
        low + 1000
    };
    let vote = if hc {
        26int
    } else {
        30int
    };
    (low, high, vote)
}

/// Derive edge thresholds and the vote threshold from the tile's statistics.
pub fn auto_tune_params(gray: &GrayImage, otsu: u8) -> (r: (u32, u32, u32))
    requires
        gray.wf(),
    ensures
        (r.0 as int, r.1 as int, r.2 as int) == spec_auto_tune(gray.data@, otsu),
        1000 <= r.0 < r.1,
        15 <= r.2,
{
    let hc = high_contrast(gray);
    let low_raw: u32 = (otsu as u32) * (if hc {
        425
    } else {
        500
    });
    let high_raw: u32 = (otsu as u32) * (if hc {
        1020
    } else {
        1200
    });
    let low = if low_raw > 1000 {
        low_raw
    } else {
        1000
    };
    let high = if high_raw > low + 1000 {
        high_raw
    } else {
        low + 1000
    };
    let vote = if hc {
        26
    } else {
        30
    };
    (low, high, vote)
}

/// Gradient magnitude at `(x, y)`: absolute horizontal plus absolute
/// vertical forward difference, zero toward the right and bottom borders.
pub open spec fn grad(img: GrayImage, x: int, y: int) -> int {
    let gx = if x + 1 < img.w {
        if img.at(x + 1, y) >= img.at(x, y) {
            img.at(x + 1, y) - img.at(x, y)
        } else {
            img.at(x, y) - img.at(x + 1, y)
        }
    } else {
        0int
    };
    let gy = if y + 1 < img.h {
        if img.at(x, y + 1) >= img.at(x, y) {
            img.at(x, y + 1) - img.at(x, y)
        } else {
            img.at(x, y) - img.at(x, y + 1)
        }
    } else {
        0int
    };
    gx + gy
}

/// Edge strength: `255` at or above the high threshold, `128` at or above
/// the low threshold, else `0` (thresholds in thousandths of a gray level).
pub open spec fn edge_val(img: GrayImage, low: int, high: int, x: int, y: int) -> u8 {
    if grad(img, x, y) * 1000 >= high {
        255
    } else if grad(img, x, y) * 1000 >= low {
        128
    } else {
        0
    }
}

/// Edge value by flat row-major index.
pub open spec fn edge_flat(img: GrayImage, low: int, high: int, k: int) -> u8 {
    edge_val(img, low, high, k % (img.w as int), k / (img.w as int))
}

/// The whole edge map of `img` under the given thresholds.
pub open spec fn edge_data(img: GrayImage, low: int, high: int) -> Seq<u8> {
    Seq::new((img.w * img.h) as nat, |k: int| edge_flat(img, low, high, k))
}

/// Edge detection: per-pixel gradient thresholding against the tuned low and
/// high thresholds, producing an edge-strength map of the same extent.
pub fn canny(gray: &GrayImage, low: u32, high: u32) -> (r: GrayImage)
    requires
        gray.wf(),
    ensures
        r.wf(),
        r.w == gray.w,
        r.h == gray.h,
        r.data@ == edge_data(*gray, low as int, high as int),
{
    let w = gray.w as usize;
    let h = gray.h as usize;
    proof {
        assert(gray.w * gray.h <= 0x100000) by (nonlinear_arith)
            requires
                gray.w <= 1024,
                gray.h <= 1024,
        ;
    }
    if w == 0 || h == 0 {
        let data: Vec<u8> = Vec::new();
        proof {
            assert(gray.w * gray.h == 0) by (nonlinear_arith)
                requires
                    gray.w == 0 || gray.h == 0,
            ;
            assert(data@ =~= edge_data(*gray, low as int, high as int));
        }
        return GrayImage { w: gray.w, h: gray.h, data };
    }
    proof {
        assert(gray.w * gray.h >= 1) by (nonlinear_arith)
            requires
                gray.w >= 1,
                gray.h >= 1,
        ;
    }
    let n = w * h;
    let mut data: Vec<u8> = Vec::new();
    let mut y: usize = 0;
    let mut x: usize = 0;
    let mut i: usize = 0;
    while i < n
        invariant
            w == gray.w,
            h == gray.h,
            n == gray.data@.len(),
            n == w * h,
            n <= 0x100000,
            gray.wf(),
            0 <= i <= n,
            i < n ==> (0 <= x < w && 0 <= y < h),
            i == y * w + x,
            i == n ==> x == 0 && y == h,
            data@.len() == i,
            forall|k: int|
                0 <= k < i ==> data@[k] == edge_flat(*gray, low as int, high as int, k),
        decreases n - i,
    {
        proof {
            vstd::arithmetic::div_mod::lemma_fundamental_div_mod_converse(
                i as int,
                w as int,
                y as int,
                x as int,
            );
        }
        let p = gray.data[i];
        let gx: u32 = if x + 1 < w {
            proof {
                assert(i + 1 < n) by (nonlinear_arith)
                    requires
                        i == y * w + x,
                        x + 1 < w,
                        0 <= y < h,
                        n == w * h,
                ;
            }
            let q = gray.data[i + 1];
            proof {
                assert(gray.at(x as int + 1, y as int) == gray.data@[i as int + 1]);
            }
            if q >= p {
                (q - p) as u32
            } else {
                (p - q) as u32
            }
        } else {
            0
        };
        let gy: u32 = if y + 1 < h {
            proof {
                assert((y + 1) * w + x == i + w) by (nonlinear_arith)
                    requires
                        i == y * w + x,
                ;
                assert((y + 1) * w + x < h * w) by (nonlinear_arith)
                    requires
                        y + 1 < h,
                        0 <= x < w,
                ;
                assert(h * w == w * h) by (nonlinear_arith);
            }
            let q = gray.data[i + w];
            if q >= p {
                (q - p) as u32
            } else {
                (p - q) as u32
            }
        } else {
            0
        };
        let g: u32 = (gx + gy) * 1000;
        let v: u8 = if g >= high {
            255
        } else if g >= low {
            128
        } else {
            0
        };
        proof {
            assert(gray.at(x as int, y as int) == gray.data@[i as int]);
            assert(v == edge_val(*gray, low as int, high as int, x as int, y as int));
            assert(v == edge_flat(*gray, low as int, high as int, i as int));
        }
        data.push(v);
        x = x + 1;
        if x == w {
            x = 0;
            y = y + 1;
            proof {
                assert((y as int) * (w as int) == (y - 1) * (w as int) + w) by (nonlinear_arith);
            }
        }
        i = i + 1;
        proof {
            if i < n {
                assert(y < h) by (nonlinear_arith)
                    requires
                        i == y * w + x,
                        i < n,
                        n == w * h,
                        0 <= x < w,
                        y >= 0,
                ;
            } else {
                assert(x == 0 && y == h) by (nonlinear_arith)
                    requires
                        i == y * w + x,
                        i == n,
                        n == w * h,
                        0 <= x < w,
                        0 <= y <= h,
                        w > 0,
                ;
            }
        }
    }
    proof {
        assert(data@ =~= edge_data(*gray, low as int, high as int));
    }
    GrayImage { w: gray.w, h: gray.h, data }
}

/// Fixed non-maximum-suppression radius between detected lines, and the
/// tolerance for snapping near-colinear segments when merging.
pub const SUPPRESSION_RADIUS: u32 = 6;

/// Options of the voting-based line detector.
#[derive(Clone, Copy, PartialEq, Eq, Structural, Debug)]
pub struct LineDetectionOptions {
    pub vote_threshold: u32,
    pub suppression_radius: u32,
}

/// A straight line segment between two pixel endpoints.
#[derive(Clone, Copy, PartialEq, Eq, Structural, Debug)]
pub struct Seg {
    pub x0: u32,
    pub y0: u32,
    pub x1: u32,
    pub y1: u32,
}

/// The detected lines of one tile.
#[derive(Clone, Debug)]
pub struct Lines {
    pub segs: Vec<Seg>,
}

impl Lines {
    /// How many lines were detected.
    pub fn len(&self) -> (r: usize)
        ensures
            r == self.segs@.len(),
    {
        self.segs.len()
    }
}

/// Votes for row `y`: how many of its first `x` pixels are edge pixels
/// (strength at least 128).
pub open spec fn row_votes(ed: Seq<u8>, w: int, y: int, x: int) -> nat
    decreases x,
{
    if x <= 0 {
        0
    } else {
        row_votes(ed, w, y, x - 1) + (if ed[y * w + (x - 1)] >= 128 {
            1nat
        } else {
            0nat
        })
    }
}

/// Rows detected as lines, scanning from row `y` downward: a row is kept
/// when its votes reach the threshold and it is not within the suppression
/// radius of the last kept row (`last < 0` when none was kept yet).
pub open spec fn spec_detect_rows(
    ed: Seq<u8>,
    w: int,
    h: int,
    vote: u32,
    radius: u32,
    y: int,
    last: int,
) -> Seq<int>
    decreases h - y,
{
    if y < 0 || y >= h {
        Seq::empty()
    } else if row_votes(ed, w, y, w) >= vote && (last < 0 || y - last > radius) {
        seq![y] + spec_detect_rows(ed, w, h, vote, radius, y + 1, y)
    } else {
        spec_detect_rows(ed, w, h, vote, radius, y + 1, last)
    }
}

/// The full-width horizontal segment standing for a detected row.
pub open spec fn row_seg(w: int, y: int) -> Seg {
    Seg {
        x0: 0,
        y0: y as u32,
        x1: if w > 0 {
            (w - 1) as u32
        } else {
            0
        },
        y1: y as u32,
    }
}

/// Voting-based straight-line detector over an edge map: each row whose edge
/// pixel count reaches the vote threshold, with non-maximum suppression
/// between nearby rows, yields one full-width segment.
pub fn detect_lines(edges: &GrayImage, opts: LineDetectionOptions) -> (r: Lines)
    requires
        edges.wf(),
    ensures
        r.segs@.map_values(|g: Seg| g.y0 as int) == spec_detect_rows(
            edges.data@,
            edges.w as int,
            edges.h as int,
            opts.vote_threshold,
            opts.suppression_radius,
            0,
            -1,
        ),
        forall|k: int|
            0 <= k < r.segs@.len() ==> #[trigger] r.segs@[k] == row_seg(
                edges.w as int,
                r.segs@[k].y0 as int,
            ),
{
    let w = edges.w as usize;
    let h = edges.h as usize;
    proof {
        assert(edges.w * edges.h <= 0x100000) by (nonlinear_arith)
            requires
                edges.w <= 1024,
                edges.h <= 1024,
        ;
    }
    let mut segs: Vec<Seg> = Vec::new();
    let mut y: usize = 0;
    let mut last: i64 = -1;
    let mut base: usize = 0;
    while y < h
        invariant
            w == edges.w,
            h == edges.h,
            edges.wf(),
            0 <= y <= h,
            base == y * w,
            base <= 0x100000,
            -1 <= last < h as int,
            spec_detect_rows(
                edges.data@,
                edges.w as int,
                edges.h as int,
                opts.vote_threshold,
                opts.suppression_radius,
                0,
                -1,
            ) == segs@.map_values(|g: Seg| g.y0 as int) + spec_detect_rows(
                edges.data@,
                edges.w as int,
                edges.h as int,
                opts.vote_threshold,
                opts.suppression_radius,
                y as int,
                last as int,
            ),
            forall|k: int|
                0 <= k < segs@.len() ==> #[trigger] segs@[k] == row_seg(
                    edges.w as int,
                    segs@[k].y0 as int,
                ),
        decreases h - y,
    {
        let mut votes: u32 = 0;
        let mut x: usize = 0;
        proof {
            assert(base + w <= 0x100000 && (y + 1) * w == y * w + w && base + w <= w * h)
                by (nonlinear_arith)
                requires
                    base == y * w,
                    0 <= y < h,
                    w <= 1024,
                    h <= 1024,
            ;
            assert(edges.data@.len() == edges.w * edges.h);
        }
        while x < w
            invariant
                w == edges.w,
                h == edges.h,
                edges.wf(),
                0 <= y < h,
                base == y * w,
                base + w <= 0x100000,
                base + w <= edges.data@.len(),
                0 <= x <= w,
                votes == row_votes(edges.data@, edges.w as int, y as int, x as int),
                votes <= x,
            decreases w - x,
        {
            proof {
                assert((y as int) * (edges.w as int) + x == base + x);
            assert(base + x < edges.data@.len());
            }
            let v = edges.data[base + x];
            if v >= 128 {
                votes = votes + 1;
            }
            x = x + 1;
        }
        let keep = votes >= opts.vote_threshold && (last < 0 || (y as i64) - last
            > opts.suppression_radius as i64);
        proof {
            assert(spec_detect_rows(
                edges.data@,
                edges.w as int,
                edges.h as int,
                opts.vote_threshold,
                opts.suppression_radius,
                y as int,
                last as int,
            ) == if keep {
                seq![y as int] + spec_detect_rows(
                    edges.data@,
                    edges.w as int,
                    edges.h as int,
                    opts.vote_threshold,
                    opts.suppression_radius,
                    y as int + 1,
                    y as int,
                )
            } else {
                spec_detect_rows(
                    edges.data@,
                    edges.w as int,
                    edges.h as int,
                    opts.vote_threshold,
                    opts.suppression_radius,
                    y as int + 1,
                    last as int,
                )
            });
        }
        if keep {
            let sg = Seg {
                x0: 0,
                y0: y as u32,
                x1: if w > 0 {
                    (w - 1) as u32
                } else {
                    0
                },
                y1: y as u32,
            };
            segs.push(sg);
            proof {
                assert(segs@.map_values(|g: Seg| g.y0 as int) =~= segs@.drop_last().map_values(
                    |g: Seg| g.y0 as int,
                ) + seq![y as int]);
            }
            last = y as i64;
        }
        base = base + w;
        y = y + 1;
    }
    proof {
        assert(spec_detect_rows(
            edges.data@,
            edges.w as int,
            edges.h as int,
            opts.vote_threshold,
            opts.suppression_radius,
            h as int,
            last as int,
        ) =~= Seq::<int>::empty());
        assert(segs@.map_values(|g: Seg| g.y0 as int) + Seq::<int>::empty() =~= segs@.map_values(
            |g: Seg| g.y0 as int,
        ));
    }
    Lines { segs }
}


/// Merge of raw detections: near-colinear segments (same row) whose spans
/// meet within the snapping tolerance are joined into one segment.
pub open spec fn spec_merge(s: Seq<Seg>) -> Seq<Seg>
    decreases s.len(),
{
    if s.len() == 0 {
        s
    } else {
        let m = spec_merge(s.drop_last());
        let g = s.last();
        if m.len() > 0 && m.last().y0 == g.y0 && m.last().y1 == g.y1 && g.x0 <= m.last().x1
            + SUPPRESSION_RADIUS {
            m.update(
                m.len() - 1,
                Seg {
                    x0: m.last().x0,
                    y0: g.y0,
                    x1: if m.last().x1 >= g.x1 {
                        m.last().x1
                    } else {
                        g.x1
                    },
                    y1: g.y1,
                },
            )
        } else {
            m.push(g)
        }
    }
}

/// Merge near-colinear raw detections that meet within tolerance.
pub fn merge_with_intersections(v: Vec<Seg>) -> (r: Vec<Seg>)
    ensures
        r@ == spec_merge(v@),
{
    let mut out: Vec<Seg> = Vec::new();
    let mut i: usize = 0;
    proof {
        assert(v@.take(0) =~= Seq::<Seg>::empty());
    }
    while i < v.len()
        invariant
            0 <= i <= v@.len(),
            out@ == spec_merge(v@.take(i as int)),
        decreases v@.len() - i,
    {
        let g = v[i];
        proof {
            assert(v@.take(i + 1).drop_last() =~= v@.take(i as int));
            assert(v@.take(i + 1).last() == v@[i as int]);
        }
        let ol = out.len();
        let mut joined = false;
        if ol > 0 {
            let m = out[ol - 1];
            if m.y0 == g.y0 && m.y1 == g.y1 && (g.x0 <= m.x1 || g.x0 - m.x1
                <= SUPPRESSION_RADIUS) {
                let nx1 = if m.x1 >= g.x1 {
                    m.x1
                } else {
                    g.x1
                };
                out.set(ol - 1, Seg { x0: m.x0, y0: g.y0, x1: nx1, y1: g.y1 });
                joined = true;
            }
        }
        if !joined {
            out.push(g);
        }
        i = i + 1;
    }
    proof {
        assert(v@.take(v@.len() as int) =~= v@);
    }
    out
}

/// Accelerated edge-extraction path for large tiles. No accelerated backend
/// is linked into this build, so the caller always falls back to the
/// baseline path.
pub fn gpu_edges_if_big(gray: &GrayImage, dpi: u32) -> (r: Option<GrayImage>)
    ensures
        r is None,
{
    None
}

/// What the vectorizer produces for one tile: tuned thresholds, edge map,
/// row-voting line detection, then merging.
pub open spec fn spec_vectorize(img: GrayImage) -> Seq<Seg> {
    let otsu = otsu_best(img.data@, 255);
    let tuned = spec_auto_tune(img.data@, otsu as u8);
    let ed = edge_data(img, tuned.0, tuned.1);
    let rows = spec_detect_rows(
        ed,
        img.w as int,
        img.h as int,
        tuned.2 as u32,
        SUPPRESSION_RADIUS,
        0,
        -1,
    );
    spec_merge(Seq::new(rows.len(), |k: int| row_seg(img.w as int, rows[k])))
}

/// A tile whose pixels all hold one value (zero variance).
pub open spec fn uniform_tile(img: GrayImage) -> bool {
    forall|i: int, j: int|
        0 <= i < img.data@.len() && 0 <= j < img.data@.len() ==> img.data@[i] == img.data@[j]
}

/// Turn one grayscale tile into merged straight line segments, self-tuning
/// the edge and vote thresholds from the tile's own statistics. A tile of
/// uniform color yields no segments.
pub fn vectorize_gray(gray_in: &GrayImage) -> (r: Vec<Seg>)
    requires
        gray_in.wf(),
    ensures
        r@ == spec_vectorize(*gray_in),
        uniform_tile(*gray_in) ==> r@.len() == 0,
{
    let otsu = otsu_level(gray_in);
    let (low, high, vote) = auto_tune_params(gray_in, otsu);
    let edges_cpu = canny(gray_in, low, high);
    let edges = match gpu_edges_if_big(gray_in, 300) {
        Some(e) => e,
        None => edges_cpu,
    };
    let opts = LineDetectionOptions { vote_threshold: vote, suppression_radius: SUPPRESSION_RADIUS };
    let lines = detect_lines(&edges, opts);
    let merged = merge_with_intersections(lines.segs);
    proof {
        let ed = edge_data(*gray_in, low as int, high as int);
        let wi = gray_in.w as int;
        let hi = gray_in.h as int;
        let rows = spec_detect_rows(ed, wi, hi, vote, SUPPRESSION_RADIUS, 0, -1);
        lemma_rows_to_segs(ed, wi, hi, vote, SUPPRESSION_RADIUS, lines.segs@);
        assert(lines.segs@ =~= Seq::new(rows.len(), |k: int| row_seg(wi, rows[k])));
        if uniform_tile(*gray_in) {
            lemma_uniform_no_rows(*gray_in, ed, low as int, high as int, vote, 0);
            assert(rows.len() == 0);
            assert(Seq::new(rows.len(), |k: int| row_seg(wi, rows[k])) =~= Seq::<Seg>::empty());
        }
    }
    merged
}

proof fn lemma_rows_to_segs(ed: Seq<u8>, w: int, h: int, vote: u32, radius: u32, segs: Seq<Seg>)
    requires
        segs.map_values(|g: Seg| g.y0 as int) == spec_detect_rows(ed, w, h, vote, radius, 0, -1),
        forall|k: int| 0 <= k < segs.len() ==> #[trigger] segs[k] == row_seg(w, segs[k].y0 as int),
    ensures
        segs =~= Seq::new(
            spec_detect_rows(ed, w, h, vote, radius, 0, -1).len(),
            |k: int| row_seg(w, spec_detect_rows(ed, w, h, vote, radius, 0, -1)[k]),
        ),
{
    let rows = spec_detect_rows(ed, w, h, vote, radius, 0, -1);
    assert(segs.map_values(|g: Seg| g.y0 as int).len() == segs.len());
    assert forall|k: int| 0 <= k < segs.len() implies segs[k] == row_seg(w, rows[k]) by {
        assert(rows[k] == segs.map_values(|g: Seg| g.y0 as int)[k]);
        assert(rows[k] == segs[k].y0 as int);
    }
}

proof fn lemma_uniform_votes_zero(img: GrayImage, ed: Seq<u8>, low: int, high: int, y: int, x: int)
    requires
        img.wf(),
        uniform_tile(img),
        low >= 1,
        high >= 1,
        ed == edge_data(img, low, high),
        0 <= y < img.h,
        0 <= x <= img.w,
    ensures
        row_votes(ed, img.w as int, y, x) == 0,
    decreases x,
{
    if x > 0 {
        lemma_uniform_votes_zero(img, ed, low, high, y, x - 1);
        let k = y * (img.w as int) + (x - 1);
        assert(0 <= k < img.w * img.h) by (nonlinear_arith)
            requires
                0 <= y < img.h,
                0 <= x - 1 < img.w,
                k == y * (img.w as int) + (x - 1),
        ;
        assert(ed[k] == edge_flat(img, low, high, k));
        vstd::arithmetic::div_mod::lemma_fundamental_div_mod_converse(
            k,
            img.w as int,
            y,
            x - 1,
        );
        let gx = grad(img, x - 1, y);
        assert(gx == 0) by {
            if x < img.w {
                let k2 = y * (img.w as int) + x;
                assert(0 <= k2 < img.w * img.h) by (nonlinear_arith)
                    requires
                        0 <= y < img.h,
                        0 <= x < img.w,
                        k2 == y * (img.w as int) + x,
                ;
            }
            if y + 1 < img.h {
                let k3 = (y + 1) * (img.w as int) + (x - 1);
                assert(0 <= k3 < img.w * img.h) by (nonlinear_arith)
                    requires
                        0 <= y + 1 < img.h,
                        0 <= x - 1 < img.w,
                        k3 == (y + 1) * (img.w as int) + (x - 1),
                ;
            }
        }
        assert(edge_val(img, low, high, x - 1, y) == 0);
    }
}

proof fn lemma_uniform_no_rows(img: GrayImage, ed: Seq<u8>, low: int, high: int, vote: u32, y: int)
    requires
        img.wf(),
        uniform_tile(img),
        low >= 1,
        high >= 1,
        vote >= 1,
        ed == edge_data(img, low, high),
        0 <= y,
    ensures
        forall|last: int|
            (#[trigger] spec_detect_rows(
                ed,
                img.w as int,
                img.h as int,
                vote,
                SUPPRESSION_RADIUS,
                y,
                last,
            )).len() == 0,
    decreases img.h - y,
{
    let wi = img.w as int;
    let hi = img.h as int;
    if y < hi {
        lemma_uniform_votes_zero(img, ed, low, high, y, wi);
        lemma_uniform_no_rows(img, ed, low, high, vote, y + 1);
    }
    assert forall|last: int|
        (#[trigger] spec_detect_rows(ed, wi, hi, vote, SUPPRESSION_RADIUS, y, last)).len()
            == 0 by {
        if y < hi {
            assert(spec_detect_rows(ed, wi, hi, vote, SUPPRESSION_RADIUS, y, last)
                == spec_detect_rows(ed, wi, hi, vote, SUPPRESSION_RADIUS, y + 1, last));
        }
    }
}

/// How many nonzero values of `k` remain: `2^k`.
pub open spec fn pow2(k: nat) -> nat
    decreases k,
{
    if k == 0 {
        1
    } else {
        2 * pow2((k - 1) as nat)
    }
}

proof fn lemma_pow2_le(a: nat, b: nat)
    requires
        a <= b,
    ensures
        pow2(a) <= pow2(b),
    decreases b,
{
    if a < b {
        lemma_pow2_le(a, (b - 1) as nat);
        lemma_pow2_pos((b - 1) as nat);
    }
}

proof fn lemma_pow2_32()
    ensures
        pow2(32) == 0x100000000,
{
    assert(pow2(0) == 0x1);
    assert(pow2(1) == 0x2);
    assert(pow2(2) == 0x4);
    assert(pow2(3) == 0x8);
    assert(pow2(4) == 0x10);
    assert(pow2(5) == 0x20);
    assert(pow2(6) == 0x40);
    assert(pow2(7) == 0x80);
    assert(pow2(8) == 0x100);
    assert(pow2(9) == 0x200);
    assert(pow2(10) == 0x400);
    assert(pow2(11) == 0x800);
    assert(pow2(12) == 0x1000);
    assert(pow2(13) == 0x2000);
    assert(pow2(14) == 0x4000);
    assert(pow2(15) == 0x8000);
    assert(pow2(16) == 0x10000);
    assert(pow2(17) == 0x20000);
    assert(pow2(18) == 0x40000);
    assert(pow2(19) == 0x80000);
    assert(pow2(20) == 0x100000);
    assert(pow2(21) == 0x200000);
    assert(pow2(22) == 0x400000);
    assert(pow2(23) == 0x800000);
    assert(pow2(24) == 0x1000000);
    assert(pow2(25) == 0x2000000);
    assert(pow2(26) == 0x4000000);
    assert(pow2(27) == 0x8000000);
    assert(pow2(28) == 0x10000000);
    assert(pow2(29) == 0x20000000);
    assert(pow2(30) == 0x40000000);
    assert(pow2(31) == 0x80000000);
    assert(pow2(32) == 0x100000000);
}

proof fn lemma_pow2_bound(k: nat)
    requires
        k <= 32,
    ensures
        pow2(k) <= 0x100000000,
{
    lemma_pow2_le(k, 32);
    lemma_pow2_32();
}

proof fn lemma_pow2_pos(k: nat)
    ensures
        pow2(k) >= 1,
    decreases k,
{
    if k > 0 {
        lemma_pow2_pos((k - 1) as nat);
    }
}

/// Exponential backoff delay before retry `attempt`: 50 ms doubled per
/// attempt. The sleeping and the retried call are the caller's work; this
/// gives the schedule.
pub fn backoff_delay_ms(attempt: u32) -> (r: u64)
    requires
        attempt <= 32,
    ensures
        r == 50 * pow2(attempt as nat),
{
    let mut d: u64 = 50;
    let mut i: u32 = 0;
    while i < attempt
        invariant
            0 <= i <= attempt <= 32,
            d == 50 * pow2(i as nat),
        decreases attempt - i,
    {
        proof {
            lemma_pow2_bound(i as nat);
        }
        d = d * 2;
        i = i + 1;
    }
    d
}

/// Whether a failed operation should be retried: the retry budget is not
/// yet exhausted.
pub fn should_retry(attempts: u32, max_retries: u32) -> (r: bool)
    ensures
        r == (attempts < max_retries),
{
    attempts < max_retries
}

} // verus!

