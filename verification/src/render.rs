//! Fitting a picture into the window: aspect-preserving size and
//! nearest-neighbour scaling, centred on a black background.
use vstd::prelude::*;
use vstd::arithmetic::div_mod::lemma_fundamental_div_mod_converse;

verus! {

pub open spec fn max1(x: int) -> int {
    if x < 1 {
        1
    } else {
        x
    }
}

pub open spec fn min_int(x: int, y: int) -> int {
    if x < y {
        x
    } else {
        y
    }
}

/// The largest size with the source's aspect ratio that fits the box
/// `dw` x `dh`, at least one pixel on each side (but never larger than a
/// box side that is zero).
pub open spec fn fit_size(sw: int, sh: int, dw: int, dh: int) -> (int, int) {
    if dw * sh <= dh * sw {
        (max1(dw), min_int(max1(sh * dw / sw), dh))
    } else {
        (min_int(max1(sw * dh / sh), dw), max1(dh))
    }
}

/// `fit_dimensions` divides by the source side that the branch it takes uses.
pub open spec fn fit_defined(sw: int, sh: int, dw: int, dh: int) -> bool {
    if dw * sh <= dh * sw {
        sw != 0
    } else {
        sh != 0
    }
}

proof fn lemma_mul_le_usize(a: usize, b: usize)
    ensures
        (a as int) * (b as int) <= (u128::MAX as int),
        0 <= (a as int) * (b as int),
{
    assert((a as int) * (b as int) <= (usize::MAX as int) * (usize::MAX as int)) by (nonlinear_arith);
    assert((usize::MAX as int) * (usize::MAX as int) <= u128::MAX) by (nonlinear_arith)
        requires
            usize::MAX <= u64::MAX,
    ;
    assert(0 <= (a as int) * (b as int)) by (nonlinear_arith);
}

proof fn lemma_quotient_bound(p: int, q: int, d: int, bound: int)
    requires
        d > 0,
        0 <= p,
        0 <= q,
        p * q <= bound * d,
    ensures
        p * q / d <= bound,
        0 <= p * q / d,
{
    assert(p * q / d <= bound) by (nonlinear_arith)
        requires
            d > 0,
            0 <= p * q,
            p * q <= bound * d,
    {
        assert(p * q / d * d <= p * q) by (nonlinear_arith)
            requires
                d > 0,
                0 <= p * q,
        ;
        if p * q / d > bound {
            assert(p * q / d * d >= (bound + 1) * d) by (nonlinear_arith)
                requires
                    p * q / d >= bound + 1,
                    d > 0,
            ;
        }
    }
    assert(0 <= p * q / d) by (nonlinear_arith)
        requires
            d > 0,
            0 <= p,
            0 <= q,
    ;
}

/// The size of `sw` x `sh` scaled to fit `dw` x `dh` with its aspect ratio kept.
pub fn fit_dimensions(sw: usize, sh: usize, dw: usize, dh: usize) -> (r: (usize, usize))
    requires
        fit_defined(sw as int, sh as int, dw as int, dh as int),
    ensures
        r.0 as int == fit_size(sw as int, sh as int, dw as int, dh as int).0,
        r.1 as int == fit_size(sw as int, sh as int, dw as int, dh as int).1,
{
    proof {
        lemma_mul_le_usize(dw, sh);
        lemma_mul_le_usize(dh, sw);
        lemma_mul_le_usize(sh, dw);
        lemma_mul_le_usize(sw, dh);
    }
    let lhs = (dw as u128) * (sh as u128);
    let rhs = (dh as u128) * (sw as u128);
    if lhs <= rhs {
        proof {
            assert((sh as int) * (dw as int) <= (dh as int) * (sw as int)) by (nonlinear_arith)
                requires
                    (dw as int) * (sh as int) <= (dh as int) * (sw as int),
            ;
            lemma_quotient_bound(sh as int, dw as int, sw as int, dh as int);
        }
        let h = ((sh as u128) * (dw as u128) / (sw as u128)) as usize;
        let w = if dw < 1 {
            1
        } else {
            dw
        };
        let h1 = if h < 1 {
            1
        } else {
            h
        };
        (w, if h1 < dh {
            h1
        } else {
            dh
        })
    } else {
        proof {
            assert((sw as int) * (dh as int) <= (dw as int) * (sh as int)) by (nonlinear_arith)
                requires
                    (dw as int) * (sh as int) > (dh as int) * (sw as int),
            ;
            lemma_quotient_bound(sw as int, dh as int, sh as int, dw as int);
        }
        let w = ((sw as u128) * (dh as u128) / (sh as u128)) as usize;
        let w1 = if w < 1 {
            1
        } else {
            w
        };
        let h = if dh < 1 {
            1
        } else {
            dh
        };
        (if w1 < dw {
            w1
        } else {
            dw
        }, h)
    }
}

/// The fitted picture keeps the source's aspect ratio: for a non-empty source
/// and box it fills one side of the box exactly, stays inside the other, and
/// the other side is the source's proportion rounded down (or one pixel when
/// that would be zero).
pub proof fn lemma_fit_keeps_aspect(sw: int, sh: int, dw: int, dh: int)
    requires
        sw > 0,
        sh > 0,
        dw > 0,
        dh > 0,
    ensures
        ({
            let (w, h) = fit_size(sw, sh, dw, dh);
            &&& 1 <= w <= dw
            &&& 1 <= h <= dh
            &&& (w == dw && (h == 1 || h * sw <= sh * w) && sh * w < (h + 1) * sw) || (h == dh && (
            w == 1 || w * sh <= sw * h) && sw * h < (w + 1) * sh)
        }),
{
    if dw * sh <= dh * sw {
        lemma_quotient_bound(sh, dw, sw, dh);
        let q = sh * dw / sw;
        assert(q * sw <= sh * dw && sh * dw < (q + 1) * sw) by (nonlinear_arith)
            requires
                sw > 0,
                q == sh * dw / sw,
        ;
    } else {
        assert(sw * dh <= dw * sh) by (nonlinear_arith)
            requires
                dw * sh > dh * sw,
        ;
        lemma_quotient_bound(sw, dh, sh, dw);
        let q = sw * dh / sh;
        assert(q * sh <= sw * dh && sw * dh < (q + 1) * sh) by (nonlinear_arith)
            requires
                sh > 0,
                q == sw * dh / sh,
        ;
    }
}


proof fn lemma_div_at_least(p: int, d: int, c: int)
    requires
        d > 0,
        p >= c * d,
    ensures
        p / d >= c,
{
    assert(p / d >= c) by (nonlinear_arith)
        requires
            d > 0,
            p >= c * d,
    {
        assert(p / d * d <= p && p < (p / d + 1) * d) by (nonlinear_arith)
            requires
                d > 0,
        ;
        if p / d < c {
            assert((p / d + 1) * d <= c * d) by (nonlinear_arith)
                requires
                    p / d + 1 <= c,
                    d > 0,
            ;
        }
    }
}

proof fn lemma_div_exact(p: int, d: int, c: int)
    requires
        d > 0,
        p == c * d,
    ensures
        p / d == c,
{
    vstd::arithmetic::div_mod::lemma_div_multiples_vanish(c, d);
    assert(c * d == d * c) by (nonlinear_arith);
}

/// Swapping the axes of the source and the box swaps the fitted size, and
/// whichever side of the box is filled, the other side is the source's
/// proportion scaled to it, rounded down, at least one pixel and inside the box.
pub proof fn lemma_fit_symmetric(sw: int, sh: int, dw: int, dh: int)
    requires
        sw > 0,
        sh > 0,
        dw > 0,
        dh > 0,
    ensures
        fit_size(sh, sw, dh, dw) == (fit_size(sw, sh, dw, dh).1, fit_size(sw, sh, dw, dh).0),
        fit_size(sw, sh, dw, dh).0 == dw ==> fit_size(sw, sh, dw, dh).1 == min_int(
            max1(sh * dw / sw),
            dh,
        ),
        fit_size(sw, sh, dw, dh).1 == dh ==> fit_size(sw, sh, dw, dh).0 == min_int(
            max1(sw * dh / sh),
            dw,
        ),
{
    assert(sh * dw == dw * sh && sw * dh == dh * sw) by (nonlinear_arith);
    if dw * sh <= dh * sw {
        lemma_div_at_least(sw * dh, sh, dw);
        if dw * sh == dh * sw {
            lemma_div_exact(sh * dw, sw, dh);
            lemma_div_exact(sw * dh, sh, dw);
        }
    } else {
        lemma_div_at_least(sh * dw, sw, dh);
    }
}

/// `a * b`, saturating at `usize::MAX`.
pub open spec fn sat_mul(a: int, b: int) -> int {
    if a * b > usize::MAX {
        usize::MAX as int
    } else {
        a * b
    }
}

/// Where row `dy` of the fitted picture starts in the source: the source row
/// `dy * sh / fh`, times the row length `sw`, both products saturating.
pub open spec fn source_row(sw: int, sh: int, fh: int, dy: int) -> int {
    sat_mul(sat_mul(dy, sh) / fh, sw)
}

/// The source column of column `dx` of the fitted picture (the product saturating).
pub open spec fn source_col(sw: int, fw: int, dx: int) -> int {
    sat_mul(dx, sw) / fw
}

/// The source index is computed without overflow: for the last row and
/// column of the fitted picture (the largest), row start plus column fits
/// `usize`. An empty source side reads nothing.
pub open spec fn index_fits(sw: int, sh: int, dw: int, dh: int) -> bool {
    if sw == 0 || sh == 0 {
        true
    } else {
        let (fw, fh) = fit_size(sw, sh, max1(dw), max1(dh));
        source_row(sw, sh, fh, fh - 1) + source_col(sw, fw, fw - 1) <= usize::MAX
    }
}

/// The pixel at column `x`, row `y` of a `bw` x `bh` frame showing the source
/// scaled to fit and centred; black outside the picture or where the source
/// is shorter than the index read.
pub open spec fn fit_pixel(
    src: Seq<u32>,
    sw: int,
    sh: int,
    bw: int,
    bh: int,
    x: int,
    y: int,
) -> u32 {
    if sw == 0 || sh == 0 || src.len() == 0 {
        0
    } else {
        let (fw, fh) = fit_size(sw, sh, bw, bh);
        let x0 = (bw - fw) / 2;
        let y0 = (bh - fh) / 2;
        if x0 <= x < x0 + fw && y0 <= y < y0 + fh {
            let k = source_row(sw, sh, fh, y - y0) + source_col(sw, fw, x - x0);
            if k < src.len() {
                src[k]
            } else {
                0
            }
        } else {
            0
        }
    }
}

/// The whole frame, row by row; a zero box side counts as one pixel.
pub open spec fn fitted(src: Seq<u32>, sw: int, sh: int, dw: int, dh: int) -> Seq<u32> {
    let bw = max1(dw);
    let bh = max1(dh);
    Seq::new((bw * bh) as nat, |k: int| fit_pixel(src, sw, sh, bw, bh, k % bw, k / bw))
}

proof fn lemma_sat_mul_monotone(a1: int, a2: int, b: int)
    requires
        0 <= a1 <= a2,
        0 <= b,
    ensures
        0 <= sat_mul(a1, b) <= sat_mul(a2, b),
{
    assert(0 <= a1 * b <= a2 * b) by (nonlinear_arith)
        requires
            0 <= a1 <= a2,
            0 <= b,
    ;
}

proof fn lemma_div_monotone(a1: int, a2: int, d: int)
    requires
        0 <= a1 <= a2,
        d > 0,
    ensures
        0 <= a1 / d <= a2 / d,
{
    assert(0 <= a1 / d <= a2 / d) by (nonlinear_arith)
        requires
            0 <= a1 <= a2,
            d > 0,
    ;
}

/// Row starts and columns grow with the row and the column.
proof fn lemma_source_index_monotone(sw: int, sh: int, fw: int, fh: int, dx: int, dy: int)
    requires
        sw > 0,
        sh > 0,
        fw > 0,
        fh > 0,
        0 <= dx < fw,
        0 <= dy < fh,
    ensures
        0 <= source_row(sw, sh, fh, dy) <= source_row(sw, sh, fh, fh - 1),
        0 <= source_col(sw, fw, dx) <= source_col(sw, fw, fw - 1),
{
    lemma_sat_mul_monotone(dy, fh - 1, sh);
    lemma_div_monotone(sat_mul(dy, sh), sat_mul(fh - 1, sh), fh);
    lemma_sat_mul_monotone(sat_mul(dy, sh) / fh, sat_mul(fh - 1, sh) / fh, sw);
    lemma_sat_mul_monotone(dx, fw - 1, sw);
    lemma_div_monotone(sat_mul(dx, sw), sat_mul(fw - 1, sw), fw);
}

/// Fitting a picture into a box of its own size gives the picture back, when
/// the scaling products of its sides do not saturate (for a `1` x `2^33`
/// picture on a 64-bit machine they do, and rows are read from the wrong place).
pub proof fn lemma_fit_identity(src: Seq<u32>, w: int, h: int)
    requires
        w > 0,
        h > 0,
        src.len() == w * h,
        w * h <= usize::MAX,
        (w - 1) * w <= usize::MAX,
        (h - 1) * h <= usize::MAX,
    ensures
        index_fits(w, h, w, h),
        fitted(src, w, h, w, h) == src,
{
    assert(w * h <= h * w) by (nonlinear_arith);
    lemma_div_exact(h * w, w, h);
    assert(fit_size(w, h, w, h) == (w, h));
    assert forall|dy: int, dx: int|
        0 <= dy < h && 0 <= dx < w implies #[trigger] source_row(w, h, h, dy) + #[trigger] source_col(
        w,
        w,
        dx,
    ) == dy * w + dx by {
        assert(dy * h <= (h - 1) * h && dx * w <= (w - 1) * w && dy * w <= (h - 1) * w) by (
        nonlinear_arith)
            requires
                0 <= dy < h,
                0 <= dx < w,
                w > 0,
                h > 0,
        ;
        assert((h - 1) * w < w * h) by (nonlinear_arith)
            requires
                w > 0,
        ;
        lemma_div_exact(dy * h, h, dy);
        lemma_div_exact(dx * w, w, dx);
    }
    assert(source_row(w, h, h, h - 1) + source_col(w, w, w - 1) == (h - 1) * w + (w - 1));
    assert((h - 1) * w + (w - 1) == w * h - 1) by (nonlinear_arith);
    let f = fitted(src, w, h, w, h);
    assert forall|k: int| 0 <= k < f.len() implies f[k] == src[k] by {
        let x = k % w;
        let y = k / w;
        assert(0 <= x < w && 0 <= y < h && y * w + x == k) by (nonlinear_arith)
            requires
                0 <= k < w * h,
                w > 0,
                x == k % w,
                y == k / w,
        {
            vstd::arithmetic::div_mod::lemma_fundamental_div_mod(k, w);
            if y >= h {
                assert(y * w >= h * w) by (nonlinear_arith)
                    requires
                        y >= h,
                        w > 0,
                ;
            }
        }
        assert(source_row(w, h, h, y) + source_col(w, w, x) == y * w + x);
    }
    assert(f =~= src);
}

proof fn lemma_fit_size_bounds(sw: int, sh: int, bw: int, bh: int)
    requires
        sw > 0,
        sh > 0,
        bw > 0,
        bh > 0,
    ensures
        1 <= fit_size(sw, sh, bw, bh).0 <= bw,
        1 <= fit_size(sw, sh, bw, bh).1 <= bh,
{
    lemma_fit_keeps_aspect(sw, sh, bw, bh);
}

/// `q` is `p / d` rounded down when `q * d <= p < (q + 1) * d`.
proof fn lemma_floor_div(p: int, d: int, q: int)
    requires
        d > 0,
        q * d <= p < (q + 1) * d,
    ensures
        p / d == q,
{
    assert((q + 1) * d == q * d + d) by (nonlinear_arith);
    lemma_fundamental_div_mod_converse(p, d, q, p - q * d);
}

/// How the frame samples the picture. The picture is fitted to `fw` x `fh`
/// (`fit_size`) and centred in the box, from column `x0` and row `y0`. At
/// offset `dx`, `dy` inside that rectangle the frame shows the source pixel of
/// column `c` and row `r` where `c * fw <= dx * sw < (c + 1) * fw` and
/// `r * fh <= dy * sh < (r + 1) * fh`: the fitted width and height, not the
/// box's, scale the picture. Holds while the scaling products fit `usize`.
pub proof fn lemma_fitted_samples(
    src: Seq<u32>,
    sw: int,
    sh: int,
    dw: int,
    dh: int,
    x: int,
    y: int,
    c: int,
    r: int,
)
    requires
        sw > 0,
        sh > 0,
        src.len() == sw * sh,
        sw * sh <= usize::MAX,
        max1(dw) * sw <= usize::MAX,
        max1(dh) * sh <= usize::MAX,
        0 <= x < max1(dw),
        0 <= y < max1(dh),
        ({
            let (fw, fh) = fit_size(sw, sh, max1(dw), max1(dh));
            let x0 = (max1(dw) - fw) / 2;
            let y0 = (max1(dh) - fh) / 2;
            &&& x0 <= x < x0 + fw
            &&& y0 <= y < y0 + fh
            &&& 0 <= c
            &&& 0 <= r
            &&& c * fw <= (x - x0) * sw < (c + 1) * fw
            &&& r * fh <= (y - y0) * sh < (r + 1) * fh
        }),
    ensures
        0 <= c < sw,
        0 <= r < sh,
        fitted(src, sw, sh, dw, dh)[y * max1(dw) + x] == src[r * sw + c],
{
    let bw = max1(dw);
    let bh = max1(dh);
    let (fw, fh) = fit_size(sw, sh, bw, bh);
    lemma_fit_size_bounds(sw, sh, bw, bh);
    let x0 = (bw - fw) / 2;
    let y0 = (bh - fh) / 2;
    let dx = x - x0;
    let dy = y - y0;
    assert(c < sw && r < sh && dx * sw <= bw * sw && dy * sh <= bh * sh) by (nonlinear_arith)
        requires
            0 <= c,
            0 <= r,
            0 <= dx < fw,
            0 <= dy < fh,
            fw <= bw,
            fh <= bh,
            sw > 0,
            sh > 0,
            c * fw <= dx * sw,
            r * fh <= dy * sh,
    {
        assert(dx * sw < fw * sw) by (nonlinear_arith)
            requires
                dx < fw,
                sw > 0,
        ;
        assert(dy * sh < fh * sh) by (nonlinear_arith)
            requires
                dy < fh,
                sh > 0,
        ;
        if c >= sw {
            assert(c * fw >= sw * fw) by (nonlinear_arith)
                requires
                    c >= sw,
                    fw > 0,
            ;
        }
        if r >= sh {
            assert(r * fh >= sh * fh) by (nonlinear_arith)
                requires
                    r >= sh,
                    fh > 0,
            ;
        }
        assert(dx * sw <= bw * sw) by (nonlinear_arith)
            requires
                dx < fw,
                fw <= bw,
                sw > 0,
        ;
        assert(dy * sh <= bh * sh) by (nonlinear_arith)
            requires
                dy < fh,
                fh <= bh,
                sh > 0,
        ;
    }
    assert(r * sw + c < sw * sh && 0 <= r * sw && r * sw <= sw * sh) by (nonlinear_arith)
        requires
            0 <= r < sh,
            0 <= c < sw,
    ;
    lemma_floor_div(dy * sh, fh, r);
    lemma_floor_div(dx * sw, fw, c);
    assert(sat_mul(dy, sh) == dy * sh);
    assert(sat_mul(r, sw) == r * sw);
    assert(sat_mul(dx, sw) == dx * sw);
    assert(source_row(sw, sh, fh, dy) + source_col(sw, fw, dx) == r * sw + c);
    let k = y * bw + x;
    lemma_fundamental_div_mod_converse(k, bw, y, x);
    assert(k < bw * bh) by (nonlinear_arith)
        requires
            k == y * bw + x,
            0 <= x < bw,
            0 <= y < bh,
    ;
}

/// Outside the fitted, centred rectangle the frame is black.
pub proof fn lemma_fitted_border_black(src: Seq<u32>, sw: int, sh: int, dw: int, dh: int, x: int, y: int)
    requires
        sw > 0,
        sh > 0,
        0 <= x < max1(dw),
        0 <= y < max1(dh),
        ({
            let (fw, fh) = fit_size(sw, sh, max1(dw), max1(dh));
            let x0 = (max1(dw) - fw) / 2;
            let y0 = (max1(dh) - fh) / 2;
            !(x0 <= x < x0 + fw && y0 <= y < y0 + fh)
        }),
    ensures
        fitted(src, sw, sh, dw, dh)[y * max1(dw) + x] == 0,
{
    let bw = max1(dw);
    let bh = max1(dh);
    let k = y * bw + x;
    lemma_fundamental_div_mod_converse(k, bw, y, x);
    assert(k < bw * bh) by (nonlinear_arith)
        requires
            k == y * bw + x,
            0 <= x < bw,
            0 <= y < bh,
    ;
}

/// `a * b`, saturating at `usize::MAX`.
fn saturating_product(a: usize, b: usize) -> (r: usize)
    ensures
        r == sat_mul(a as int, b as int),
{
    proof {
        lemma_mul_le_usize(a, b);
    }
    let p = (a as u128) * (b as u128);
    if p > usize::MAX as u128 {
        usize::MAX
    } else {
        p as usize
    }
}

/// Whether scaling a `src_width` x `src_height` picture into a
/// `dst_width` x `dst_height` frame computes its source indices without
/// overflow.
pub fn index_fits_exec(src_width: usize, src_height: usize, dst_width: usize, dst_height: usize) -> (r:
    bool)
    ensures
        r == index_fits(src_width as int, src_height as int, dst_width as int, dst_height as int),
{
    if src_width == 0 || src_height == 0 {
        return true;
    }
    let bw = if dst_width < 1 {
        1
    } else {
        dst_width
    };
    let bh = if dst_height < 1 {
        1
    } else {
        dst_height
    };
    let (fw, fh) = fit_dimensions(src_width, src_height, bw, bh);
    proof {
        lemma_fit_size_bounds(src_width as int, src_height as int, bw as int, bh as int);
    }
    let row = saturating_product(saturating_product(fh - 1, src_height) / fh, src_width);
    let col = saturating_product(fw - 1, src_width) / fw;
    row <= usize::MAX - col
}

/// Scales `src` (a `src_width` x `src_height` picture, row by row) into a
/// `dst_width` x `dst_height` frame with nearest-neighbour sampling, centred,
/// black elsewhere.
pub fn fit_into(
    src: &[u32],
    src_width: usize,
    src_height: usize,
    dst_width: usize,
    dst_height: usize,
) -> (r: Vec<u32>)
    requires
        max1(dst_width as int) * max1(dst_height as int) <= usize::MAX,
        src@.len() == 0 || index_fits(
            src_width as int,
            src_height as int,
            dst_width as int,
            dst_height as int,
        ),
    ensures
        r@ == fitted(src@, src_width as int, src_height as int, dst_width as int, dst_height as int),
{
    let bw = if dst_width < 1 {
        1
    } else {
        dst_width
    };
    let bh = if dst_height < 1 {
        1
    } else {
        dst_height
    };
    let ghost spec_frame = fitted(
        src@,
        src_width as int,
        src_height as int,
        dst_width as int,
        dst_height as int,
    );
    let total = bw * bh;
    let mut out: Vec<u32> = Vec::new();
    if src_width == 0 || src_height == 0 || src.len() == 0 {
        while out.len() < total
            invariant
                out.len() <= total,
                total == bw * bh,
                spec_frame.len() == total,
                forall|k: int| 0 <= k < out.len() ==> out@[k] == spec_frame[k],
                src_width == 0 || src_height == 0 || src@.len() == 0,
                bw == max1(dst_width as int),
                bh == max1(dst_height as int),
                spec_frame == fitted(src@, src_width as int, src_height as int, dst_width as int, dst_height as int),
            decreases total - out.len(),
        {
            assert(spec_frame[out.len() as int] == 0);
            out.push(0);
        }
        assert(out@ =~= spec_frame);
        return out;
    }
    let (fw, fh) = fit_dimensions(src_width, src_height, bw, bh);
    proof {
        lemma_fit_size_bounds(src_width as int, src_height as int, bw as int, bh as int);
    }
    let x0 = (bw - fw) / 2;
    let y0 = (bh - fh) / 2;
    let mut y: usize = 0;
    while y < bh
        invariant
            y <= bh,
            out@.len() == y * bw,
            1 <= fw <= bw,
            1 <= fh <= bh,
            (fw as int, fh as int) == fit_size(src_width as int, src_height as int, bw as int, bh as int),
            x0 == (bw - fw) / 2,
            y0 == (bh - fh) / 2,
            bw == max1(dst_width as int),
            bh == max1(dst_height as int),
            src_width > 0,
            src_height > 0,
            src@.len() > 0,
            index_fits(src_width as int, src_height as int, dst_width as int, dst_height as int),
            bw * bh <= usize::MAX,
            spec_frame == fitted(src@, src_width as int, src_height as int, dst_width as int, dst_height as int),
            forall|k: int| 0 <= k < out@.len() ==> out@[k] == spec_frame[k],
        decreases bh - y,
    {
        let mut x: usize = 0;
        while x < bw
            invariant
                y < bh,
                x <= bw,
                out@.len() == y * bw + x,
                1 <= fw <= bw,
                1 <= fh <= bh,
                (fw as int, fh as int) == fit_size(src_width as int, src_height as int, bw as int, bh as int),
                x0 == (bw - fw) / 2,
                y0 == (bh - fh) / 2,
                bw == max1(dst_width as int),
                bh == max1(dst_height as int),
                src_width > 0,
                src_height > 0,
                src@.len() > 0,
                index_fits(src_width as int, src_height as int, dst_width as int, dst_height as int),
                bw * bh <= usize::MAX,
                spec_frame == fitted(src@, src_width as int, src_height as int, dst_width as int, dst_height as int),
                forall|k: int| 0 <= k < out@.len() ==> out@[k] == spec_frame[k],
            decreases bw - x,
        {
            let pixel = if x0 <= x && x < x0 + fw && y0 <= y && y < y0 + fh {
                let dy = y - y0;
                let dx = x - x0;
                let row = saturating_product(saturating_product(dy, src_height) / fh, src_width);
                let col = saturating_product(dx, src_width) / fw;
                proof {
                    lemma_source_index_monotone(
                        src_width as int,
                        src_height as int,
                        fw as int,
                        fh as int,
                        dx as int,
                        dy as int,
                    );
                }
                let k = row + col;
                if k < src.len() {
                    src[k]
                } else {
                    0
                }
            } else {
                0
            };
            proof {
                let k = y * bw + x;
                assert(k == (y as int) * (bw as int) + (x as int));
                lemma_fundamental_div_mod_converse(k as int, bw as int, y as int, x as int);
                assert((y as int) * (bw as int) + (x as int) < (bw as int) * (bh as int)) by (nonlinear_arith)
                    requires
                        y < bh,
                        x < bw,
                ;
                assert(spec_frame[k as int] == pixel);
            }
            out.push(pixel);
            x += 1;
        }
        assert((y + 1) * bw == y * bw + bw) by (nonlinear_arith);
        y += 1;
    }
    assert(y == bh);
    assert(out@ =~= spec_frame);
    out
}

} // verus!
