//! Convolution and pooling shapes, padding, and the im2col rearrangement
//! that turns a convolution into one matrix product. Everything here moves
//! elements of any `Copy` type; the arithmetic on the elements is left to
//! the caller.
use vstd::prelude::*;

verus! {

/// How the spatial borders of the input are padded.
#[derive(Debug, Clone, Copy, PartialEq, Eq, Structural)]
pub enum Padding {
    /// Explicit padding, given as `[top, left, bottom, right]`.
    NotSet,
    /// Output size `ceil(in / stride)`; an odd extra goes to the bottom/right.
    SameUpper,
    /// Output size `ceil(in / stride)`; an odd extra goes to the top/left.
    SameLower,
    /// No padding.
    Valid,
}

/// A shape precondition of a kernel that does not hold.
#[derive(Debug, Clone, Copy, PartialEq, Eq, Structural)]
pub enum KernelError {
    Shape,
}

/// Offset of element `(n, c, h, w)` in a row-major `[_, cs, hs, ws]` array.
pub open spec fn idx4(cs: int, hs: int, ws: int, n: int, c: int, h: int, w: int) -> int {
    ((n * cs + c) * hs + h) * ws + w
}

pub proof fn lemma_idx4_bound(ns: int, cs: int, hs: int, ws: int, n: int, c: int, h: int, w: int)
    requires
        0 <= n < ns,
        0 <= c < cs,
        0 <= h < hs,
        0 <= w < ws,
    ensures
        0 <= n * cs + c < ns * cs,
        0 <= (n * cs + c) * hs + h < ns * cs * hs,
        0 <= idx4(cs, hs, ws, n, c, h, w) < ns * cs * hs * ws,
        ns * cs <= ns * cs * hs <= ns * cs * hs * ws,
        0 <= n * cs <= n * cs + c,
{
    assert(ns * cs <= ns * cs * hs <= ns * cs * hs * ws) by (nonlinear_arith)
        requires
            0 <= n < ns,
            0 <= c < cs,
            0 <= h < hs,
            0 <= w < ws,
    ;
    assert(0 <= n * cs) by (nonlinear_arith)
        requires
            0 <= n,
            0 <= cs,
    ;
    assert(0 <= n * cs + c < ns * cs) by (nonlinear_arith)
        requires
            0 <= n < ns,
            0 <= c < cs,
    ;
    let a = n * cs + c;
    assert(0 <= a * hs + h < ns * cs * hs) by (nonlinear_arith)
        requires
            0 <= a < ns * cs,
            0 <= h < hs,
    ;
    let b = a * hs + h;
    assert(0 <= b * ws + w < ns * cs * hs * ws) by (nonlinear_arith)
        requires
            0 <= b < ns * cs * hs,
            0 <= w < ws,
    ;
}

/// `x / d` is below `a` when `x` is below `a * d`.
pub proof fn lemma_div_bound(x: int, d: int, a: int)
    requires
        0 <= x < a * d,
        d > 0,
    ensures
        0 <= x / d < a,
        0 <= x % d < d,
{
    assert(0 <= x / d < a) by (nonlinear_arith)
        requires
            0 <= x < a * d,
            d > 0,
    ;
}

proof fn lemma_mul_le(a: int, b: int, s: int)
    requires
        0 <= a <= b,
        0 <= s,
    ensures
        a * s <= b * s,
{
    assert(a * s <= b * s) by (nonlinear_arith)
        requires
            0 <= a <= b,
            0 <= s,
    ;
}

/// Total padding along one axis for the SAME policies.
pub open spec fn same_pad_total(input: int, stride: int, kernel: int) -> int {
    let t = if input % stride == 0 {
        kernel - stride
    } else {
        kernel - input % stride
    };
    if t > 0 {
        t
    } else {
        0
    }
}

/// Output size along one axis: `(in + pads - eff) / stride + 1`, where
/// `eff = (kernel - 1) * dilation + 1` is the span of the dilated kernel.
pub open spec fn window_count(input: int, pads: int, kernel: int, stride: int, dilation: int) -> int {
    (input + pads - ((kernel - 1) * dilation + 1)) / stride + 1
}

/// The paddings of the SAME policies along both spatial axes:
/// `(total_h, total_w, top, bottom, left, right)`. SAME_UPPER puts an odd
/// extra at the bottom/right, SAME_LOWER at the top/left.
pub fn get_padding_size(
    input_h: usize,
    input_w: usize,
    stride_h: usize,
    stride_w: usize,
    kernel_h: usize,
    kernel_w: usize,
    auto_pad: Padding,
) -> (r: (usize, usize, usize, usize, usize, usize))
    requires
        stride_h > 0,
        stride_w > 0,
    ensures
        r.0 == same_pad_total(input_h as int, stride_h as int, kernel_h as int),
        r.1 == same_pad_total(input_w as int, stride_w as int, kernel_w as int),
        r.2 + r.3 == r.0,
        r.4 + r.5 == r.1,
        auto_pad == Padding::SameLower ==> r.3 == r.0 / 2 && r.5 == r.1 / 2,
        auto_pad != Padding::SameLower ==> r.2 == r.0 / 2 && r.4 == r.1 / 2,
{
    let pad_h = if input_h % stride_h == 0 {
        if kernel_h > stride_h {
            kernel_h - stride_h
        } else {
            0
        }
    } else if kernel_h > input_h % stride_h {
        kernel_h - input_h % stride_h
    } else {
        0
    };
    let pad_w = if input_w % stride_w == 0 {
        if kernel_w > stride_w {
            kernel_w - stride_w
        } else {
            0
        }
    } else if kernel_w > input_w % stride_w {
        kernel_w - input_w % stride_w
    } else {
        0
    };
    let half_h = pad_h / 2;
    let half_w = pad_w / 2;
    if auto_pad == Padding::SameLower {
        (pad_h, pad_w, pad_h - half_h, half_h, pad_w - half_w, half_w)
    } else {
        (pad_h, pad_w, half_h, pad_h - half_h, half_w, pad_w - half_w)
    }
}

/// With a SAME policy the output has `ceil(in / stride)` positions along
/// each axis: the window count over the padded input is that number.
pub proof fn lemma_same_output_is_ceil(input: int, stride: int, kernel: int)
    requires
        input >= 1,
        stride >= 1,
        kernel >= 1,
    ensures
        input + same_pad_total(input, stride, kernel) >= kernel,
        window_count(input, same_pad_total(input, stride, kernel), kernel, stride, 1) == (input
            + stride - 1) / stride,
{
    let q = input / stride;
    let r = input % stride;
    assert(input == q * stride + r) by (nonlinear_arith)
        requires
            stride >= 1,
            q == input / stride,
            r == input % stride,
    ;
    assert(q >= 0);
    let p = same_pad_total(input, stride, kernel);
    if r == 0 {
        assert(q >= 1) by (nonlinear_arith)
            requires
                input == q * stride,
                input >= 1,
                stride >= 1,
        ;
        assert((input + stride - 1) / stride == q) by (nonlinear_arith)
            requires
                input == q * stride,
                stride >= 1,
        ;
        if kernel > stride {
            assert(input + p - kernel == (q - 1) * stride) by (nonlinear_arith)
                requires
                    input == q * stride,
                    p == kernel - stride,
            ;
            assert((q - 1) * stride >= 0) by (nonlinear_arith)
                requires
                    q >= 1,
                    stride >= 1,
            ;
            assert((input + p - kernel) / stride == q - 1) by (nonlinear_arith)
                requires
                    input + p - kernel == (q - 1) * stride,
                    stride >= 1,
            ;
        } else {
            assert(input >= stride) by (nonlinear_arith)
                requires
                    input == q * stride,
                    q >= 1,
                    stride >= 1,
            ;
            assert(input + p - kernel == (q - 1) * stride + (stride - kernel)) by (nonlinear_arith)
                requires
                    input == q * stride,
                    p == 0,
            ;
            assert((input + p - kernel) / stride == q - 1) by (nonlinear_arith)
                requires
                    input + p - kernel == (q - 1) * stride + (stride - kernel),
                    0 <= stride - kernel < stride,
                    q >= 1,
            ;
        }
    } else {
        assert((input + stride - 1) / stride == q + 1) by (nonlinear_arith)
            requires
                input == q * stride + r,
                1 <= r < stride,
        ;
        if kernel > r {
            assert(input + p - kernel == q * stride);
            assert(q * stride >= 0) by (nonlinear_arith)
                requires
                    q >= 0,
                    stride >= 1,
            ;
            assert((input + p - kernel) / stride == q) by (nonlinear_arith)
                requires
                    input + p - kernel == q * stride,
                    stride >= 1,
            ;
        } else {
            assert((input + p - kernel) / stride == q) by (nonlinear_arith)
                requires
                    input + p - kernel == q * stride + (r - kernel),
                    0 <= r - kernel < stride,
            ;
        }
    }
}

/// Output size along one axis, or an error when the (dilated) kernel does
/// not fit in the padded input or a stride or dilation is zero.
pub fn conv_output_size(input: usize, pads: usize, kernel: usize, stride: usize, dilation: usize) -> (r: Result<usize, KernelError>)
    ensures
        r is Ok <==> (stride > 0 && dilation > 0 && kernel > 0 && input + pads <= usize::MAX
            && (kernel - 1) * dilation + 1 <= input + pads),
        r matches Ok(n) ==> n == window_count(input as int, pads as int, kernel as int, stride as int, dilation as int),
{
    if stride == 0 || dilation == 0 || kernel == 0 {
        return Err(KernelError::Shape);
    }
    if input > usize::MAX - pads {
        return Err(KernelError::Shape);
    }
    let total = input + pads;
    if total == 0 {
        return Err(KernelError::Shape);
    }
    let lim = (total - 1) / dilation;
    if kernel - 1 > lim {
        proof {
            assert((kernel - 1) * dilation + 1 > total) by (nonlinear_arith)
                requires
                    kernel - 1 > lim,
                    lim == (total - 1) / (dilation as int),
                    dilation > 0,
                    total >= 1,
            ;
        }
        return Err(KernelError::Shape);
    }
    proof {
        assert((kernel - 1) * dilation <= total - 1) by (nonlinear_arith)
            requires
                kernel - 1 <= lim,
                lim == (total - 1) / (dilation as int),
                dilation > 0,
                total >= 1,
        ;
    }
    let span = (kernel - 1) * dilation + 1;
    Ok((total - span) / stride + 1)
}

/// The zero-padded image: element `(n, c, h, w)` of the result is the input
/// element `(n, c, h - top, w - left)` when that lies inside the input, and
/// `fill` otherwise.
pub open spec fn padded_at<T>(
    x: Seq<T>,
    cs: int,
    hs: int,
    ws: int,
    top: int,
    left: int,
    ph: int,
    pw: int,
    fill: T,
    k: int,
) -> T {
    let w = k % pw;
    let h = (k / pw) % ph;
    let c = (k / (pw * ph)) % cs;
    let n = k / (pw * ph * cs);
    if top <= h < top + hs && left <= w < left + ws {
        x[idx4(cs, hs, ws, n, c, h - top, w - left)]
    } else {
        fill
    }
}

/// Pads the spatial borders of a `[ns, cs, hs, ws]` row-major array with
/// `fill`: `top` rows above, `bottom` below, `left` columns before and
/// `right` after.
pub fn pad_image<T: Copy>(
    x: &Vec<T>,
    ns: usize,
    cs: usize,
    hs: usize,
    ws: usize,
    top: usize,
    bottom: usize,
    left: usize,
    right: usize,
    fill: T,
) -> (r: Vec<T>)
    requires
        x@.len() == ns * cs * hs * ws,
        hs + top + bottom <= usize::MAX,
        ws + left + right <= usize::MAX,
        ns * cs <= usize::MAX,
        ns * cs * (hs + top + bottom) <= usize::MAX,
        ns * cs * (hs + top + bottom) * (ws + left + right) <= usize::MAX,
    ensures
        r@.len() == ns * cs * (hs + top + bottom) * (ws + left + right),
        forall|k: int|
            0 <= k < r@.len() ==> #[trigger] r@[k] == padded_at(
                x@,
                cs as int,
                hs as int,
                ws as int,
                top as int,
                left as int,
                (hs + top + bottom) as int,
                (ws + left + right) as int,
                fill,
                k,
            ),
{
    let ph: usize = hs + top + bottom;
    let pw: usize = ws + left + right;
    proof {
        assert(ns * cs * ph * pw == ((ns * cs) * ph) * pw) by (nonlinear_arith);
    }
    let total: usize = ns * cs * ph * pw;
    let mut r: Vec<T> = Vec::new();
    let mut k: usize = 0;
    let xl = x.len();
    while k < total
        invariant
            xl == x@.len(),
            k <= total,
            total == ns * cs * ph * pw,
            ph == hs + top + bottom,
            pw == ws + left + right,
            x@.len() == ns * cs * hs * ws,
            r@.len() == k,
            forall|j: int|
                0 <= j < k ==> #[trigger] r@[j] == padded_at(
                    x@,
                    cs as int,
                    hs as int,
                    ws as int,
                    top as int,
                    left as int,
                    ph as int,
                    pw as int,
                    fill,
                    j,
                ),
        decreases total - k,
    {
        proof {
            assert(pw > 0 && ph > 0 && cs > 0 && ns > 0) by (nonlinear_arith)
                requires
                    k < total,
                    total == ns * cs * ph * pw,
            ;
            assert(total == ns * ((pw * ph) * cs)) by (nonlinear_arith)
                requires
                    total == ns * cs * ph * pw,
            ;
            assert(pw * ph * cs > 0) by (nonlinear_arith)
                requires
                    pw > 0 && ph > 0 && cs > 0,
            ;
            lemma_div_bound(k as int, (pw * ph * cs) as int, ns as int);
            assert(pw * ph > 0) by (nonlinear_arith)
                requires
                    pw > 0 && ph > 0,
            ;
            assert(pw * ph <= pw * ph * cs && pw * ph * cs <= total) by (nonlinear_arith)
                requires
                    total == ns * cs * ph * pw,
                    pw > 0 && ph > 0 && cs > 0 && ns > 0,
            ;
        }
        let w = k % pw;
        let h = (k / pw) % ph;
        let c = (k / (pw * ph)) % cs;
        let n = k / (pw * ph * cs);
        let v = if top <= h && h < top + hs && left <= w && w < left + ws {
            proof {
                lemma_idx4_bound(
                    ns as int,
                    cs as int,
                    hs as int,
                    ws as int,
                    n as int,
                    c as int,
                    (h - top) as int,
                    (w - left) as int,
                );
                assert(ns * cs * hs * ws == ((ns * cs) * hs) * ws) by (nonlinear_arith);
            }
            x[((n * cs + c) * hs + (h - top)) * ws + (w - left)]
        } else {
            fill
        };
        r.push(v);
        k += 1;
    }
    r
}

} // verus!

verus! {

/// Element `k` of the im2col matrix, read row-major: row
/// `(n * oh + i) * ow + j` holds the receptive field of output position
/// `(i, j)` of image `n`; column `(c * kh + u) * kw + v` picks channel `c`
/// and kernel cell `(u, v)`, that is the input element
/// `(n, c, i * sh + u * dh, j * sw + v * dw)`.
pub open spec fn im2col_at<T>(
    x: Seq<T>,
    cs: int,
    hs: int,
    ws: int,
    kh: int,
    kw: int,
    sh: int,
    sw: int,
    dh: int,
    dw: int,
    oh: int,
    ow: int,
    k: int,
) -> T {
    let row = k / (cs * kh * kw);
    let q = k % (cs * kh * kw);
    let j = row % ow;
    let i = (row / ow) % oh;
    let n = row / (ow * oh);
    let v = q % kw;
    let u = (q / kw) % kh;
    let c = q / (kw * kh);
    x[idx4(cs, hs, ws, n, c, i * sh + u * dh, j * sw + v * dw)]
}

/// The im2col matrix of a `[ns, cs, hs, ws]` row-major array for a
/// `kh x kw` kernel with strides `(sh, sw)` and dilations `(dh, dw)` and
/// `oh x ow` output positions: `ns * oh * ow` rows of `cs * kh * kw`
/// elements, as `im2col_at` describes.
pub fn im2col_ref<T: Copy>(
    x: &Vec<T>,
    ns: usize,
    cs: usize,
    hs: usize,
    ws: usize,
    kh: usize,
    kw: usize,
    sh: usize,
    sw: usize,
    dh: usize,
    dw: usize,
    oh: usize,
    ow: usize,
) -> (r: Vec<T>)
    requires
        x@.len() == ns * cs * hs * ws,
        oh > 0 && kh > 0 ==> (oh - 1) * sh + (kh - 1) * dh < hs,
        ow > 0 && kw > 0 ==> (ow - 1) * sw + (kw - 1) * dw < ws,
        ns * oh * ow * (cs * kh * kw) <= usize::MAX,
        ns * oh <= usize::MAX,
        ns * oh * ow <= usize::MAX,
        cs * kh <= usize::MAX,
        cs * kh * kw <= usize::MAX,
    ensures
        r@.len() == ns * oh * ow * (cs * kh * kw),
        forall|k: int|
            0 <= k < r@.len() ==> #[trigger] r@[k] == im2col_at(
                x@,
                cs as int,
                hs as int,
                ws as int,
                kh as int,
                kw as int,
                sh as int,
                sw as int,
                dh as int,
                dw as int,
                oh as int,
                ow as int,
                k,
            ),
{
    let cols: usize = cs * kh * kw;
    let rows: usize = ns * oh * ow;
    let total: usize = rows * cols;
    let xl = x.len();
    let mut r: Vec<T> = Vec::new();
    let mut k: usize = 0;
    while k < total
        invariant
            xl == x@.len(),
            x@.len() == ns * cs * hs * ws,
            cols == cs * kh * kw,
            rows == ns * oh * ow,
            total == rows * cols,
            oh > 0 && kh > 0 ==> (oh - 1) * sh + (kh - 1) * dh < hs,
            ow > 0 && kw > 0 ==> (ow - 1) * sw + (kw - 1) * dw < ws,
            k <= total,
            r@.len() == k,
            forall|j: int|
                0 <= j < k ==> #[trigger] r@[j] == im2col_at(
                    x@,
                    cs as int,
                    hs as int,
                    ws as int,
                    kh as int,
                    kw as int,
                    sh as int,
                    sw as int,
                    dh as int,
                    dw as int,
                    oh as int,
                    ow as int,
                    j,
                ),
        decreases total - k,
    {
        proof {
            assert(cols > 0 && rows > 0) by (nonlinear_arith)
                requires
                    k < total,
                    total == rows * cols,
            ;
            assert(cs > 0 && kh > 0 && kw > 0) by (nonlinear_arith)
                requires
                    cols > 0,
                    cols == cs * kh * kw,
            ;
            assert(ns > 0 && oh > 0 && ow > 0) by (nonlinear_arith)
                requires
                    rows > 0,
                    rows == ns * oh * ow,
            ;
            lemma_div_bound(k as int, cols as int, rows as int);
            assert(rows == ns * (ow * oh)) by (nonlinear_arith)
                requires
                    rows == ns * oh * ow,
            ;
            assert(cols == cs * (kw * kh)) by (nonlinear_arith)
                requires
                    cols == cs * kh * kw,
            ;
            assert(ow * oh > 0 && kw * kh > 0) by (nonlinear_arith)
                requires
                    ow > 0 && oh > 0 && kw > 0 && kh > 0,
            ;
            assert(ow * oh <= rows && kw * kh <= cols) by (nonlinear_arith)
                requires
                    rows == ns * (ow * oh),
                    cols == cs * (kw * kh),
                    ns > 0,
                    cs > 0,
                    ow * oh > 0,
                    kw * kh > 0,
            ;
        }
        let row = k / cols;
        let q = k % cols;
        let j = row % ow;
        let i = (row / ow) % oh;
        let n = row / (ow * oh);
        let v = q % kw;
        let u = (q / kw) % kh;
        let c = q / (kw * kh);
        proof {
            lemma_div_bound(row as int, (ow * oh) as int, ns as int);
            lemma_div_bound(q as int, (kw * kh) as int, cs as int);
            lemma_mul_le(i as int, (oh - 1) as int, sh as int);
            lemma_mul_le(u as int, (kh - 1) as int, dh as int);
            lemma_mul_le(j as int, (ow - 1) as int, sw as int);
            lemma_mul_le(v as int, (kw - 1) as int, dw as int);
        }
        let h = i * sh + u * dh;
        let w = j * sw + v * dw;
        proof {
            lemma_idx4_bound(ns as int, cs as int, hs as int, ws as int, n as int, c as int, h as int, w as int);
        }
        r.push(x[((n * cs + c) * hs + h) * ws + w]);
        k += 1;
    }
    r
}

/// Element `k` of the `[ns, ms, oh, ow]` array made from a product matrix
/// whose row `(n * oh + i) * ow + j` holds the `ms` channels of output
/// position `(i, j)` of image `n`.
pub open spec fn nchw_at<T>(y: Seq<T>, ms: int, oh: int, ow: int, k: int) -> T {
    let j = k % ow;
    let i = (k / ow) % oh;
    let m = (k / (ow * oh)) % ms;
    let n = k / (ow * oh * ms);
    y[((n * oh + i) * ow + j) * ms + m]
}

/// Rearranges the `[ns * oh * ow, ms]` result of the im2col product into
/// the `[ns, ms, oh, ow]` output layout.
pub fn rows_to_nchw<T: Copy>(y: &Vec<T>, ns: usize, ms: usize, oh: usize, ow: usize) -> (r: Vec<T>)
    requires
        y@.len() == ns * oh * ow * ms,
    ensures
        r@.len() == y@.len(),
        forall|k: int| 0 <= k < r@.len() ==> #[trigger] r@[k] == nchw_at(y@, ms as int, oh as int, ow as int, k),
{
    let total = y.len();
    let mut r: Vec<T> = Vec::new();
    let mut k: usize = 0;
    while k < total
        invariant
            total == y@.len(),
            y@.len() == ns * oh * ow * ms,
            k <= total,
            r@.len() == k,
            forall|j: int| 0 <= j < k ==> #[trigger] r@[j] == nchw_at(y@, ms as int, oh as int, ow as int, j),
        decreases total - k,
    {
        proof {
            assert(ns > 0 && oh > 0 && ow > 0 && ms > 0) by (nonlinear_arith)
                requires
                    k < total,
                    total == ns * oh * ow * ms,
            ;
            assert(total == ns * (ow * oh * ms)) by (nonlinear_arith)
                requires
                    total == ns * oh * ow * ms,
            ;
            assert(ow * oh > 0 && ow * oh <= ow * oh * ms && ow * oh * ms <= total) by (nonlinear_arith)
                requires
                    ns > 0 && oh > 0 && ow > 0 && ms > 0,
                    total == ns * (ow * oh * ms),
            ;
            lemma_div_bound(k as int, (ow * oh * ms) as int, ns as int);
        }
        let j = k % ow;
        let i = (k / ow) % oh;
        let m = (k / (ow * oh)) % ms;
        let n = k / (ow * oh * ms);
        proof {
            lemma_idx4_bound(ns as int, oh as int, ow as int, ms as int, n as int, i as int, j as int, m as int);
        }
        r.push(y[((n * oh + i) * ow + j) * ms + m]);
        k += 1;
    }
    r
}

} // verus!

verus! {

/// Padding and output size of a convolution or pooling along both axes.
#[derive(Debug, Clone, Copy, PartialEq, Eq, Structural)]
pub struct ConvGeometry {
    pub top: usize,
    pub bottom: usize,
    pub left: usize,
    pub right: usize,
    pub out_h: usize,
    pub out_w: usize,
}

/// The padding that a policy gives along one axis: `(begin, end)`.
pub open spec fn axis_pads(
    auto_pad: Padding,
    input: int,
    kernel: int,
    stride: int,
    begin: int,
    end: int,
) -> (int, int) {
    match auto_pad {
        Padding::NotSet => (begin, end),
        Padding::Valid => (0, 0),
        Padding::SameUpper => {
            let t = same_pad_total(input, stride, kernel);
            (t / 2, t - t / 2)
        },
        Padding::SameLower => {
            let t = same_pad_total(input, stride, kernel);
            (t - t / 2, t / 2)
        },
    }
}

/// The output size that a policy gives along one axis.
pub open spec fn axis_out(
    auto_pad: Padding,
    input: int,
    kernel: int,
    stride: int,
    dilation: int,
    begin: int,
    end: int,
) -> int {
    match auto_pad {
        Padding::SameUpper | Padding::SameLower => (input + stride - 1) / stride,
        Padding::NotSet => window_count(input, begin + end, kernel, stride, dilation),
        Padding::Valid => window_count(input, 0, kernel, stride, dilation),
    }
}

/// The windows fit: every output position's dilated kernel lies inside
/// the padded input.
pub open spec fn axis_fits(input: int, pads: int, kernel: int, stride: int, dilation: int, out: int) -> bool {
    out >= 1 && (out - 1) * stride + (kernel - 1) * dilation < input + pads
}

/// The policy gives a padding that fits in `usize` and windows that fit.
pub open spec fn axis_ok(
    auto_pad: Padding,
    input: int,
    kernel: int,
    stride: int,
    dilation: int,
    begin: int,
    end: int,
) -> bool {
    let (b, e) = axis_pads(auto_pad, input, kernel, stride, begin, end);
    let o = axis_out(auto_pad, input, kernel, stride, dilation, begin, end);
    input + b + e <= usize::MAX && axis_fits(input, b + e, kernel, stride, dilation, o)
}

fn axis_geometry(
    auto_pad: Padding,
    input: usize,
    kernel: usize,
    stride: usize,
    dilation: usize,
    begin: usize,
    end: usize,
) -> (r: Result<(usize, usize, usize), KernelError>)
    requires
        stride > 0,
        dilation > 0,
        kernel > 0,
    ensures
        r matches Ok((b, e, o)) ==> (b as int, e as int) == axis_pads(
            auto_pad,
            input as int,
            kernel as int,
            stride as int,
            begin as int,
            end as int,
        ) && o == axis_out(
            auto_pad,
            input as int,
            kernel as int,
            stride as int,
            dilation as int,
            begin as int,
            end as int,
        ) && axis_fits(input as int, b + e, kernel as int, stride as int, dilation as int, o as int)
            && input + b + e <= usize::MAX,
        r is Ok <==> axis_ok(auto_pad, input as int, kernel as int, stride as int, dilation as int, begin as int, end as int),
{
    let (b, e): (usize, usize) = match auto_pad {
        Padding::NotSet => (begin, end),
        Padding::Valid => (0, 0),
        _ => {
            let (t, _, top, bottom, _, _) = get_padding_size(input, 1, stride, 1, kernel, 1, auto_pad);
            (top, bottom)
        },
    };
    assert((b as int, e as int) == axis_pads(auto_pad, input as int, kernel as int, stride as int, begin as int, end as int));
    assert((kernel - 1) * dilation >= 0) by (nonlinear_arith)
        requires
            kernel >= 1,
            dilation >= 1,
    ;
    if input > usize::MAX - b || input + b > usize::MAX - e {
        return Err(KernelError::Shape);
    }
    let padded = input + b + e;
    let o: usize = match auto_pad {
        Padding::SameUpper | Padding::SameLower => {
            if input == 0 {
                assert((input + stride - 1) / (stride as int) == 0) by (nonlinear_arith)
                    requires
                        input == 0,
                        stride >= 1,
                ;
                return Err(KernelError::Shape);
            }
            (input - 1) / stride + 1
        },
        _ => {
            let span_fits = conv_output_size(input, b + e, kernel, stride, dilation);
            match span_fits {
                Ok(o) => o,
                Err(_) => {
                    proof {
                        assert((kernel - 1) * dilation + 1 > padded);
                        let o_s = axis_out(auto_pad, input as int, kernel as int, stride as int, dilation as int, begin as int, end as int);
                        if o_s >= 1 {
                            assert((o_s - 1) * stride >= 0) by (nonlinear_arith)
                                requires
                                    o_s >= 1,
                                    stride > 0,
                            ;
                        }
                    }
                    return Err(KernelError::Shape);
                },
            }
        },
    };
    proof {
        if auto_pad == Padding::SameUpper || auto_pad == Padding::SameLower {
            assert((input - 1) / (stride as int) + 1 == (input + stride - 1) / (stride as int)) by (nonlinear_arith)
                requires
                    input >= 1,
                    stride >= 1,
            ;
        }
    }
    assert(o == axis_out(auto_pad, input as int, kernel as int, stride as int, dilation as int, begin as int, end as int));
    // the last window must start early enough for its dilated kernel to fit
    if o == 0 || (o - 1) > (padded - 1) / stride {
        proof {
            if o >= 1 {
                assert((o - 1) * stride + (kernel - 1) * dilation >= padded) by (nonlinear_arith)
                    requires
                        o - 1 > (padded - 1) / (stride as int),
                        stride > 0,
                        padded >= 1,
                        (kernel - 1) * dilation >= 0,
                ;
            }
        }
        return Err(KernelError::Shape);
    }
    proof {
        assert((o - 1) * stride <= padded - 1) by (nonlinear_arith)
            requires
                o - 1 <= (padded - 1) / (stride as int),
                stride > 0,
                padded >= 1,
        ;
    }
    let room = padded - 1 - (o - 1) * stride;
    if kernel - 1 > room / dilation {
        proof {
            assert((kernel - 1) * dilation > room) by (nonlinear_arith)
                requires
                    kernel - 1 > (room as int) / (dilation as int),
                    dilation > 0,
                    room >= 0,
            ;
        }
        return Err(KernelError::Shape);
    }
    proof {
        assert((kernel - 1) * dilation <= room) by (nonlinear_arith)
            requires
                kernel - 1 <= (room as int) / (dilation as int),
                dilation > 0,
                room >= 0,
        ;
    }
    Ok((b, e, o))
}

/// `g` holds the paddings and output sizes that the policy gives.
pub open spec fn geometry_matches(
    g: ConvGeometry,
    hs: usize,
    ws: usize,
    kh: usize,
    kw: usize,
    auto_pad: Padding,
    pads: (usize, usize, usize, usize),
    strides: (usize, usize),
    dilations: (usize, usize),
) -> bool {
    &&& (g.top as int, g.bottom as int) == axis_pads(auto_pad, hs as int, kh as int, strides.0 as int, pads.0 as int, pads.2 as int)
    &&& (g.left as int, g.right as int) == axis_pads(auto_pad, ws as int, kw as int, strides.1 as int, pads.1 as int, pads.3 as int)
    &&& g.out_h == axis_out(auto_pad, hs as int, kh as int, strides.0 as int, dilations.0 as int, pads.0 as int, pads.2 as int)
    &&& g.out_w == axis_out(auto_pad, ws as int, kw as int, strides.1 as int, dilations.1 as int, pads.1 as int, pads.3 as int)
    &&& axis_fits(hs as int, g.top + g.bottom, kh as int, strides.0 as int, dilations.0 as int, g.out_h as int)
    &&& axis_fits(ws as int, g.left + g.right, kw as int, strides.1 as int, dilations.1 as int, g.out_w as int)
    &&& hs + g.top + g.bottom <= usize::MAX
    &&& ws + g.left + g.right <= usize::MAX
}

/// The policy gives a geometry: strides, dilations and kernel sizes are
/// positive and the windows fit along both axes.
pub open spec fn geometry_ok(
    hs: usize,
    ws: usize,
    kh: usize,
    kw: usize,
    auto_pad: Padding,
    pads: (usize, usize, usize, usize),
    strides: (usize, usize),
    dilations: (usize, usize),
) -> bool {
    strides.0 > 0 && strides.1 > 0 && dilations.0 > 0 && dilations.1 > 0 && kh > 0 && kw > 0
        && axis_ok(auto_pad, hs as int, kh as int, strides.0 as int, dilations.0 as int, pads.0 as int, pads.2 as int)
        && axis_ok(auto_pad, ws as int, kw as int, strides.1 as int, dilations.1 as int, pads.1 as int, pads.3 as int)
}

/// Paddings and output sizes of a convolution or pooling over an
/// `hs x ws` input with a `kh x kw` kernel. `pads` is
/// `[top, left, bottom, right]` and only used with `NotSet`; the SAME
/// policies give `ceil(in / stride)` positions. Fails when a stride,
/// dilation or kernel size is zero, or when the windows do not fit.
pub fn conv_geometry(
    hs: usize,
    ws: usize,
    kh: usize,
    kw: usize,
    auto_pad: Padding,
    pads: (usize, usize, usize, usize),
    strides: (usize, usize),
    dilations: (usize, usize),
) -> (r: Result<ConvGeometry, KernelError>)
    ensures
        r matches Ok(g) ==> geometry_matches(g, hs, ws, kh, kw, auto_pad, pads, strides, dilations),
        r is Ok <==> geometry_ok(hs, ws, kh, kw, auto_pad, pads, strides, dilations),
        (strides.0 == 0 || strides.1 == 0 || dilations.0 == 0 || dilations.1 == 0 || kh == 0 || kw == 0) ==> r is Err,
{
    if strides.0 == 0 || strides.1 == 0 || dilations.0 == 0 || dilations.1 == 0 || kh == 0 || kw == 0 {
        return Err(KernelError::Shape);
    }
    let (top, bottom, out_h) = axis_geometry(auto_pad, hs, kh, strides.0, dilations.0, pads.0, pads.2)?;
    let (left, right, out_w) = axis_geometry(auto_pad, ws, kw, strides.1, dilations.1, pads.1, pads.3)?;
    Ok(ConvGeometry { top, bottom, left, right, out_h, out_w })
}

/// A SAME policy with undilated kernels always fits: the output has
/// exactly `ceil(in / stride)` positions along each axis.
pub proof fn lemma_same_geometry_fits(input: int, kernel: int, stride: int, lower: bool)
    requires
        input >= 1,
        kernel >= 1,
        stride >= 1,
    ensures
        ({
            let pad = if lower {
                Padding::SameLower
            } else {
                Padding::SameUpper
            };
            let (b, e) = axis_pads(pad, input, kernel, stride, 0, 0);
            axis_out(pad, input, kernel, stride, 1, 0, 0) == (input + stride - 1) / stride
                && axis_fits(input, b + e, kernel, stride, 1, axis_out(pad, input, kernel, stride, 1, 0, 0))
        }),
{
    lemma_same_output_is_ceil(input, stride, kernel);
    let t = same_pad_total(input, stride, kernel);
    let o = (input + stride - 1) / stride;
    assert(o == (input + t - kernel) / stride + 1);
    assert((o - 1) * stride <= input + t - kernel) by (nonlinear_arith)
        requires
            o - 1 == (input + t - kernel) / stride,
            input + t - kernel >= 0,
            stride >= 1,
    ;
    assert(o >= 1) by (nonlinear_arith)
        requires
            o == (input + stride - 1) / stride,
            input >= 1,
            stride >= 1,
    ;
}

} // verus!

verus! {

/// Every size that lowering computes fits in `usize`: the padded image,
/// and the im2col matrix with its rows and columns.
pub open spec fn sizes_fit(ns: int, cs: int, hs: int, ws: int, kh: int, kw: int, g: ConvGeometry) -> bool {
    let ph = hs + g.top + g.bottom;
    let pw = ws + g.left + g.right;
    &&& ns * cs <= usize::MAX
    &&& ns * cs * (ph) <= usize::MAX
    &&& ns * cs * (ph) * (pw) <= usize::MAX
    &&& ns * g.out_h <= usize::MAX
    &&& ns * g.out_h * g.out_w <= usize::MAX
    &&& cs * kh <= usize::MAX
    &&& cs * kh * kw <= usize::MAX
    &&& ns * g.out_h * g.out_w * (cs * kh * kw) <= usize::MAX
}

/// The padded image as a sequence.
pub open spec fn padded_seq<T>(
    x: Seq<T>,
    ns: int,
    cs: int,
    hs: int,
    ws: int,
    g: ConvGeometry,
    fill: T,
) -> Seq<T> {
    let ph = hs + g.top + g.bottom;
    let pw = ws + g.left + g.right;
    Seq::new((ns * cs * ph * pw) as nat, |k: int| padded_at(x, cs, hs, ws, g.top as int, g.left as int, ph, pw, fill, k))
}

fn checked_product(a: usize, b: usize) -> (r: Option<usize>)
    ensures
        r is Some <==> a * b <= usize::MAX,
        r matches Some(p) ==> p == a * b,
{
    a.checked_mul(b)
}

/// Pads a `[ns, cs, hs, ws]` array with `fill` as the policy asks and
/// lays out its windows as an im2col matrix: the padding and output sizes
/// are those of `conv_geometry`, and element `k` of the matrix is
/// `im2col_at` of the padded array. Fails as `conv_geometry` does, or when
/// a size does not fit in `usize`.
pub fn lower_windows<T: Copy>(
    x: &Vec<T>,
    ns: usize,
    cs: usize,
    hs: usize,
    ws: usize,
    kh: usize,
    kw: usize,
    auto_pad: Padding,
    pads: (usize, usize, usize, usize),
    strides: (usize, usize),
    dilations: (usize, usize),
    fill: T,
) -> (r: Result<(Vec<T>, ConvGeometry), KernelError>)
    requires
        x@.len() == ns * cs * hs * ws,
    ensures
        r matches Ok((cols, g)) ==> {
            &&& geometry_matches(g, hs, ws, kh, kw, auto_pad, pads, strides, dilations)
            &&& cols@.len() == ns * g.out_h * g.out_w * (cs * kh * kw)
            &&& forall|k: int|
                0 <= k < cols@.len() ==> #[trigger] cols@[k] == im2col_at(
                    padded_seq(x@, ns as int, cs as int, hs as int, ws as int, g, fill),
                    cs as int,
                    hs + g.top + g.bottom,
                    ws + g.left + g.right,
                    kh as int,
                    kw as int,
                    strides.0 as int,
                    strides.1 as int,
                    dilations.0 as int,
                    dilations.1 as int,
                    g.out_h as int,
                    g.out_w as int,
                    k,
                )
        },
        !geometry_ok(hs, ws, kh, kw, auto_pad, pads, strides, dilations) ==> r is Err,
        r is Err && geometry_ok(hs, ws, kh, kw, auto_pad, pads, strides, dilations) ==> exists|g: ConvGeometry|
            #[trigger] geometry_matches(g, hs, ws, kh, kw, auto_pad, pads, strides, dilations)
                && !sizes_fit(ns as int, cs as int, hs as int, ws as int, kh as int, kw as int, g),
{
    let g = conv_geometry(hs, ws, kh, kw, auto_pad, pads, strides, dilations)?;
    let ph = hs + g.top + g.bottom;
    let pw = ws + g.left + g.right;
    let nc = match checked_product(ns, cs) {
        Some(p) => p,
        None => {
            return Err(KernelError::Shape);
        },
    };
    let nch = match checked_product(nc, ph) {
        Some(p) => p,
        None => {
            return Err(KernelError::Shape);
        },
    };
    let _padded_len = match checked_product(nch, pw) {
        Some(p) => p,
        None => {
            return Err(KernelError::Shape);
        },
    };
    let noh = match checked_product(ns, g.out_h) {
        Some(p) => p,
        None => {
            return Err(KernelError::Shape);
        },
    };
    let rows = match checked_product(noh, g.out_w) {
        Some(p) => p,
        None => {
            return Err(KernelError::Shape);
        },
    };
    let ckh = match checked_product(cs, kh) {
        Some(p) => p,
        None => {
            return Err(KernelError::Shape);
        },
    };
    let cols_n = match checked_product(ckh, kw) {
        Some(p) => p,
        None => {
            return Err(KernelError::Shape);
        },
    };
    let _total = match checked_product(rows, cols_n) {
        Some(p) => p,
        None => {
            return Err(KernelError::Shape);
        },
    };
    let padded = pad_image(x, ns, cs, hs, ws, g.top, g.bottom, g.left, g.right, fill);
    proof {
        assert(padded@ =~= padded_seq(x@, ns as int, cs as int, hs as int, ws as int, g, fill));
    }
    let cols = im2col_ref(
        &padded,
        ns,
        cs,
        ph,
        pw,
        kh,
        kw,
        strides.0,
        strides.1,
        dilations.0,
        dilations.1,
        g.out_h,
        g.out_w,
    );
    Ok((cols, g))
}

/// A convolution's weights and attributes. The kernel is `[m, c, kh, kw]`
/// row-major, the bias (if any) has `m` elements, `pads` is
/// `[top, left, bottom, right]`.
pub struct ConvolutionLayer<T> {
    pub kernel: Vec<T>,
    pub kernel_dims: (usize, usize, usize, usize),
    pub bias: Option<Vec<T>>,
    pub auto_pad: Padding,
    pub dilations: (usize, usize),
    pub group: usize,
    pub pads: (usize, usize, usize, usize),
    pub strides: (usize, usize),
}

impl<T: Copy> ConvolutionLayer<T> {
    /// The layer's weights are consistent with its dimensions.
    pub open spec fn wf(&self) -> bool {
        &&& self.kernel@.len() == self.kernel_dims.0 * self.kernel_dims.1 * self.kernel_dims.2
            * self.kernel_dims.3
        &&& self.bias matches Some(b) ==> b@.len() == self.kernel_dims.0
        &&& self.group == 1
    }

    /// Builds a layer from weights in the ONNX layout
    /// `[feature maps, channels / group, kh, kw]`. Fails when the weights
    /// do not have that many elements, when the bias does not have one
    /// element per feature map, or when `group` is not 1 (grouped
    /// convolution is not supported).
    pub fn new_onnx_tensor_flow(
        kernel: Vec<T>,
        kernel_dims: (usize, usize, usize, usize),
        bias: Option<Vec<T>>,
        auto_pad: Padding,
        dilations: (usize, usize),
        group: usize,
        pads: (usize, usize, usize, usize),
        strides: (usize, usize),
    ) -> (r: Result<Self, KernelError>)
        ensures
            r is Ok <==> (kernel@.len() == kernel_dims.0 * kernel_dims.1 * kernel_dims.2 * kernel_dims.3
                && (bias matches Some(b) ==> b@.len() == kernel_dims.0) && group == 1),
            r matches Ok(l) ==> l.wf() && l.kernel@ == kernel@ && l.kernel_dims == kernel_dims
                && l.auto_pad == auto_pad && l.dilations == dilations && l.pads == pads && l.strides
                == strides,
    {
        if group != 1 {
            return Err(KernelError::Shape);
        }
        let (m, c, kh, kw) = kernel_dims;
        let kl = kernel.len();
        let total = if m == 0 || c == 0 || kh == 0 || kw == 0 {
            proof {
                assert(m * c * kh * kw == 0) by (nonlinear_arith)
                    requires
                        m == 0 || c == 0 || kh == 0 || kw == 0,
                ;
            }
            Some(0)
        } else {
            proof {
                assert(m * c <= m * c * kh && m * c * kh <= m * c * kh * kw) by (nonlinear_arith)
                    requires
                        m >= 1 && c >= 1 && kh >= 1 && kw >= 1,
                ;
            }
            match checked_product(m, c) {
                Some(a) => match checked_product(a, kh) {
                    Some(b) => checked_product(b, kw),
                    None => None,
                },
                None => None,
            }
        };
        match total {
            Some(t) => {
                if t != kernel.len() {
                    return Err(KernelError::Shape);
                }
            },
            None => {
                return Err(KernelError::Shape);
            },
        }
        if let Some(b) = &bias {
            if b.len() != m {
                return Err(KernelError::Shape);
            }
        }
        Ok(ConvolutionLayer { kernel, kernel_dims, bias, auto_pad, dilations, group, pads, strides })
    }

    /// Lowers the convolution of a `[ns, cs, hs, ws]` image to a matrix
    /// product: returns the im2col matrix of the zero-padded image (as
    /// `lower_windows` gives it, with `zero` as padding) and the geometry.
    /// The caller multiplies it by the transposed `[m, cs * kh * kw]`
    /// kernel. Fails when the image's channels differ from the kernel's or
    /// when `lower_windows` fails.
    pub fn lower(&self, image: &Vec<T>, ns: usize, cs: usize, hs: usize, ws: usize, zero: T) -> (r: Result<(Vec<T>, ConvGeometry), KernelError>)
        requires
            self.wf(),
            image@.len() == ns * cs * hs * ws,
        ensures
            cs != self.kernel_dims.1 ==> r is Err,
            !geometry_ok(hs, ws, self.kernel_dims.2, self.kernel_dims.3, self.auto_pad, self.pads, self.strides, self.dilations) ==> r is Err,
            r is Err && cs == self.kernel_dims.1 && geometry_ok(hs, ws, self.kernel_dims.2, self.kernel_dims.3, self.auto_pad, self.pads, self.strides, self.dilations)
                ==> exists|g: ConvGeometry|
                #[trigger] geometry_matches(g, hs, ws, self.kernel_dims.2, self.kernel_dims.3, self.auto_pad, self.pads, self.strides, self.dilations)
                    && !sizes_fit(ns as int, cs as int, hs as int, ws as int, self.kernel_dims.2 as int, self.kernel_dims.3 as int, g),
            r matches Ok((cols, g)) ==> geometry_matches(g, hs, ws, self.kernel_dims.2, self.kernel_dims.3, self.auto_pad, self.pads, self.strides, self.dilations)
                && cols@.len() == ns * g.out_h * g.out_w * (cs * self.kernel_dims.2 * self.kernel_dims.3)
                && forall|k: int|
                0 <= k < cols@.len() ==> #[trigger] cols@[k] == im2col_at(
                    padded_seq(image@, ns as int, cs as int, hs as int, ws as int, g, zero),
                    cs as int,
                    hs + g.top + g.bottom,
                    ws + g.left + g.right,
                    self.kernel_dims.2 as int,
                    self.kernel_dims.3 as int,
                    self.strides.0 as int,
                    self.strides.1 as int,
                    self.dilations.0 as int,
                    self.dilations.1 as int,
                    g.out_h as int,
                    g.out_w as int,
                    k,
                ),
    {
        if cs != self.kernel_dims.1 {
            return Err(KernelError::Shape);
        }
        lower_windows(
            image,
            ns,
            cs,
            hs,
            ws,
            self.kernel_dims.2,
            self.kernel_dims.3,
            self.auto_pad,
            self.pads,
            self.strides,
            self.dilations,
            zero,
        )
    }
}

} // verus!

verus! {

/// With a SAME policy and undilated kernels, `conv_geometry` succeeds on
/// any nonempty input (whose size plus the kernel's fits in `usize`), and
/// the output has exactly `ceil(in / stride)` positions along each axis.
pub proof fn lemma_same_geometry_ok(
    hs: usize,
    ws: usize,
    kh: usize,
    kw: usize,
    auto_pad: Padding,
    pads: (usize, usize, usize, usize),
    strides: (usize, usize),
)
    requires
        auto_pad == Padding::SameUpper || auto_pad == Padding::SameLower,
        hs >= 1,
        ws >= 1,
        kh >= 1,
        kw >= 1,
        strides.0 >= 1,
        strides.1 >= 1,
        hs + kh <= usize::MAX,
        ws + kw <= usize::MAX,
    ensures
        geometry_ok(hs, ws, kh, kw, auto_pad, pads, strides, (1, 1)),
        forall|g: ConvGeometry|
            #[trigger] geometry_matches(g, hs, ws, kh, kw, auto_pad, pads, strides, (1, 1))
                ==> g.out_h == (hs + strides.0 - 1) / (strides.0 as int) && g.out_w == (ws + strides.1 - 1) / (strides.1 as int),
{
    lemma_same_geometry_fits(hs as int, kh as int, strides.0 as int, auto_pad == Padding::SameLower);
    lemma_same_geometry_fits(ws as int, kw as int, strides.1 as int, auto_pad == Padding::SameLower);
    let th = same_pad_total(hs as int, strides.0 as int, kh as int);
    let tw = same_pad_total(ws as int, strides.1 as int, kw as int);
    assert(th <= kh && tw <= kw);
}

} // verus!
