use vstd::prelude::*;

use crate::arena::KernelError;

verus! {

/// Number of bytes of a `width` by `height` RGBA image.
pub open spec fn image_bytes(width: usize, height: usize) -> int {
    width * height * 4
}

/// Offset of the first byte of the pixel that holds byte `i`.
pub open spec fn pixel_base(i: int) -> int {
    i - i % 4
}

/// Luminosity with the weights 0.299, 0.587 and 0.114, truncated.
pub open spec fn luma(r: u8, g: u8, b: u8) -> int {
    (299 * r + 587 * g + 114 * b) / 1000
}

pub open spec fn min255(x: int) -> int {
    if x > 255 {
        255
    } else {
        x
    }
}

pub open spec fn clamp_byte(x: int) -> int {
    if x < 0 {
        0
    } else if x > 255 {
        255
    } else {
        x
    }
}

/// Sepia weights for output channel `c` (0 red, 1 green, 2 blue).
pub open spec fn sepia_channel(r: u8, g: u8, b: u8, c: int) -> int {
    if c == 0 {
        min255((393 * r + 769 * g + 189 * b) / 1000)
    } else if c == 1 {
        min255((349 * r + 686 * g + 168 * b) / 1000)
    } else {
        min255((272 * r + 534 * g + 131 * b) / 1000)
    }
}

/// Every colour byte replaced by the luminosity of its pixel; alpha kept.
pub open spec fn grayscale_spec(s: Seq<u8>) -> Seq<u8> {
    Seq::new(
        s.len(),
        |i: int|
            if i % 4 == 3 {
                s[i]
            } else {
                luma(s[pixel_base(i)], s[pixel_base(i) + 1], s[pixel_base(i) + 2]) as u8
            },
    )
}

#[verifier::opaque]
pub open spec fn sepia_spec(s: Seq<u8>) -> Seq<u8> {
    Seq::new(
        s.len(),
        |i: int|
            if i % 4 == 3 {
                s[i]
            } else {
                sepia_channel(s[pixel_base(i)], s[pixel_base(i) + 1], s[pixel_base(i) + 2], i % 4)
                    as u8
            },
    )
}

pub open spec fn invert_spec(s: Seq<u8>) -> Seq<u8> {
    Seq::new(s.len(), |i: int| if i % 4 == 3 { s[i] } else { (255 - s[i]) as u8 })
}

/// Colour bytes become 255 where the pixel's luminosity exceeds `t`, else 0.
pub open spec fn threshold_spec(s: Seq<u8>, t: u8) -> Seq<u8> {
    Seq::new(
        s.len(),
        |i: int|
            if i % 4 == 3 {
                s[i]
            } else if luma(s[pixel_base(i)], s[pixel_base(i) + 1], s[pixel_base(i) + 2]) > t {
                255u8
            } else {
                0u8
            },
    )
}

pub open spec fn brightness_spec(s: Seq<u8>, amount: i32) -> Seq<u8> {
    Seq::new(
        s.len(),
        |i: int| if i % 4 == 3 { s[i] } else { clamp_byte(s[i] + amount) as u8 },
    )
}

/// Checks that a buffer of `len` bytes is exactly a `width` by `height` RGBA image.
pub fn check_image(len: usize, width: usize, height: usize) -> (r: Result<(), KernelError>)
    ensures
        r is Ok <==> len == image_bytes(width, height),
        r is Err ==> r == Err::<(), KernelError>(KernelError::InvalidArgument),
{
    match width.checked_mul(height) {
        None => {
            assert(width * height * 4 > usize::MAX) by (nonlinear_arith)
                requires
                    width * height > usize::MAX,
            ;
            Err(KernelError::InvalidArgument)
        },
        Some(wh) => {
            if wh > usize::MAX / 4 || wh * 4 != len {
                Err(KernelError::InvalidArgument)
            } else {
                Ok(())
            }
        },
    }
}

fn luma_of(r: u8, g: u8, b: u8) -> (y: u32)
    ensures
        y == luma(r, g, b),
        y <= 255,
{
    (299 * r as u32 + 587 * g as u32 + 114 * b as u32) / 1000
}

/// Converts an RGBA image to grayscale in place; alpha is left unchanged.
#[verifier::rlimit(80)]
pub fn grayscale_rgba(pixels: &mut [u8], width: usize, height: usize) -> (r: Result<
    (),
    KernelError,
>)
    ensures
        r is Ok <==> old(pixels)@.len() == image_bytes(width, height),
        r is Ok ==> final(pixels)@ == grayscale_spec(old(pixels)@),
        r is Err ==> r == Err::<(), KernelError>(KernelError::InvalidArgument) && final(pixels)@
            == old(pixels)@,
{
    check_image(pixels.len(), width, height)?;
    let len = pixels.len();
    let ghost s = pixels@;
    let mut i: usize = 0;
    while i < len
        invariant
            len == pixels@.len(),
            len == s.len(),
            len % 4 == 0,
            i % 4 == 0,
            i <= len,
            forall|k: int| i <= k < len ==> pixels@[k] == s[k],
            forall|k: int| 0 <= k < i ==> pixels@[k] == #[trigger] grayscale_spec(s)[k],
        decreases len - i,
    {
        let gray = luma_of(pixels[i], pixels[i + 1], pixels[i + 2]) as u8;
        pixels[i] = gray;
        pixels[i + 1] = gray;
        pixels[i + 2] = gray;
        i += 4;
    }
    assert(pixels@ =~= grayscale_spec(s));
    Ok(())
}

fn sepia_pixel(r: u8, g: u8, b: u8) -> (out: (u8, u8, u8))
    ensures
        out.0 == sepia_channel(r, g, b, 0),
        out.1 == sepia_channel(r, g, b, 1),
        out.2 == sepia_channel(r, g, b, 2),
{
    let (r, g, b) = (r as u32, g as u32, b as u32);
    let nr = (393 * r + 769 * g + 189 * b) / 1000;
    let ng = (349 * r + 686 * g + 168 * b) / 1000;
    let nb = (272 * r + 534 * g + 131 * b) / 1000;
    (
        if nr > 255 { 255 } else { nr as u8 },
        if ng > 255 { 255 } else { ng as u8 },
        if nb > 255 { 255 } else { nb as u8 },
    )
}

proof fn lemma_sepia_pixel(s: Seq<u8>, k: int)
    requires
        0 <= k,
        k % 4 == 0,
        k + 3 < s.len(),
    ensures
        sepia_spec(s)[k] == sepia_channel(s[k], s[k + 1], s[k + 2], 0),
        sepia_spec(s)[k + 1] == sepia_channel(s[k], s[k + 1], s[k + 2], 1),
        sepia_spec(s)[k + 2] == sepia_channel(s[k], s[k + 1], s[k + 2], 2),
        sepia_spec(s)[k + 3] == s[k + 3],
        sepia_spec(s).len() == s.len(),
{
    reveal(sepia_spec);
    assert(pixel_base(k) == k && pixel_base(k + 1) == k && pixel_base(k + 2) == k);
    assert((k + 1) % 4 == 1 && (k + 2) % 4 == 2 && (k + 3) % 4 == 3);
}

/// Applies a sepia tone in place; alpha is left unchanged.
#[verifier::rlimit(80)]
pub fn sepia_filter(pixels: &mut [u8], width: usize, height: usize) -> (r: Result<
    (),
    KernelError,
>)
    ensures
        r is Ok <==> old(pixels)@.len() == image_bytes(width, height),
        r is Ok ==> final(pixels)@ == sepia_spec(old(pixels)@),
        r is Err ==> r == Err::<(), KernelError>(KernelError::InvalidArgument) && final(pixels)@
            == old(pixels)@,
{
    check_image(pixels.len(), width, height)?;
    let len = pixels.len();
    let ghost s = pixels@;
    let mut i: usize = 0;
    while i < len
        invariant
            len == pixels@.len(),
            len == s.len(),
            len % 4 == 0,
            i % 4 == 0,
            i <= len,
            forall|k: int| i <= k < len ==> pixels@[k] == s[k],
            forall|k: int| 0 <= k < i ==> pixels@[k] == #[trigger] sepia_spec(s)[k],
        decreases len - i,
    {
        let (nr, ng, nb) = sepia_pixel(pixels[i], pixels[i + 1], pixels[i + 2]);
        proof {
            lemma_sepia_pixel(s, i as int);
        }
        pixels[i] = nr;
        pixels[i + 1] = ng;
        pixels[i + 2] = nb;
        i += 4;
    }
    proof {
        reveal(sepia_spec);
    }
    assert(pixels@ =~= sepia_spec(s));
    Ok(())
}

/// Inverts the colour channels in place; alpha is left unchanged.
#[verifier::rlimit(80)]
pub fn invert_colors(pixels: &mut [u8], width: usize, height: usize) -> (r: Result<
    (),
    KernelError,
>)
    ensures
        r is Ok <==> old(pixels)@.len() == image_bytes(width, height),
        r is Ok ==> final(pixels)@ == invert_spec(old(pixels)@),
        r is Err ==> r == Err::<(), KernelError>(KernelError::InvalidArgument) && final(pixels)@
            == old(pixels)@,
{
    check_image(pixels.len(), width, height)?;
    let len = pixels.len();
    let ghost s = pixels@;
    let mut i: usize = 0;
    while i < len
        invariant
            len == pixels@.len(),
            len == s.len(),
            len % 4 == 0,
            i % 4 == 0,
            i <= len,
            forall|k: int| i <= k < len ==> pixels@[k] == s[k],
            forall|k: int| 0 <= k < i ==> pixels@[k] == #[trigger] invert_spec(s)[k],
        decreases len - i,
    {
        let r = pixels[i];
        let g = pixels[i + 1];
        let b = pixels[i + 2];
        pixels[i] = 255 - r;
        pixels[i + 1] = 255 - g;
        pixels[i + 2] = 255 - b;
        i += 4;
    }
    assert(pixels@ =~= invert_spec(s));
    Ok(())
}

/// Turns each pixel black or white by comparing its luminosity with `level`.
#[verifier::rlimit(80)]
pub fn threshold(pixels: &mut [u8], width: usize, height: usize, level: u8) -> (r: Result<
    (),
    KernelError,
>)
    ensures
        r is Ok <==> old(pixels)@.len() == image_bytes(width, height),
        r is Ok ==> final(pixels)@ == threshold_spec(old(pixels)@, level),
        r is Err ==> r == Err::<(), KernelError>(KernelError::InvalidArgument) && final(pixels)@
            == old(pixels)@,
{
    check_image(pixels.len(), width, height)?;
    let len = pixels.len();
    let ghost s = pixels@;
    let mut i: usize = 0;
    while i < len
        invariant
            len == pixels@.len(),
            len == s.len(),
            len % 4 == 0,
            i % 4 == 0,
            i <= len,
            forall|k: int| i <= k < len ==> pixels@[k] == s[k],
            forall|k: int| 0 <= k < i ==> pixels@[k] == #[trigger] threshold_spec(s, level)[k],
        decreases len - i,
    {
        let gray = luma_of(pixels[i], pixels[i + 1], pixels[i + 2]);
        let val: u8 = if gray > level as u32 { 255 } else { 0 };
        pixels[i] = val;
        pixels[i + 1] = val;
        pixels[i + 2] = val;
        i += 4;
    }
    assert(pixels@ =~= threshold_spec(s, level));
    Ok(())
}

/// Adds `amount` to every colour channel, clamped to 0..=255; alpha is left unchanged.
#[verifier::rlimit(80)]
pub fn adjust_brightness(pixels: &mut [u8], width: usize, height: usize, amount: i32) -> (r:
    Result<(), KernelError>)
    ensures
        r is Ok <==> old(pixels)@.len() == image_bytes(width, height),
        r is Ok ==> final(pixels)@ == brightness_spec(old(pixels)@, amount),
        r is Err ==> r == Err::<(), KernelError>(KernelError::InvalidArgument) && final(pixels)@
            == old(pixels)@,
{
    check_image(pixels.len(), width, height)?;
    let len = pixels.len();
    let ghost s = pixels@;
    let mut i: usize = 0;
    while i < len
        invariant
            len == pixels@.len(),
            len == s.len(),
            i <= len,
            forall|k: int| i <= k < len ==> pixels@[k] == s[k],
            forall|k: int| 0 <= k < i ==> pixels@[k] == #[trigger] brightness_spec(s, amount)[k],
        decreases len - i,
    {
        if i % 4 != 3 {
            let v = pixels[i] as i64 + amount as i64;
            let c: u8 = if v < 0 {
                0
            } else if v > 255 {
                255
            } else {
                v as u8
            };
            pixels[i] = c;
        }
        i += 1;
    }
    assert(pixels@ =~= brightness_spec(s, amount));
    Ok(())
}

/// Grayscale is idempotent: converting an already gray image changes nothing.
pub proof fn lemma_grayscale_idempotent(s: Seq<u8>)
    requires
        s.len() % 4 == 0,
    ensures
        grayscale_spec(grayscale_spec(s)) == grayscale_spec(s),
{
    let g = grayscale_spec(s);
    assert forall|i: int| 0 <= i < s.len() implies #[trigger] grayscale_spec(g)[i] == g[i] by {
        if i % 4 != 3 {
            let b = pixel_base(i);
            assert(g[b] == g[b + 1] && g[b + 1] == g[b + 2]);
            let v = g[b];
            assert(luma(v, v, v) == v);
        }
    }
    assert(grayscale_spec(g) =~= g);
}

/// Inversion is an involution: inverting twice gives back the image.
pub proof fn lemma_invert_involutive(s: Seq<u8>)
    ensures
        invert_spec(invert_spec(s)) == s,
{
    assert(invert_spec(invert_spec(s)) =~= s);
}

/// Thresholding twice with the same level gives the same image as once.
pub proof fn lemma_threshold_idempotent(s: Seq<u8>, t: u8)
    requires
        s.len() % 4 == 0,
    ensures
        threshold_spec(threshold_spec(s, t), t) == threshold_spec(s, t),
{
    let g = threshold_spec(s, t);
    assert forall|i: int| 0 <= i < s.len() implies #[trigger] threshold_spec(g, t)[i] == g[i] by {
        if i % 4 != 3 {
            let b = pixel_base(i);
            assert(g[b] == g[b + 1] && g[b + 1] == g[b + 2]);
            let v = g[b];
            assert(luma(v, v, v) == v);
        }
    }
    assert(threshold_spec(g, t) =~= g);
}

/// Coordinate `c` clamped into `0..n` (edge replication).
pub open spec fn clamp_coord(c: int, n: int) -> int {
    if c < 0 {
        0
    } else if c >= n {
        n - 1
    } else {
        c
    }
}

/// Sum of channel `c` over the first `cnt` columns of the window row `ny`
/// around column `x`, with columns clamped to the image.
pub open spec fn row_sum(src: Seq<u8>, w: int, x: int, ny: int, c: int, r: int, cnt: nat) -> int
    decreases cnt,
{
    if cnt == 0 {
        0
    } else {
        row_sum(src, w, x, ny, c, r, (cnt - 1) as nat) + src[(ny * w + clamp_coord(
            x + cnt - 1 - r,
            w,
        )) * 4 + c]
    }
}

/// Sum of channel `c` over the first `cnt` rows of the window around `(x, y)`.
pub open spec fn window_sum(
    src: Seq<u8>,
    w: int,
    h: int,
    x: int,
    y: int,
    c: int,
    r: int,
    cnt: nat,
) -> int
    decreases cnt,
{
    if cnt == 0 {
        0
    } else {
        window_sum(src, w, h, x, y, c, r, (cnt - 1) as nat) + row_sum(
            src,
            w,
            x,
            clamp_coord(y + cnt - 1 - r, h),
            c,
            r,
            (2 * r + 1) as nat,
        )
    }
}

/// The box blur of radius `r`: each byte is the truncated mean of its channel
/// over the (2r+1) by (2r+1) window, coordinates clamped to the image.
pub open spec fn blur_spec(src: Seq<u8>, w: int, h: int, r: int) -> Seq<u8> {
    Seq::new(
        src.len(),
        |i: int|
            (window_sum(src, w, h, (i / 4) % w, (i / 4) / w, i % 4, r, (2 * r + 1) as nat) / ((2
                * r + 1) * (2 * r + 1))) as u8,
    )
}

/// Largest radius for which every window sum fits in 64 bits.
pub const MAX_BLUR_RADIUS: usize = 100_000_000;

proof fn lemma_pixel_index(x: int, y: int, w: int, h: int, c: int)
    requires
        0 <= x < w,
        0 <= y < h,
        0 <= c < 4,
    ensures
        0 <= y * w,
        y * w + x < w * h,
        0 <= (y * w + x) * 4 + c < w * h * 4,
{
    assert(y * w + x < w * h) by (nonlinear_arith)
        requires
            0 <= x < w,
            0 <= y < h,
    ;
    assert(0 <= y * w) by (nonlinear_arith)
        requires
            0 <= y,
            0 <= w,
    ;
}

/// Averages each pixel of `src` over a window of radius `radius` into `dst`.
/// Coordinates outside the image are clamped to its edge.
pub fn box_blur(src: &[u8], dst: &mut [u8], width: usize, height: usize, radius: usize) -> (r:
    Result<(), KernelError>)
    requires
        radius <= MAX_BLUR_RADIUS,
    ensures
        r is Ok <==> src@.len() == image_bytes(width, height) && old(dst)@.len() == src@.len(),
        r is Ok ==> final(dst)@ == blur_spec(src@, width as int, height as int, radius as int),
        r is Err ==> r == Err::<(), KernelError>(KernelError::InvalidArgument) && final(dst)@
            == old(dst)@,
{
    check_image(src.len(), width, height)?;
    if dst.len() != src.len() {
        return Err(KernelError::InvalidArgument);
    }
    let len = src.len();
    let d = 2 * radius + 1;
    assert(d * d * 255 <= u64::MAX && d * d > 0) by (nonlinear_arith)
        requires
            1 <= d <= 2 * MAX_BLUR_RADIUS + 1,
    ;
    let area = (d as u64) * (d as u64);
    let ghost w = width as int;
    let ghost h = height as int;
    let ghost rr = radius as int;
    let mut i: usize = 0;
    while i < len
        invariant
            len == src@.len(),
            len == dst@.len(),
            len == w * h * 4,
            w == width,
            h == height,
            rr == radius,
            d == 2 * radius + 1,
            area == d * d,
            area > 0,
            d * d * 255 <= u64::MAX,
            radius <= MAX_BLUR_RADIUS,
            i <= len,
            forall|k: int| 0 <= k < i ==> dst@[k] == #[trigger] blur_spec(src@, w, h, rr)[k],
        decreases len - i,
    {
        let p = i / 4;
        let x = p % width;
        let y = p / width;
        let c = i % 4;
        assert(p < width * height);
        assert(width > 0) by (nonlinear_arith)
            requires
                p < width * height,
        ;
        proof {
            vstd::arithmetic::div_mod::lemma_multiply_divide_lt(p as int, width as int, height as int);
        }
        assert(width <= usize::MAX / 4 && height <= usize::MAX / 4) by (nonlinear_arith)
            requires
                width * height * 4 <= usize::MAX,
                width >= 1,
                height >= 1,
        ;
        let mut sum: u64 = 0;
        let mut jy: usize = 0;
        while jy < d
            invariant
                len == src@.len(),
                len == w * h * 4,
                w == width,
                h == height,
                rr == radius,
                d == 2 * radius + 1,
                d * d * 255 <= u64::MAX,
                radius <= MAX_BLUR_RADIUS,
                width <= usize::MAX / 4,
                height <= usize::MAX / 4,
                0 <= x < w,
                0 <= y < h,
                c < 4,
                jy <= d,
                sum == window_sum(src@, w, h, x as int, y as int, c as int, rr, jy as nat),
                sum <= 255 * jy * d,
            decreases d - jy,
        {
            let ny = if y + jy < radius {
                0
            } else if y + jy - radius >= height {
                height - 1
            } else {
                y + jy - radius
            };
            let mut row: u64 = 0;
            let mut jx: usize = 0;
            while jx < d
                invariant
                    len == src@.len(),
                    len == w * h * 4,
                    w == width,
                    h == height,
                    rr == radius,
                    d == 2 * radius + 1,
                    radius <= MAX_BLUR_RADIUS,
                    width <= usize::MAX / 4,
                    0 <= x < w,
                    0 <= ny < h,
                    c < 4,
                    jx <= d,
                    row == row_sum(src@, w, x as int, ny as int, c as int, rr, jx as nat),
                    row <= 255 * jx,
                decreases d - jx,
            {
                let nx = if x + jx < radius {
                    0
                } else if x + jx - radius >= width {
                    width - 1
                } else {
                    x + jx - radius
                };
                proof {
                    lemma_pixel_index(nx as int, ny as int, w, h, c as int);
                }
                row = row + src[(ny * width + nx) * 4 + c] as u64;
                jx += 1;
            }
            assert(sum + row <= 255 * (jy + 1) * d) by (nonlinear_arith)
                requires
                    sum <= 255 * jy * d,
                    row <= 255 * d,
            ;
            assert(255 * (jy + 1) * d <= d * d * 255) by (nonlinear_arith)
                requires
                    jy < d,
            ;
            sum = sum + row;
            jy += 1;
        }
        assert(sum / area <= 255) by (nonlinear_arith)
            requires
                sum <= 255 * d * d,
                area == d * d,
                area > 0,
        ;
        dst[i] = (sum / area) as u8;
        i += 1;
    }
    assert(dst@ =~= blur_spec(src@, w, h, rr));
    Ok(())
}

/// Every pixel has the colour of the first one.
pub open spec fn uniform_image(src: Seq<u8>) -> bool {
    forall|p: int, c: int|
        0 <= p < src.len() / 4 && 0 <= c < 4 ==> #[trigger] src[p * 4 + c] == src[c]
}

proof fn lemma_row_sum_uniform(src: Seq<u8>, w: int, h: int, x: int, ny: int, c: int, r: int, cnt: nat)
    requires
        src.len() == w * h * 4,
        w > 0,
        0 <= ny < h,
        0 <= c < 4,
        uniform_image(src),
    ensures
        row_sum(src, w, x, ny, c, r, cnt) == (cnt as int) * (src[c] as int),
    decreases cnt,
{
    assert(src.len() >= 4) by (nonlinear_arith)
        requires
            src.len() == w * h * 4,
            w > 0,
            h > 0,
    ;
    if cnt > 0 {
        lemma_row_sum_uniform(src, w, h, x, ny, c, r, (cnt - 1) as nat);
        let nx = clamp_coord(x + cnt - 1 - r, w);
        lemma_pixel_index(nx, ny, w, h, c);
        let p = ny * w + nx;
        let k = p * 4 + c;
        assert(0 <= p < src.len() / 4);
        assert(src[k] == src[c]);
        assert(row_sum(src, w, x, ny, c, r, cnt) == row_sum(src, w, x, ny, c, r, (cnt - 1) as nat)
            + src[k]);
        let v = src[c] as int;
        let n = cnt as int;
        let m = (cnt - 1) as nat;
        assert((m as int) * v + v == n * v) by (nonlinear_arith)
            requires
                m as int == n - 1,
        ;
    } else {
        let v = src[c] as int;
        assert(0 * v == 0);
    }
}

proof fn lemma_window_sum_uniform(src: Seq<u8>, w: int, h: int, x: int, y: int, c: int, r: int, cnt: nat)
    requires
        src.len() == w * h * 4,
        w > 0,
        h > 0,
        r >= 0,
        0 <= c < 4,
        uniform_image(src),
    ensures
        window_sum(src, w, h, x, y, c, r, cnt) == (cnt as int) * (2 * r + 1) * (src[c] as int),
    decreases cnt,
{
    assert(src.len() >= 4) by (nonlinear_arith)
        requires
            src.len() == w * h * 4,
            w > 0,
            h > 0,
    ;
    if cnt > 0 {
        lemma_window_sum_uniform(src, w, h, x, y, c, r, (cnt - 1) as nat);
        let ny = clamp_coord(y + cnt - 1 - r, h);
        lemma_row_sum_uniform(src, w, h, x, ny, c, r, (2 * r + 1) as nat);
        assert(((2 * r + 1) as nat) as int == 2 * r + 1);
        let v = src[c] as int;
        let n = cnt as int;
        assert(window_sum(src, w, h, x, y, c, r, cnt) == window_sum(src, w, h, x, y, c, r, (cnt - 1) as nat)
            + (2 * r + 1) * v);
        let m = (cnt - 1) as nat;
        assert((m as int) * (2 * r + 1) * v + (2 * r + 1) * v == n * (2 * r + 1) * v) by (nonlinear_arith)
            requires
                m as int == n - 1,
        ;
        assert(window_sum(src, w, h, x, y, c, r, m) == (m as int) * (2 * r + 1) * v);
        assert(window_sum(src, w, h, x, y, c, r, cnt) == n * (2 * r + 1) * v);
    } else {
        let v = src[c] as int;
        assert(0 * (2 * r + 1) * v == 0) by (nonlinear_arith);
    }
}

/// Blurring an image whose pixels all have the same colour leaves it
/// unchanged, whatever the radius.
pub proof fn lemma_blur_uniform(src: Seq<u8>, w: int, h: int, r: int)
    requires
        src.len() == w * h * 4,
        w >= 0,
        h >= 0,
        r >= 0,
        uniform_image(src),
    ensures
        blur_spec(src, w, h, r) == src,
{
    assert forall|i: int| 0 <= i < src.len() implies #[trigger] blur_spec(src, w, h, r)[i]
        == src[i] by {
        assert(w > 0 && h > 0) by (nonlinear_arith)
            requires
                0 <= i < w * h * 4,
                w >= 0,
                h >= 0,
        ;
        let c = i % 4;
        let d = 2 * r + 1;
        let p = i / 4;
        assert(i == p * 4 + c);
        assert(0 <= p < src.len() / 4);
        assert(src[p * 4 + c] == src[c]);
        assert((d as nat) as int == d);
        lemma_window_sum_uniform(src, w, h, (i / 4) % w, (i / 4) / w, c, r, d as nat);
        assert(d * d > 0) by (nonlinear_arith)
            requires
                d > 0,
        ;
        assert(d * d * src[c] == src[c] * (d * d)) by (nonlinear_arith);
        vstd::arithmetic::div_mod::lemma_div_multiples_vanish(src[c] as int, d * d);
    }
    assert(blur_spec(src, w, h, r) =~= src);
}

/// Red channel of the pixel at `(x, y)`.
pub open spec fn red(src: Seq<u8>, w: int, x: int, y: int) -> int {
    src[(y * w + x) * 4] as int
}

/// Horizontal Sobel response at `(x, y)` over the red channel.
pub open spec fn sobel_gx(src: Seq<u8>, w: int, x: int, y: int) -> int {
    -red(src, w, x - 1, y - 1) + red(src, w, x + 1, y - 1) - 2 * red(src, w, x - 1, y) + 2 * red(
        src,
        w,
        x + 1,
        y,
    ) - red(src, w, x - 1, y + 1) + red(src, w, x + 1, y + 1)
}

/// Vertical Sobel response at `(x, y)` over the red channel.
pub open spec fn sobel_gy(src: Seq<u8>, w: int, x: int, y: int) -> int {
    -red(src, w, x - 1, y - 1) - 2 * red(src, w, x, y - 1) - red(src, w, x + 1, y - 1) + red(
        src,
        w,
        x - 1,
        y + 1,
    ) + 2 * red(src, w, x, y + 1) + red(src, w, x + 1, y + 1)
}

/// `k` is the integer square root of `n`, saturated at 255: the largest
/// `k <= 255` with `k * k <= n`.
pub open spec fn is_capped_root(n: int, k: int) -> bool {
    0 <= k <= 255 && k * k <= n && (k == 255 || n < (k + 1) * (k + 1))
}

/// Integer square root of `n`, saturated at 255.
pub open spec fn edge_magnitude(n: int) -> int {
    choose|k: int| is_capped_root(n, k)
}

proof fn lemma_capped_root_unique(n: int, k: int, c: int)
    requires
        is_capped_root(n, k),
        is_capped_root(n, c),
    ensures
        k == c,
{
    if c < k {
        assert((c + 1) * (c + 1) <= k * k) by (nonlinear_arith)
            requires
                0 <= c,
                c + 1 <= k,
        ;
    } else if k < c {
        assert((k + 1) * (k + 1) <= c * c) by (nonlinear_arith)
            requires
                0 <= k,
                k + 1 <= c,
        ;
    }
}

/// `(x, y)` is not on the one-pixel border.
pub open spec fn interior(w: int, h: int, x: int, y: int) -> bool {
    1 <= x && x + 1 < w && 1 <= y && y + 1 < h
}

/// Sobel edge detection: interior pixels get the gradient magnitude in their
/// colour channels and an opaque alpha; border pixels keep what `dst` held.
pub open spec fn sobel_spec(src: Seq<u8>, dst: Seq<u8>, w: int, h: int) -> Seq<u8> {
    Seq::new(
        dst.len(),
        |i: int|
            if interior(w, h, (i / 4) % w, (i / 4) / w) {
                if i % 4 == 3 {
                    255u8
                } else {
                    edge_magnitude(
                        sobel_gx(src, w, (i / 4) % w, (i / 4) / w) * sobel_gx(
                            src,
                            w,
                            (i / 4) % w,
                            (i / 4) / w,
                        ) + sobel_gy(src, w, (i / 4) % w, (i / 4) / w) * sobel_gy(
                            src,
                            w,
                            (i / 4) % w,
                            (i / 4) / w,
                        ),
                    ) as u8
                }
            } else {
                dst[i]
            },
    )
}

fn capped_root(n: u32) -> (k: u32)
    requires
        n <= 4_000_000,
    ensures
        k == edge_magnitude(n as int),
        k <= 255,
{
    let mut k: u32 = 0;
    let mut sq: u32 = 1;
    while k < 255 && sq <= n
        invariant
            k <= 255,
            n <= 4_000_000,
            sq == (k + 1) * (k + 1),
            k * k <= n,
        decreases 255 - k,
    {
        assert(sq + 2 * (k + 1) + 1 == (k + 2) * (k + 2)) by (nonlinear_arith)
            requires
                sq == (k + 1) * (k + 1),
        ;
        sq = sq + 2 * (k + 1) + 1;
        k += 1;
    }
    proof {
        assert(is_capped_root(n as int, k as int));
        let c = choose|c: int| is_capped_root(n as int, c);
        lemma_capped_root_unique(n as int, k as int, c);
    }
    k
}

fn red_at(src: &[u8], width: usize, height: usize, x: usize, y: usize) -> (v: i32)
    requires
        src@.len() == width * height * 4,
        x < width,
        y < height,
    ensures
        v == red(src@, width as int, x as int, y as int),
{
    proof {
        lemma_pixel_index(x as int, y as int, width as int, height as int, 0);
    }
    let len = src.len();
    assert(y * width + x < width * height);
    assert(width * height * 4 == len);
    src[(y * width + x) * 4] as i32
}

fn sobel_at(src: &[u8], width: usize, height: usize, x: usize, y: usize) -> (m: u8)
    requires
        src@.len() == width * height * 4,
        interior(width as int, height as int, x as int, y as int),
    ensures
        m == edge_magnitude(
            sobel_gx(src@, width as int, x as int, y as int) * sobel_gx(
                src@,
                width as int,
                x as int,
                y as int,
            ) + sobel_gy(src@, width as int, x as int, y as int) * sobel_gy(
                src@,
                width as int,
                x as int,
                y as int,
            ),
        ),
{
    let tl = red_at(src, width, height, x - 1, y - 1);
    let t = red_at(src, width, height, x, y - 1);
    let tr = red_at(src, width, height, x + 1, y - 1);
    let l = red_at(src, width, height, x - 1, y);
    let rt = red_at(src, width, height, x + 1, y);
    let bl = red_at(src, width, height, x - 1, y + 1);
    let b = red_at(src, width, height, x, y + 1);
    let br = red_at(src, width, height, x + 1, y + 1);
    let gx = -tl + tr - 2 * l + 2 * rt - bl + br;
    let gy = -tl - 2 * t - tr + bl + 2 * b + br;
    assert(gx * gx <= 1020 * 1020 && gy * gy <= 1020 * 1020) by (nonlinear_arith)
        requires
            -1020 <= gx <= 1020,
            -1020 <= gy <= 1020,
    ;
    assert(gx * gx >= 0 && gy * gy >= 0) by (nonlinear_arith);
    let n = (gx * gx + gy * gy) as u32;
    capped_root(n) as u8
}

/// Sobel edge detection over the red channel of `src`, written to `dst`.
/// The one-pixel border of `dst` is left as it was.
pub fn sobel_edge_detect(src: &[u8], dst: &mut [u8], width: usize, height: usize) -> (r:
    Result<(), KernelError>)
    ensures
        r is Ok <==> src@.len() == image_bytes(width, height) && old(dst)@.len() == src@.len(),
        r is Ok ==> final(dst)@ == sobel_spec(src@, old(dst)@, width as int, height as int),
        r is Err ==> r == Err::<(), KernelError>(KernelError::InvalidArgument) && final(dst)@
            == old(dst)@,
{
    check_image(src.len(), width, height)?;
    if dst.len() != src.len() {
        return Err(KernelError::InvalidArgument);
    }
    let len = src.len();
    let ghost w = width as int;
    let ghost h = height as int;
    let ghost d0 = dst@;
    let mut i: usize = 0;
    while i < len
        invariant
            len == src@.len(),
            len == dst@.len(),
            len == d0.len(),
            len == w * h * 4,
            w == width,
            h == height,
            i <= len,
            forall|k: int| i <= k < len ==> dst@[k] == d0[k],
            forall|k: int| 0 <= k < i ==> dst@[k] == #[trigger] sobel_spec(src@, d0, w, h)[k],
        decreases len - i,
    {
        let p = i / 4;
        let x = p % width;
        let y = p / width;
        if x >= 1 && x + 1 < width && y >= 1 && y + 1 < height {
            if i % 4 == 3 {
                dst[i] = 255;
            } else {
                let m = sobel_at(src, width, height, x, y);
                dst[i] = m;
            }
        }
        i += 1;
    }
    assert(dst@ =~= sobel_spec(src@, d0, w, h));
    Ok(())
}

} // verus!
