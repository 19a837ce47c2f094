//! Binary PPM (P6) serialization.
//!
//! The output is the header `P6\n{W} {H} 255\n` followed by one
//! (red, green, blue) byte triplet per pixel in row-major order; alpha is
//! discarded. Writing the bytes to a file is the caller's business.

use vstd::prelude::*;

use crate::color::{red_of, green_of, blue_of, red_part, green_part, blue_part,
    lemma_channel_bounds};

verus! {

/// The decimal digits of n, as ASCII bytes, most significant first.
pub open spec fn dec_digits(n: int) -> Seq<u8>
    decreases n,
{
    if n < 10 {
        seq![(48 + if n >= 0 {
            n
        } else {
            0
        }) as u8]
    } else {
        dec_digits(n / 10) + seq![(48 + n % 10) as u8]
    }
}

/// The byte triplets of the first k pixels: red, green, blue of each.
pub open spec fn rgb_prefix(pixels: Seq<u32>, k: int) -> Seq<u8>
    decreases k,
{
    if k <= 0 {
        Seq::empty()
    } else {
        rgb_prefix(pixels, k - 1) + seq![
            red_of(pixels[k - 1]) as u8,
            green_of(pixels[k - 1]) as u8,
            blue_of(pixels[k - 1]) as u8,
        ]
    }
}

/// The header `P6\n{w} {h} 255\n` as bytes.
pub open spec fn ppm_header(w: int, h: int) -> Seq<u8> {
    seq![80u8, 54u8, 10u8] + dec_digits(w) + seq![32u8] + dec_digits(h) + seq![
        32u8,
        50u8,
        53u8,
        53u8,
        10u8,
    ]
}

/// The whole P6 serialization of a w × h pixel sequence.
pub open spec fn ppm_bytes(w: int, h: int, pixels: Seq<u32>) -> Seq<u8> {
    ppm_header(w, h) + rgb_prefix(pixels, pixels.len() as int)
}

/// The byte triplet of pixel k sits at offset `3k` after the header, and
/// holds exactly its red, green and blue channels: the serialization loses
/// nothing but alpha.
pub proof fn lemma_ppm_pixel_bytes(w: int, h: int, pixels: Seq<u32>, k: int)
    requires
        0 <= k < pixels.len(),
    ensures
        ({
            let out = ppm_bytes(w, h, pixels);
            let base = ppm_header(w, h).len() + 3 * k;
            &&& out.len() == ppm_header(w, h).len() + 3 * pixels.len()
            &&& out[base] == red_of(pixels[k]) as u8
            &&& out[base + 1] == green_of(pixels[k]) as u8
            &&& out[base + 2] == blue_of(pixels[k]) as u8
        }),
{
    lemma_rgb_prefix_len(pixels, pixels.len() as int);
    lemma_rgb_prefix_at(pixels, pixels.len() as int, k);
}

/// The triplet sequence of k pixels is 3k bytes long.
pub proof fn lemma_rgb_prefix_len(pixels: Seq<u32>, k: int)
    ensures
        rgb_prefix(pixels, k).len() == 3 * (if k >= 0 {
            k
        } else {
            0
        }),
    decreases k,
{
    if k > 0 {
        lemma_rgb_prefix_len(pixels, k - 1);
    }
}

/// Within the first n triplets, pixel k's triplet sits at offset 3k.
proof fn lemma_rgb_prefix_at(pixels: Seq<u32>, n: int, k: int)
    requires
        0 <= k < n,
    ensures
        rgb_prefix(pixels, n)[3 * k] == red_of(pixels[k]) as u8,
        rgb_prefix(pixels, n)[3 * k + 1] == green_of(pixels[k]) as u8,
        rgb_prefix(pixels, n)[3 * k + 2] == blue_of(pixels[k]) as u8,
    decreases n,
{
    lemma_rgb_prefix_len(pixels, n - 1);
    if k < n - 1 {
        lemma_rgb_prefix_at(pixels, n - 1, k);
    }
}

/// Appends the decimal digits of n.
fn push_decimal(out: &mut Vec<u8>, n: u32)
    ensures
        final(out)@ == old(out)@ + dec_digits(n as int),
    decreases n,
{
    if n < 10 {
        out.push(48 + (n as u8));
        proof {
            assert(final(out)@ =~= old(out)@ + dec_digits(n as int));
        }
    } else {
        let q = n / 10;
        let r = n % 10;
        push_decimal(out, q);
        out.push(48 + (r as u8));
        proof {
            assert(final(out)@ =~= old(out)@ + dec_digits(n as int));
        }
    }
}

/// Serializes a w × h row-major pixel sequence as binary PPM bytes.
pub fn ppm_data(width: u32, height: u32, pixels: &Vec<u32>) -> (out: Vec<u8>)
    requires
        width * height == pixels@.len(),
    ensures
        out@ == ppm_bytes(width as int, height as int, pixels@),
{
    let mut out: Vec<u8> = Vec::new();
    out.push(80);
    out.push(54);
    out.push(10);
    push_decimal(&mut out, width);
    out.push(32);
    push_decimal(&mut out, height);
    out.push(32);
    out.push(50);
    out.push(53);
    out.push(53);
    out.push(10);
    proof {
        assert(out@ =~= ppm_header(width as int, height as int));
    }
    let n = pixels.len();
    let ghost hdr = out@;
    let mut k: usize = 0;
    while k < n
        invariant
            n == pixels@.len(),
            0 <= k <= n,
            hdr == ppm_header(width as int, height as int),
            out@ == hdr + rgb_prefix(pixels@, k as int),
        decreases n - k,
    {
        let p = pixels[k];
        proof {
            lemma_channel_bounds(p);
        }
        out.push(red_part(p) as u8);
        out.push(green_part(p) as u8);
        out.push(blue_part(p) as u8);
        proof {
            assert(out@ =~= hdr + rgb_prefix(pixels@, k as int + 1));
        }
        k = k + 1;
    }
    out
}

} // verus!