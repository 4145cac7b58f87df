//! What each supported bit-depth means for packing and palette capacity.
use vstd::prelude::*;

verus! {

/// The bit-depths the display supports.
pub open spec fn valid_bpp(bpp: u8) -> bool {
    bpp == 1 || bpp == 2 || bpp == 3 || bpp == 4 || bpp == 6 || bpp == 8
}

/// How many colors, not counting the background, an image of this depth may use.
pub open spec fn capacity_spec(bpp: u8) -> nat {
    if bpp == 1 {
        1
    } else if bpp == 2 {
        3
    } else if bpp == 3 {
        7
    } else if bpp == 4 {
        15
    } else if bpp == 6 {
        63
    } else {
        64
    }
}

/// How many pixels share one byte of the index stream.
pub open spec fn per_byte_spec(bpp: u8) -> nat {
    if bpp == 1 {
        8
    } else if bpp == 2 {
        4
    } else if bpp == 3 || bpp == 4 {
        2
    } else {
        1
    }
}

/// The bits one pixel occupies in the index stream.
pub open spec fn field_bits_spec(bpp: u8) -> nat {
    8nat / per_byte_spec(bpp)
}

/// Bytes taken by one row of `width` pixels: every row starts a fresh byte.
pub open spec fn row_bytes_spec(width: nat, bpp: u8) -> nat {
    let n = per_byte_spec(bpp);
    ((width + n - 1) as int / n as int) as nat
}

/// Pixels per byte and palette capacity of a bit-depth.
pub fn depth_layout(bpp: u8) -> (r: (usize, usize))
    requires
        valid_bpp(bpp),
    ensures
        r.0 == per_byte_spec(bpp),
        r.1 == capacity_spec(bpp),
{
    if bpp == 1 {
        (8, 1)
    } else if bpp == 2 {
        (4, 3)
    } else if bpp == 3 {
        (2, 7)
    } else if bpp == 4 {
        (2, 15)
    } else if bpp == 6 {
        (1, 63)
    } else {
        (1, 64)
    }
}

/// Bytes of the index stream for an image of `width` by `height` pixels, or
/// `None` when that number does not fit in a `usize`.
pub fn output_size(width: usize, height: usize, bpp: u8) -> (r: Option<usize>)
    requires
        valid_bpp(bpp),
    ensures
        row_bytes_spec(width as nat, bpp) * height <= usize::MAX ==> r == Some(
            (row_bytes_spec(width as nat, bpp) * height) as usize,
        ),
        row_bytes_spec(width as nat, bpp) * height > usize::MAX ==> r is None,
{
    let (n, _) = depth_layout(bpp);
    let q = width / n;
    let m = width % n;
    proof {
        assert(width == q * n + m) by (nonlinear_arith)
            requires
                n >= 1, q == width / n, m == width % n,
        ;
        assert(m > 0 ==> q < usize::MAX) by (nonlinear_arith)
            requires
                width == q * n + m, m < n, width <= usize::MAX,
        ;
        lemma_row_bytes(width as nat, bpp, q as nat, m as nat);
    }
    let row: usize = q + if m == 0 { 0 } else { 1 };
    row.checked_mul(height)
}

/// A row of `width = q * n + m` pixels, `m < n`, fills `q` whole bytes and
/// one more when `m > 0`.
pub proof fn lemma_row_bytes(width: nat, bpp: u8, q: nat, m: nat)
    requires
        valid_bpp(bpp),
        m < per_byte_spec(bpp),
        width == q * per_byte_spec(bpp) + m,
    ensures
        row_bytes_spec(width, bpp) == q + if m > 0 { 1nat } else { 0nat },
{
    let n = per_byte_spec(bpp) as int;
    let w = width as int;
    let qi = q as int;
    let mi = m as int;
    if m == 0 {
        assert((w + n - 1) / n == qi) by (nonlinear_arith)
            requires
                n >= 1, w == qi * n, qi >= 0,
        ;
    } else {
        assert((w + n - 1) / n == qi + 1) by (nonlinear_arith)
            requires
                n >= 1, w == qi * n + mi, 0 < mi < n, qi >= 0,
        ;
    }
}

} // verus!
