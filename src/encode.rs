//! Turns a raster into the packed index stream and the widened preview bytes.
use vstd::prelude::*;
use crate::color::{reduce_spec, widen_spec, widen_color};
use crate::depth::{valid_bpp, per_byte_spec, field_bits_spec, row_bytes_spec, depth_layout, lemma_row_bytes};
use crate::error::ConvertError;
use crate::global::{GlobalPalette, Table, add_colors, add_images, lemma_content_phase};
use crate::palette::{first_seen, lemma_first_seen_props, ImagePalette};
use crate::raster::Raster;

verus! {

/// Bits packed into one byte, most significant first: each value is shifted
/// in from the right after the byte so far moves left by `bits`.
pub open spec fn fold_bits(s: Seq<u8>, bits: u8) -> u8
    decreases s.len(),
{
    if s.len() == 0 {
        0
    } else {
        (fold_bits(s.drop_last(), bits) << bits) | s.last()
    }
}

/// The `j`-th group of `n` values of `s`, padded with zeros past its end.
pub open spec fn chunk(s: Seq<u8>, n: nat, j: int) -> Seq<u8> {
    Seq::new(n, |k: int| if j * n + k < s.len() { s[j * n + k] } else { 0u8 })
}

/// The bytes of one row of indices at depth `bpp`: one byte per index at 6 and
/// 8 bits per pixel, else groups of indices packed into a byte each.
pub open spec fn pack_row(s: Seq<u8>, bpp: u8) -> Seq<u8> {
    let n = per_byte_spec(bpp);
    if n == 1 {
        s
    } else {
        Seq::new(
            row_bytes_spec(s.len(), bpp),
            |j: int| fold_bits(chunk(s, n, j), field_bits_spec(bpp) as u8),
        )
    }
}

/// The source column shown at output column `x`: both canvases are centered.
pub open spec fn src_x(r: Raster, ow: nat, x: int) -> int {
    x + r.width as int / 2 - ow as int / 2
}

/// The source row shown at output row `y`.
pub open spec fn src_y(r: Raster, oh: nat, y: int) -> int {
    y + r.height as int / 2 - oh as int / 2
}

/// Output pixel `(x, y)` shows a pixel of the source.
pub open spec fn visible(r: Raster, ow: nat, oh: nat, x: int, y: int) -> bool {
    0 <= src_x(r, ow, x) < r.width && 0 <= src_y(r, oh, y) < r.height
}

/// Row-major position of the source pixel shown at output pixel `(x, y)`.
pub open spec fn src_pos(r: Raster, ow: nat, oh: nat, x: int, y: int) -> int {
    src_y(r, oh, y) * r.width + src_x(r, ow, x)
}

/// Output pixel `(x, y)` is background, or its color has a palette slot.
pub open spec fn mapped_at(r: Raster, ow: nat, oh: nat, t: Table, x: int, y: int) -> bool {
    visible(r, ow, oh, x, y) ==> t.map[r.code_at(src_pos(r, ow, oh, x, y)) as int] is Some
}

/// Every visible output pixel's color has a palette slot.
pub open spec fn all_mapped(r: Raster, ow: nat, oh: nat, t: Table) -> bool {
    forall|x: int, y: int| 0 <= x < ow && 0 <= y < oh ==> #[trigger] mapped_at(r, ow, oh, t, x, y)
}

/// The index written for output pixel `(x, y)`: 0 for background, else the
/// color's slot, with the reduced alpha in the top two bits for RGBA at 8
/// bits per pixel.
pub open spec fn pixel_index(r: Raster, ow: nat, oh: nat, bpp: u8, t: Table, x: int, y: int) -> u8 {
    if !visible(r, ow, oh, x, y) {
        0
    } else {
        let p = src_pos(r, ow, oh, x, y);
        let s = t.map[r.code_at(p) as int]->0;
        if bpp == 8 && r.channels == 4 {
            s | ((r.alpha_at(p) * 64) as u8)
        } else {
            s
        }
    }
}

/// Preview byte `k` (R, G, B) of output pixel `(x, y)`: the widened reduced
/// channel, or 0 for background.
pub open spec fn preview_byte(r: Raster, ow: nat, oh: nat, x: int, y: int, k: int) -> u8 {
    if visible(r, ow, oh, x, y) {
        widen_spec(reduce_spec(r.sample(src_pos(r, ow, oh, x, y), k)))
    } else {
        0
    }
}

/// The indices of output row `y`.
pub open spec fn row_indices(r: Raster, ow: nat, oh: nat, bpp: u8, t: Table, y: int) -> Seq<u8> {
    Seq::new(ow, |x: int| pixel_index(r, ow, oh, bpp, t, x, y))
}

/// The preview bytes of output row `y`: three per pixel.
pub open spec fn preview_row(r: Raster, ow: nat, oh: nat, y: int) -> Seq<u8> {
    Seq::new(3 * ow, |i: int| preview_byte(r, ow, oh, i / 3, y, i % 3))
}

/// The packed index stream of the first `y` output rows.
pub open spec fn packed_rows(r: Raster, ow: nat, oh: nat, bpp: u8, t: Table, y: nat) -> Seq<u8>
    decreases y,
{
    if y == 0 {
        Seq::empty()
    } else {
        packed_rows(r, ow, oh, bpp, t, (y - 1) as nat) + pack_row(
            row_indices(r, ow, oh, bpp, t, y - 1),
            bpp,
        )
    }
}

/// The preview bytes of the first `y` output rows.
pub open spec fn preview_rows(r: Raster, ow: nat, oh: nat, y: nat) -> Seq<u8>
    decreases y,
{
    if y == 0 {
        Seq::empty()
    } else {
        preview_rows(r, ow, oh, (y - 1) as nat) + preview_row(r, ow, oh, y - 1)
    }
}

/// Packs one row of indices at depth `bpp`, most significant bits first; a
/// last, partial byte is filled up with zero bits.
pub fn pack_row_bytes(indices: &Vec<u8>, bpp: u8) -> (r: Vec<u8>)
    requires
        valid_bpp(bpp),
    ensures
        r@ == pack_row(indices@, bpp),
{
    let (n, _) = depth_layout(bpp);
    let len = indices.len();
    let mut out: Vec<u8> = Vec::new();
    if n == 1 {
        let mut x: usize = 0;
        while x < len
            invariant
                len == indices@.len(),
                x <= len,
                out@ == indices@.take(x as int),
            decreases len - x,
        {
            out.push(indices[x]);
            x = x + 1;
            assert(out@ =~= indices@.take(x as int));
        }
        assert(indices@.take(len as int) =~= indices@);
        return out;
    }
    let bits: u8 = if n == 8 { 1 } else if n == 4 { 2 } else { 4 };
    assert(bits == field_bits_spec(bpp) as u8) by {
        assert(8nat / 8nat == 1nat);
        assert(8nat / 4nat == 2nat);
        assert(8nat / 2nat == 4nat);
    }
    let ghost s = indices@;
    let mut acc: u8 = 0;
    let mut cnt: usize = 0;
    let mut q: usize = 0;
    let mut x: usize = 0;
    while x < len
        invariant
            s == indices@,
            len == s.len(),
            n == per_byte_spec(bpp),
            2 <= n <= 8,
            bits == field_bits_spec(bpp) as u8,
            x <= len,
            cnt < n,
            x == q * n + cnt,
            out@.len() == q,
            forall|j: int| 0 <= j < q ==> out@[j] == fold_bits(chunk(s, n as nat, j), bits),
            acc == fold_bits(s.subrange(q * n, x as int), bits),
        decreases len - x,
    {
        proof {
            assert(s.subrange(q * n, x + 1).drop_last() =~= s.subrange(q * n, x as int));
        }
        acc = (acc << bits) | indices[x];
        cnt = cnt + 1;
        x = x + 1;
        if cnt == n {
            proof {
                assert(chunk(s, n as nat, q as int) =~= s.subrange(q * n, x as int));
            }
            out.push(acc);
            acc = 0;
            cnt = 0;
            q = q + 1;
            proof {
                let (qi, ni) = (q as int, n as int);
                assert(qi * ni == (qi - 1) * ni + ni) by (nonlinear_arith);
                assert(s.subrange(q * n, x as int) =~= Seq::<u8>::empty());
            }
        }
    }
    if cnt > 0 {
        let ghost c = chunk(s, n as nat, q as int);
        proof {
            assert(c.take(cnt as int) =~= s.subrange(q * n, x as int));
        }
        let mut k: usize = cnt;
        while k < n
            invariant
                c == chunk(s, n as nat, q as int),
                len == s.len(),
                x == len,
                x == q * n + cnt,
                cnt <= k <= n,
                1 <= bits <= 4,
                n == per_byte_spec(bpp),
                bits == field_bits_spec(bpp) as u8,
                acc == fold_bits(c.take(k as int), bits),
            decreases n - k,
        {
            proof {
                assert(c.take(k + 1).drop_last() =~= c.take(k as int));
                assert(c.take(k + 1).last() == 0u8);
                let a = fold_bits(c.take(k as int), bits);
                assert((a << bits) | 0u8 == a << bits) by (bit_vector);
            }
            acc = acc << bits;
            k = k + 1;
        }
        proof {
            assert(c.take(n as int) =~= c);
        }
        out.push(acc);
        proof {
            lemma_row_bytes(len as nat, bpp, q as nat, cnt as nat);
        }
        assert(out@ =~= pack_row(s, bpp));
    } else {
        proof {
            lemma_row_bytes(len as nat, bpp, q as nat, 0);
        }
        assert(out@ =~= pack_row(s, bpp));
    }
    out
}

/// The packed index stream and the preview bytes of one image.
#[derive(Clone, Debug)]
pub struct Encoded {
    pub data: Vec<u8>,
    pub preview: Vec<u8>,
}

/// Indices and preview bytes of output row `y`, or the error of a visible
/// pixel whose color has no palette slot.
fn encode_row(
    raster: &Raster,
    ow: usize,
    oh: usize,
    bpp: u8,
    palette: &GlobalPalette,
    y: usize,
) -> (r: Result<(Vec<u8>, Vec<u8>), ConvertError>)
    requires
        raster.wf(),
        raster.supported(),
        palette.wf(),
        valid_bpp(bpp),
        y < oh,
        3 * ow * oh <= usize::MAX,
    ensures
        match r {
            Ok((idx, pv)) => {
                &&& forall|x: int| 0 <= x < ow ==> #[trigger] mapped_at(*raster, ow as nat, oh as nat, palette@, x, y as int)
                &&& idx@ == row_indices(*raster, ow as nat, oh as nat, bpp, palette@, y as int)
                &&& pv@ == preview_row(*raster, ow as nat, oh as nat, y as int)
            },
            Err(e) => {
                &&& e == ConvertError::MissingPaletteEntry
                &&& exists|x: int| 0 <= x < ow && !#[trigger] mapped_at(*raster, ow as nat, oh as nat, palette@, x, y as int)
            },
        },
{
    let ghost r = *raster;
    let ghost t = palette@;
    let mut idx: Vec<u8> = Vec::new();
    let mut pv: Vec<u8> = Vec::new();
    if ow == 0 {
        assert(idx@ =~= row_indices(r, ow as nat, oh as nat, bpp, t, y as int));
        assert(pv@ =~= preview_row(r, ow as nat, oh as nat, y as int));
        return Ok((idx, pv));
    }
    proof {
        let (a, b) = (ow as int, oh as int);
        assert(3 * a <= 3 * a * b && 3 * b <= 3 * a * b) by (nonlinear_arith)
            requires
                a >= 1, b >= 1,
        ;
    }
    let w = raster.width;
    let h = raster.height;
    let hx = w / 2;
    let hy = h / 2;
    let ox = ow / 2;
    let oy = oh / 2;
    let row_visible = y + hy >= oy && y + hy - oy < h;
    let sy: usize = if row_visible { y + hy - oy } else { 0 };
    let mut x: usize = 0;
    while x < ow
        invariant
            r == *raster,
            t == palette@,
            raster.wf(),
            raster.supported(),
            palette.wf(),
            valid_bpp(bpp),
            y < oh,
            ow <= usize::MAX / 3,
            oh <= usize::MAX / 3,
            w == r.width,
            h == r.height,
            hx == w / 2,
            ox == ow / 2,
            row_visible == (0 <= src_y(r, oh as nat, y as int) < h),
            row_visible ==> sy == src_y(r, oh as nat, y as int),
            x <= ow,
            forall|x2: int| 0 <= x2 < x ==> #[trigger] mapped_at(r, ow as nat, oh as nat, t, x2, y as int),
            idx@ =~= row_indices(r, ow as nat, oh as nat, bpp, t, y as int).take(x as int),
            pv@ =~= preview_row(r, ow as nat, oh as nat, y as int).take(3 * x),
        decreases ow - x,
    {
        let vis = row_visible && x + hx >= ox && x + hx - ox < w;
        let ghost old_pv = pv@;
        if !vis {
            assert(!visible(r, ow as nat, oh as nat, x as int, y as int));
            idx.push(0);
            pv.push(0);
            pv.push(0);
            pv.push(0);
        } else {
            let sx = x + hx - ox;
            assert(visible(r, ow as nat, oh as nat, x as int, y as int));
            proof {
                let (a, b, c, d) = (sx as int, sy as int, w as int, h as int);
                assert(0 <= b * c + a < c * d) by (nonlinear_arith)
                    requires
                        0 <= a < c, 0 <= b < d,
                ;
            }
            let _len = raster.data.len();
            let p = sy * w + sx;
            assert(p as int == src_pos(r, ow as nat, oh as nat, x as int, y as int));
            let color = raster.reduced_at(p);
            let slot = palette.slot_of(color.code());
            match slot {
                None => {
                    assert(!mapped_at(r, ow as nat, oh as nat, t, x as int, y as int));
                    return Err(ConvertError::MissingPaletteEntry);
                },
                Some(s) => {
                    if bpp == 8 && raster.channels == 4 {
                        let a = raster.reduced_alpha(p);
                        assert(a << 6u8 == (a * 64) as u8) by (bit_vector)
                            requires
                                a < 4u8,
                        ;
                        idx.push(s | (a << 6u8));
                    } else {
                        idx.push(s);
                    }
                    let wide = widen_color(&color);
                    pv.push(wide.r);
                    pv.push(wide.g);
                    pv.push(wide.b);
                },
            }
        }
        proof {
            let full = preview_row(r, ow as nat, oh as nat, y as int);
            assert(pv@ =~= full.take(3 * x + 3)) by {
                assert forall|i: int| 0 <= i < 3 * x + 3 implies pv@[i] == full[i] by {
                    if i < 3 * x {
                        assert(pv@[i] == old_pv[i]);
                    } else {
                        assert(i / 3 == x as int);
                    }
                }
            }
        }
        x = x + 1;
    }
    assert(idx@ =~= row_indices(r, ow as nat, oh as nat, bpp, t, y as int));
    assert(pv@ =~= preview_row(r, ow as nat, oh as nat, y as int));
    Ok((idx, pv))
}

/// Encodes one image onto an output canvas of `out_width` by `out_height`
/// pixels at depth `bpp`, with the shared palette's slots as indices.
/// Fails when the raster is not RGB or RGBA, or when a visible pixel's color
/// has no slot in the palette.
pub fn encode_image(
    raster: &Raster,
    out_width: usize,
    out_height: usize,
    bpp: u8,
    palette: &GlobalPalette,
) -> (r: Result<Encoded, ConvertError>)
    requires
        raster.wf(),
        palette.wf(),
        valid_bpp(bpp),
        3 * out_width * out_height <= usize::MAX,
    ensures
        !raster.supported() ==> r == Err::<Encoded, ConvertError>(
            ConvertError::UnsupportedPixelFormat,
        ),
        raster.supported() && !all_mapped(*raster, out_width as nat, out_height as nat, palette@)
            ==> r == Err::<Encoded, ConvertError>(ConvertError::MissingPaletteEntry),
        raster.supported() && all_mapped(*raster, out_width as nat, out_height as nat, palette@)
            ==> match r {
            Ok(e) => {
                &&& e.data@ == packed_rows(
                    *raster,
                    out_width as nat,
                    out_height as nat,
                    bpp,
                    palette@,
                    out_height as nat,
                )
                &&& e.preview@ == preview_rows(
                    *raster,
                    out_width as nat,
                    out_height as nat,
                    out_height as nat,
                )
            },
            Err(_) => false,
        },
{
    if raster.channels != 3 && raster.channels != 4 {
        return Err(ConvertError::UnsupportedPixelFormat);
    }
    let ghost r = *raster;
    let ghost (ow, oh) = (out_width as nat, out_height as nat);
    let mut data: Vec<u8> = Vec::new();
    let mut preview: Vec<u8> = Vec::new();
    let mut y: usize = 0;
    while y < out_height
        invariant
            r == *raster,
            ow == out_width,
            oh == out_height,
            raster.wf(),
            raster.supported(),
            palette.wf(),
            valid_bpp(bpp),
            3 * out_width * out_height <= usize::MAX,
            y <= out_height,
            forall|x: int, y2: int|
                0 <= x < ow && 0 <= y2 < y ==> #[trigger] mapped_at(r, ow, oh, palette@, x, y2),
            data@ == packed_rows(r, ow, oh, bpp, palette@, y as nat),
            preview@ == preview_rows(r, ow, oh, y as nat),
        decreases out_height - y,
    {
        match encode_row(raster, out_width, out_height, bpp, palette, y) {
            Err(e) => {
                return Err(e);
            },
            Ok((idx, pv)) => {
                let mut row = pack_row_bytes(&idx, bpp);
                let mut pv = pv;
                data.append(&mut row);
                preview.append(&mut pv);
            },
        }
        y = y + 1;
    }
    Ok(Encoded { data, preview })
}

pub proof fn lemma_src_pos_in_bounds(r: Raster, ow: nat, oh: nat, x: int, y: int)
    requires
        visible(r, ow, oh, x, y),
    ensures
        0 <= src_pos(r, ow, oh, x, y) < r.num_pixels(),
        r.codes()[src_pos(r, ow, oh, x, y)] == r.code_at(src_pos(r, ow, oh, x, y)),
{
    let (a, b, c, d) = (src_x(r, ow, x), src_y(r, oh, y), r.width as int, r.height as int);
    assert(0 <= b * c + a < d * c) by (nonlinear_arith)
        requires
            0 <= a < c, 0 <= b < d,
    ;
}

/// The colors of a raster's visible pixels have slots in any table that maps
/// every color of the raster's palette.
pub proof fn lemma_all_mapped(r: Raster, ow: nat, oh: nat, t: Table, codes: Seq<u8>)
    requires
        codes == first_seen(r.codes()),
        forall|k: int| 0 <= k < codes.len() ==> t.map[codes[k] as int] is Some,
    ensures
        all_mapped(r, ow, oh, t),
{
    lemma_first_seen_props(r.codes());
    assert forall|x: int, y: int| 0 <= x < ow && 0 <= y < oh implies #[trigger] mapped_at(r, ow, oh, t, x, y) by {
        if visible(r, ow, oh, x, y) {
            let p = src_pos(r, ow, oh, x, y);
            lemma_src_pos_in_bounds(r, ow, oh, x, y);
            let c = r.code_at(p);
            assert(r.codes().contains(c));
            assert(codes.contains(c));
            let k = choose|k: int| 0 <= k < codes.len() && codes[k] == c;
            assert(t.map[codes[k] as int] is Some);
        }
    }
}

/// An RGB image consolidated alone at 8 bits per pixel writes for each
/// visible pixel the code `(b << 4) | (g << 2) | r` of its reduced color.
pub proof fn lemma_single_image_content_indices(r: Raster, ow: nat, oh: nat, p: ImagePalette, x: int, y: int)
    requires
        r.wf(),
        r.channels == 3,
        p.wf(),
        p.bpp == 8,
        p.codes@ == first_seen(r.codes()),
        add_images(seq![(8u8, p.codes@)]) is Some,
        visible(r, ow, oh, x, y),
    ensures
        pixel_index(r, ow, oh, 8, add_images(seq![(8u8, p.codes@)])->0, x, y) == r.code_at(src_pos(r, ow, oh, x, y)),
{
    let codes = p.codes@;
    let pv = (8u8, codes);
    assert(seq![pv].drop_last() =~= Seq::<(u8, Seq<u8>)>::empty());
    assert(seq![pv].last() == pv);
    lemma_content_phase(codes, codes.len() as int);
    assert(codes.take(codes.len() as int) =~= codes);
    assert(add_images(seq![pv].drop_last()) == Some(crate::global::empty_table()));
    assert(add_colors(crate::global::empty_table(), codes, 8) is Some);
    let t = add_images(seq![pv])->0;
    assert(t == add_colors(crate::global::empty_table(), codes, 8)->0);
    lemma_first_seen_props(r.codes());
    let q = src_pos(r, ow, oh, x, y);
    lemma_src_pos_in_bounds(r, ow, oh, x, y);
    let c = r.code_at(q);
    assert(r.codes().contains(c));
    assert(codes.contains(c));
    let k = choose|k: int| 0 <= k < codes.len() && codes[k] == c;
    assert(c < 64);
    assert(exists|i: int| 0 <= i < codes.len() && codes[i] == c as int);
    assert(t.map[c as int] is Some);
}

/// Folding up to eight one-bit values puts the `k`-th of them at bit
/// `len - 1 - k`.
pub proof fn lemma_fold_one_bits(t: Seq<u8>)
    requires
        t.len() <= 8,
        forall|i: int| 0 <= i < t.len() ==> t[i] <= 1,
    ensures
        forall|k: int|
            0 <= k < t.len() ==> (fold_bits(t, 1) >> ((t.len() - 1 - k) as u8)) & 1 == t[k],
    decreases t.len(),
{
    if t.len() > 0 {
        let u = t.drop_last();
        lemma_fold_one_bits(u);
        let a = fold_bits(u, 1);
        let b = t.last();
        assert(fold_bits(t, 1) == (a << 1u8) | b);
        assert forall|k: int| 0 <= k < t.len() implies (fold_bits(t, 1) >> ((t.len() - 1 - k) as u8)) & 1 == t[k] by {
            if k == t.len() - 1 {
                assert((((a << 1u8) | b) >> 0u8) & 1u8 == b) by (bit_vector)
                    requires
                        b <= 1u8,
                ;
            } else {
                let m = (u.len() - 1 - k) as u8;
                assert(u[k] == t[k]);
                assert((((a << 1u8) | b) >> (m + 1) as u8) & 1u8 == (a >> m) & 1u8) by (bit_vector)
                    requires
                        m < 7u8, b <= 1u8,
                ;
            }
        }
    }
}

/// At one bit per pixel a row of 0/1 indices packs eight pixels into each
/// byte, the first pixel in the most significant bit, the last byte padded
/// with zero bits.
pub proof fn lemma_one_bit_packing(s: Seq<u8>, j: int, k: int)
    requires
        forall|i: int| 0 <= i < s.len() ==> s[i] <= 1,
        0 <= j < pack_row(s, 1).len(),
        0 <= k < 8,
    ensures
        pack_row(s, 1).len() == (s.len() + 7) / 8,
        (pack_row(s, 1)[j] >> ((7 - k) as u8)) & 1 == if 8 * j + k < s.len() {
            s[8 * j + k]
        } else {
            0
        },
{
    assert(8nat / 8nat == 1nat);
    let c = chunk(s, 8, j);
    assert(pack_row(s, 1)[j] == fold_bits(c, 1));
    lemma_fold_one_bits(c);
    assert(c[k] == if j * 8 + k < s.len() { s[j * 8 + k] } else { 0u8 });
    assert(j * 8 == 8 * j);
}

} // verus!
