//! The palette of one image: its distinct reduced colors and their indices.
use vstd::prelude::*;
use crate::depth::{valid_bpp, capacity_spec, depth_layout};
use crate::error::ConvertError;
use crate::raster::Raster;

verus! {

/// The distinct values of `s`, in the order of their first occurrence.
pub open spec fn first_seen(s: Seq<u8>) -> Seq<u8>
    decreases s.len(),
{
    if s.len() == 0 {
        Seq::empty()
    } else {
        let prev = first_seen(s.drop_last());
        if prev.contains(s.last()) {
            prev
        } else {
            prev.push(s.last())
        }
    }
}

/// The index an image of depth `bpp` gives to the `i`-th distinct color `code`:
/// the code itself at 8 bits per pixel, else `i + 1` (index 0 is the background).
pub open spec fn entry_index(bpp: u8, i: int, code: u8) -> int {
    if bpp == 8 {
        code as int
    } else {
        i + 1
    }
}

pub proof fn lemma_first_seen_len_grows(s: Seq<u8>, n: int)
    requires
        0 <= n <= s.len(),
    ensures
        first_seen(s.take(n)).len() <= first_seen(s).len(),
    decreases s.len() - n,
{
    if n < s.len() {
        lemma_first_seen_len_grows(s, n + 1);
        assert(s.take(n + 1).drop_last() =~= s.take(n));
    } else {
        assert(s.take(n) =~= s);
    }
}

pub proof fn lemma_first_seen_props(s: Seq<u8>)
    ensures
        forall|c: u8| first_seen(s).contains(c) <==> s.contains(c),
        forall|i: int, j: int|
            0 <= i < j < first_seen(s).len() ==> first_seen(s)[i] != first_seen(s)[j],
    decreases s.len(),
{
    if s.len() > 0 {
        let t = s.drop_last();
        let x = s.last();
        lemma_first_seen_props(t);
        let prev = first_seen(t);
        let fs = first_seen(s);
        assert forall|c: u8| s.contains(c) <==> (t.contains(c) || c == x) by {
            if s.contains(c) {
                let k = choose|k: int| 0 <= k < s.len() && s[k] == c;
                if k < s.len() - 1 {
                    assert(t[k] == c);
                }
            }
            if t.contains(c) {
                let k = choose|k: int| 0 <= k < t.len() && t[k] == c;
                assert(s[k] == c);
            }
            if c == x {
                assert(s[s.len() - 1] == c);
            }
        }
        if prev.contains(x) {
            assert(fs == prev);
        } else {
            assert(fs == prev.push(x));
            assert forall|c: u8| fs.contains(c) <==> (prev.contains(c) || c == x) by {
                if fs.contains(c) {
                    let k = choose|k: int| 0 <= k < fs.len() && fs[k] == c;
                    if k < prev.len() {
                        assert(prev[k] == c);
                    }
                }
                if prev.contains(c) {
                    let k = choose|k: int| 0 <= k < prev.len() && prev[k] == c;
                    assert(fs[k] == c);
                }
                if c == x {
                    assert(fs[fs.len() - 1] == c);
                }
            }
            assert forall|i: int, j: int| 0 <= i < j < fs.len() implies fs[i] != fs[j] by {
                if j == fs.len() - 1 {
                    assert(prev[i] == fs[i]);
                    assert(prev.contains(fs[i]));
                } else {
                    assert(prev[i] == fs[i] && prev[j] == fs[j]);
                }
            }
        }
    } else {
        assert(first_seen(s) =~= Seq::<u8>::empty());
    }
}

/// The colors of one image in order of first appearance, and the depth that
/// decides their indices.
#[derive(Clone, Debug)]
pub struct ImagePalette {
    pub bpp: u8,
    pub codes: Vec<u8>,
}

impl ImagePalette {
    /// Codes are reduced colors, distinct, and within the depth's capacity.
    pub open spec fn wf(&self) -> bool {
        &&& valid_bpp(self.bpp)
        &&& self.codes@.len() <= capacity_spec(self.bpp)
        &&& forall|i: int| 0 <= i < self.codes@.len() ==> self.codes@[i] < 64
        &&& forall|i: int, j: int|
            0 <= i < j < self.codes@.len() ==> self.codes@[i] != self.codes@[j]
    }

    /// An empty palette for an image of depth `bpp`.
    pub fn empty(bpp: u8) -> (r: ImagePalette)
        requires
            valid_bpp(bpp),
        ensures
            r.wf(),
            r.bpp == bpp,
            r.codes@.len() == 0,
    {
        ImagePalette { bpp, codes: Vec::new() }
    }

    /// The index given to the `i`-th distinct color.
    pub fn index_at(&self, i: usize) -> (r: u8)
        requires
            self.wf(),
            i < self.codes@.len(),
        ensures
            r == entry_index(self.bpp, i as int, self.codes@[i as int]),
    {
        if self.bpp == 8 {
            self.codes[i]
        } else {
            (i + 1) as u8
        }
    }
}

/// Scans the pixels of `raster` in row-major order and lists its distinct
/// reduced colors in the order met. Fails when the raster is not RGB or RGBA,
/// or when the colors are more than an image of depth `bpp` may use.
pub fn build_image_palette(raster: &Raster, bpp: u8) -> (r: Result<ImagePalette, ConvertError>)
    requires
        raster.wf(),
        valid_bpp(bpp),
    ensures
        !raster.supported() ==> r == Err::<ImagePalette, ConvertError>(
            ConvertError::UnsupportedPixelFormat,
        ),
        raster.supported() && first_seen(raster.codes()).len() > capacity_spec(bpp) ==> r
            == Err::<ImagePalette, ConvertError>(ConvertError::PaletteOverflow),
        raster.supported() && first_seen(raster.codes()).len() <= capacity_spec(bpp) ==> (
        match r {
            Ok(p) => p.wf() && p.bpp == bpp && p.codes@ == first_seen(raster.codes()),
            Err(_) => false,
        }),
{
    if raster.channels != 3 && raster.channels != 4 {
        return Err(ConvertError::UnsupportedPixelFormat);
    }
    let (_, cap) = depth_layout(bpp);
    let ghost all = raster.codes();
    proof {
        let (w, h, c) = (raster.width as int, raster.height as int, raster.channels as int);
        assert(w * h <= w * h * c) by (nonlinear_arith)
            requires
                w >= 0, h >= 0, c >= 3,
        ;
    }
    let _len = raster.data.len();
    let n = raster.width * raster.height;
    let mut seen: Vec<bool> = Vec::new();
    let mut k: usize = 0;
    while k < 64
        invariant
            k <= 64,
            seen@.len() == k,
            forall|c: int| 0 <= c < k ==> !seen@[c],
        decreases 64 - k,
    {
        seen.push(false);
        k = k + 1;
    }
    let mut codes: Vec<u8> = Vec::new();
    let mut p: usize = 0;
    while p < n
        invariant
            raster.wf(),
            raster.supported(),
            all == raster.codes(),
            n == all.len(),
            cap == capacity_spec(bpp),
            p <= n,
            seen@.len() == 64,
            codes@ == first_seen(all.take(p as int)),
            codes@.len() <= cap,
            forall|c: int| 0 <= c < 64 ==> (seen@[c] <==> codes@.contains(c as u8)),
            forall|i: int| 0 <= i < codes@.len() ==> codes@[i] < 64,
        decreases n - p,
    {
        proof {
            assert(all.take(p + 1).drop_last() =~= all.take(p as int));
            assert(all.take(p + 1).last() == all[p as int]);
        }
        let code = raster.reduced_at(p).code();
        if !seen[code as usize] {
            if codes.len() >= cap {
                proof {
                    lemma_first_seen_len_grows(all, p + 1);
                }
                return Err(ConvertError::PaletteOverflow);
            }
            let ghost old_codes = codes@;
            codes.push(code);
            seen.set(code as usize, true);
            proof {
                assert forall|c: int| 0 <= c < 64 implies (seen@[c] <==> codes@.contains(
                    c as u8,
                )) by {
                    assert(codes@ == old_codes.push(code));
                    if codes@.contains(c as u8) && c != code as int {
                        let j = choose|j: int| 0 <= j < codes@.len() && codes@[j] == c as u8;
                        assert(j < old_codes.len());
                        assert(old_codes[j] == c as u8);
                    }
                    if old_codes.contains(c as u8) {
                        let j = choose|j: int| 0 <= j < old_codes.len() && old_codes[j] == c as u8;
                        assert(codes@[j] == c as u8);
                    }
                    if c == code as int {
                        assert(codes@[codes@.len() - 1] == code);
                    }
                }
            }
        }
        p = p + 1;
    }
    proof {
        assert(all.take(n as int) =~= all);
        lemma_first_seen_props(all);
    }
    Ok(ImagePalette { bpp, codes })
}

} // verus!
