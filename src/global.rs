//! The shared palette: 256 slots that every image of a run draws from.
use vstd::prelude::*;
use crate::color::{widen_spec, widen_component, Color};
use crate::error::ConvertError;
use crate::palette::ImagePalette;

verus! {

/// Number of slots of the shared palette.
pub const SLOT_COUNT: usize = 256;

/// Number of distinct reduced colors.
pub const COLOR_COUNT: usize = 64;

/// The shared palette as values: the color code held by each slot, and the
/// slot assigned to each color code.
pub struct Table {
    pub slots: Seq<Option<u8>>,
    pub map: Seq<Option<u8>>,
}

/// The table before any image is consolidated.
pub open spec fn empty_table() -> Table {
    Table {
        slots: Seq::new(256, |i: int| None::<u8>),
        map: Seq::new(64, |i: int| None::<u8>),
    }
}

pub open spec fn table_wf(t: Table) -> bool {
    &&& t.slots.len() == 256
    &&& t.map.len() == 64
    &&& forall|s: int| 0 <= s < 256 && t.slots[s] is Some ==> t.slots[s]->0 < 64
    &&& forall|c: int| 0 <= c < 64 && t.map[c] is Some ==> t.slots[t.map[c]->0 as int] is Some
}

/// The lowest empty slot at or after `k`, or 256 when there is none.
pub open spec fn first_free_from(slots: Seq<Option<u8>>, k: int) -> int
    decreases 256 - k,
{
    if k >= 256 {
        256
    } else if slots[k] is None {
        k
    } else {
        first_free_from(slots, k + 1)
    }
}

/// The lowest empty slot other than the background slot 0, or 256.
pub open spec fn first_free(slots: Seq<Option<u8>>) -> int {
    first_free_from(slots, 1)
}

/// Registers one color of an image of depth `bpp`. A color already mapped is
/// left as it is; at 8 bits per pixel a new color takes the slot named by its
/// code; at other depths it takes the lowest free slot, and `None` says that
/// none is left.
pub open spec fn add_color(t: Table, code: u8, bpp: u8) -> Option<Table> {
    if t.map[code as int] is Some {
        Some(t)
    } else if bpp == 8 {
        Some(
            Table {
                slots: t.slots.update(code as int, Some(code)),
                map: t.map.update(code as int, Some(code)),
            },
        )
    } else {
        let k = first_free(t.slots);
        if k >= 256 {
            None
        } else {
            Some(
                Table {
                    slots: t.slots.update(k, Some(code)),
                    map: t.map.update(code as int, Some(k as u8)),
                },
            )
        }
    }
}

/// Registers the colors of one image, in their order.
pub open spec fn add_colors(t: Table, codes: Seq<u8>, bpp: u8) -> Option<Table>
    decreases codes.len(),
{
    if codes.len() == 0 {
        Some(t)
    } else {
        match add_colors(t, codes.drop_last(), bpp) {
            None => None,
            Some(t2) => add_color(t2, codes.last(), bpp),
        }
    }
}

/// Registers the palettes of all images, in processing order.
/// Each image is given by its depth and its colors' codes.
pub open spec fn add_images(pals: Seq<(u8, Seq<u8>)>) -> Option<Table>
    decreases pals.len(),
{
    if pals.len() == 0 {
        Some(empty_table())
    } else {
        match add_images(pals.drop_last()) {
            None => None,
            Some(t) => add_colors(t, pals.last().1, pals.last().0),
        }
    }
}

/// Depth and color codes of each palette.
pub open spec fn palette_views(pals: Seq<ImagePalette>) -> Seq<(u8, Seq<u8>)> {
    Seq::new(pals.len(), |i: int| (pals[i].bpp, pals[i].codes@))
}

/// Some image of the run uses a depth other than 8 bits per pixel.
pub open spec fn any_low_depth(pals: Seq<(u8, Seq<u8>)>) -> bool {
    exists|i: int| 0 <= i < pals.len() && pals[i].0 != 8
}

/// The shared palette of a run.
#[derive(Clone, Debug)]
pub struct GlobalPalette {
    pub slots: Vec<Option<u8>>,
    pub map: Vec<Option<u8>>,
    /// Set when an image of a depth other than 8 took part: the palette
    /// table is then part of the output.
    pub low_depth: bool,
}

impl View for GlobalPalette {
    type V = Table;

    open spec fn view(&self) -> Table {
        Table { slots: self.slots@, map: self.map@ }
    }
}

impl GlobalPalette {
    pub open spec fn wf(&self) -> bool {
        table_wf(self@)
    }

    /// A palette with every slot empty.
    pub fn new() -> (r: GlobalPalette)
        ensures
            r@ == empty_table(),
            r.wf(),
            !r.low_depth,
    {
        let mut slots: Vec<Option<u8>> = Vec::new();
        let mut i: usize = 0;
        while i < SLOT_COUNT
            invariant
                i <= 256,
                slots@ == Seq::new(i as nat, |j: int| None::<u8>),
            decreases 256 - i,
        {
            slots.push(None);
            i = i + 1;
        }
        let mut map: Vec<Option<u8>> = Vec::new();
        let mut i: usize = 0;
        while i < COLOR_COUNT
            invariant
                i <= 64,
                map@ == Seq::new(i as nat, |j: int| None::<u8>),
            decreases 64 - i,
        {
            map.push(None);
            i = i + 1;
        }
        let r = GlobalPalette { slots, map, low_depth: false };
        assert(r@.slots =~= empty_table().slots);
        assert(r@.map =~= empty_table().map);
        r
    }

    /// The slot of a color code, if it has one.
    pub fn slot_of(&self, code: u8) -> (r: Option<u8>)
        requires
            self.wf(),
            code < 64,
        ensures
            r == self@.map[code as int],
    {
        self.map[code as usize]
    }

    /// The lowest empty slot other than slot 0, or 256 when all are taken.
    fn find_free(&self) -> (r: usize)
        requires
            self.wf(),
        ensures
            r == first_free(self@.slots),
    {
        let mut k: usize = 1;
        while k < SLOT_COUNT
            invariant
                1 <= k <= 256,
                self.wf(),
                first_free_from(self@.slots, k as int) == first_free(self@.slots),
            decreases 256 - k,
        {
            if self.slots[k].is_none() {
                return k;
            }
            k = k + 1;
        }
        k
    }

    /// Registers one color of an image of depth `bpp`.
    pub fn add_color(&mut self, code: u8, bpp: u8) -> (r: Result<(), ConvertError>)
        requires
            old(self).wf(),
            code < 64,
        ensures
            match add_color(old(self)@, code, bpp) {
                Some(t) => r is Ok && final(self)@ == t && final(self).wf(),
                None => r == Err::<(), ConvertError>(ConvertError::PaletteFull),
            },
            final(self).low_depth == old(self).low_depth,
    {
        if self.map[code as usize].is_some() {
            return Ok(());
        }
        if bpp == 8 {
            self.slots.set(code as usize, Some(code));
            self.map.set(code as usize, Some(code));
            return Ok(());
        }
        let k = self.find_free();
        if k >= SLOT_COUNT {
            return Err(ConvertError::PaletteFull);
        }
        proof {
            lemma_first_free_is_free(self@.slots, 1);
        }
        self.slots.set(k, Some(code));
        self.map.set(code as usize, Some(k as u8));
        Ok(())
    }

    /// Registers the colors of one image palette, in their order.
    pub fn add_palette(&mut self, pal: &ImagePalette) -> (r: Result<(), ConvertError>)
        requires
            old(self).wf(),
            pal.wf(),
        ensures
            match add_colors(old(self)@, pal.codes@, pal.bpp) {
                Some(t) => r is Ok && final(self)@ == t && final(self).wf(),
                None => r == Err::<(), ConvertError>(ConvertError::PaletteFull),
            },
            final(self).low_depth == (old(self).low_depth || pal.bpp != 8),
    {
        if pal.bpp != 8 {
            self.low_depth = true;
        }
        let mut i: usize = 0;
        while i < pal.codes.len()
            invariant
                pal.wf(),
                i <= pal.codes@.len(),
                self.wf(),
                add_colors(old(self)@, pal.codes@.take(i as int), pal.bpp) == Some(self@),
                self.low_depth == (old(self).low_depth || pal.bpp != 8),
            decreases pal.codes@.len() - i,
        {
            proof {
                assert(pal.codes@.take(i + 1).drop_last() =~= pal.codes@.take(i as int));
            }
            let res = self.add_color(pal.codes[i], pal.bpp);
            if res.is_err() {
                proof {
                    lemma_add_colors_stays_none(old(self)@, pal.codes@, pal.bpp, i + 1);
                }
                return res;
            }
            i = i + 1;
        }
        assert(pal.codes@.take(i as int) =~= pal.codes@);
        Ok(())
    }

    /// Widened R, G, B bytes of every slot in order; an empty slot gives black.
    pub fn palette_bytes(&self) -> (r: Vec<u8>)
        requires
            self.wf(),
        ensures
            r@.len() == 3 * 256,
            forall|s: int, k: int|
                0 <= s < 256 && 0 <= k < 3 ==> r@[3 * s + k] == slot_byte(self@.slots[s], k),
    {
        let mut out: Vec<u8> = Vec::new();
        let mut s: usize = 0;
        while s < SLOT_COUNT
            invariant
                self.wf(),
                s <= 256,
                out@.len() == 3 * s,
                forall|t: int, k: int|
                    0 <= t < s && 0 <= k < 3 ==> out@[3 * t + k] == slot_byte(self@.slots[t], k),
            decreases 256 - s,
        {
            match self.slots[s] {
                Some(code) => {
                    let c = Color::from_code(code);
                    out.push(widen_component(c.r));
                    out.push(widen_component(c.g));
                    out.push(widen_component(c.b));
                },
                None => {
                    out.push(0);
                    out.push(0);
                    out.push(0);
                },
            }
            s = s + 1;
        }
        out
    }
}

/// Byte `k` (R, G, B) of the widened color in a palette slot; 0 when empty.
pub open spec fn slot_byte(slot: Option<u8>, k: int) -> u8 {
    match slot {
        Some(code) => widen_spec(
            if k == 0 {
                code % 4
            } else if k == 1 {
                (code / 4) % 4
            } else {
                code / 16
            },
        ),
        None => 0,
    }
}

pub proof fn lemma_first_free_is_free(slots: Seq<Option<u8>>, k: int)
    requires
        1 <= k <= 256,
        slots.len() == 256,
    ensures
        first_free_from(slots, k) >= k,
        first_free_from(slots, k) <= 256,
        first_free_from(slots, k) < 256 ==> slots[first_free_from(slots, k)] is None,
        forall|j: int| k <= j < first_free_from(slots, k) ==> slots[j] is Some,
    decreases 256 - k,
{
    if k < 256 && slots[k] is Some {
        lemma_first_free_is_free(slots, k + 1);
    }
}

pub proof fn lemma_add_colors_stays_none(t: Table, codes: Seq<u8>, bpp: u8, n: int)
    requires
        0 <= n <= codes.len(),
        add_colors(t, codes.take(n), bpp) is None,
    ensures
        add_colors(t, codes, bpp) is None,
    decreases codes.len() - n,
{
    if n < codes.len() {
        assert(codes.take(n + 1).drop_last() =~= codes.take(n));
        lemma_add_colors_stays_none(t, codes, bpp, n + 1);
    } else {
        assert(codes.take(n) =~= codes);
    }
}

/// Consolidates the palettes of all images, in processing order, into one
/// shared palette. Fails when a color of a depth below 8 finds no free slot.
pub fn consolidate(palettes: &Vec<ImagePalette>) -> (r: Result<GlobalPalette, ConvertError>)
    requires
        forall|i: int| 0 <= i < palettes@.len() ==> palettes@[i].wf(),
    ensures
        match add_images(palette_views(palettes@)) {
            Some(t) => match r {
                Ok(g) => g.wf() && g@ == t && g.low_depth == any_low_depth(palette_views(palettes@)),
                Err(_) => false,
            },
            None => r == Err::<GlobalPalette, ConvertError>(ConvertError::PaletteFull),
        },
{
    let ghost vs = palette_views(palettes@);
    let mut g = GlobalPalette::new();
    let mut i: usize = 0;
    while i < palettes.len()
        invariant
            vs == palette_views(palettes@),
            forall|j: int| 0 <= j < palettes@.len() ==> palettes@[j].wf(),
            i <= palettes@.len(),
            g.wf(),
            add_images(vs.take(i as int)) == Some(g@),
            g.low_depth == any_low_depth(vs.take(i as int)),
        decreases palettes@.len() - i,
    {
        proof {
            assert(vs.take(i + 1).drop_last() =~= vs.take(i as int));
            assert(vs.take(i + 1).last() == vs[i as int]);
        }
        let res = g.add_palette(&palettes[i]);
        if res.is_err() {
            proof {
                lemma_add_images_stays_none(vs, i + 1);
            }
            return Err(ConvertError::PaletteFull);
        }
        proof {
            let p = vs.take(i + 1);
            if g.low_depth {
                if palettes@[i as int].bpp != 8 {
                    assert(p[i as int].0 != 8);
                } else {
                    let j = choose|j: int| 0 <= j < i && vs.take(i as int)[j].0 != 8;
                    assert(p[j].0 != 8);
                }
            } else {
                assert forall|j: int| 0 <= j < p.len() implies p[j].0 == 8 by {
                    if j < i {
                        assert(vs.take(i as int)[j] == p[j]);
                    }
                }
            }
        }
        i = i + 1;
    }
    assert(vs.take(i as int) =~= vs);
    Ok(g)
}

pub proof fn lemma_add_images_stays_none(pals: Seq<(u8, Seq<u8>)>, n: int)
    requires
        0 <= n <= pals.len(),
        add_images(pals.take(n)) is None,
    ensures
        add_images(pals) is None,
    decreases pals.len() - n,
{
    if n < pals.len() {
        assert(pals.take(n + 1).drop_last() =~= pals.take(n));
        lemma_add_images_stays_none(pals, n + 1);
    } else {
        assert(pals.take(n) =~= pals);
    }
}

/// Consolidating the colors of one 8-bit image into an empty table maps
/// exactly those colors, each to the slot named by its own code.
pub proof fn lemma_content_phase(codes: Seq<u8>, n: int)
    requires
        0 <= n <= codes.len(),
        forall|i: int| 0 <= i < codes.len() ==> codes[i] < 64,
    ensures
        add_colors(empty_table(), codes.take(n), 8) is Some,
        ({
            let t = add_colors(empty_table(), codes.take(n), 8)->0;
            &&& t.slots.len() == 256
            &&& t.map.len() == 64
            &&& forall|x: int|
                0 <= x < 64 ==> (t.map[x] is Some <==> exists|i: int|
                    0 <= i < n && codes[i] == x)
            &&& forall|x: int| 0 <= x < 64 && t.map[x] is Some ==> t.map[x]->0 == x
            &&& forall|i: int| 0 <= i < n ==> t.slots[codes[i] as int] is Some
        }),
    decreases n,
{
    if n > 0 {
        lemma_content_phase(codes, n - 1);
        assert(codes.take(n).drop_last() =~= codes.take(n - 1));
        let t0 = add_colors(empty_table(), codes.take(n - 1), 8)->0;
        let t = add_colors(empty_table(), codes.take(n), 8)->0;
        let c = codes[n - 1];
        assert(codes.take(n).last() == c);
        assert forall|x: int|
            0 <= x < 64 implies (t.map[x] is Some <==> exists|i: int|
                0 <= i < n && codes[i] == x) by {
            if x == c as int {
                assert(codes[n - 1] == x);
            } else if t.map[x] is Some {
                let i = choose|i: int| 0 <= i < n - 1 && codes[i] == x;
                assert(0 <= i < n && codes[i] == x);
            } else if exists|i: int| 0 <= i < n && codes[i] == x {
                let i = choose|i: int| 0 <= i < n && codes[i] == x;
                assert(0 <= i < n - 1 && codes[i] == x);
            }
        }
        assert forall|i: int| 0 <= i < n implies t.slots[codes[i] as int] is Some by {
            if i < n - 1 {
                assert(t0.slots[codes[i] as int] is Some);
            } else if t0.map[c as int] is Some {
                let j = choose|j: int| 0 <= j < n - 1 && codes[j] == c;
                assert(t0.slots[codes[j] as int] is Some);
            }
        }
    } else {
        assert(codes.take(0) =~= Seq::<u8>::empty());
    }
}

proof fn lemma_dynamic_phase(a: Seq<u8>, t1: Table, b: Seq<u8>, bpp: u8, n: int)
    requires
        0 <= n <= b.len(),
        bpp != 8,
        t1.slots.len() == 256,
        t1.map.len() == 64,
        forall|x: int| 0 <= x < 64 ==> (t1.map[x] is Some <==> a.contains(x as u8)),
        forall|i: int| 0 <= i < a.len() ==> t1.slots[a[i] as int] is Some,
        forall|i: int| 0 <= i < b.len() ==> b[i] < 64,
        forall|i: int, j: int| 0 <= i < j < b.len() ==> b[i] != b[j],
        add_colors(t1, b.take(n), bpp) is Some,
    ensures
        ({
            let t = add_colors(t1, b.take(n), bpp)->0;
            &&& t.slots.len() == 256
            &&& t.map.len() == 64
            &&& forall|i: int| 0 <= i < a.len() ==> t.slots[a[i] as int] is Some
            &&& forall|x: int|
                0 <= x < 64 && !a.contains(x as u8) && !b.take(n).contains(x as u8)
                    ==> t.map[x] is None
            &&& forall|i: int|
                0 <= i < n && !a.contains(b[i]) ==> {
                    &&& t.map[b[i] as int] is Some
                    &&& t.map[b[i] as int]->0 >= 1
                    &&& !a.contains(t.map[b[i] as int]->0)
                }
        }),
    decreases n,
{
    if n > 0 {
        assert(b.take(n).drop_last() =~= b.take(n - 1));
        assert(b.take(n).last() == b[n - 1]);
        if add_colors(t1, b.take(n - 1), bpp) is None {
            assert(add_colors(t1, b.take(n), bpp) is None);
        }
        lemma_dynamic_phase(a, t1, b, bpp, n - 1);
        let t0 = add_colors(t1, b.take(n - 1), bpp)->0;
        let t = add_colors(t1, b.take(n), bpp)->0;
        let c = b[n - 1];
        if t0.map[c as int] is None {
            let k = first_free(t0.slots);
            lemma_first_free_is_free(t0.slots, 1);
            assert(k < 256);
            assert(t == Table {
                slots: t0.slots.update(k, Some(c)),
                map: t0.map.update(c as int, Some(k as u8)),
            });
            assert(!a.contains(k as u8)) by {
                if a.contains(k as u8) {
                    let i = choose|i: int| 0 <= i < a.len() && a[i] == k as u8;
                    assert(t0.slots[a[i] as int] is Some);
                }
            }
        } else {
            assert(a.contains(c)) by {
                if !a.contains(c) {
                    assert(!b.take(n - 1).contains(c)) by {
                        if b.take(n - 1).contains(c) {
                            let j = choose|j: int| 0 <= j < n - 1 && #[trigger] b.take(n - 1)[j] == c;
                            assert(b[j] == b[n - 1]);
                        }
                    }
                }
            }
            assert(t == t0);
        }
        assert forall|x: int|
            0 <= x < 64 && !a.contains(x as u8) && !b.take(n).contains(x as u8)
                implies t.map[x] is None by {
            if b.take(n - 1).contains(x as u8) {
                let j = choose|j: int| 0 <= j < n - 1 && #[trigger] b.take(n - 1)[j] == x as u8;
                assert(b.take(n)[j] == x as u8);
            }
            if x == c as int {
                assert(b.take(n)[n - 1] == x as u8);
            }
        }
    } else {
        assert(b.take(0) =~= Seq::<u8>::empty());
    }
}

/// When an 8-bit image is consolidated before an image of lower depth, every
/// color of the second image that the first lacks gets a slot other than 0
/// and other than the slots that the first image's colors address by content.
pub proof fn lemma_dynamic_skips_content_slots(a: ImagePalette, b: ImagePalette)
    requires
        a.wf(),
        b.wf(),
        a.bpp == 8,
        b.bpp != 8,
        add_images(seq![(a.bpp, a.codes@), (b.bpp, b.codes@)]) is Some,
    ensures
        forall|c: u8|
            b.codes@.contains(c) && !a.codes@.contains(c) ==> {
                let t = add_images(seq![(a.bpp, a.codes@), (b.bpp, b.codes@)])->0;
                &&& t.map[c as int] is Some
                &&& t.map[c as int]->0 >= 1
                &&& !a.codes@.contains(t.map[c as int]->0)
            },
{
    let ac = a.codes@;
    let bc = b.codes@;
    let pa = (a.bpp, ac);
    let pals = seq![pa, (b.bpp, bc)];
    assert(pals.drop_last() =~= seq![pa]);
    assert(seq![pa].drop_last() =~= Seq::<(u8, Seq<u8>)>::empty());
    lemma_content_phase(ac, ac.len() as int);
    assert(ac.take(ac.len() as int) =~= ac);
    let t1 = add_colors(empty_table(), ac, 8)->0;
    assert(add_images(seq![pa].drop_last()) == Some(empty_table()));
    assert(seq![pa].last() == pa);
    assert(add_colors(empty_table(), ac, 8) is Some);
    assert(add_images(seq![pa]) == Some(t1));
    assert(pals.last() == (b.bpp, bc));
    assert forall|x: int| 0 <= x < 64 implies (t1.map[x] is Some <==> ac.contains(x as u8)) by {
        if t1.map[x] is Some {
            let i = choose|i: int| 0 <= i < ac.len() && ac[i] == x;
            assert(ac[i] == x as u8);
        }
        if ac.contains(x as u8) {
            let i = choose|i: int| 0 <= i < ac.len() && ac[i] == x as u8;
            assert(ac[i] == x);
        }
    }
    assert(bc.take(bc.len() as int) =~= bc);
    lemma_dynamic_phase(ac, t1, bc, b.bpp, bc.len() as int);
    assert forall|c: u8| bc.contains(c) && !ac.contains(c) implies {
        let t = add_images(seq![(a.bpp, a.codes@), (b.bpp, b.codes@)])->0;
        &&& t.map[c as int] is Some
        &&& t.map[c as int]->0 >= 1
        &&& !ac.contains(t.map[c as int]->0)
    } by {
        let i = choose|i: int| 0 <= i < bc.len() && bc[i] == c;
        assert(bc[i] == c);
    }
}

/// Registering colors keeps every color that had a slot mapped, and maps
/// every color registered.
pub proof fn lemma_add_colors_maps(t: Table, codes: Seq<u8>, bpp: u8)
    requires
        t.map.len() == 64,
        forall|i: int| 0 <= i < codes.len() ==> codes[i] < 64,
        add_colors(t, codes, bpp) is Some,
    ensures
        add_colors(t, codes, bpp)->0.map.len() == 64,
        forall|c: int| 0 <= c < 64 && t.map[c] is Some ==> add_colors(t, codes, bpp)->0.map[c] is Some,
        forall|i: int| 0 <= i < codes.len() ==> add_colors(t, codes, bpp)->0.map[codes[i] as int] is Some,
    decreases codes.len(),
{
    if codes.len() > 0 {
        let prev = codes.drop_last();
        assert(add_colors(t, prev, bpp) is Some);
        lemma_add_colors_maps(t, prev, bpp);
        let t2 = add_colors(t, prev, bpp)->0;
        let t3 = add_colors(t, codes, bpp)->0;
        assert forall|i: int| 0 <= i < codes.len() implies t3.map[codes[i] as int] is Some by {
            if i < codes.len() - 1 {
                assert(prev[i] == codes[i]);
                assert(t2.map[prev[i] as int] is Some);
            }
        }
    }
}

/// After a successful consolidation every color of every image has a slot.
pub proof fn lemma_add_images_maps(pals: Seq<(u8, Seq<u8>)>)
    requires
        forall|i: int, k: int| 0 <= i < pals.len() && 0 <= k < pals[i].1.len() ==> pals[i].1[k] < 64,
        add_images(pals) is Some,
    ensures
        add_images(pals)->0.map.len() == 64,
        forall|i: int, k: int|
            0 <= i < pals.len() && 0 <= k < pals[i].1.len() ==> add_images(pals)->0.map[
                pals[i].1[k] as int
            ] is Some,
    decreases pals.len(),
{
    if pals.len() > 0 {
        let prev = pals.drop_last();
        assert(add_images(prev) is Some);
        assert forall|i: int, k: int| 0 <= i < prev.len() && 0 <= k < prev[i].1.len() implies prev[i].1[k] < 64 by {
            assert(prev[i] == pals[i]);
        }
        lemma_add_images_maps(prev);
        let t = add_images(prev)->0;
        let last = pals.last();
        assert forall|k: int| 0 <= k < last.1.len() implies last.1[k] < 64 by {
            assert(pals[pals.len() - 1] == last);
        }
        lemma_add_colors_maps(t, last.1, last.0);
        assert forall|i: int, k: int|
            0 <= i < pals.len() && 0 <= k < pals[i].1.len() implies add_images(pals)->0.map[
                pals[i].1[k] as int
            ] is Some by {
            if i < pals.len() - 1 {
                assert(prev[i] == pals[i]);
                assert(t.map[prev[i].1[k] as int] is Some);
                assert(pals[i].1[k] < 64);
            }
        }
    }
}

} // verus!
