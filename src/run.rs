//! A whole conversion run: analyse every image, share one palette, encode,
//! and lay the blocks out in memory. Any failure stops the run with no output.
use vstd::prelude::*;
use crate::depth::{valid_bpp, capacity_spec};
use crate::encode::{encode_image, lemma_all_mapped, packed_rows, preview_rows, Encoded};
use crate::error::ConvertError;
use crate::global::{
    add_images, any_low_depth, consolidate, lemma_add_images_maps, palette_views, slot_byte,
    GlobalPalette,
};
use crate::layout::{layout_spec, memory_map, placement_of, total_size, LayoutEntry};
use crate::palette::{build_image_palette, first_seen, ImagePalette};
use crate::params::FileParameters;
use crate::raster::Raster;

verus! {

/// What analysing one image gives: its colors in order of first appearance,
/// or why it cannot be used. A placeholder has no raster and no colors.
pub open spec fn analysis(bpp: u8, raster: Option<Raster>) -> Result<Seq<u8>, ConvertError> {
    match raster {
        None => Ok(Seq::empty()),
        Some(r) => if !r.supported() {
            Err(ConvertError::UnsupportedPixelFormat)
        } else if first_seen(r.codes()).len() > capacity_spec(bpp) {
            Err(ConvertError::PaletteOverflow)
        } else {
            Ok(first_seen(r.codes()))
        },
    }
}

/// The error of the first of the first `n` images whose analysis fails.
pub open spec fn analysis_error(
    files: Seq<FileParameters>,
    rasters: Seq<Option<Raster>>,
    n: nat,
) -> Option<ConvertError>
    decreases n,
{
    if n == 0 {
        None
    } else {
        match analysis_error(files, rasters, (n - 1) as nat) {
            Some(e) => Some(e),
            None => match analysis(files[n - 1].bpp, rasters[n - 1]) {
                Err(e) => Some(e),
                Ok(_) => None,
            },
        }
    }
}

/// Depth and colors of every image of the run, once analysed.
pub open spec fn run_views(files: Seq<FileParameters>, rasters: Seq<Option<Raster>>) -> Seq<(u8, Seq<u8>)> {
    Seq::new(files.len(), |i: int| (files[i].bpp, analysis(files[i].bpp, rasters[i])->Ok_0))
}

/// The image is read from a file and its output is wanted.
pub open spec fn writes_output(f: FileParameters) -> bool {
    !f.vapor && !f.no_output
}

/// The inputs of a run fit together: one raster per image that has a file,
/// supported depths, and sizes that fit in memory.
pub open spec fn valid_run(files: Seq<FileParameters>, rasters: Seq<Option<Raster>>) -> bool {
    &&& files.len() == rasters.len()
    &&& forall|i: int| 0 <= i < files.len() ==> valid_bpp(#[trigger] files[i].bpp)
    &&& forall|i: int| 0 <= i < files.len() ==> (#[trigger] rasters[i] is None <==> files[i].vapor)
    &&& forall|i: int| 0 <= i < files.len() && #[trigger] rasters[i] is Some ==> rasters[i]->0.wf()
    &&& forall|i: int|
        0 <= i < files.len() && writes_output(#[trigger] files[i]) ==> 3 * files[i].width
            * files[i].height <= usize::MAX
    &&& forall|i: int| 0 <= i < files.len() && !(#[trigger] files[i]).no_output ==> files[i].size > 0
    &&& total_size(files) <= usize::MAX
}

/// Everything a successful run produces.
#[derive(Clone, Debug)]
pub struct RunOutput {
    /// The palette of each image, in order.
    pub palettes: Vec<ImagePalette>,
    /// The shared palette.
    pub palette: GlobalPalette,
    /// The encoded image, for each image whose output is wanted.
    pub images: Vec<Option<Encoded>>,
    /// The palette table's bytes, when some image is below 8 bits per pixel.
    pub palette_table: Option<Vec<u8>>,
    /// Where each output block lies in memory.
    pub layout: Vec<LayoutEntry>,
}

proof fn lemma_analysis_error_stays(
    files: Seq<FileParameters>,
    rasters: Seq<Option<Raster>>,
    n: nat,
    m: nat,
)
    requires
        n <= m,
        analysis_error(files, rasters, n) is Some,
    ensures
        analysis_error(files, rasters, m) == analysis_error(files, rasters, n),
    decreases m - n,
{
    if n < m {
        lemma_analysis_error_stays(files, rasters, n, (m - 1) as nat);
    }
}

/// Converts every image of a run. `files` and `rasters` go together, one
/// entry per image in processing order. Fails with the first image's error
/// when an image cannot be analysed, with `PaletteFull` when the shared
/// palette overflows, and otherwise succeeds.
pub fn convert_run(files: &Vec<FileParameters>, rasters: &Vec<Option<Raster>>) -> (r: Result<RunOutput, ConvertError>)
    requires
        valid_run(files@, rasters@),
    ensures
        ({
            let n = files@.len();
            let views = run_views(files@, rasters@);
            match analysis_error(files@, rasters@, n) {
                Some(e) => r == Err::<RunOutput, ConvertError>(e),
                None => match add_images(views) {
                    None => r == Err::<RunOutput, ConvertError>(ConvertError::PaletteFull),
                    Some(t) => match r {
                        Err(_) => false,
                        Ok(o) => {
                            &&& palette_views(o.palettes@) == views
                            &&& o.palette@ == t
                            &&& o.palette.low_depth == any_low_depth(views)
                            &&& o.images@.len() == n
                            &&& forall|i: int|
                                0 <= i < n ==> (#[trigger] o.images@[i] is Some <==> writes_output(
                                    files@[i],
                                ))
                            &&& forall|i: int|
                                0 <= i < n && #[trigger] o.images@[i] is Some ==> {
                                    let f = files@[i];
                                    let ras = rasters@[i]->0;
                                    &&& o.images@[i]->0.data@ == packed_rows(
                                        ras,
                                        f.width as nat,
                                        f.height as nat,
                                        f.bpp,
                                        t,
                                        f.height as nat,
                                    )
                                    &&& o.images@[i]->0.preview@ == preview_rows(
                                        ras,
                                        f.width as nat,
                                        f.height as nat,
                                        f.height as nat,
                                    )
                                }
                            &&& (o.palette_table is Some <==> any_low_depth(views))
                            &&& o.palette_table is Some ==> {
                                &&& o.palette_table->0@.len() == 768
                                &&& forall|s: int, k: int|
                                    0 <= s < 256 && 0 <= k < 3 ==> o.palette_table->0@[3 * s + k]
                                        == slot_byte(t.slots[s], k)
                            }
                            &&& o.layout@.map_values(|e: LayoutEntry| placement_of(e))
                                == layout_spec(files@)
                        },
                    },
                },
            }
        }),
{
    let ghost views = run_views(files@, rasters@);
    let mut palettes: Vec<ImagePalette> = Vec::new();
    let mut i: usize = 0;
    while i < files.len()
        invariant
            valid_run(files@, rasters@),
            views == run_views(files@, rasters@),
            i <= files@.len(),
            analysis_error(files@, rasters@, i as nat) is None,
            palettes@.len() == i,
            forall|j: int| 0 <= j < i ==> (#[trigger] palettes@[j]).wf(),
            palette_views(palettes@) == views.take(i as int),
        decreases files@.len() - i,
    {
        let bpp = files[i].bpp;
        assert(valid_bpp(files@[i as int].bpp));
        let pal = match &rasters[i] {
            None => {
                let p = ImagePalette::empty(bpp);
                assert(p.codes@ =~= Seq::<u8>::empty());
                p
            },
            Some(ras) => {
                assert(rasters@[i as int] is Some);
                match build_image_palette(ras, bpp) {
                    Ok(p) => p,
                    Err(e) => {
                        proof {
                            lemma_analysis_error_stays(files@, rasters@, (i + 1) as nat, files@.len());
                        }
                        return Err(e);
                    },
                }
            },
        };
        assert(pal.bpp == files@[i as int].bpp);
        assert(analysis(bpp, rasters@[i as int]) == Ok::<Seq<u8>, ConvertError>(pal.codes@));
        let ghost before = palettes@;
        palettes.push(pal);
        proof {
            assert(palettes@[i as int] == pal);
            assert forall|j: int| 0 <= j <= i implies palette_views(palettes@)[j] == views.take(i + 1)[j] by {
                if j < i {
                    assert(palettes@[j] == before[j]);
                    assert(palette_views(before)[j] == views.take(i as int)[j]);
                }
            }
            assert(palette_views(palettes@) =~= views.take(i + 1));
        }
        i = i + 1;
    }
    proof {
        assert(views.take(i as int) =~= views);
    }
    let palette = match consolidate(&palettes) {
        Ok(g) => g,
        Err(e) => {
            return Err(e);
        },
    };
    let ghost t = palette@;
    proof {
        assert forall|a: int, k: int| 0 <= a < views.len() && 0 <= k < views[a].1.len() implies views[a].1[k] < 64 by {
            assert(palette_views(palettes@)[a] == views[a]);
            assert(palettes@[a].wf());
        }
        lemma_add_images_maps(views);
    }
    let mut images: Vec<Option<Encoded>> = Vec::new();
    let mut i: usize = 0;
    while i < files.len()
        invariant
            valid_run(files@, rasters@),
            views == run_views(files@, rasters@),
            analysis_error(files@, rasters@, files@.len()) is None,
            add_images(views) == Some(t),
            palette@ == t,
            palette.wf(),
            forall|a: int, k: int|
                0 <= a < views.len() && 0 <= k < views[a].1.len() ==> t.map[views[a].1[k] as int] is Some,
            i <= files@.len(),
            images@.len() == i,
            forall|j: int| 0 <= j < i ==> (#[trigger] images@[j] is Some <==> writes_output(files@[j])),
            forall|j: int|
                0 <= j < i && #[trigger] images@[j] is Some ==> {
                    let f = files@[j];
                    let ras = rasters@[j]->0;
                    &&& images@[j]->0.data@ == packed_rows(ras, f.width as nat, f.height as nat, f.bpp, t, f.height as nat)
                    &&& images@[j]->0.preview@ == preview_rows(ras, f.width as nat, f.height as nat, f.height as nat)
                },
        decreases files@.len() - i,
    {
        let f = &files[i];
        let mut out: Option<Encoded> = None;
        if !f.vapor && !f.no_output {
            match &rasters[i] {
                None => {},
                Some(ras) => {
                    assert(rasters@[i as int] is Some);
                    proof {
                        lemma_analysis_ok(files@, rasters@, i as nat, files@.len());
                        let codes = views[i as int].1;
                        lemma_all_mapped(*ras, f.width as nat, f.height as nat, t, codes);
                    }
                    match encode_image(ras, f.width, f.height, f.bpp, &palette) {
                        Ok(e) => {
                            out = Some(e);
                        },
                        Err(e) => {
                            return Err(e);
                        },
                    }
                },
            }
        }
        images.push(out);
        i = i + 1;
    }
    let palette_table = if palette.low_depth {
        Some(palette.palette_bytes())
    } else {
        None
    };
    let layout = memory_map(files);
    Ok(RunOutput { palettes, palette, images, palette_table, layout })
}

proof fn lemma_analysis_ok(files: Seq<FileParameters>, rasters: Seq<Option<Raster>>, i: nat, n: nat)
    requires
        i < n,
        analysis_error(files, rasters, n) is None,
    ensures
        analysis(files[i as int].bpp, rasters[i as int]) is Ok,
    decreases n,
{
    if i < n - 1 {
        lemma_analysis_ok(files, rasters, i, (n - 1) as nat);
    } else {
        if analysis_error(files, rasters, (n - 1) as nat) is Some {
            lemma_analysis_error_stays(files, rasters, (n - 1) as nat, n);
        }
    }
}

} // verus!
