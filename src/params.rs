//! What a run is asked to convert: per-directory options and per-image settings.
use vstd::prelude::*;
use crate::depth::{valid_bpp, capacity_spec, row_bytes_spec, depth_layout, output_size};
use crate::palette::ImagePalette;

verus! {

/// Options given for one directory, or for one image file.
#[derive(Clone, Debug)]
pub struct DirParameters {
    /// Output width; 0 takes the source width.
    pub width: usize,
    /// Output height; 0 takes the source height.
    pub height: usize,
    /// Bits per pixel; 0 stands for 8.
    pub bpp: u8,
    /// The images are analysed but no output is written for them.
    pub no_output: bool,
    /// A placeholder that only reserves memory, with no file behind it.
    pub vapor: bool,
    pub path: String,
}

impl DirParameters {
    /// Options with every field at its default.
    pub fn new() -> (r: DirParameters)
        ensures
            r.width == 0,
            r.height == 0,
            r.bpp == 0,
            !r.no_output,
            !r.vapor,
            r.path@ == Seq::<char>::empty(),
    {
        DirParameters {
            width: 0,
            height: 0,
            bpp: 0,
            no_output: false,
            vapor: false,
            path: String::new(),
        }
    }

    /// Default options for the current directory.
    pub fn current_dir() -> (r: DirParameters)
        ensures
            r.width == 0,
            r.height == 0,
            r.bpp == 0,
            !r.no_output,
            !r.vapor,
            r.path@ == seq!['.', '/'],
    {
        let mut params = DirParameters::new();
        params.path = String::from_str("./");
        proof {
            reveal_strlit("./");
        }
        params
    }
}

/// The bit-depth used for a requested one: 0 stands for 8.
pub open spec fn effective_bpp(bpp: u8) -> u8 {
    if bpp == 0 {
        8
    } else {
        bpp
    }
}

/// Settings of one image of a run.
#[derive(Clone, Debug)]
pub struct FileParameters {
    pub width: usize,
    pub height: usize,
    pub bpp: u8,
    pub no_output: bool,
    pub vapor: bool,
    pub path: String,
    /// Bytes that the image takes in memory.
    pub size: usize,
    /// Colors the image may use, not counting the background.
    pub max_colors: usize,
    /// The image's colors, once analysed.
    pub colors: ImagePalette,
}

impl FileParameters {
    /// Settings that copy the options of `params`, with nothing measured yet.
    pub fn new(params: &DirParameters) -> (r: FileParameters)
        ensures
            r.width == params.width,
            r.height == params.height,
            r.bpp == params.bpp,
            r.no_output == params.no_output,
            r.vapor == params.vapor,
            r.path@ == params.path@,
            r.size == 0,
            r.max_colors == 0,
            r.colors.bpp == params.bpp,
            r.colors.codes@.len() == 0,
    {
        FileParameters {
            width: params.width,
            height: params.height,
            bpp: params.bpp,
            no_output: params.no_output,
            vapor: params.vapor,
            path: params.path.clone(),
            size: 0,
            max_colors: 0,
            colors: ImagePalette { bpp: params.bpp, codes: Vec::new() },
        }
    }

    /// Settings for an image file of `src_width` by `src_height` pixels read
    /// under `params`: a zero width or height takes the source's, a zero depth
    /// is 8, and the size is the packed index stream's length. `None` when
    /// that size does not fit in a `usize`.
    pub fn for_image(params: &DirParameters, path: String, src_width: usize, src_height: usize) -> (r: Option<FileParameters>)
        requires
            params.bpp == 0 || valid_bpp(params.bpp),
        ensures
            ({
                let w = if params.width == 0 { src_width } else { params.width };
                let h = if params.height == 0 { src_height } else { params.height };
                let bpp = effective_bpp(params.bpp);
                let size = row_bytes_spec(w as nat, bpp) * h;
                match r {
                    Some(f) => {
                        &&& size <= usize::MAX
                        &&& f.width == w
                        &&& f.height == h
                        &&& f.bpp == bpp
                        &&& f.size == size
                        &&& f.max_colors == capacity_spec(bpp)
                        &&& f.no_output == params.no_output
                        &&& f.vapor == params.vapor
                        &&& f.path@ == path@
                        &&& f.colors.wf()
                        &&& f.colors.bpp == bpp
                        &&& f.colors.codes@.len() == 0
                    },
                    None => size > usize::MAX,
                }
            }),
    {
        let width = if params.width == 0 { src_width } else { params.width };
        let height = if params.height == 0 { src_height } else { params.height };
        let bpp = if params.bpp == 0 { 8 } else { params.bpp };
        let (_, cap) = depth_layout(bpp);
        match output_size(width, height, bpp) {
            None => None,
            Some(size) => Some(
                FileParameters {
                    width,
                    height,
                    bpp,
                    no_output: params.no_output,
                    vapor: params.vapor,
                    path,
                    size,
                    max_colors: cap,
                    colors: ImagePalette::empty(bpp),
                },
            ),
        }
    }

    /// Settings for a placeholder that reserves two bytes per pixel and reads
    /// no file. `None` when that size does not fit in a `usize`.
    pub fn for_vapor(params: &DirParameters) -> (r: Option<FileParameters>)
        requires
            params.bpp == 0 || valid_bpp(params.bpp),
        ensures
            ({
                let size = params.width * params.height * 2;
                let bpp = effective_bpp(params.bpp);
                match r {
                    Some(f) => {
                        &&& size <= usize::MAX
                        &&& f.width == params.width
                        &&& f.height == params.height
                        &&& f.bpp == bpp
                        &&& f.size == size
                        &&& f.max_colors == capacity_spec(bpp)
                        &&& f.no_output == params.no_output
                        &&& f.vapor
                        &&& f.path@ == params.path@
                        &&& f.colors.wf()
                        &&& f.colors.bpp == bpp
                        &&& f.colors.codes@.len() == 0
                    },
                    None => size > usize::MAX,
                }
            }),
    {
        let bpp = if params.bpp == 0 { 8 } else { params.bpp };
        let (_, cap) = depth_layout(bpp);
        let size = match params.width.checked_mul(params.height) {
            None => {
                proof {
                    let (a, b) = (params.width as int, params.height as int);
                    assert(a * b <= a * b * 2) by (nonlinear_arith)
                        requires a >= 0, b >= 0,
                    ;
                }
                return None;
            },
            Some(area) => match area.checked_mul(2) {
                None => {
                    return None;
                },
                Some(s) => s,
            },
        };
        Some(
            FileParameters {
                width: params.width,
                height: params.height,
                bpp,
                no_output: params.no_output,
                vapor: true,
                path: params.path.clone(),
                size,
                max_colors: cap,
                colors: ImagePalette::empty(bpp),
            },
        )
    }
}

/// Which value the next command-line argument is expected to give.
#[derive(Clone, Copy, Debug, PartialEq, Eq, Structural)]
pub struct Expectations {
    pub width: bool,
    pub height: bool,
    pub file: bool,
    pub bpp: bool,
}

impl Expectations {
    /// Nothing expected.
    pub fn new() -> (r: Expectations)
        ensures
            !r.width && !r.height && !r.file && !r.bpp,
    {
        Expectations { width: false, height: false, file: false, bpp: false }
    }

    /// Expects a file or directory name, and nothing else.
    pub fn expect_file(&mut self)
        ensures
            !final(self).width && !final(self).height && final(self).file && !final(self).bpp,
    {
        *self = Expectations::new();
        self.file = true;
    }

    /// An option's value is still owed.
    pub fn anything(&self) -> (r: bool)
        ensures
            r == (self.width || self.height || self.bpp),
    {
        self.width || self.height || self.bpp
    }
}

} // verus!
