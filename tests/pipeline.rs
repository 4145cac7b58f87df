use image2agon::color::{convert_color, widen_color, widen_component, Color};
use image2agon::depth::{depth_layout, output_size};
use image2agon::encode::{encode_image, pack_row_bytes};
use image2agon::error::ConvertError;
use image2agon::global::{consolidate, GlobalPalette};
use image2agon::layout::memory_map;
use image2agon::palette::{build_image_palette, ImagePalette};
use image2agon::params::{DirParameters, FileParameters};
use image2agon::raster::Raster;
use image2agon::run::convert_run;

fn rgb_raster(width: usize, height: usize, pixels: &[[u8; 3]]) -> Raster {
    let mut data = Vec::new();
    for p in pixels {
        data.extend_from_slice(p);
    }
    Raster { width, height, channels: 3, data }
}

fn solid(width: usize, height: usize, px: [u8; 3]) -> Raster {
    rgb_raster(width, height, &vec![px; width * height])
}

#[test]
fn reduce_keeps_top_two_bits() {
    assert_eq!(convert_color(0), 0);
    assert_eq!(convert_color(63), 0);
    assert_eq!(convert_color(64), 1);
    assert_eq!(convert_color(191), 2);
    assert_eq!(convert_color(255), 3);
}

#[test]
fn widen_replicates_two_bits() {
    assert_eq!(widen_component(0), 0);
    assert_eq!(widen_component(1), 0x55);
    assert_eq!(widen_component(2), 0xAA);
    assert_eq!(widen_component(3), 0xFF);
    let w = widen_color(&Color { r: 1, g: 2, b: 3 });
    assert_eq!((w.r, w.g, w.b), (0x55, 0xAA, 0xFF));
}

#[test]
fn reduce_widen_round_trip_every_value() {
    for v in 0..=255u8 {
        let c = convert_color(v);
        assert_eq!(convert_color(widen_component(c)), c);
    }
}

#[test]
fn color_code_is_content_address() {
    assert_eq!(Color { r: 1, g: 0, b: 0 }.code(), 1);
    assert_eq!(Color { r: 3, g: 2, b: 1 }.code(), (1 << 4) | (2 << 2) | 3);
    let c = Color::from_code(0x27);
    assert_eq!((c.r, c.g, c.b), (3, 1, 2));
}

#[test]
fn depth_table() {
    assert_eq!(depth_layout(1), (8, 1));
    assert_eq!(depth_layout(2), (4, 3));
    assert_eq!(depth_layout(3), (2, 7));
    assert_eq!(depth_layout(4), (2, 15));
    assert_eq!(depth_layout(6), (1, 63));
    assert_eq!(depth_layout(8), (1, 64));
    assert_eq!(output_size(10, 3, 1), Some(6));
    assert_eq!(output_size(10, 3, 2), Some(9));
    assert_eq!(output_size(5, 2, 3), Some(6));
    assert_eq!(output_size(10, 3, 8), Some(30));
    assert_eq!(output_size(usize::MAX, 2, 8), None);
}

#[test]
fn palette_lists_colors_in_first_seen_order() {
    let r = rgb_raster(3, 1, &[[255, 0, 0], [0, 0, 255], [250, 10, 20]]);
    let p = build_image_palette(&r, 8).unwrap();
    assert_eq!(p.codes, vec![3, 48]);
    assert_eq!(p.index_at(0), 3);
    let p2 = build_image_palette(&r, 2).unwrap();
    assert_eq!(p2.codes, vec![3, 48]);
    assert_eq!(p2.index_at(0), 1);
    assert_eq!(p2.index_at(1), 2);
}

#[test]
fn palette_overflow_at_one_bit() {
    let r = rgb_raster(2, 1, &[[255, 255, 255], [0, 0, 0]]);
    assert_eq!(build_image_palette(&r, 1).unwrap_err(), ConvertError::PaletteOverflow);
}

#[test]
fn palette_rejects_unsupported_format() {
    let r = Raster { width: 2, height: 1, channels: 1, data: vec![0, 0] };
    assert_eq!(build_image_palette(&r, 8).unwrap_err(), ConvertError::UnsupportedPixelFormat);
}

#[test]
fn dynamic_slot_skips_content_addressed_slot() {
    let a = ImagePalette { bpp: 8, codes: vec![1] };
    let b = ImagePalette { bpp: 2, codes: vec![5, 1] };
    let g = consolidate(&vec![a, b]).unwrap();
    assert_eq!(g.slot_of(1), Some(1));
    assert_eq!(g.slot_of(5), Some(2));
    assert!(g.low_depth);
    assert_eq!(g.slots[1], Some(1));
    assert_eq!(g.slots[2], Some(5));
}

#[test]
fn consolidation_of_eight_bit_images_only() {
    let a = ImagePalette { bpp: 8, codes: vec![0, 63] };
    let g = consolidate(&vec![a]).unwrap();
    assert!(!g.low_depth);
    assert_eq!(g.slot_of(63), Some(63));
    assert_eq!(g.slot_of(0), Some(0));
    assert_eq!(g.slot_of(7), None);
}

#[test]
fn palette_full_when_no_slot_is_left() {
    let mut pals = Vec::new();
    for code in 0..64u8 {
        pals.push(ImagePalette { bpp: 8, codes: vec![code] });
    }
    let mut filler = GlobalPalette::new();
    for s in 0..256usize {
        filler.slots[s] = Some(0);
    }
    assert!(filler.add_color(9, 4).is_err());
    let g = consolidate(&pals).unwrap();
    assert_eq!(g.slot_of(40), Some(40));
}

#[test]
fn palette_table_bytes_are_widened() {
    let g = consolidate(&vec![ImagePalette { bpp: 4, codes: vec![0x27] }]).unwrap();
    let bytes = g.palette_bytes();
    assert_eq!(bytes.len(), 768);
    assert_eq!(&bytes[0..3], &[0, 0, 0]);
    assert_eq!(&bytes[3..6], &[0xFF, 0x55, 0xAA]);
}

#[test]
fn eight_bit_indices_are_color_codes() {
    let r = rgb_raster(2, 2, &[[255, 0, 0], [0, 255, 0], [0, 0, 255], [64, 128, 192]]);
    let p = build_image_palette(&r, 8).unwrap();
    let g = consolidate(&vec![p]).unwrap();
    let e = encode_image(&r, 2, 2, 8, &g).unwrap();
    assert_eq!(e.data, vec![0x03, 0x0C, 0x30, (3 << 4) | (2 << 2) | 1]);
    assert_eq!(e.preview.len(), 12);
    assert_eq!(&e.preview[0..3], &[0xFF, 0, 0]);
}

#[test]
fn one_bit_packs_eight_pixels_per_byte() {
    let white = solid(10, 1, [255, 255, 255]);
    let p = build_image_palette(&white, 1).unwrap();
    let g = consolidate(&vec![p]).unwrap();
    assert_eq!(g.slot_of(63), Some(1));
    // 12 output pixels from a 10-wide source: one background pixel on each side.
    let e = encode_image(&white, 12, 1, 1, &g).unwrap();
    assert_eq!(e.data, vec![0b0111_1111, 0b1110_0000]);
    assert_eq!(
        pack_row_bytes(&vec![1, 0, 0, 1, 0, 0, 1, 0, 0, 1], 1),
        vec![0b1001_0010, 0b0100_0000]
    );
}

#[test]
fn three_bit_uses_a_nibble_per_pixel() {
    assert_eq!(pack_row_bytes(&vec![5, 7, 3], 3), vec![0x57, 0x30]);
    assert_eq!(pack_row_bytes(&vec![1, 2, 3, 1, 2], 2), vec![0b0110_1101, 0b1000_0000]);
    assert_eq!(pack_row_bytes(&vec![9, 200], 6), vec![9, 200]);
}

#[test]
fn larger_canvas_centers_source() {
    let r = solid(4, 4, [255, 255, 255]);
    let p = build_image_palette(&r, 8).unwrap();
    let g = consolidate(&vec![p]).unwrap();
    let e = encode_image(&r, 10, 10, 8, &g).unwrap();
    assert_eq!(e.data.len(), 100);
    assert_eq!(e.preview.len(), 300);
    for y in 0..10 {
        for x in 0..10 {
            let inside = (3..7).contains(&x) && (3..7).contains(&y);
            let i = y * 10 + x;
            if inside {
                assert_eq!(e.data[i], 63);
                assert_eq!(&e.preview[3 * i..3 * i + 3], &[0xFF, 0xFF, 0xFF]);
            } else {
                assert_eq!(e.data[i], 0);
                assert_eq!(&e.preview[3 * i..3 * i + 3], &[0, 0, 0]);
            }
        }
    }
}

#[test]
fn smaller_canvas_crops_center() {
    let mut px = Vec::new();
    for i in 0..16u8 {
        px.push([if i == 5 { 255 } else { 0 }, 0, 0]);
    }
    let r = rgb_raster(4, 4, &px);
    let p = build_image_palette(&r, 8).unwrap();
    let g = consolidate(&vec![p]).unwrap();
    let e = encode_image(&r, 2, 2, 8, &g).unwrap();
    assert_eq!(e.data, vec![3, 0, 0, 0]);
}

#[test]
fn rgba_alpha_goes_to_top_bits_at_eight_bits() {
    let r = Raster { width: 2, height: 1, channels: 4, data: vec![255, 0, 0, 128, 0, 255, 0, 255] };
    let p = build_image_palette(&r, 8).unwrap();
    let g = consolidate(&vec![p.clone()]).unwrap();
    let e = encode_image(&r, 2, 1, 8, &g).unwrap();
    assert_eq!(e.data, vec![0x03 | (2 << 6), 0x0C | (3 << 6)]);
    let p6 = ImagePalette { bpp: 6, codes: p.codes.clone() };
    let g6 = consolidate(&vec![p6]).unwrap();
    let e6 = encode_image(&r, 2, 1, 6, &g6).unwrap();
    assert_eq!(e6.data, vec![1, 2]);
}

#[test]
fn missing_palette_entry_is_reported() {
    let r = solid(1, 1, [255, 0, 0]);
    let g = GlobalPalette::new();
    assert_eq!(encode_image(&r, 1, 1, 8, &g).unwrap_err(), ConvertError::MissingPaletteEntry);
    let bad = Raster { width: 1, height: 1, channels: 2, data: vec![0, 0] };
    assert_eq!(encode_image(&bad, 1, 1, 8, &g).unwrap_err(), ConvertError::UnsupportedPixelFormat);
}

fn file(size: usize, no_output: bool, name: &str) -> FileParameters {
    let mut d = DirParameters::new();
    d.no_output = no_output;
    d.path = name.to_string();
    let mut f = FileParameters::new(&d);
    f.size = size;
    f
}

#[test]
fn memory_layout_is_sequential() {
    let files = vec![file(100, false, "a"), file(250, false, "b"), file(64, false, "c")];
    let m = memory_map(&files);
    let spans: Vec<(usize, usize)> = m.iter().map(|e| (e.start, e.end)).collect();
    assert_eq!(spans, vec![(0, 99), (100, 349), (350, 413)]);
    assert_eq!(m[2].path, "c");
}

#[test]
fn memory_layout_skips_no_output() {
    let files = vec![file(100, false, "a"), file(250, true, "b"), file(64, false, "c")];
    let m = memory_map(&files);
    let spans: Vec<(usize, usize)> = m.iter().map(|e| (e.start, e.end)).collect();
    assert_eq!(spans, vec![(0, 99), (100, 163)]);
}

fn image_file(w: usize, h: usize, bpp: u8, name: &str) -> FileParameters {
    let mut d = DirParameters::new();
    d.bpp = bpp;
    FileParameters::for_image(&d, name.to_string(), w, h).unwrap()
}

#[test]
fn run_stops_on_overflow_with_no_output() {
    let files = vec![image_file(1, 1, 8, "a.png"), image_file(2, 1, 1, "b.png")];
    let rasters = vec![
        Some(solid(1, 1, [0, 0, 255])),
        Some(rgb_raster(2, 1, &[[255, 255, 255], [0, 0, 0]])),
    ];
    assert_eq!(convert_run(&files, &rasters).unwrap_err(), ConvertError::PaletteOverflow);
}

#[test]
fn run_produces_outputs_and_layout() {
    let mut vapor_dir = DirParameters::new();
    vapor_dir.width = 3;
    vapor_dir.height = 2;
    vapor_dir.vapor = true;
    let vapor = FileParameters::for_vapor(&vapor_dir).unwrap();
    assert_eq!(vapor.size, 12);
    let files = vec![image_file(2, 1, 8, "a.png"), vapor, image_file(4, 1, 2, "b.png")];
    let rasters = vec![
        Some(solid(2, 1, [64, 0, 0])),
        None,
        Some(rgb_raster(4, 1, &[[0, 255, 0], [64, 0, 0], [0, 255, 0], [0, 0, 0]])),
    ];
    let out = convert_run(&files, &rasters).unwrap();
    assert_eq!(out.images[0].as_ref().unwrap().data, vec![1, 1]);
    assert!(out.images[1].is_none());
    // code 0x0C takes slot 2 (slot 1 holds code 1), code 0 takes slot 3.
    assert_eq!(out.images[2].as_ref().unwrap().data, vec![0b1001_1011]);
    assert!(out.palette_table.is_some());
    let spans: Vec<(usize, usize)> = out.layout.iter().map(|e| (e.start, e.end)).collect();
    assert_eq!(spans, vec![(0, 1), (2, 13), (14, 14)]);
}
