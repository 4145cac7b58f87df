use image2agon::args::{parse_args, ArgError};
use image2agon::naming::upcase_filename;
use image2agon::params::{DirParameters, Expectations, FileParameters};

fn args(list: &[&str]) -> Vec<String> {
    list.iter().map(|s| s.to_string()).collect()
}

#[test]
fn dir_parameters_defaults() {
    let d = DirParameters::new();
    assert_eq!((d.width, d.height, d.bpp, d.no_output, d.vapor), (0, 0, 0, false, false));
    assert_eq!(d.path, "");
    assert_eq!(DirParameters::current_dir().path, "./");
}

#[test]
fn expectations_track_pending_values() {
    let mut e = Expectations::new();
    assert!(!e.anything());
    e.width = true;
    assert!(e.anything());
    e.expect_file();
    assert!(!e.anything());
    assert!(e.file);
}

#[test]
fn file_parameters_take_source_size_when_zero() {
    let mut d = DirParameters::new();
    d.width = 0;
    d.height = 5;
    d.bpp = 2;
    let f = FileParameters::for_image(&d, "x.png".to_string(), 9, 100).unwrap();
    assert_eq!((f.width, f.height, f.bpp, f.size, f.max_colors), (9, 5, 2, 15, 3));
    let f8 = FileParameters::for_image(&DirParameters::new(), "y.png".to_string(), 7, 3).unwrap();
    assert_eq!((f8.bpp, f8.size, f8.max_colors), (8, 21, 64));
    let copy = FileParameters::new(&d);
    assert_eq!((copy.width, copy.height, copy.size), (0, 5, 0));
}

#[test]
fn output_names() {
    assert_eq!(upcase_filename("dir/sub/pic.png"), "dir/sub/PIC.BIN");
    assert_eq!(upcase_filename("a.b.png"), "A.B.BIN");
    assert_eq!(upcase_filename("./x/noext"), "./x/BIN");
    assert_eq!(upcase_filename(""), "BIN");
}

#[test]
fn no_arguments_means_current_directory() {
    let d = parse_args(&args(&["prog"])).unwrap();
    assert_eq!(d.len(), 1);
    assert_eq!(d[0].path, "./");
}

#[test]
fn options_apply_to_the_following_path() {
    let d = parse_args(&args(&["prog", "-W", "+12", "-bpp", "2", "Pics", "-n", "-h", "7"])).unwrap();
    assert_eq!(d.len(), 2);
    assert_eq!((d[0].width, d[0].bpp, d[0].path.as_str()), (12, 2, "pics"));
    assert_eq!((d[1].height, d[1].no_output, d[1].path.as_str()), (7, true, "./"));
}

#[test]
fn trailing_path_closes_the_list() {
    let d = parse_args(&args(&["prog", "a.png", "b"])).unwrap();
    assert_eq!(d.len(), 2);
    assert_eq!(d[1].path, "b");
}

#[test]
fn option_errors() {
    assert_eq!(parse_args(&args(&["prog", "-w"])).unwrap_err(), ArgError::MissingValue);
    assert_eq!(parse_args(&args(&["prog", "-w", "-h"])).unwrap_err(), ArgError::MissingValue);
    assert_eq!(parse_args(&args(&["prog", "-w", "x1"])).unwrap_err(), ArgError::InvalidWidth);
    assert_eq!(parse_args(&args(&["prog", "-h", ""])).unwrap_err(), ArgError::InvalidHeight);
    assert_eq!(parse_args(&args(&["prog", "-b", "5"])).unwrap_err(), ArgError::InvalidBpp);
    assert_eq!(parse_args(&args(&["prog", "-b", "300"])).unwrap_err(), ArgError::InvalidBpp);
}
