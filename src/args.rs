//! Reading the run's options: per-directory width, height, depth and output
//! switches, each group closed by the directory or file it applies to.
use vstd::prelude::*;
use crate::params::{DirParameters, Expectations};

verus! {

/// Why the options cannot be used.
#[derive(Clone, Copy, Debug, PartialEq, Eq, Structural)]
pub enum ArgError {
    /// An option that takes a value was not followed by one.
    MissingValue,
    /// The width given is not a number.
    InvalidWidth,
    /// The height given is not a number.
    InvalidHeight,
    /// The depth given is not a number, or not a supported depth.
    InvalidBpp,
}

/// The options of one directory as values.
pub struct DirView {
    pub width: usize,
    pub height: usize,
    pub bpp: u8,
    pub no_output: bool,
    pub vapor: bool,
    pub path: Seq<char>,
}

impl DirParameters {
    pub open spec fn dir_view(&self) -> DirView {
        DirView {
            width: self.width,
            height: self.height,
            bpp: self.bpp,
            no_output: self.no_output,
            vapor: self.vapor,
            path: self.path@,
        }
    }
}

pub open spec fn default_dir() -> DirView {
    DirView { width: 0, height: 0, bpp: 0, no_output: false, vapor: false, path: Seq::empty() }
}

pub open spec fn no_expectations() -> Expectations {
    Expectations { width: false, height: false, file: false, bpp: false }
}

pub open spec fn file_expected() -> Expectations {
    Expectations { width: false, height: false, file: true, bpp: false }
}

pub open spec fn expects_value(e: Expectations) -> bool {
    e.width || e.height || e.bpp
}

/// ASCII `A`..=`Z` in lower case; every other char unchanged.
pub open spec fn ascii_lower(c: char) -> char {
    if 'A' <= c && c <= 'Z' {
        ((c as u8) + 32) as u8 as char
    } else {
        c
    }
}

pub open spec fn ascii_lower_seq(s: Seq<char>) -> Seq<char> {
    s.map_values(|c: char| ascii_lower(c))
}

pub open spec fn is_digit(c: char) -> bool {
    '0' <= c && c <= '9'
}

/// The value of a string of decimal digits.
pub open spec fn digits_value(s: Seq<char>) -> nat
    decreases s.len(),
{
    if s.len() == 0 {
        0
    } else {
        digits_value(s.drop_last()) * 10 + ((s.last() as u32) - ('0' as u32)) as nat
    }
}

/// The value of an optional `+` followed by one or more decimal digits.
pub open spec fn decimal_of(s: Seq<char>) -> Option<nat> {
    let d = if s.len() > 0 && s[0] == '+' {
        s.subrange(1, s.len() as int)
    } else {
        s
    };
    if d.len() > 0 && forall|i: int| 0 <= i < d.len() ==> is_digit(#[trigger] d[i]) {
        Some(digits_value(d))
    } else {
        None
    }
}

/// Relies on str::to_ascii_lowercase: each ASCII upper-case letter is mapped
/// to its lower-case form, every other char is kept.
#[verifier::external_body]
fn ascii_lowercase(s: &str) -> (r: String)
    ensures
        r@ == ascii_lower_seq(s@),
{
    s.to_ascii_lowercase()
}

/// Relies on str::parse::<usize>: an optional `+` and then decimal digits
/// whose value fits; anything else is an error.
#[verifier::external_body]
fn parse_usize(s: &str) -> (r: Option<usize>)
    ensures
        r == match decimal_of(s@) {
            Some(v) => if v <= usize::MAX {
                Some(v as usize)
            } else {
                None
            },
            None => None,
        },
{
    s.parse::<usize>().ok()
}

/// Relies on str::parse::<u8>: an optional `+` and then decimal digits whose
/// value fits; anything else is an error.
#[verifier::external_body]
fn parse_u8(s: &str) -> (r: Option<u8>)
    ensures
        r == match decimal_of(s@) {
            Some(v) => if v <= u8::MAX {
                Some(v as u8)
            } else {
                None
            },
            None => None,
        },
{
    s.parse::<u8>().ok()
}

/// The options read so far: the group being built, what the next argument
/// should give, and the groups already closed.
pub struct ArgState {
    pub params: DirView,
    pub expect: Expectations,
    pub dirs: Seq<DirView>,
}

pub open spec fn is_option(a: Seq<char>, short: Seq<char>, long: Seq<char>) -> bool {
    a == short || a == long
}

/// Reads one argument, already in lower case.
pub open spec fn arg_step(st: ArgState, a: Seq<char>) -> Result<ArgState, ArgError> {
    if a.len() > 0 && a[0] == '-' && expects_value(st.expect) {
        Err(ArgError::MissingValue)
    } else if is_option(a, seq!['-', 'w'], seq!['-', 'w', 'i', 'd', 't', 'h']) {
        Ok(ArgState { expect: Expectations { width: true, ..st.expect }, ..st })
    } else if is_option(a, seq!['-', 'h'], seq!['-', 'h', 'e', 'i', 'g', 'h', 't']) {
        Ok(ArgState { expect: Expectations { height: true, ..st.expect }, ..st })
    } else if is_option(a, seq!['-', 'b'], seq!['-', 'b', 'p', 'p']) {
        Ok(ArgState { expect: Expectations { bpp: true, ..st.expect }, ..st })
    } else if is_option(
        a,
        seq!['-', 'n'],
        seq!['-', 'n', 'o', 'o', 'u', 't', 'p', 'u', 't'],
    ) {
        Ok(ArgState { params: DirView { no_output: true, ..st.params }, ..st })
    } else if st.expect.width {
        match decimal_of(a) {
            Some(v) if v <= usize::MAX => Ok(
                ArgState {
                    params: DirView { width: v as usize, ..st.params },
                    expect: file_expected(),
                    ..st
                },
            ),
            _ => Err(ArgError::InvalidWidth),
        }
    } else if st.expect.height {
        match decimal_of(a) {
            Some(v) if v <= usize::MAX => Ok(
                ArgState {
                    params: DirView { height: v as usize, ..st.params },
                    expect: file_expected(),
                    ..st
                },
            ),
            _ => Err(ArgError::InvalidHeight),
        }
    } else if st.expect.bpp {
        match decimal_of(a) {
            Some(v) if v == 1 || v == 2 || v == 3 || v == 4 || v == 6 || v == 8 => Ok(
                ArgState {
                    params: DirView { bpp: v as u8, ..st.params },
                    expect: file_expected(),
                    ..st
                },
            ),
            _ => Err(ArgError::InvalidBpp),
        }
    } else {
        Ok(
            ArgState {
                params: default_dir(),
                expect: no_expectations(),
                dirs: st.dirs.push(DirView { path: a, ..st.params }),
            },
        )
    }
}

/// Reads the arguments in order, from a fresh state that expects a file.
pub open spec fn args_fold(args: Seq<Seq<char>>) -> Result<ArgState, ArgError>
    decreases args.len(),
{
    if args.len() == 0 {
        Ok(ArgState { params: default_dir(), expect: file_expected(), dirs: Seq::empty() })
    } else {
        match args_fold(args.drop_last()) {
            Err(e) => Err(e),
            Ok(st) => arg_step(st, ascii_lower_seq(args.last())),
        }
    }
}

/// The directories that the arguments after the program name ask for. With
/// none, the current directory; a trailing group of options without a name
/// applies to the current directory.
pub open spec fn parse_args_spec(args: Seq<Seq<char>>) -> Result<Seq<DirView>, ArgError> {
    if args.len() <= 1 {
        Ok(seq![DirView { path: seq!['.', '/'], ..default_dir() }])
    } else {
        match args_fold(args.subrange(1, args.len() as int)) {
            Err(e) => Err(e),
            Ok(st) => if expects_value(st.expect) {
                Err(ArgError::MissingValue)
            } else if st.expect.file {
                Ok(st.dirs.push(DirView { path: seq!['.', '/'], ..st.params }))
            } else {
                Ok(st.dirs)
            },
        }
    }
}

/// `a` holds exactly the chars of `b`.
fn same_chars(a: &str, b: &str) -> (r: bool)
    ensures
        r == (a@ == b@),
{
    let n = a.unicode_len();
    if n != b.unicode_len() {
        return false;
    }
    let mut i: usize = 0;
    while i < n
        invariant
            n == a@.len(),
            n == b@.len(),
            i <= n,
            a@.take(i as int) == b@.take(i as int),
        decreases n - i,
    {
        if a.get_char(i) != b.get_char(i) {
            return false;
        }
        assert(a@.take(i + 1) =~= a@.take(i as int).push(a@[i as int]));
        assert(b@.take(i + 1) =~= b@.take(i as int).push(b@[i as int]));
        i = i + 1;
    }
    assert(a@ =~= a@.take(n as int));
    assert(b@ =~= b@.take(n as int));
    true
}

/// `a` is the short or the long form of an option.
fn matches_option(a: &str, short: &str, long: &str) -> (r: bool)
    ensures
        r == is_option(a@, short@, long@),
{
    same_chars(a, short) || same_chars(a, long)
}

pub fn parse_args(args: &Vec<String>) -> (r: Result<Vec<DirParameters>, ArgError>)
    ensures
        match parse_args_spec(args@.map_values(|s: String| s@)) {
            Ok(dirs) => match r {
                Ok(v) => v@.map_values(|d: DirParameters| d.dir_view()) == dirs,
                Err(_) => false,
            },
            Err(e) => r == Err::<Vec<DirParameters>, ArgError>(e),
        },
{
    let ghost all = args@.map_values(|s: String| s@);
    let mut dirs: Vec<DirParameters> = Vec::new();
    if args.len() <= 1 {
        dirs.push(DirParameters::current_dir());
        assert(dirs@.map_values(|d: DirParameters| d.dir_view()) =~= seq![
            DirView { path: seq!['.', '/'], ..default_dir() },
        ]);
        return Ok(dirs);
    }
    let ghost rest = all.subrange(1, all.len() as int);
    let mut params = DirParameters::new();
    let mut expect = Expectations::new();
    expect.expect_file();
    proof {
        reveal_strlit("-w");
        reveal_strlit("-width");
        reveal_strlit("-h");
        reveal_strlit("-height");
        reveal_strlit("-b");
        reveal_strlit("-bpp");
        reveal_strlit("-n");
        reveal_strlit("-nooutput");
        assert(params.path@ =~= Seq::<char>::empty());
        assert(params.dir_view() == default_dir());
        assert(rest.take(0) =~= Seq::<Seq<char>>::empty());
        assert(dirs@.map_values(|d: DirParameters| d.dir_view()) =~= Seq::<DirView>::empty());
    }
    let mut a: usize = 1;
    while a < args.len()
        invariant
            all == args@.map_values(|s: String| s@),
            rest == all.subrange(1, all.len() as int),
            1 <= a <= args@.len(),
            args_fold(rest.take(a - 1)) == Ok::<ArgState, ArgError>(
                ArgState {
                    params: params.dir_view(),
                    expect,
                    dirs: dirs@.map_values(|d: DirParameters| d.dir_view()),
                },
            ),
            "-w"@ == seq!['-', 'w'],
            "-width"@ == seq!['-', 'w', 'i', 'd', 't', 'h'],
            "-h"@ == seq!['-', 'h'],
            "-height"@ == seq!['-', 'h', 'e', 'i', 'g', 'h', 't'],
            "-b"@ == seq!['-', 'b'],
            "-bpp"@ == seq!['-', 'b', 'p', 'p'],
            "-n"@ == seq!['-', 'n'],
            "-nooutput"@ == seq!['-', 'n', 'o', 'o', 'u', 't', 'p', 'u', 't'],
        decreases args@.len() - a,
    {
        proof {
            assert(rest.take(a as int).drop_last() =~= rest.take(a - 1));
            assert(rest.take(a as int).last() == args@[a as int]@);
        }
        let ghost st = ArgState {
            params: params.dir_view(),
            expect,
            dirs: dirs@.map_values(|d: DirParameters| d.dir_view()),
        };
        let arg = ascii_lowercase(args[a].as_str());
        let s = arg.as_str();
        assert(all[a as int] == args@[a as int]@);
        assert(s@ == ascii_lower_seq(rest.take(a as int).last()));
        let dash = s.unicode_len() > 0 && s.get_char(0) == '-';
        if dash && expect.anything() {
            proof {
                lemma_args_fold_err_stays(rest, a as int, rest.len() as int);
            }
            return Err(ArgError::MissingValue);
        } else if matches_option(s, "-w", "-width") {
            expect.width = true;
        } else if matches_option(s, "-h", "-height") {
            expect.height = true;
        } else if matches_option(s, "-b", "-bpp") {
            expect.bpp = true;
        } else if matches_option(s, "-n", "-nooutput") {
            params.no_output = true;
        } else if expect.width {
            match parse_usize(s) {
                Some(number) => {
                    params.width = number;
                    expect.expect_file();
                },
                None => {
                    proof {
                        lemma_args_fold_err_stays(rest, a as int, rest.len() as int);
                    }
                    return Err(ArgError::InvalidWidth);
                },
            }
        } else if expect.height {
            match parse_usize(s) {
                Some(number) => {
                    params.height = number;
                    expect.expect_file();
                },
                None => {
                    proof {
                        lemma_args_fold_err_stays(rest, a as int, rest.len() as int);
                    }
                    return Err(ArgError::InvalidHeight);
                },
            }
        } else if expect.bpp {
            let ok = match parse_u8(s) {
                Some(number) => {
                    if number == 1 || number == 2 || number == 3 || number == 4 || number == 6
                        || number == 8 {
                        params.bpp = number;
                        expect.expect_file();
                        true
                    } else {
                        false
                    }
                },
                None => false,
            };
            if !ok {
                proof {
                    lemma_args_fold_err_stays(rest, a as int, rest.len() as int);
                }
                return Err(ArgError::InvalidBpp);
            }
        } else {
            params.path = arg;
            let ghost before = dirs@;
            dirs.push(params);
            params = DirParameters::new();
            expect = Expectations::new();
            proof {
                assert(params.path@ =~= Seq::<char>::empty());
                assert(dirs@.map_values(|d: DirParameters| d.dir_view()) =~= before.map_values(
                    |d: DirParameters| d.dir_view(),
                ).push(DirView { path: ascii_lower_seq(args@[a as int]@), ..st.params }));
            }
        }
        a = a + 1;
    }
    proof {
        assert(rest.take(a - 1) =~= rest);
    }
    if expect.anything() {
        return Err(ArgError::MissingValue);
    } else if expect.file {
        let ghost pv = params.dir_view();
        params.path = String::from_str("./");
        proof {
            reveal_strlit("./");
            assert(params.path@ =~= seq!['.', '/']);
            assert(params.dir_view() == DirView { path: seq!['.', '/'], ..pv });
        }
        let ghost before = dirs@;
        dirs.push(params);
        proof {
            assert(dirs@.map_values(|d: DirParameters| d.dir_view()) =~= before.map_values(
                |d: DirParameters| d.dir_view(),
            ).push(DirView { path: seq!['.', '/'], ..pv }));
        }
    }
    Ok(dirs)
}

proof fn lemma_args_fold_err_stays(args: Seq<Seq<char>>, n: int, m: int)
    requires
        0 <= n <= m <= args.len(),
        args_fold(args.take(n)) is Err,
    ensures
        args_fold(args.take(m)) == args_fold(args.take(n)),
        m == args.len() ==> args_fold(args) == args_fold(args.take(n)),
    decreases m - n,
{
    assert(args.take(args.len() as int) =~= args);
    if n < m {
        lemma_args_fold_err_stays(args, n, m - 1);
        assert(args.take(m).drop_last() =~= args.take(m - 1));
    }
}

} // verus!
