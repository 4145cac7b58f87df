//! Names of the files that receive an image's output.
use vstd::prelude::*;

verus! {

/// The position of the last `c` in `s`, or -1 when there is none.
pub open spec fn last_index_of(s: Seq<char>, c: char) -> int
    decreases s.len(),
{
    if s.len() == 0 {
        -1
    } else if s.last() == c {
        s.len() - 1
    } else {
        last_index_of(s.drop_last(), c)
    }
}

pub proof fn lemma_last_index_bounds(s: Seq<char>, c: char)
    ensures
        -1 <= last_index_of(s, c) < s.len(),
        last_index_of(s, c) >= 0 ==> s[last_index_of(s, c)] == c,
    decreases s.len(),
{
    if s.len() > 0 && s.last() != c {
        lemma_last_index_bounds(s.drop_last(), c);
    }
}

/// ASCII `a`..=`z` in upper case; every other char unchanged.
pub open spec fn ascii_upper(c: char) -> char {
    if 'a' <= c && c <= 'z' {
        ((c as u8) - 32) as u8 as char
    } else {
        c
    }
}

pub open spec fn ascii_upper_seq(s: Seq<char>) -> Seq<char> {
    s.map_values(|c: char| ascii_upper(c))
}

/// The output name of an image file: the directory part kept, the file name
/// up to and including its last dot in upper case, then `BIN`.
pub open spec fn upcase_spec(path: Seq<char>) -> Seq<char> {
    let name_start = last_index_of(path, '/') + 1;
    let name = path.subrange(name_start, path.len() as int);
    let stem_len = last_index_of(name, '.') + 1;
    path.subrange(0, name_start) + ascii_upper_seq(name.subrange(0, stem_len)) + seq!['B', 'I', 'N']
}

/// Relies on str::to_ascii_uppercase: each ASCII lower-case letter is mapped
/// to its upper-case form, every other char is kept.
#[verifier::external_body]
fn ascii_uppercase(s: &str) -> (r: String)
    ensures
        r@ == ascii_upper_seq(s@),
{
    s.to_ascii_uppercase()
}

/// One past the last `c` among the chars `lo..hi` of `s`, or `lo` when none is there.
fn last_index_in(s: &str, c: char, lo: usize, hi: usize) -> (r: usize)
    requires
        lo <= hi <= s@.len(),
    ensures
        r == lo + last_index_of(s@.subrange(lo as int, hi as int), c) + 1,
        lo <= r <= hi,
{
    proof {
        lemma_last_index_bounds(s@.subrange(lo as int, hi as int), c);
    }
    let mut k = hi;
    while k > lo
        invariant
            lo <= k <= hi <= s@.len(),
            last_index_of(s@.subrange(lo as int, hi as int), c) == last_index_of(
                s@.subrange(lo as int, k as int),
                c,
            ),
        decreases k,
    {
        let ch = s.get_char(k - 1);
        assert(s@.subrange(lo as int, k as int).last() == ch);
        assert(s@.subrange(lo as int, k as int).drop_last() =~= s@.subrange(lo as int, k - 1));
        if ch == c {
            return k;
        }
        k = k - 1;
    }
    assert(s@.subrange(lo as int, k as int).len() == 0);
    lo
}

/// The name that the packed bytes of the image at `path` are written to.
pub fn upcase_filename(path: &str) -> (r: String)
    ensures
        r@ == upcase_spec(path@),
{
    let n = path.unicode_len();
    let name_start = last_index_in(path, '/', 0, n);
    assert(path@.subrange(0, n as int) =~= path@);
    let stem_end = last_index_in(path, '.', name_start, n);
    let mut out = String::from_str(path.substring_char(0, name_start));
    let stem = ascii_uppercase(path.substring_char(name_start, stem_end));
    out.append(stem.as_str());
    let bin = "BIN";
    proof {
        reveal_strlit("BIN");
    }
    out.append(bin);
    proof {
        let name = path@.subrange(name_start as int, n as int);
        assert(name.subrange(0, stem_end - name_start) =~= path@.subrange(
            name_start as int,
            stem_end as int,
        ));
    }
    assert(out@ =~= upcase_spec(path@));
    out
}

} // verus!
