//! The sequential memory map of a run's output blocks.
use vstd::prelude::*;
use crate::params::FileParameters;

verus! {

/// Where one image's block lies: `start..=end`, `size` bytes.
#[derive(Clone, Debug)]
pub struct LayoutEntry {
    pub path: String,
    pub start: usize,
    pub end: usize,
    pub size: usize,
    pub width: usize,
    pub height: usize,
}

/// The block placement as values.
pub struct Placement {
    pub path: Seq<char>,
    pub start: int,
    pub end: int,
    pub size: int,
    pub width: int,
    pub height: int,
}

/// Bytes taken by the images of `files` that produce output.
pub open spec fn total_size(files: Seq<FileParameters>) -> int
    decreases files.len(),
{
    if files.len() == 0 {
        0
    } else {
        total_size(files.drop_last()) + if files.last().no_output {
            0
        } else {
            files.last().size as int
        }
    }
}

/// The blocks of the images that produce output, in order, each starting
/// where the previous one ended.
pub open spec fn layout_spec(files: Seq<FileParameters>) -> Seq<Placement>
    decreases files.len(),
{
    if files.len() == 0 {
        Seq::empty()
    } else {
        let prev = layout_spec(files.drop_last());
        let f = files.last();
        if f.no_output {
            prev
        } else {
            let start = total_size(files.drop_last());
            prev.push(
                Placement {
                    path: f.path@,
                    start,
                    end: start + f.size - 1,
                    size: f.size as int,
                    width: f.width as int,
                    height: f.height as int,
                },
            )
        }
    }
}

pub open spec fn placement_of(e: LayoutEntry) -> Placement {
    Placement {
        path: e.path@,
        start: e.start as int,
        end: e.end as int,
        size: e.size as int,
        width: e.width as int,
        height: e.height as int,
    }
}

pub proof fn lemma_total_size_grows(files: Seq<FileParameters>, n: int)
    requires
        0 <= n <= files.len(),
    ensures
        total_size(files.take(n)) <= total_size(files),
    decreases files.len() - n,
{
    if n < files.len() {
        assert(files.take(n + 1).drop_last() =~= files.take(n));
        lemma_total_size_grows(files, n + 1);
    } else {
        assert(files.take(n) =~= files);
    }
}

/// Places the blocks of the images that produce output one after another from
/// offset 0, in the order given; images marked `no_output` take no space.
pub fn memory_map(files: &Vec<FileParameters>) -> (r: Vec<LayoutEntry>)
    requires
        total_size(files@) <= usize::MAX,
        forall|i: int| 0 <= i < files@.len() && !files@[i].no_output ==> files@[i].size > 0,
    ensures
        r@.map_values(|e: LayoutEntry| placement_of(e)) == layout_spec(files@),
{
    let mut out: Vec<LayoutEntry> = Vec::new();
    let mut address: usize = 0;
    let mut i: usize = 0;
    while i < files.len()
        invariant
            total_size(files@) <= usize::MAX,
            forall|j: int| 0 <= j < files@.len() && !files@[j].no_output ==> files@[j].size > 0,
            i <= files@.len(),
            address == total_size(files@.take(i as int)),
            out@.map_values(|e: LayoutEntry| placement_of(e)) == layout_spec(files@.take(i as int)),
        decreases files@.len() - i,
    {
        proof {
            assert(files@.take(i + 1).drop_last() =~= files@.take(i as int));
            assert(files@.take(i + 1).last() == files@[i as int]);
            lemma_total_size_grows(files@, i + 1);
        }
        let f = &files[i];
        if !f.no_output {
            let entry = LayoutEntry {
                path: f.path.clone(),
                start: address,
                end: address + f.size - 1,
                size: f.size,
                width: f.width,
                height: f.height,
            };
            let ghost before = out@;
            out.push(entry);
            address = address + f.size;
            proof {
                assert(out@.map_values(|e: LayoutEntry| placement_of(e)) =~= before.map_values(
                    |e: LayoutEntry| placement_of(e),
                ).push(placement_of(entry)));
            }
        }
        i = i + 1;
    }
    assert(files@.take(i as int) =~= files@);
    out
}

} // verus!
