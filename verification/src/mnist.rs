//! Pairing decoded images with their labels.
use vstd::prelude::*;

use crate::{img_cols, img_count, img_ok, img_pixel, img_rows, lab_count, lab_ok, read_labels,
    read_numbers, Error, Labels, Numbers};

verus! {

/// One training sample: a pixel grid and the digit it shows.
#[derive(Debug, Clone)]
pub struct Picture {
    pub pixels: Vec<Vec<u8>>,
    pub value: u8,
}

/// The pixel grid of a sample, as a mathematical sequence of rows.
pub open spec fn pix_view(p: Picture) -> Seq<Seq<u8>> {
    Seq::new(p.pixels@.len(), |i: int| p.pixels@[i]@)
}

/// A grid of bytes, as a mathematical sequence of rows.
pub open spec fn grid_view(g: Vec<Vec<u8>>) -> Seq<Seq<u8>> {
    Seq::new(g@.len(), |i: int| g@[i]@)
}

/// The smaller of two lengths.
pub open spec fn min_len(a: int, b: int) -> int {
    if a <= b {
        a
    } else {
        b
    }
}

fn copy_grid(g: &Vec<Vec<u8>>) -> (r: Vec<Vec<u8>>)
    ensures
        r@.len() == g@.len(),
        forall|i: int| 0 <= i < g@.len() ==> (#[trigger] r@[i])@ == g@[i]@,
{
    let mut r: Vec<Vec<u8>> = Vec::new();
    let mut i: usize = 0;
    while i < g.len()
        invariant
            0 <= i <= g@.len(),
            r@.len() == i,
            forall|p: int| 0 <= p < i as int ==> (#[trigger] r@[p])@ == g@[p]@,
        decreases g@.len() - i,
    {
        let src = &g[i];
        let mut row: Vec<u8> = Vec::new();
        let mut j: usize = 0;
        while j < src.len()
            invariant
                0 <= j <= src@.len(),
                row@.len() == j,
                forall|q: int| 0 <= q < j as int ==> row@[q] == src@[q],
            decreases src@.len() - j,
        {
            row.push(src[j]);
            j += 1;
        }
        proof {
            assert(row@ =~= src@);
        }
        r.push(row);
        i += 1;
    }
    r
}

/// Zips images with labels into samples, each sample owning a copy of its
/// pixel grid.  When the two counts differ, pairing stops after the shorter
/// of the two: exactly `min(images, labels)` samples come out.
pub fn build_samples(nums: &Numbers, labs: &Labels) -> (r: Vec<Picture>)
    ensures
        r@.len() == min_len(nums.pictures@.len() as int, labs.labels@.len() as int),
        forall|k: int|
            0 <= k < r@.len() ==> pix_view(#[trigger] r@[k]) == grid_view(nums.pictures@[k])
                && r@[k].value == labs.labels@[k],
{
    let n: usize = if nums.pictures.len() <= labs.labels.len() {
        nums.pictures.len()
    } else {
        labs.labels.len()
    };
    let mut r: Vec<Picture> = Vec::new();
    let mut k: usize = 0;
    while k < n
        invariant
            n == min_len(nums.pictures@.len() as int, labs.labels@.len() as int),
            0 <= k <= n,
            r@.len() == k,
            forall|p: int|
                0 <= p < k as int ==> pix_view(#[trigger] r@[p]) == grid_view(nums.pictures@[p])
                    && r@[p].value == labs.labels@[p],
        decreases n - k,
    {
        let grid = copy_grid(&nums.pictures[k]);
        let pic = Picture { pixels: grid, value: labs.labels[k] };
        proof {
            assert(pix_view(pic) =~~= grid_view(nums.pictures@[k as int]));
        }
        r.push(pic);
        k += 1;
    }
    r
}

/// Decodes an image file and a label file and pairs them index by index into
/// samples.  Fails exactly when either file is shorter than its header
/// promises.
pub fn get_pictures(ndata: &Vec<u8>, ldata: &Vec<u8>) -> (r: Result<Vec<Picture>, Error>)
    ensures
        match r {
            Ok(pics) => {
                &&& img_ok(ndata@)
                &&& lab_ok(ldata@)
                &&& pics@.len() == min_len(img_count(ndata@), lab_count(ldata@))
                &&& forall|k: int|
                    0 <= k < pics@.len() ==> (#[trigger] pics@[k]).value == ldata@[8 + k]
                &&& forall|k: int|
                    0 <= k < pics@.len() ==> pix_view(#[trigger] pics@[k]).len() == img_rows(
                        ndata@,
                    )
                &&& forall|k: int, rr: int|
                    0 <= k < pics@.len() && 0 <= rr < img_rows(ndata@) ==> (#[trigger] pix_view(
                        pics@[k],
                    )[rr]).len() == img_cols(ndata@)
                &&& forall|k: int, rr: int, c: int|
                    0 <= k < pics@.len() && 0 <= rr < img_rows(ndata@) && 0 <= c < img_cols(ndata@)
                        ==> #[trigger] pix_view(pics@[k])[rr][c] == img_pixel(ndata@, k, rr, c)
            },
            Err(e) => e == Error::TruncatedData && (!img_ok(ndata@) || !lab_ok(ldata@)),
        },
{
    let nums = match read_numbers(ndata) {
        Ok(n) => n,
        Err(e) => {
            return Err(e);
        },
    };
    let labs = match read_labels(ldata) {
        Ok(l) => l,
        Err(e) => {
            return Err(e);
        },
    };
    let pics = build_samples(&nums, &labs);
    Ok(pics)
}

} // verus!
