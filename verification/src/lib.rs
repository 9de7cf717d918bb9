//! A verified decoder and trainer for a handwritten-digit dataset.
//!
//! The crate decodes the compact big-endian image and label files into typed
//! samples, and trains a fully connected feed-forward network on them by
//! mini-batch stochastic gradient descent with backpropagation.  All numeric
//! state is held in fixed point (see `fixed`), so every routine carries an
//! exact machine-checked contract.
pub mod fixed;
pub mod matrix;
pub mod mnist;
pub mod net;
pub mod rng;

use vstd::prelude::*;
use vstd::arithmetic::mul::lemma_mul_nonnegative;

verus! {

/// Errors raised by the decoder and by the network routines.
#[derive(Clone, Copy, Debug, PartialEq, Eq, Structural)]
pub enum Error {
    /// The file body holds fewer bytes than its header promises.
    TruncatedData,
    /// A network was requested with fewer than two layers, or a zero-width layer.
    InvalidTopology,
    /// An input vector does not match the layer width it is fed into.
    DimensionMismatch,
    /// A sample's label is outside the output layer's index range.
    InvalidLabel,
}

/// Big-endian interpretation of four bytes as a 32-bit unsigned integer.
pub open spec fn be_u32(b0: u8, b1: u8, b2: u8, b3: u8) -> int {
    b0 * 0x100_0000 + b1 * 0x1_0000 + b2 * 0x100 + b3
}

/// Reads the big-endian u32 stored at `off` in `data`.
pub fn read_be_u32(data: &Vec<u8>, off: usize) -> (r: u32)
    requires
        off + 4 <= data@.len(),
    ensures
        r == be_u32(data@[off as int], data@[off + 1], data@[off + 2], data@[off + 3]),
{
    let n: usize = data.len();
    assert(off + 4 <= n);
    let r: u32 = (data[off] as u32) * 0x100_0000 + (data[off + 1] as u32) * 0x1_0000
        + (data[off + 2] as u32) * 0x100 + (data[off + 3] as u32);
    r
}

/// The image count declared in an image file's header.
pub open spec fn img_count(d: Seq<u8>) -> int {
    be_u32(d[4], d[5], d[6], d[7])
}

/// The row count declared in an image file's header.
pub open spec fn img_rows(d: Seq<u8>) -> int {
    be_u32(d[8], d[9], d[10], d[11])
}

/// The column count declared in an image file's header.
pub open spec fn img_cols(d: Seq<u8>) -> int {
    be_u32(d[12], d[13], d[14], d[15])
}

/// Whether an image file holds every pixel byte its header promises.
pub open spec fn img_ok(d: Seq<u8>) -> bool {
    d.len() >= 16 && 16 + img_count(d) * img_rows(d) * img_cols(d) <= d.len()
}

/// The pixel byte of image `i`, row `rr`, column `c` in an image file.
pub open spec fn img_pixel(d: Seq<u8>, i: int, rr: int, c: int) -> u8 {
    d[16 + (i * img_rows(d) + rr) * img_cols(d) + c]
}

/// The item count declared in a label file's header.
pub open spec fn lab_count(d: Seq<u8>) -> int {
    be_u32(d[4], d[5], d[6], d[7])
}

/// Whether a label file holds every label byte its header promises.
pub open spec fn lab_ok(d: Seq<u8>) -> bool {
    d.len() >= 8 && 8 + lab_count(d) <= d.len()
}

/// A decoded image file: header fields and one pixel grid per image.
#[derive(Debug)]
pub struct Numbers {
    pub magic_number: u32,
    pub size: u32,
    pub rows: u32,
    pub cols: u32,
    pub pictures: Vec<Vec<Vec<u8>>>,
}

/// A decoded label file: header fields and one byte per label.
#[derive(Debug)]
pub struct Labels {
    pub magic_number: u32,
    pub size: u32,
    pub labels: Vec<u8>,
}

proof fn lemma_img_index(i: int, rr: int, c: int, n: int, rows: int, cols: int)
    requires
        0 <= i < n,
        0 <= rr < rows,
        0 <= c < cols,
    ensures
        0 <= i * rows + rr < n * rows,
        0 <= (i * rows + rr) * cols + c < n * rows * cols,
        i * rows <= n * rows,
        (i * rows + rr) * cols <= n * rows * cols,
        i * rows + rr <= (i * rows + rr) * cols,
    decreases 0int,
{
    assert(0 <= i * rows + rr < n * rows && 0 <= (i * rows + rr) * cols + c < n * rows * cols
        && i * rows <= n * rows && (i * rows + rr) * cols <= n * rows * cols
        && i * rows + rr <= (i * rows + rr) * cols) by (nonlinear_arith)
        requires
            0 <= i < n,
            0 <= rr < rows,
            0 <= c < cols,
    ;
}

/// Decodes an image file: a 16-byte big-endian header (magic, count, rows,
/// columns) followed by `count * rows * cols` pixel bytes in row-major,
/// image-major order.  Fails exactly when the bytes run short of what the
/// header promises.
pub fn read_numbers(data: &Vec<u8>) -> (r: Result<Numbers, Error>)
    ensures
        match r {
            Ok(n) => {
                &&& img_ok(data@)
                &&& n.magic_number == be_u32(data@[0], data@[1], data@[2], data@[3])
                &&& n.size == img_count(data@)
                &&& n.rows == img_rows(data@)
                &&& n.cols == img_cols(data@)
                &&& n.pictures@.len() == img_count(data@)
                &&& forall|i: int|
                    0 <= i < n.pictures@.len() ==> (#[trigger] n.pictures@[i])@.len() == img_rows(
                        data@,
                    )
                &&& forall|i: int, rr: int|
                    0 <= i < n.pictures@.len() && 0 <= rr < img_rows(data@)
                        ==> (#[trigger] n.pictures@[i]@[rr])@.len() == img_cols(data@)
                &&& forall|i: int, rr: int, c: int|
                    0 <= i < n.pictures@.len() && 0 <= rr < img_rows(data@) && 0 <= c < img_cols(
                        data@,
                    ) ==> #[trigger] n.pictures@[i]@[rr]@[c] == img_pixel(data@, i, rr, c)
            },
            Err(e) => e == Error::TruncatedData && !img_ok(data@),
        },
{
    if data.len() < 16 {
        return Err(Error::TruncatedData);
    }
    let magic = read_be_u32(data, 0);
    let count = read_be_u32(data, 4);
    let rows = read_be_u32(data, 8);
    let cols = read_be_u32(data, 12);
    proof {
        assert((count as int) * (rows as int) * (cols as int) < 0x1_0000_0000_0000_0000_0000_0000
            && 0 <= (count as int) * (rows as int) && (count as int) * (rows as int)
            < 0x1_0000_0000_0000_0000) by (nonlinear_arith)
            requires
                0 <= count as int && (count as int) < 0x1_0000_0000,
                0 <= rows as int && (rows as int) < 0x1_0000_0000,
                0 <= cols as int && (cols as int) < 0x1_0000_0000,
        ;
        lemma_mul_nonnegative((count as int) * (rows as int), cols as int);
    }
    let need: u128 = (count as u128) * (rows as u128) * (cols as u128);
    let have: u128 = (data.len() - 16) as u128;
    if have < need {
        return Err(Error::TruncatedData);
    }
    let count_us: usize = count as usize;
    let rows_us: usize = rows as usize;
    let cols_us: usize = cols as usize;
    let dlen: usize = data.len();
    let mut pics: Vec<Vec<Vec<u8>>> = Vec::new();
    let mut i: usize = 0;
    while i < count_us
        invariant
            img_ok(data@),
            dlen == data@.len(),
            count_us == img_count(data@),
            rows_us == img_rows(data@),
            cols_us == img_cols(data@),
            0 <= i <= count_us,
            pics@.len() == i,
            forall|p: int|
                0 <= p < i as int ==> (#[trigger] pics@[p])@.len() == rows_us,
            forall|p: int, rr: int|
                0 <= p < i as int && 0 <= rr < rows_us as int
                    ==> (#[trigger] pics@[p]@[rr])@.len() == cols_us,
            forall|p: int, rr: int, c: int|
                0 <= p < i as int && 0 <= rr < rows_us as int && 0 <= c < cols_us as int
                    ==> #[trigger] pics@[p]@[rr]@[c] == img_pixel(data@, p, rr, c),
        decreases count_us - i,
    {
        let mut grid: Vec<Vec<u8>> = Vec::new();
        let mut rr: usize = 0;
        while rr < rows_us
            invariant
                img_ok(data@),
                dlen == data@.len(),
                count_us == img_count(data@),
                rows_us == img_rows(data@),
                cols_us == img_cols(data@),
                i < count_us,
                0 <= rr <= rows_us,
                grid@.len() == rr,
                forall|r2: int|
                    0 <= r2 < rr as int ==> (#[trigger] grid@[r2])@.len() == cols_us,
                forall|r2: int, c: int|
                    0 <= r2 < rr as int && 0 <= c < cols_us as int
                        ==> #[trigger] grid@[r2]@[c] == img_pixel(data@, i as int, r2, c),
            decreases rows_us - rr,
        {
            let mut row: Vec<u8> = Vec::new();
            let mut c: usize = 0;
            while c < cols_us
                invariant
                    img_ok(data@),
                    dlen == data@.len(),
                    count_us == img_count(data@),
                    rows_us == img_rows(data@),
                    cols_us == img_cols(data@),
                    i < count_us,
                    rr < rows_us,
                    0 <= c <= cols_us,
                    row@.len() == c,
                    forall|c2: int|
                        0 <= c2 < c as int ==> #[trigger] row@[c2] == img_pixel(
                            data@,
                            i as int,
                            rr as int,
                            c2,
                        ),
                decreases cols_us - c,
            {
                proof {
                    lemma_img_index(
                        i as int,
                        rr as int,
                        c as int,
                        count_us as int,
                        rows_us as int,
                        cols_us as int,
                    );
                    assert(16 + (count_us as int) * (rows_us as int) * (cols_us as int)
                        <= dlen as int);
                }
                let idx: usize = 16 + (i * rows_us + rr) * cols_us + c;
                row.push(data[idx]);
                c += 1;
            }
            grid.push(row);
            rr += 1;
        }
        pics.push(grid);
        i += 1;
    }
    Ok(Numbers { magic_number: magic, size: count, rows, cols, pictures: pics })
}

/// Decodes a label file: an 8-byte big-endian header (magic, count) followed
/// by `count` label bytes.  Fails exactly when the bytes run short of what
/// the header promises.
pub fn read_labels(data: &Vec<u8>) -> (r: Result<Labels, Error>)
    ensures
        match r {
            Ok(l) => {
                &&& lab_ok(data@)
                &&& l.magic_number == be_u32(data@[0], data@[1], data@[2], data@[3])
                &&& l.size == lab_count(data@)
                &&& l.labels@ == data@.subrange(8, 8 + lab_count(data@))
            },
            Err(e) => e == Error::TruncatedData && !lab_ok(data@),
        },
{
    if data.len() < 8 {
        return Err(Error::TruncatedData);
    }
    let magic = read_be_u32(data, 0);
    let count = read_be_u32(data, 4);
    let have: u64 = (data.len() - 8) as u64;
    if have < count as u64 {
        return Err(Error::TruncatedData);
    }
    let count_us: usize = count as usize;
    let dlen: usize = data.len();
    let mut labs: Vec<u8> = Vec::new();
    let mut i: usize = 0;
    while i < count_us
        invariant
            lab_ok(data@),
            dlen == data@.len(),
            count_us == lab_count(data@),
            0 <= i <= count_us,
            labs@.len() == i,
            forall|p: int| 0 <= p < i as int ==> #[trigger] labs@[p] == data@[8 + p],
        decreases count_us - i,
    {
        labs.push(data[8 + i]);
        i += 1;
    }
    proof {
        assert(labs@ =~= data@.subrange(8, 8 + lab_count(data@)));
    }
    Ok(Labels { magic_number: magic, size: count, labels: labs })
}

} // verus!
