//! Frame readback: rows of a copied texture are padded to 256 bytes; the
//! image written out has them packed, and a BGRA frame has red and blue
//! swapped into RGBA.
use crate::index::append_all;
use vstd::prelude::*;

verus! {

/// Bytes in a readback row of `width` RGBA pixels: `4 * width` rounded up to
/// a multiple of 256.
pub open spec fn padded_row_spec(width: u32) -> int {
    (width * 4 + 255) / 256 * 256
}

/// The padded row size (see `padded_row_spec`).
pub fn padded_row(width: u32) -> (r: u32)
    requires
        width * 4 + 255 <= u32::MAX,
    ensures
        r == padded_row_spec(width),
        r >= width * 4,
        r % 256 == 0,
{
    let r = (width * 4 + 255) / 256 * 256;
    assert(r >= width * 4) by (nonlinear_arith)
        requires
            r == (width * 4 + 255) / 256 * 256,
    ;
    assert(r % 256 == 0) by (nonlinear_arith)
        requires
            r == (width * 4 + 255) / 256 * 256,
    ;
    r
}

/// The first `row` bytes of each of the first `h` rows of `data`, rows
/// starting every `stride` bytes.
pub open spec fn unpadded(data: Seq<u8>, row: int, stride: int, h: int) -> Seq<u8>
    decreases h,
{
    if h <= 0 {
        Seq::empty()
    } else {
        unpadded(data, row, stride, h - 1) + data.subrange((h - 1) * stride, (h - 1) * stride + row)
    }
}

/// `row` with the first and third byte of each 4-byte pixel swapped.
pub open spec fn swap_red_blue(row: Seq<u8>) -> Seq<u8> {
    Seq::new(
        row.len(),
        |i: int|
            if i % 4 == 0 && i + 2 < row.len() {
                row[i + 2]
            } else if i % 4 == 2 {
                row[i - 2]
            } else {
                row[i]
            },
    )
}

proof fn lemma_row_in_bounds(data_len: int, row: int, stride: int, h: int, r: int)
    requires
        0 <= row <= stride,
        h * stride <= data_len,
        0 <= r < h,
    ensures
        0 <= r * stride,
        r * stride + row <= data_len,
        (r + 1) * stride == r * stride + stride,
{
    assert(r * stride + row <= data_len) by (nonlinear_arith)
        requires
            0 <= row <= stride,
            h * stride <= data_len,
            0 <= r < h,
    ;
    assert(0 <= r * stride) by (nonlinear_arith)
        requires
            0 <= stride,
            0 <= r,
    ;
    assert((r + 1) * stride == r * stride + stride) by (nonlinear_arith);
}

/// The image of `height` rows of `width` pixels from a padded readback.
pub fn unpad(data: &[u8], width: u32, height: u32, stride: u32) -> (r: Vec<u8>)
    requires
        width * 4 <= stride,
        height * stride <= data@.len(),
    ensures
        r@ == unpadded(data@, width * 4, stride as int, height as int),
{
    let row = width as usize * 4;
    let dlen = data.len();
    let mut out: Vec<u8> = Vec::new();
    let mut r: u32 = 0;
    let mut at: usize = 0;
    while r < height
        invariant
            row == width * 4 <= stride,
            dlen == data@.len(),
            height * stride <= data@.len(),
            r <= height,
            at == r * stride,
            out@ == unpadded(data@, row as int, stride as int, r as int),
        decreases height - r,
    {
        proof {
            lemma_row_in_bounds(dlen as int, row as int, stride as int, height as int, r as int);
        }
        let part = vstd::slice::slice_subrange(data, at, at + row);
        let ghost before = out@;
        append_all(&mut out, part);
        proof {
            assert(out@ =~= before + data@.subrange(r * stride, r * stride + row));
        }
        proof {
            assert((r + 1) * stride <= height * stride) by (nonlinear_arith)
                requires
                    r < height,
            ;
        }
        at = at + stride as usize;
        r = r + 1;
    }
    out
}

/// The RGBA image of `height` rows of `width` BGRA pixels from a padded
/// readback.
pub fn unpad_bgra(data: &[u8], width: u32, height: u32, stride: u32) -> (r: Vec<u8>)
    requires
        width * 4 <= stride,
        height * stride <= data@.len(),
    ensures
        r@ == swap_red_blue(unpadded(data@, width * 4, stride as int, height as int)),
{
    let packed = unpad(data, width, height, stride);
    let n = packed.len();
    let mut out: Vec<u8> = Vec::new();
    let mut i: usize = 0;
    proof {
        lemma_unpadded_len(data@, width * 4, stride as int, height as int);
    }
    let ghost x = height as int * width as int;
    assert(n == 4 * x) by (nonlinear_arith)
        requires
            n == height * (width * 4),
            x == height * width,
    ;
    assert(n % 4 == 0);
    while i < n
        invariant
            n == packed@.len(),
            n % 4 == 0,
            i <= n,
            i % 4 == 0,
            out@ == swap_red_blue(packed@).take(i as int),
        decreases n - i,
    {
        out.push(packed[i + 2]);
        out.push(packed[i + 1]);
        out.push(packed[i]);
        out.push(packed[i + 3]);
        i = i + 4;
        assert(out@ =~= swap_red_blue(packed@).take(i as int));
    }
    assert(swap_red_blue(packed@).take(n as int) =~= swap_red_blue(packed@));
    out
}

/// An unpadded image of `h` rows holds `h * row` bytes.
pub proof fn lemma_unpadded_len(data: Seq<u8>, row: int, stride: int, h: int)
    requires
        0 <= row <= stride,
        h * stride <= data.len(),
        h >= 0,
    ensures
        unpadded(data, row, stride, h).len() == h * row,
    decreases h,
{
    if h > 0 {
        assert((h - 1) * stride <= data.len()) by (nonlinear_arith)
            requires
                h * stride <= data.len(),
                h >= 1,
                stride >= 0,
        ;
        lemma_unpadded_len(data, row, stride, h - 1);
        lemma_row_in_bounds(data.len() as int, row, stride, h, h - 1);
        assert(data.subrange((h - 1) * stride, (h - 1) * stride + row).len() == row);
        assert(h * row == (h - 1) * row + row) by (nonlinear_arith);
    } else {
        assert(h * row == 0) by (nonlinear_arith)
            requires
                h == 0,
        ;
    }
}

} // verus!
