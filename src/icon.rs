//! A process icon as a BMP image in a `data:` URI, and the layouts of the
//! operating system's icon and bitmap records.

use base64::Engine;
use vstd::prelude::*;
use vstd::string::StringExecFns;

verus! {

/// Icon record: the icon flag, the hotspot and the mask and color bitmaps.
#[derive(Clone, Copy, Debug)]
#[allow(non_snake_case)]
pub struct ICONINFO {
    pub fIcon: i32,
    pub xHotspot: u32,
    pub yHotspot: u32,
    pub hbmMask: usize,
    pub hbmColor: usize,
}

/// Bitmap information header.
#[derive(Clone, Copy, Debug)]
#[allow(non_snake_case)]
pub struct BITMAPINFOHEADER {
    pub biSize: u32,
    pub biWidth: i32,
    pub biHeight: i32,
    pub biPlanes: u16,
    pub biBitCount: u16,
    pub biCompression: u32,
    pub biSizeImage: u32,
    pub biXPelsPerMeter: i32,
    pub biYPelsPerMeter: i32,
    pub biClrUsed: u32,
    pub biClrImportant: u32,
}

/// Bitmap information: header and one color entry.
#[derive(Clone, Copy, Debug)]
#[allow(non_snake_case)]
pub struct BITMAPINFO {
    pub bmiHeader: BITMAPINFOHEADER,
    pub bmiColors: [u32; 1],
}

/// Bitmap record; `bmBits` is the address of the pixel data.
#[derive(Clone, Copy, Debug)]
#[allow(non_snake_case)]
pub struct BITMAP {
    pub bmType: i32,
    pub bmWidth: i32,
    pub bmHeight: i32,
    pub bmWidthBytes: i32,
    pub bmPlanes: u16,
    pub bmBitsPixel: u16,
    pub bmBits: usize,
}

/// The standard, padded base64 text of some bytes.
pub uninterp spec fn base64_standard(b: Seq<u8>) -> Seq<char>;

/// Relies on `base64::engine::general_purpose::STANDARD.encode`: the
/// standard alphabet with padding, four characters for every started group
/// of three bytes. It panics when that length does not fit a `usize`.
#[verifier::external_body]
fn encode_base64(b: &Vec<u8>) -> (r: String)
    requires
        4 * ((b@.len() + 2) / 3) <= usize::MAX,
    ensures
        r@ == base64_standard(b@),
        r@.len() == 4 * ((b@.len() + 2) / 3),
{
    base64::engine::general_purpose::STANDARD.encode(b)
}

/// Little-endian bytes of a 32-bit value.
pub open spec fn le32_bytes(v: int) -> Seq<u8> {
    seq![(v % 256) as u8, (v / 256 % 256) as u8, (v / 65536 % 256) as u8, (v / 16777216 % 256) as u8]
}

/// Little-endian bytes of a 16-bit value.
pub open spec fn le16_bytes(v: int) -> Seq<u8> {
    seq![(v % 256) as u8, (v / 256 % 256) as u8]
}

/// File header and information header of a 32-bit, uncompressed,
/// bottom-up BMP of `w` by `h` pixels.
pub open spec fn bmp_header(w: int, h: int) -> Seq<u8> {
    let size = w * h * 4;
    seq![66u8, 77u8] + le32_bytes(54 + size) + le16_bytes(0) + le16_bytes(0) + le32_bytes(54)
        + le32_bytes(40) + le32_bytes(w) + le32_bytes(h) + le16_bytes(1) + le16_bytes(32)
        + le32_bytes(0) + le32_bytes(size) + le32_bytes(0) + le32_bytes(0) + le32_bytes(0)
        + le32_bytes(0)
}

/// Rows `hi - 1` down to `lo` of a top-down pixel buffer with rows of
/// `row` bytes, in that order.
pub open spec fn rows_down(pixels: Seq<u8>, row: int, hi: int, lo: int) -> Seq<u8>
    decreases hi - lo,
{
    if hi <= lo {
        Seq::empty()
    } else {
        pixels.subrange((hi - 1) * row, hi * row) + rows_down(pixels, row, hi - 1, lo)
    }
}

/// A whole BMP file of a top-down BGRA pixel buffer: the rows are stored
/// bottom row first.
pub open spec fn bmp_file(pixels: Seq<u8>, w: int, h: int) -> Seq<u8> {
    bmp_header(w, h) + rows_down(pixels, w * 4, h, 0)
}

proof fn lemma_rows_down_extend(pixels: Seq<u8>, row: int, hi: int, lo: int)
    requires
        0 < lo <= hi,
    ensures
        rows_down(pixels, row, hi, lo - 1) == rows_down(pixels, row, hi, lo) + pixels.subrange(
            (lo - 1) * row,
            lo * row,
        ),
    decreases hi - lo,
{
    if hi == lo {
        assert(rows_down(pixels, row, hi - 1, lo - 1) =~= Seq::<u8>::empty());
        assert(rows_down(pixels, row, hi, lo - 1) =~= pixels.subrange((lo - 1) * row, lo * row));
        assert(rows_down(pixels, row, hi, lo) =~= Seq::<u8>::empty());
    } else {
        lemma_rows_down_extend(pixels, row, hi - 1, lo);
        assert(rows_down(pixels, row, hi, lo - 1) =~= rows_down(pixels, row, hi, lo) + pixels.subrange(
            (lo - 1) * row,
            lo * row,
        ));
    }
}

fn push_le32(out: &mut Vec<u8>, v: u32)
    ensures
        final(out)@ == old(out)@ + le32_bytes(v as int),
{
    out.push((v % 256) as u8);
    out.push((v / 256 % 256) as u8);
    out.push((v / 65536 % 256) as u8);
    out.push((v / 16777216 % 256) as u8);
    assert(final(out)@ =~= old(out)@ + le32_bytes(v as int));
}

fn push_le16(out: &mut Vec<u8>, v: u16)
    ensures
        final(out)@ == old(out)@ + le16_bytes(v as int),
{
    out.push((v % 256) as u8);
    out.push((v / 256 % 256) as u8);
    assert(final(out)@ =~= old(out)@ + le16_bytes(v as int));
}

/// The BMP file of a top-down BGRA buffer of `width` by `height` pixels.
pub fn build_bmp(pixels: &[u8], width: u32, height: u32) -> (r: Vec<u8>)
    requires
        width as int * height as int * 4 <= pixels@.len(),
        54 + width as int * height as int * 4 <= u32::MAX,
    ensures
        r@ == bmp_file(pixels@, width as int, height as int),
{
    let ghost w = width as int;
    let ghost h = height as int;
    assert(w * h * 4 <= u32::MAX);
    assert(0 <= w * h) by (nonlinear_arith)
        requires
            w >= 0,
            h >= 0,
    ;
    let size: u32 = width * height * 4;
    let mut out: Vec<u8> = Vec::new();
    out.push(66u8);
    out.push(77u8);
    push_le32(&mut out, 54 + size);
    push_le16(&mut out, 0);
    push_le16(&mut out, 0);
    push_le32(&mut out, 54);
    push_le32(&mut out, 40);
    push_le32(&mut out, width);
    push_le32(&mut out, height);
    push_le16(&mut out, 1);
    push_le16(&mut out, 32);
    push_le32(&mut out, 0);
    push_le32(&mut out, size);
    push_le32(&mut out, 0);
    push_le32(&mut out, 0);
    push_le32(&mut out, 0);
    push_le32(&mut out, 0);
    assert(out@ =~= bmp_header(w, h));
    if height == 0 {
        assert(rows_down(pixels@, w * 4, h, 0) =~= Seq::<u8>::empty());
        assert(out@ =~= bmp_file(pixels@, w, h));
        return out;
    }
    assert(w * 4 <= w * h * 4) by (nonlinear_arith)
        requires
            h >= 1,
            w >= 0,
    ;
    let plen: usize = pixels.len();
    let row: usize = (width as usize) * 4;
    let mut y: usize = height as usize;
    assert(rows_down(pixels@, w * 4, h, h) =~= Seq::<u8>::empty());
    while y > 0
        invariant
            y <= h,
            row == w * 4,
            w >= 0,
            plen == pixels@.len(),
            w * h * 4 <= pixels@.len(),
            out@ == bmp_header(w, h) + rows_down(pixels@, w * 4, h, y as int),
        decreases y,
    {
        assert((y - 1) * row + row <= pixels@.len()) by (nonlinear_arith)
            requires
                y <= h,
                row == w * 4,
                w * h * 4 <= pixels@.len(),
                y >= 1,
                w >= 0,
        ;
        let start: usize = (y - 1) * row;
        let ghost before = out@;
        let mut k: usize = 0;
        while k < row
            invariant
                k <= row,
                plen == pixels@.len(),
                start + row <= pixels@.len(),
                out@ == before + pixels@.subrange(start as int, start + k),
            decreases row - k,
        {
            out.push(pixels[start + k]);
            assert(pixels@.subrange(start as int, start + k + 1) =~= pixels@.subrange(
                start as int,
                start + k,
            ).push(pixels@[start + k]));
            k = k + 1;
        }
        proof {
            lemma_rows_down_extend(pixels@, w * 4, h, y as int);
            assert(start == (y - 1) * (w * 4));
            assert(start + row == y * (w * 4)) by (nonlinear_arith)
                requires
                    start == (y - 1) * (w * 4),
                    row == w * 4,
            ;
            assert(out@ =~= bmp_header(w, h) + rows_down(pixels@, w * 4, h, y - 1));
        }
        y = y - 1;
    }
    out
}

proof fn lemma_rows_down_len(pixels: Seq<u8>, row: int, hi: int)
    requires
        0 <= hi,
        0 <= row,
        hi * row <= pixels.len(),
    ensures
        rows_down(pixels, row, hi, 0).len() == hi * row,
    decreases hi,
{
    if hi > 0 {
        assert((hi - 1) * row <= hi * row) by (nonlinear_arith)
            requires
                row >= 0,
                hi >= 1,
        ;
        assert(hi * row - (hi - 1) * row == row) by (nonlinear_arith);
        assert(0 <= (hi - 1) * row) by (nonlinear_arith)
            requires
                row >= 0,
                hi >= 1,
        ;
        lemma_rows_down_len(pixels, row, hi - 1);
        assert(pixels.subrange((hi - 1) * row, hi * row).len() == row);
        assert(rows_down(pixels, row, hi, 0) == pixels.subrange((hi - 1) * row, hi * row)
            + rows_down(pixels, row, hi - 1, 0));
        assert(row + (hi - 1) * row == hi * row) by (nonlinear_arith);
    } else {
        assert(rows_down(pixels, row, hi, 0).len() == 0);
        assert(hi * row == 0) by (nonlinear_arith)
            requires
                hi == 0,
        ;
    }
}

proof fn lemma_bmp_len(pixels: Seq<u8>, w: int, h: int)
    requires
        w >= 0,
        h >= 0,
        w * h * 4 <= pixels.len(),
    ensures
        bmp_file(pixels, w, h).len() == 54 + w * h * 4,
{
    assert(h * (w * 4) == w * h * 4) by (nonlinear_arith);
    lemma_rows_down_len(pixels, w * 4, h);
}

/// The `data:` URI of a BMP icon of a top-down BGRA pixel buffer.
pub fn build_bmp_data_uri(pixels: &[u8], width: u32, height: u32) -> (r: String)
    requires
        width as int * height as int * 4 <= pixels@.len(),
        54 + width as int * height as int * 4 <= u32::MAX,
        4 * ((54 + width as int * height as int * 4 + 2) / 3) <= usize::MAX,
    ensures
        r@ == "data:image/bmp;base64,"@ + base64_standard(bmp_file(pixels@, width as int, height as int)),
        r@.len() == 22 + 4 * ((54 + width as int * height as int * 4 + 2) / 3),
{
    let bmp = build_bmp(pixels, width, height);
    let ghost size = width as int * height as int * 4;
    proof {
        lemma_bmp_len(pixels@, width as int, height as int);
    }
    assert(bmp@.len() == 54 + size);
    let encoded = encode_base64(&bmp);
    let mut uri = String::from_str("data:image/bmp;base64,");
    proof {
        reveal_strlit("data:image/bmp;base64,");
    }
    uri.append(encoded.as_str());
    uri
}

} // verus!
