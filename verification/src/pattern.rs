//! A single knitting pattern and its packed body layout: BCD header,
//! nibble-granular bit packing with padding, and the opaque memo block.

use vstd::prelude::*;

use crate::util::{
    bcd_rep, bcd_val, bits_to_bytes, copy_nibble_range, copy_range, from_bcd, from_nibbles,
    lemma_bcd_rep_len_exact, lemma_bcd_val_bound, lemma_div_plus_multiple, lemma_mul_div_plus,
    lemma_padding_mod, nibble_bits, padding, spec_bits_to_bytes, spec_from_nibbles,
    spec_nibble_bits, spec_padding, spec_to_nibbles, to_bcd, to_nibbles,
};
use crate::nibble::nib_vals;
use crate::KhError;

verus! {

/// A knitting pattern: its number, bitmap, dimensions, and memo block.
pub struct Pattern {
    pub number: u16,
    pub rows: Vec<Vec<bool>>,
    pub height: u16,
    pub width: u16,
    pub memo: Vec<u8>,
}

/// The mathematical value of a pattern.
pub ghost struct PatternView {
    pub number: u16,
    pub rows: Seq<Seq<bool>>,
    pub height: u16,
    pub width: u16,
    pub memo: Seq<u8>,
}

/// The sequence-of-sequences value of a bitmap.
pub open spec fn rows_view(rows: Seq<Vec<bool>>) -> Seq<Seq<bool>> {
    rows.map_values(|v: Vec<bool>| v@)
}

impl View for Pattern {
    type V = PatternView;

    open spec fn view(&self) -> PatternView {
        PatternView {
            number: self.number,
            rows: rows_view(self.rows@),
            height: self.height,
            width: self.width,
            memo: self.memo@,
        }
    }
}

/// Bytes of a memo block for a pattern of `h` rows.
pub open spec fn spec_memo_size(h: int) -> int {
    (h + 1) / 2
}

/// Nibbles holding one packed row of `w` stitches.
pub open spec fn spec_row_nibbles(w: int) -> int {
    (w + 3) / 4
}

/// Zero bits in front of each packed row.
pub open spec fn spec_row_pad_bits(w: int) -> int {
    spec_padding(w, 4)
}

/// Zero nibbles in front of the whole packed bitmap.
pub open spec fn spec_initial_padding(w: int, h: int) -> int {
    spec_padding(spec_row_nibbles(w) * h, 2)
}

/// Bytes of the packed bitmap of a `w` by `h` pattern.
pub open spec fn spec_pattern_size(w: int, h: int) -> int {
    (spec_row_nibbles(w) * h + spec_initial_padding(w, h)) / 2
}

/// A pattern's dimensions are BCD-representable, and its bitmap and memo
/// have the lengths the dimensions prescribe.
pub open spec fn pattern_wf(p: PatternView) -> bool {
    &&& 1 <= p.width <= 999
    &&& 1 <= p.height <= 999
    &&& p.number <= 9998
    &&& p.rows.len() == p.height
    &&& forall|r: int| 0 <= r < p.rows.len() ==> (#[trigger] p.rows[r]).len() == p.width
    &&& p.memo.len() == spec_memo_size(p.height as int)
}

/// A row of `w` stitches packs into whole nibbles: `pad + w` bits.
pub proof fn lemma_row_geometry(w: int)
    requires
        w >= 0,
    ensures
        4 * spec_row_nibbles(w) == w + spec_padding(w, 4),
        0 <= spec_padding(w, 4) < 4,
{
    lemma_padding_mod(w, 4);
    let q = w / 4;
    let m = w % 4;
    vstd::arithmetic::div_mod::lemma_fundamental_div_mod(w, 4);
    vstd::arithmetic::div_mod::lemma_mod_bound(w, 4);
    if m == 0 {
        lemma_mul_div_plus(q, 3, 4);
        assert(w + 3 == 4 * q + 3);
    } else {
        lemma_mul_div_plus(q + 1, m - 1, 4);
        assert(w + 3 == 4 * (q + 1) + (m - 1));
        vstd::arithmetic::div_mod::lemma_small_mod((4 - m) as nat, 4nat);
    }
}

/// The packed bitmap's bit count is a whole number of bytes.
pub proof fn lemma_body_bits(w: int, h: int)
    requires
        w >= 1,
        h >= 1,
    ensures
        2 * spec_pattern_size(w, h) == spec_row_nibbles(w) * h + spec_initial_padding(w, h),
        (4 * spec_initial_padding(w, h) + h * (4 * spec_row_nibbles(w))) % 8 == 0,
        (4 * spec_initial_padding(w, h) + h * (4 * spec_row_nibbles(w))) / 8 == spec_pattern_size(
            w,
            h,
        ),
        spec_row_nibbles(w) >= 1,
        0 <= spec_initial_padding(w, h) < 2,
{
    let rn = spec_row_nibbles(w);
    let x = rn * h;
    assert(rn >= 1);
    assert(rn * h >= 1 * 1) by (nonlinear_arith)
        requires
            rn >= 1,
            h >= 1,
    ;
    lemma_padding_mod(x, 2);
    let ip = spec_initial_padding(w, h);
    assert((x + ip) % 2 == 0);
    vstd::arithmetic::div_mod::lemma_fundamental_div_mod(x + ip, 2);
    assert(2 * spec_pattern_size(w, h) == x + ip);
    assert(h * (4 * rn) == 4 * (rn * h)) by (nonlinear_arith);
    let ps = spec_pattern_size(w, h);
    assert(4 * ip + 4 * x == 8 * ps);
    lemma_mul_div_plus(ps, 0, 8);
    assert(8 * ps == 8 * ps + 0);
}

/// Bit `i` of the packed bitmap of a `w` by `h` bitmap: leading zero
/// padding, then each row MSB-padded and reversed.
pub open spec fn spec_pattern_bits(w: int, h: int, rows: Seq<Seq<bool>>) -> Seq<bool> {
    let rn = spec_row_nibbles(w);
    let ip = spec_initial_padding(w, h);
    let pad = spec_row_pad_bits(w);
    Seq::new(
        (4 * ip + h * (4 * rn)) as nat,
        |i: int|
            if i < 4 * ip {
                false
            } else {
                let k = (i - 4 * ip) % (4 * rn);
                if k < pad {
                    false
                } else {
                    rows[(i - 4 * ip) / (4 * rn)][w - 1 - (k - pad)]
                }
            },
    )
}

/// The bitmap a packed body describes: per row, take the row's nibbles,
/// drop the pad bits, and reverse.
pub open spec fn spec_parse_rows(w: int, h: int, data: Seq<u8>) -> Seq<Seq<bool>> {
    let rn = spec_row_nibbles(w);
    let ip = spec_initial_padding(w, h);
    let pad = spec_row_pad_bits(w);
    let bits = spec_nibble_bits(spec_to_nibbles(data));
    Seq::new(
        h as nat,
        |r: int| Seq::new(w as nat, |j: int| bits[4 * (ip + rn * r) + pad + (w - 1 - j)]),
    )
}

/// Bytes of the memo block of a pattern of `height` rows.
pub fn memo_size(height: u16) -> (r: usize)
    ensures
        r == spec_memo_size(height as int),
{
    if height % 2 == 0 {
        (height / 2) as usize
    } else {
        (height / 2 + 1) as usize
    }
}

/// Row nibbles, row pad bits and initial padding of a `width` by `height`
/// bitmap.
pub fn pattern_data_sizes(width: u16, height: u16) -> (r: (usize, usize, usize))
    requires
        1 <= width <= 999,
        1 <= height <= 999,
    ensures
        r.0 == spec_row_nibbles(width as int),
        r.1 == spec_row_pad_bits(width as int),
        r.2 == spec_initial_padding(width as int, height as int),
        r.0 <= 251,
{
    let row_nibbles = (width as usize + 3) / 4;
    let row_pad_bits = padding(width as usize, 4);
    proof {
        assert(row_nibbles <= 251);
        assert(row_nibbles * (height as usize) <= 251 * 999) by (nonlinear_arith)
            requires
                0 <= row_nibbles <= 251,
                0 <= height as usize <= 999,
        ;
    }
    let initial_padding = padding(row_nibbles * height as usize, 2);
    proof {
        assert(row_nibbles * height as usize == spec_row_nibbles(width as int) * (height as int));
    }
    (row_nibbles, row_pad_bits, initial_padding)
}

/// Unpack a packed bitmap body into its `height` rows of `width` stitches.
pub fn parse_pattern_rows(width: u16, height: u16, data: &Vec<u8>) -> (r: Vec<Vec<bool>>)
    requires
        1 <= width <= 999,
        1 <= height <= 999,
        data@.len() == spec_pattern_size(width as int, height as int),
    ensures
        rows_view(r@) == spec_parse_rows(width as int, height as int, data@),
        r@.len() == height,
        forall|i: int| 0 <= i < r@.len() ==> (#[trigger] r@[i])@.len() == width,
{
    let ghost w = width as int;
    let ghost h = height as int;
    let (rn, pad, ip) = pattern_data_sizes(width, height);
    proof {
        lemma_row_geometry(w);
        lemma_body_bits(w, h);
    }
    let ns = to_nibbles(data);
    let mut rows: Vec<Vec<bool>> = Vec::new();
    let mut r: usize = 0;
    while r < height as usize
        invariant
            1 <= width <= 999,
            1 <= height <= 999,
            data@.len() == spec_pattern_size(w, h),
            w == width as int,
            h == height as int,
            rn == spec_row_nibbles(w),
            pad == spec_row_pad_bits(w),
            ip == spec_initial_padding(w, h),
            4 * rn == w + pad,
            1 <= rn <= 251,
            ip < 2,
            pad < 4,
            2 * data@.len() == rn * h + ip,
            nib_vals(ns@) == spec_to_nibbles(data@),
            ns@.len() == data@.len() * 2,
            r <= height as usize,
            rows@.len() == r,
            forall|t: int|
                0 <= t < r ==> (#[trigger] rows@[t])@ == spec_parse_rows(w, h, data@)[t],
            forall|t: int| 0 <= t < r ==> (#[trigger] rows@[t])@.len() == width,
        decreases height as usize - r,
    {
        proof {
            assert(rn * (r as int) + rn == rn * (r as int + 1)) by (nonlinear_arith);
            assert(rn * (r as int + 1) <= rn * h) by (nonlinear_arith)
                requires
                    rn >= 0,
                    r as int + 1 <= h,
            ;
            assert(rn * h <= 251 * 999) by (nonlinear_arith)
                requires
                    0 <= rn <= 251,
                    0 <= h <= 999,
            ;
        }
        let start = ip + rn * r;
        let row_ns = copy_nibble_range(&ns, start, start + rn);
        let bits = nibble_bits(&row_ns);
        proof {
            assert forall|t: int| 0 <= t < 4 * rn implies bits@[t] == spec_nibble_bits(
                spec_to_nibbles(data@),
            )[4 * (start as int) + t] by {
                lemma_div_plus_multiple(start as int, t, 4);
                assert(nib_vals(row_ns@)[t / 4] == spec_to_nibbles(data@)[start + t / 4]);
            }
        }
        let mut row: Vec<bool> = Vec::new();
        let mut j: usize = 0;
        while j < width as usize
            invariant
                1 <= width,
                pad < 4,
                j <= width as usize,
                row@.len() == j,
                pad + width as usize <= bits@.len(),
                forall|t: int| 0 <= t < j ==> row@[t] == bits@[pad + width as usize - 1 - t],
            decreases width as usize - j,
        {
            row.push(bits[pad + (width as usize) - 1 - j]);
            j += 1;
        }
        proof {
            let rowspec = spec_parse_rows(w, h, data@)[r as int];
            assert forall|t: int| 0 <= t < w implies row@[t] == rowspec[t] by {
                assert(row@[t] == bits@[pad + w - 1 - t]);
                assert(bits@[pad + w - 1 - t] == spec_nibble_bits(spec_to_nibbles(data@))[4 * (
                start as int) + pad + w - 1 - t]);
            }
            assert(row@ =~= rowspec);
        }
        rows.push(row);
        r += 1;
    }
    proof {
        assert(rows_view(rows@) =~= spec_parse_rows(w, h, data@));
    }
    rows
}

/// The row-major grayscale raster of a pattern: a stitch is 0, anything
/// else 255.
pub open spec fn spec_image_bytes(p: PatternView) -> Seq<u8> {
    Seq::new(
        (p.height as nat) * (p.width as nat),
        |i: int|
            if p.rows[i / (p.width as int)][i % (p.width as int)] {
                0u8
            } else {
                255u8
            },
    )
}

/// The packed body of a pattern: its bit stream packed to bytes, then the
/// memo verbatim.
pub open spec fn spec_serialize_data(p: PatternView) -> Seq<u8> {
    spec_bits_to_bytes(spec_pattern_bits(p.width as int, p.height as int, p.rows)) + p.memo
}

/// The 7-byte header of a pattern stored with the given end offset.
pub open spec fn spec_header_bytes(p: PatternView, offset: u16) -> Seq<u8> {
    seq![(offset / 256) as u8, (offset % 256) as u8] + spec_from_nibbles(
        bcd_rep(p.height as nat, 3) + bcd_rep(p.width as nat, 3) + bcd_rep(p.number as nat, 4),
    )
}

/// The big-endian end offset stored in header slot `i`.
pub open spec fn spec_slot_end_offset(img: Seq<u8>, i: int) -> int {
    img[7 * i] * 256 + img[7 * i + 1]
}

/// The ten header nibbles of slot `i`.
pub open spec fn spec_slot_nibbles(img: Seq<u8>, i: int) -> Seq<u8> {
    spec_to_nibbles(img.subrange(7 * i + 2, 7 * i + 7))
}

pub open spec fn spec_slot_height(img: Seq<u8>, i: int) -> int {
    bcd_val(spec_slot_nibbles(img, i).subrange(0, 3))
}

pub open spec fn spec_slot_width(img: Seq<u8>, i: int) -> int {
    bcd_val(spec_slot_nibbles(img, i).subrange(3, 6))
}

pub open spec fn spec_slot_number(img: Seq<u8>, i: int) -> int {
    bcd_val(spec_slot_nibbles(img, i).subrange(7, 10))
}

/// Header slot `i` holds a pattern this library can represent: it is
/// occupied, its dimensions are in range, and its body lies inside the
/// image.
pub open spec fn spec_slot_ok(img: Seq<u8>, i: int) -> bool {
    let eo = spec_slot_end_offset(img, i);
    let h = spec_slot_height(img, i);
    let w = spec_slot_width(img, i);
    let n = spec_slot_number(img, i);
    &&& eo != 0
    &&& eo <= 0x7fff
    &&& 1 <= h <= 999
    &&& 1 <= w <= 999
    &&& n <= 9998
    &&& 0x7fff - eo >= spec_memo_size(h)
    &&& 0x7fff - eo - spec_memo_size(h) >= spec_pattern_size(w, h)
}

/// The pattern stored in header slot `i` of a RAM image.
pub open spec fn spec_slot_pattern(img: Seq<u8>, i: int) -> PatternView
    recommends
        spec_slot_ok(img, i),
{
    let eo = spec_slot_end_offset(img, i);
    let h = spec_slot_height(img, i);
    let w = spec_slot_width(img, i);
    let n = spec_slot_number(img, i);
    let memo_end = 0x7fff - eo;
    let memo_start = memo_end - spec_memo_size(h);
    let pattern_start = memo_start - spec_pattern_size(w, h);
    PatternView {
        number: n as u16,
        rows: spec_parse_rows(w, h, img.subrange(pattern_start + 1, memo_start + 1)),
        height: h as u16,
        width: w as u16,
        memo: img.subrange(memo_start + 1, memo_end + 1),
    }
}

impl Pattern {
    /// The pattern's number.
    pub fn pattern_number(&self) -> (r: u16)
        ensures
            r == self@.number,
    {
        self.number
    }

    /// Decode header slot `index` of a RAM image; `None` when the slot is
    /// empty or does not describe a representable pattern.
    pub fn from_memory_dump(data: &Vec<u8>, index: usize) -> (r: Option<Pattern>)
        requires
            data@.len() >= 0x8000,
            index < 98,
        ensures
            r is Some <==> spec_slot_ok(data@, index as int),
            r is Some ==> pattern_wf(r->0@) && r->0@ == spec_slot_pattern(data@, index as int),
    {
        let ghost gi = index as int;
        let eo = (data[7 * index] as usize) * 256 + (data[7 * index + 1] as usize);
        if eo == 0 || eo > 0x7fff {
            return None;
        }
        let header_tail = copy_range(data, 7 * index + 2, 7 * index + 7);
        let ns = to_nibbles(&header_tail);
        let h_sub = copy_nibble_range(&ns, 0, 3);
        let w_sub = copy_nibble_range(&ns, 3, 6);
        let n_sub = copy_nibble_range(&ns, 7, 10);
        proof {
            assert(nib_vals(ns@) == spec_slot_nibbles(data@, gi));
            lemma_bcd_val_bound(nib_vals(h_sub@));
            lemma_bcd_val_bound(nib_vals(w_sub@));
            lemma_bcd_val_bound(nib_vals(n_sub@));
        }
        let height = from_bcd(&h_sub);
        let width = from_bcd(&w_sub);
        let number = from_bcd(&n_sub);
        if height < 1 || height > 999 || width < 1 || width > 999 || number > 9998 {
            return None;
        }
        let msize = memo_size(height);
        let memo_end = 0x7fff - eo;
        if memo_end < msize {
            return None;
        }
        let memo_start = memo_end - msize;
        let (rn, _, ip) = pattern_data_sizes(width, height);
        proof {
            lemma_body_bits(width as int, height as int);
            assert(rn * (height as usize) <= 251 * 999) by (nonlinear_arith)
                requires
                    0 <= rn <= 251,
                    0 <= height as usize <= 999,
            ;
        }
        let psize = (rn * (height as usize) + ip) / 2;
        if memo_start < psize {
            return None;
        }
        let pattern_start = memo_start - psize;
        let memo = copy_range(data, memo_start + 1, memo_end + 1);
        let body = copy_range(data, pattern_start + 1, memo_start + 1);
        let rows = parse_pattern_rows(width, height, &body);
        let p = Pattern { number, rows, height, width, memo };
        proof {
            assert(spec_slot_ok(data@, gi));
            assert(p@.rows == spec_slot_pattern(data@, gi).rows);
            assert(p@ == spec_slot_pattern(data@, gi));
        }
        Some(p)
    }

    /// Build a pattern from a grayscale raster: a pixel below 128 is a
    /// stitch. The memo block starts out zeroed. Dimensions outside 1..=999,
    /// or a number above 9998, cannot be encoded and are rejected.
    pub fn from_image(pattern_number: u16, width: u32, height: u32, pixels: &Vec<u8>) -> (r:
        Result<Pattern, KhError>)
        requires
            pixels@.len() == width * height,
        ensures
            r is Ok <==> (1 <= width <= 999 && 1 <= height <= 999 && pattern_number <= 9998),
            r is Ok ==> ({
                let p = r->Ok_0@;
                &&& pattern_wf(p)
                &&& p.number == pattern_number
                &&& p.width == width
                &&& p.height == height
                &&& forall|y: int, x: int|
                    0 <= y < height && 0 <= x < width ==> p.rows[y][x] == (pixels@[y * width + x]
                        < 128)
                &&& p.memo == Seq::new(spec_memo_size(height as int) as nat, |j: int| 0u8)
            }),
    {
        if width < 1 || width > 999 || height < 1 || height > 999 || pattern_number > 9998 {
            return Err(KhError::Encoding);
        }
        let w = width as usize;
        let h = height as usize;
        let mut rows: Vec<Vec<bool>> = Vec::new();
        let mut y: usize = 0;
        while y < h
            invariant
                w == width,
                h == height,
                1 <= w <= 999,
                1 <= h <= 999,
                pixels@.len() == w * h,
                y <= h,
                rows@.len() == y,
                forall|t: int| 0 <= t < y ==> (#[trigger] rows@[t])@.len() == w,
                forall|t: int, x: int|
                    0 <= t < y && 0 <= x < w ==> (#[trigger] rows@[t]@[x]) == (pixels@[t * w + x]
                        < 128),
            decreases h - y,
        {
            proof {
                assert((y as int) * w + w == (y as int + 1) * w) by (nonlinear_arith);
                assert((y as int + 1) * w <= h * w) by (nonlinear_arith)
                    requires
                        w >= 0,
                        y as int + 1 <= h,
                ;
                assert(h * w == w * h) by (nonlinear_arith);
                assert(h * w <= 999 * 999) by (nonlinear_arith)
                    requires
                        0 <= w <= 999,
                        0 <= h <= 999,
                ;
            }
            let mut row: Vec<bool> = Vec::new();
            let mut x: usize = 0;
            while x < w
                invariant
                    pixels@.len() == w * h,
                    (y as int) * w + w <= w * h,
                    w * h <= 999 * 999,
                    y < h,
                    x <= w,
                    row@.len() == x,
                    forall|t: int| 0 <= t < x ==> row@[t] == (pixels@[(y as int) * w + t] < 128),
                decreases w - x,
            {
                row.push(pixels[y * w + x] < 128);
                x += 1;
            }
            rows.push(row);
            y += 1;
        }
        let msize = memo_size(height as u16);
        let memo = crate::disk::byte_vec(msize, 0);
        let p = Pattern {
            number: pattern_number,
            rows,
            height: height as u16,
            width: width as u16,
            memo,
        };
        proof {
            assert forall|t: int| 0 <= t < p@.rows.len() implies (#[trigger] p@.rows[t]).len()
                == width by {}
            assert(p@.memo =~= Seq::new(spec_memo_size(height as int) as nat, |j: int| 0u8));
        }
        Ok(p)
    }

    /// The pattern as a row-major grayscale raster: a stitch is 0 (black),
    /// anything else 255 (white).
    pub fn to_image(&self) -> (r: Vec<u8>)
        requires
            pattern_wf(self@),
        ensures
            r@ == spec_image_bytes(self@),
            r@.len() == self@.height * self@.width,
    {
        let w = self.width as usize;
        let h = self.height as usize;
        let mut r: Vec<u8> = Vec::new();
        let mut y: usize = 0;
        while y < h
            invariant
                w == self@.width,
                h == self@.height,
                1 <= w <= 999,
                pattern_wf(self@),
                y <= h,
                r@.len() == (y as int) * w,
                (y as int) * w <= (h as int) * w,
                forall|i: int| 0 <= i < r@.len() ==> r@[i] == spec_image_bytes(self@)[i],
            decreases h - y,
        {
            proof {
                assert((y as int) * w + w == (y as int + 1) * w) by (nonlinear_arith);
                assert((y as int + 1) * w <= (h as int) * w) by (nonlinear_arith)
                    requires
                        w >= 0,
                        y as int + 1 <= h,
                ;
                assert((h as int) * w <= 999 * 999) by (nonlinear_arith)
                    requires
                        0 <= w <= 999,
                        0 <= h <= 999,
                ;
            }
            let mut x: usize = 0;
            while x < w
                invariant
                    w == self@.width,
                    h == self@.height,
                    pattern_wf(self@),
                    y < h,
                    x <= w,
                    r@.len() == (y as int) * w + x,
                    (y as int) * w + w <= (h as int) * w,
                    (h as int) * w <= 999 * 999,
                    forall|i: int| 0 <= i < r@.len() ==> r@[i] == spec_image_bytes(self@)[i],
                decreases w - x,
            {
                proof {
                    assert(self@.rows[y as int].len() == self@.width);
                    lemma_mul_div_plus(y as int, x as int, w as int);
                    assert((w as int) * (y as int) == (y as int) * w) by (nonlinear_arith);
                }
                let v: u8 = if self.rows[y][x] {
                    0
                } else {
                    255
                };
                r.push(v);
                x += 1;
            }
            y += 1;
        }
        proof {
            assert((h as int) * w == (self@.height as nat) * (self@.width as nat))
                by (nonlinear_arith)
                requires
                    w == self@.width,
                    h == self@.height,
            ;
            assert(r@ =~= spec_image_bytes(self@));
        }
        r
    }

    /// The packed body of the pattern: leading zero nibbles, each row padded
    /// and reversed, packed MSB first, then the memo verbatim.
    pub fn serialize_data(&self) -> (r: Vec<u8>)
        requires
            pattern_wf(self@),
        ensures
            r@ == spec_serialize_data(self@),
            r@.len() == spec_pattern_size(self@.width as int, self@.height as int)
                + spec_memo_size(self@.height as int),
    {
        let ghost w = self.width as int;
        let ghost h = self.height as int;
        let ghost goal = spec_pattern_bits(w, h, self@.rows);
        let (rn, pad, ip) = pattern_data_sizes(self.width, self.height);
        proof {
            lemma_row_geometry(w);
            lemma_body_bits(w, h);
        }
        proof {
            assert(h * (4 * rn) >= 1 * (4 * rn)) by (nonlinear_arith)
                requires
                    h >= 1,
                    4 * rn >= 0,
            ;
        }
        let mut bits: Vec<bool> = Vec::new();
        let mut t: usize = 0;
        while t < 4 * ip
            invariant
                ip < 2,
                t <= 4 * ip,
                goal == spec_pattern_bits(w, h, self@.rows),
                ip == spec_initial_padding(w, h),
                goal.len() >= 4 * ip,
                bits@ == goal.subrange(0, t as int),
            decreases 4 * ip - t,
        {
            proof {
                assert(goal[t as int] == false);
                assert(goal.subrange(0, t as int).push(goal[t as int]) =~= goal.subrange(
                    0,
                    t + 1,
                ));
            }
            bits.push(false);
            t += 1;
        }
        let mut r: usize = 0;
        while r < self.height as usize
            invariant
                pattern_wf(self@),
                w == self.width as int,
                h == self.height as int,
                goal == spec_pattern_bits(w, h, self@.rows),
                rn == spec_row_nibbles(w),
                pad == spec_row_pad_bits(w),
                ip == spec_initial_padding(w, h),
                4 * rn == w + pad,
                1 <= rn <= 251,
                ip < 2,
                pad < 4,
                r <= self.height as usize,
                bits@.len() == 4 * ip + r * (4 * rn),
                bits@ == goal.subrange(0, bits@.len() as int),
            decreases self.height as usize - r,
        {
            let ghost base = bits@.len() as int;
            proof {
                assert((r as int) * (4 * rn) + (4 * rn) == (r as int + 1) * (4 * rn))
                    by (nonlinear_arith);
                assert((r as int + 1) * (4 * rn) <= h * (4 * rn)) by (nonlinear_arith)
                    requires
                        4 * rn >= 0,
                        r as int + 1 <= h,
                ;
                assert(base - 4 * ip == (4 * rn) * (r as int)) by (nonlinear_arith)
                    requires
                        base == 4 * ip + (r as int) * (4 * rn),
                ;
                assert((4 * rn) * (r as int) >= 0) by (nonlinear_arith)
                    requires
                        rn >= 0,
                        r >= 0,
                ;
                assert(goal.len() == 4 * ip + h * (4 * rn));
            }
            let mut q: usize = 0;
            while q < pad
                invariant
                    pad < 4,
                    q <= pad,
                    goal == spec_pattern_bits(w, h, self@.rows),
                    rn == spec_row_nibbles(w),
                    pad == spec_row_pad_bits(w),
                    ip == spec_initial_padding(w, h),
                    base == 4 * ip + (4 * rn) * (r as int),
                    r as int + 1 <= h,
                    4 * rn == w + pad,
                    1 <= rn,
                    base >= 4 * ip,
                    base + 4 * rn <= goal.len(),
                    bits@.len() == base + q,
                    bits@ == goal.subrange(0, bits@.len() as int),
                decreases pad - q,
            {
                proof {
                    lemma_mul_div_plus(r as int, q as int, 4 * rn);
                    assert(goal[base + q] == false);
                    assert(goal.subrange(0, base + q).push(goal[base + q]) =~= goal.subrange(
                        0,
                        base + q + 1,
                    ));
                }
                bits.push(false);
                q += 1;
            }
            let row = &self.rows[r];
            proof {
                assert(self@.rows[r as int] == row@);
                assert(row@.len() == w);
            }
            let mut j: usize = 0;
            while j < self.width as usize
                invariant
                    w == self.width as int,
                    1 <= w,
                    pad < 4,
                    row@.len() == w,
                    row@ == self@.rows[r as int],
                    goal == spec_pattern_bits(w, h, self@.rows),
                    rn == spec_row_nibbles(w),
                    pad == spec_row_pad_bits(w),
                    ip == spec_initial_padding(w, h),
                    base == 4 * ip + (4 * rn) * (r as int),
                    r as int + 1 <= h,
                    4 * rn == w + pad,
                    1 <= rn,
                    base >= 4 * ip,
                    base + 4 * rn <= goal.len(),
                    j <= self.width as usize,
                    w == self.width as int,
                    bits@.len() == base + pad + j,
                    bits@ == goal.subrange(0, bits@.len() as int),
                decreases self.width as usize - j,
            {
                proof {
                    lemma_mul_div_plus(r as int, pad + j, 4 * rn);
                    assert(goal[base + pad + j] == self@.rows[r as int][w - 1 - j]);
                    assert(goal.subrange(0, base + pad + j).push(goal[base + pad + j])
                        =~= goal.subrange(0, base + pad + j + 1));
                }
                bits.push(row[(self.width as usize) - 1 - j]);
                j += 1;
            }
            proof {
                assert(bits@.len() == 4 * ip + (r as int + 1) * (4 * rn));
            }
            r += 1;
        }
        proof {
            assert((self.height as int) * (4 * rn) == h * (4 * rn));
            assert(goal.subrange(0, goal.len() as int) =~= goal);
            assert(bits@ == goal);
        }
        let mut out = bits_to_bytes(&bits);
        out.extend_from_slice(self.memo.as_slice());
        proof {
            assert(out@ == spec_serialize_data(self@));
        }
        out
    }

    /// The 7-byte header of the pattern: big-endian end offset, then the
    /// height, width and number as packed BCD nibbles.
    pub fn serialize_header(&self, offset: u16) -> (r: Vec<u8>)
        requires
            pattern_wf(self@),
        ensures
            r@ == spec_header_bytes(self@, offset),
            r@.len() == 7,
    {
        let mut data: Vec<u8> = Vec::new();
        proof {
            assert(offset >> 8 == offset / 256) by (bit_vector);
            assert(offset & 0xff == offset % 256) by (bit_vector);
        }
        data.push((offset >> 8) as u8);
        data.push((offset & 0xff) as u8);
        let mut header_nibbles = to_bcd(self.height, 3);
        let mut wn = to_bcd(self.width, 3);
        let mut nn = to_bcd(self.number, 4);
        proof {
            reveal_with_fuel(crate::util::pow10, 5);
            assert(crate::util::pow10(3) == 1000);
            assert(crate::util::pow10(4) == 10000);
            lemma_bcd_rep_len_exact(self.height as nat, 3);
            lemma_bcd_rep_len_exact(self.width as nat, 3);
            lemma_bcd_rep_len_exact(self.number as nat, 4);
        }
        header_nibbles.append(&mut wn);
        header_nibbles.append(&mut nn);
        proof {
            assert(nib_vals(header_nibbles@) =~= bcd_rep(self.height as nat, 3) + bcd_rep(
                self.width as nat,
                3,
            ) + bcd_rep(self.number as nat, 4));
        }
        let packed = from_nibbles(&header_nibbles);
        data.extend_from_slice(packed.as_slice());
        proof {
            assert(data@ =~= spec_header_bytes(self@, offset));
        }
        data
    }
}

/// Packing a well-formed bitmap and parsing the packed body back yields the
/// same bitmap.
pub proof fn lemma_pattern_body_round_trip(p: PatternView)
    requires
        pattern_wf(p),
    ensures
        spec_parse_rows(
            p.width as int,
            p.height as int,
            spec_bits_to_bytes(spec_pattern_bits(p.width as int, p.height as int, p.rows)),
        ) == p.rows,
{
    let w = p.width as int;
    let h = p.height as int;
    let rn = spec_row_nibbles(w);
    let ip = spec_initial_padding(w, h);
    let pad = spec_row_pad_bits(w);
    let bits = spec_pattern_bits(w, h, p.rows);
    let body = spec_bits_to_bytes(bits);
    lemma_row_geometry(w);
    lemma_body_bits(w, h);
    assert(bits.len() == 4 * ip + h * (4 * rn));
    crate::util::lemma_bits_bytes_round_trip(bits);
    crate::util::lemma_nibble_bits_of_bytes(body);
    assert(spec_nibble_bits(spec_to_nibbles(body)) == bits);
    let parsed = spec_parse_rows(w, h, body);
    assert forall|r: int| 0 <= r < h implies parsed[r] == p.rows[r] by {
        assert forall|j: int| 0 <= j < w implies parsed[r][j] == p.rows[r][j] by {
            let c = pad + (w - 1 - j);
            let i = 4 * (ip + rn * r) + c;
            assert(4 * (ip + rn * r) == 4 * ip + (4 * rn) * r) by (nonlinear_arith);
            lemma_mul_div_plus(r, c, 4 * rn);
            assert((4 * rn) * r + (4 * rn) <= h * (4 * rn)) by (nonlinear_arith)
                requires
                    4 * rn >= 0,
                    r + 1 <= h,
            ;
            assert(i - 4 * ip == (4 * rn) * r + c);
            assert(bits[i] == p.rows[r][w - 1 - (c - pad)]);
            assert(w - 1 - (c - pad) == j);
        }
        assert(parsed[r] =~= p.rows[r]);
    }
    assert(parsed =~= p.rows);
}

} // verus!
