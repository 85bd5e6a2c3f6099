//! The machine-level codec: the control block, and the composition of the
//! full 32 KiB RAM image from patterns, opaque passthrough regions and the
//! loaded-pattern field.

use vstd::prelude::*;
use vstd::multiset::Multiset;

use crate::disk::byte_vec;
use crate::KhError;
use crate::nibble::Nibble;
use crate::pattern::{
    pattern_wf, spec_header_bytes, spec_memo_size, spec_parse_rows, spec_pattern_size,
    spec_slot_ok, spec_slot_pattern, Pattern, PatternView,
};
use crate::util::{
    bcd_rep, bcd_val, copy_nibble_range, copy_range, from_bcd, from_nibbles,
    lemma_bcd_rep_len_exact, lemma_bcd_val_bound, pow10, spec_bits_to_bytes, spec_from_nibbles,
    spec_to_nibbles,
    to_bcd, to_nibbles,
};

verus! {

/// The 23-byte control block at RAM offset 0x7F00, big-endian fields.
#[derive(Clone, Copy, Debug, PartialEq, Eq)]
pub struct ControlData {
    pub next_pattern_ptr1: u16,
    pub unknown1: u16,
    pub next_pattern_ptr2: u16,
    pub last_pattern_end_ptr: u16,
    pub unknown2: u16,
    pub last_pattern_start_ptr: u16,
    pub unknown3: u32,
    pub header_end_ptr: u16,
    pub unknown_ptr: u16,
    pub unknown4_1: u16,
    pub unknown4_2: u8,
}

pub open spec fn spec_be16(a: u8, b: u8) -> u16 {
    (a * 256 + b) as u16
}

pub open spec fn spec_be32(a: u8, b: u8, c: u8, d: u8) -> u32 {
    (a * 0x1000000 + b * 0x10000 + c * 256 + d) as u32
}

/// The byte-exact serialization of a control block.
pub open spec fn spec_control_bytes(c: ControlData) -> Seq<u8> {
    seq![
        (c.next_pattern_ptr1 / 256) as u8,
        (c.next_pattern_ptr1 % 256) as u8,
        (c.unknown1 / 256) as u8,
        (c.unknown1 % 256) as u8,
        (c.next_pattern_ptr2 / 256) as u8,
        (c.next_pattern_ptr2 % 256) as u8,
        (c.last_pattern_end_ptr / 256) as u8,
        (c.last_pattern_end_ptr % 256) as u8,
        (c.unknown2 / 256) as u8,
        (c.unknown2 % 256) as u8,
        (c.last_pattern_start_ptr / 256) as u8,
        (c.last_pattern_start_ptr % 256) as u8,
        (c.unknown3 / 0x1000000) as u8,
        (c.unknown3 / 0x10000 % 256) as u8,
        (c.unknown3 / 256 % 256) as u8,
        (c.unknown3 % 256) as u8,
        (c.header_end_ptr / 256) as u8,
        (c.header_end_ptr % 256) as u8,
        (c.unknown_ptr / 256) as u8,
        (c.unknown_ptr % 256) as u8,
        (c.unknown4_1 / 256) as u8,
        (c.unknown4_1 % 256) as u8,
        c.unknown4_2,
    ]
}

/// The control block 23 bytes describe.
pub open spec fn spec_parse_control(d: Seq<u8>) -> ControlData
    recommends
        d.len() == 23,
{
    ControlData {
        next_pattern_ptr1: spec_be16(d[0], d[1]),
        unknown1: spec_be16(d[2], d[3]),
        next_pattern_ptr2: spec_be16(d[4], d[5]),
        last_pattern_end_ptr: spec_be16(d[6], d[7]),
        unknown2: spec_be16(d[8], d[9]),
        last_pattern_start_ptr: spec_be16(d[10], d[11]),
        unknown3: spec_be32(d[12], d[13], d[14], d[15]),
        header_end_ptr: spec_be16(d[16], d[17]),
        unknown_ptr: spec_be16(d[18], d[19]),
        unknown4_1: spec_be16(d[20], d[21]),
        unknown4_2: d[22],
    }
}

/// High byte of a big-endian u16.
fn be16_hi(x: u16) -> (r: u8)
    ensures
        r == x / 256,
{
    proof {
        assert(x >> 8 == x / 256 && x / 256 < 256) by (bit_vector);
    }
    (x >> 8) as u8
}

/// Low byte of a big-endian u16.
fn be16_lo(x: u16) -> (r: u8)
    ensures
        r == x % 256,
{
    proof {
        assert(x & 0xff == x % 256 && x % 256 < 256) by (bit_vector);
    }
    (x & 0xff) as u8
}

/// Parsing the serialized control block gives the block back.
pub proof fn lemma_control_round_trip(c: ControlData)
    ensures
        spec_control_bytes(c).len() == 23,
        spec_parse_control(spec_control_bytes(c)) == c,
{
    let x1 = c.next_pattern_ptr1;
    assert((x1 / 256) * 256 + x1 % 256 == x1) by (bit_vector);
    let x2 = c.unknown1;
    assert((x2 / 256) * 256 + x2 % 256 == x2) by (bit_vector);
    let x3 = c.next_pattern_ptr2;
    assert((x3 / 256) * 256 + x3 % 256 == x3) by (bit_vector);
    let x4 = c.last_pattern_end_ptr;
    assert((x4 / 256) * 256 + x4 % 256 == x4) by (bit_vector);
    let x5 = c.unknown2;
    assert((x5 / 256) * 256 + x5 % 256 == x5) by (bit_vector);
    let x6 = c.last_pattern_start_ptr;
    assert((x6 / 256) * 256 + x6 % 256 == x6) by (bit_vector);
    let y = c.unknown3;
    assert((y / 0x1000000) * 0x1000000 + (y / 0x10000 % 256) * 0x10000 + (y / 256 % 256) * 256 + y
        % 256 == y && y / 0x1000000 < 256) by (bit_vector);
    let x7 = c.header_end_ptr;
    assert((x7 / 256) * 256 + x7 % 256 == x7) by (bit_vector);
    let x8 = c.unknown_ptr;
    assert((x8 / 256) * 256 + x8 % 256 == x8) by (bit_vector);
    let x9 = c.unknown4_1;
    assert((x9 / 256) * 256 + x9 % 256 == x9) by (bit_vector);
}

impl ControlData {
    /// The control block parsed from its 23 serialized bytes.
    pub fn from_memory_dump(data: &Vec<u8>) -> (r: ControlData)
        requires
            data@.len() == 23,
        ensures
            r == spec_parse_control(data@),
    {
        ControlData {
            next_pattern_ptr1: (data[0] as u16) * 256 + (data[1] as u16),
            unknown1: (data[2] as u16) * 256 + (data[3] as u16),
            next_pattern_ptr2: (data[4] as u16) * 256 + (data[5] as u16),
            last_pattern_end_ptr: (data[6] as u16) * 256 + (data[7] as u16),
            unknown2: (data[8] as u16) * 256 + (data[9] as u16),
            last_pattern_start_ptr: (data[10] as u16) * 256 + (data[11] as u16),
            unknown3: (data[12] as u32) * 0x1000000 + (data[13] as u32) * 0x10000 + (
            data[14] as u32) * 256 + (data[15] as u32),
            header_end_ptr: (data[16] as u16) * 256 + (data[17] as u16),
            unknown_ptr: (data[18] as u16) * 256 + (data[19] as u16),
            unknown4_1: (data[20] as u16) * 256 + (data[21] as u16),
            unknown4_2: data[22],
        }
    }

    /// Recompute the pointer fields from the serialized pattern layout; the
    /// unknown fields are preserved verbatim.
    pub fn update(&mut self, layout: &Vec<(u16, Vec<u8>)>)
        requires
            layout@.len() <= 97,
            layout@.len() > 0 ==> layout@.last().0 + layout@.last().1@.len() + 1 <= 0xffff,
        ensures
            final(self).next_pattern_ptr1 == if layout@.len() == 0 {
                0x120u16
            } else {
                (layout@.last().0 + layout@.last().1@.len() + 1) as u16
            },
            final(self).next_pattern_ptr2 == if layout@.len() == 0 {
                0u16
            } else {
                (layout@.last().0 + layout@.last().1@.len() + 1) as u16
            },
            final(self).last_pattern_end_ptr == if layout@.len() == 0 {
                0u16
            } else {
                layout@.last().0
            },
            final(self).last_pattern_start_ptr == if layout@.len() == 0 {
                0u16
            } else {
                (layout@.last().0 + layout@.last().1@.len()) as u16
            },
            final(self).header_end_ptr == (0x8000 - 7 * layout@.len() - 7) as u16,
            final(self).unknown1 == old(self).unknown1,
            final(self).unknown2 == old(self).unknown2,
            final(self).unknown3 == old(self).unknown3,
            final(self).unknown_ptr == old(self).unknown_ptr,
            final(self).unknown4_1 == old(self).unknown4_1,
            final(self).unknown4_2 == old(self).unknown4_2,
    {
        let n = layout.len();
        if n == 0 {
            self.next_pattern_ptr1 = 0x120;
            self.next_pattern_ptr2 = 0;
            self.last_pattern_end_ptr = 0;
            self.last_pattern_start_ptr = 0;
        } else {
            let (end, data) = (&layout[n - 1].0, &layout[n - 1].1);
            let last_end: u16 = *end;
            let last_start: u16 = last_end + data.len() as u16;
            self.next_pattern_ptr1 = last_start + 1;
            self.next_pattern_ptr2 = last_start + 1;
            self.last_pattern_end_ptr = last_end;
            self.last_pattern_start_ptr = last_start;
        }
        self.header_end_ptr = (0x8000 - 7 * (n as u16) - 7) as u16;
    }

    /// The byte-exact 23-byte serialization of the control block.
    pub fn serialize(&self) -> (r: Vec<u8>)
        ensures
            r@ == spec_control_bytes(*self),
            r@.len() == 23,
    {
        let mut d: Vec<u8> = Vec::new();
        d.push(be16_hi(self.next_pattern_ptr1));
        d.push(be16_lo(self.next_pattern_ptr1));
        d.push(be16_hi(self.unknown1));
        d.push(be16_lo(self.unknown1));
        d.push(be16_hi(self.next_pattern_ptr2));
        d.push(be16_lo(self.next_pattern_ptr2));
        d.push(be16_hi(self.last_pattern_end_ptr));
        d.push(be16_lo(self.last_pattern_end_ptr));
        d.push(be16_hi(self.unknown2));
        d.push(be16_lo(self.unknown2));
        d.push(be16_hi(self.last_pattern_start_ptr));
        d.push(be16_lo(self.last_pattern_start_ptr));
        let y = self.unknown3;
        proof {
            assert(y >> 24 == y / 0x1000000 && y / 0x1000000 < 256) by (bit_vector);
            assert((y >> 16) & 0xff == y / 0x10000 % 256 && y / 0x10000 % 256 < 256)
                by (bit_vector);
            assert((y >> 8) & 0xff == y / 256 % 256 && y / 256 % 256 < 256) by (bit_vector);
            assert(y & 0xff == y % 256 && y % 256 < 256) by (bit_vector);
        }
        d.push((y >> 24) as u8);
        d.push(((y >> 16) & 0xff) as u8);
        d.push(((y >> 8) & 0xff) as u8);
        d.push((y & 0xff) as u8);
        d.push(be16_hi(self.header_end_ptr));
        d.push(be16_lo(self.header_end_ptr));
        d.push(be16_hi(self.unknown_ptr));
        d.push(be16_lo(self.unknown_ptr));
        d.push(be16_hi(self.unknown4_1));
        d.push(be16_lo(self.unknown4_1));
        d.push(self.unknown4_2);
        proof {
            assert(d@ =~= spec_control_bytes(*self));
        }
        d
    }
}

/// The mathematical values of a vector of patterns.
pub open spec fn psv(ps: Seq<Pattern>) -> Seq<PatternView> {
    ps.map_values(|p: Pattern| p@)
}

/// Bytes of a pattern's serialized body: packed bitmap plus memo.
pub open spec fn spec_body_len(p: PatternView) -> int {
    spec_pattern_size(p.width as int, p.height as int) + spec_memo_size(p.height as int)
}

/// The end offset assigned to pattern `i`: 0x120 plus the body lengths of
/// the patterns before it.
pub open spec fn spec_offset(ps: Seq<PatternView>, i: int) -> int
    decreases i,
{
    if i <= 0 {
        0x120
    } else {
        spec_offset(ps, i - 1) + spec_body_len(ps[i - 1])
    }
}

/// The end of the last pattern's body in the serialized layout.
pub open spec fn spec_total_end(ps: Seq<PatternView>) -> int {
    spec_offset(ps, ps.len() as int)
}

/// The serialized layout leaves room for the header region.
pub open spec fn machine_fits(ps: Seq<PatternView>) -> bool {
    ps.len() <= 97 && spec_total_end(ps) <= 0x7d52
}

/// Patterns in ascending order of number.
pub open spec fn spec_sorted(ps: Seq<PatternView>) -> bool {
    forall|i: int, j: int| 0 <= i < j < ps.len() ==> ps[i].number <= ps[j].number
}

/// A sequence of zero bytes.
pub open spec fn zero_seq(n: int) -> Seq<u8> {
    Seq::new(n as nat, |i: int| 0u8)
}

/// The machine's full state: patterns, passthrough regions, control block
/// and the loaded-pattern field.
pub struct MachineState {
    pub patterns: Vec<Pattern>,
    pub data0: Vec<u8>,
    pub control_data: ControlData,
    pub data1: Vec<u8>,
    pub loaded_pattern: u16,
    pub data2: Vec<u8>,
}

/// The mathematical value of a machine state.
pub ghost struct MachineStateView {
    pub patterns: Seq<PatternView>,
    pub data0: Seq<u8>,
    pub control_data: ControlData,
    pub data1: Seq<u8>,
    pub loaded_pattern: u16,
    pub data2: Seq<u8>,
}

impl View for MachineState {
    type V = MachineStateView;

    open spec fn view(&self) -> MachineStateView {
        MachineStateView {
            patterns: psv(self.patterns@),
            data0: self.data0@,
            control_data: self.control_data,
            data1: self.data1@,
            loaded_pattern: self.loaded_pattern,
            data2: self.data2@,
        }
    }
}

/// The state's regions have their fixed sizes, every pattern is
/// well-formed, and the serialized layout fits the image.
pub open spec fn machine_wf(m: MachineStateView) -> bool {
    &&& m.data0.len() == 32
    &&& m.data1.len() == 211
    &&& m.data2.len() == 20
    &&& m.loaded_pattern <= 999
    &&& forall|i: int| 0 <= i < m.patterns.len() ==> pattern_wf(#[trigger] m.patterns[i])
    &&& machine_fits(m.patterns)
}

/// The highest pattern number in use, 900 when there are none.
pub open spec fn spec_max_number(ps: Seq<PatternView>) -> int
    decreases ps.len(),
{
    if ps.len() == 0 {
        900
    } else if ps.len() == 1 {
        ps[0].number as int
    } else {
        let m = spec_max_number(ps.drop_last());
        if ps.last().number > m {
            ps.last().number as int
        } else {
            m
        }
    }
}

/// The concatenation of the first `i` pattern headers.
pub open spec fn spec_headers(ps: Seq<PatternView>, i: int) -> Seq<u8>
    decreases i,
{
    if i <= 0 {
        Seq::empty()
    } else {
        spec_headers(ps, i - 1) + spec_header_bytes(ps[i - 1], spec_offset(ps, i - 1) as u16)
    }
}

/// The 686-byte header region: the pattern headers, a 5-byte sentinel, the
/// next free pattern number as packed BCD, then zero fill.
pub open spec fn spec_header_region(ps: Seq<PatternView>) -> Seq<u8> {
    spec_headers(ps, ps.len() as int) + zero_seq(5) + spec_from_nibbles(
        bcd_rep((spec_max_number(ps) + 1) as nat, 4),
    ) + zero_seq((97 - ps.len()) * 7)
}

/// The pattern bodies of indices `k` and above, emitted in reverse order so
/// the first pattern's body ends up topmost.
pub open spec fn spec_bodies_rev(ps: Seq<PatternView>, k: int) -> Seq<u8>
    decreases ps.len() - k,
{
    if k < 0 || k >= ps.len() {
        Seq::empty()
    } else {
        spec_bodies_rev(ps, k + 1) + crate::pattern::spec_serialize_data(ps[k])
    }
}

/// The two bytes of the loaded-pattern field: a leading `1` nibble and
/// three BCD digits.
pub open spec fn spec_loaded_bytes(n: u16) -> Seq<u8> {
    spec_from_nibbles(seq![1u8] + bcd_rep(n as nat, 3))
}

/// The control block after pointer recomputation for the given patterns.
pub open spec fn spec_updated_control(c: ControlData, ps: Seq<PatternView>) -> ControlData {
    let n = ps.len() as int;
    let te = spec_total_end(ps);
    ControlData {
        next_pattern_ptr1: if n == 0 {
            0x120u16
        } else {
            (te + 1) as u16
        },
        unknown1: c.unknown1,
        next_pattern_ptr2: if n == 0 {
            0u16
        } else {
            (te + 1) as u16
        },
        last_pattern_end_ptr: if n == 0 {
            0u16
        } else {
            spec_offset(ps, n - 1) as u16
        },
        unknown2: c.unknown2,
        last_pattern_start_ptr: if n == 0 {
            0u16
        } else {
            te as u16
        },
        unknown3: c.unknown3,
        header_end_ptr: (0x8000 - 7 * n - 7) as u16,
        unknown_ptr: c.unknown_ptr,
        unknown4_1: c.unknown4_1,
        unknown4_2: c.unknown4_2,
    }
}

/// The full 32 768-byte serialization of a machine state.
pub open spec fn spec_serialize(m: MachineStateView) -> Seq<u8> {
    let ps = m.patterns;
    let te = spec_total_end(ps);
    spec_header_region(ps) + zero_seq(0x8000 - te - 686) + spec_bodies_rev(ps, 0) + m.data0
        + spec_control_bytes(spec_updated_control(m.control_data, ps)) + m.data1
        + spec_loaded_bytes(m.loaded_pattern) + m.data2
}

/// The patterns decoded from header slots `0..i` of a RAM image, in slot
/// order, slots that hold no representable pattern skipped.
pub open spec fn spec_decode_upto(img: Seq<u8>, i: int) -> Seq<PatternView>
    decreases i,
{
    if i <= 0 {
        Seq::empty()
    } else {
        spec_decode_upto(img, i - 1) + (if spec_slot_ok(img, i - 1) {
            seq![spec_slot_pattern(img, i - 1)]
        } else {
            Seq::empty()
        })
    }
}

/// The loaded-pattern number stored at 0x7FEA: four nibbles with the
/// leading marker nibble dropped.
pub open spec fn spec_loaded_of(img: Seq<u8>) -> int {
    bcd_val(spec_to_nibbles(img.subrange(0x7fea, 0x7fec)).subrange(1, 4))
}

/// A well-formed pattern's serialized body is as long as the layout says,
/// and never empty.
pub proof fn lemma_body_len(p: PatternView)
    requires
        pattern_wf(p),
    ensures
        crate::pattern::spec_serialize_data(p).len() == spec_body_len(p),
        0 <= spec_body_len(p) <= 126376,
{
    let w = p.width as int;
    let h = p.height as int;
    crate::pattern::lemma_body_bits(w, h);
    let rn = crate::pattern::spec_row_nibbles(w);
    let ip = crate::pattern::spec_initial_padding(w, h);
    assert(0 <= rn * h <= 251 * 999) by (nonlinear_arith)
        requires
            0 <= rn <= 251,
            0 <= h <= 999,
    ;
    assert(rn <= 251);
    assert((4 * ip + h * (4 * rn)) / 8 == spec_pattern_size(w, h));
}

/// Body lengths never shrink the offsets.
pub proof fn lemma_offset_monotone(ps: Seq<PatternView>, i: int, j: int)
    requires
        0 <= i <= j <= ps.len(),
        forall|k: int| 0 <= k < ps.len() ==> pattern_wf(#[trigger] ps[k]),
    ensures
        spec_offset(ps, i) <= spec_offset(ps, j),
        0x120 <= spec_offset(ps, i),
    decreases i + j,
{
    if i < j {
        lemma_offset_monotone(ps, i, j - 1);
        lemma_body_len(ps[j - 1]);
    } else if i > 0 {
        lemma_offset_monotone(ps, i - 1, i - 1);
        lemma_body_len(ps[i - 1]);
    }
}

/// The end of the last body recorded in a layout, 0x120 when it is empty.
pub open spec fn spec_layout_end(layout: Seq<(u16, Vec<u8>)>) -> int {
    if layout.len() == 0 {
        0x120
    } else {
        layout.last().0 + layout.last().1@.len()
    }
}

/// The bodies recorded in a layout from index `k` on, emitted in reverse.
pub open spec fn spec_layout_bodies_rev(layout: Seq<(u16, Vec<u8>)>, k: int) -> Seq<u8>
    decreases layout.len() - k,
{
    if k < 0 || k >= layout.len() {
        Seq::empty()
    } else {
        spec_layout_bodies_rev(layout, k + 1) + layout[k].1@
    }
}

/// A layout whose bodies are the patterns' serialized bodies emits the
/// patterns' bodies.
pub proof fn lemma_layout_bodies_match(layout: Seq<(u16, Vec<u8>)>, ps: Seq<PatternView>, k: int)
    requires
        0 <= k <= layout.len(),
        layout.len() == ps.len(),
        forall|t: int|
            0 <= t < layout.len() ==> (#[trigger] layout[t]).1@ == crate::pattern::spec_serialize_data(
                ps[t],
            ),
    ensures
        spec_layout_bodies_rev(layout, k) == spec_bodies_rev(ps, k),
    decreases layout.len() - k,
{
    if k < layout.len() {
        lemma_layout_bodies_match(layout, ps, k + 1);
    }
}

/// The 686-byte header region: one 7-byte header per pattern, the 5-byte
/// sentinel slot, the next free pattern number, then zero fill.
pub fn serialize_pattern_layout(patterns: &Vec<Pattern>, layout: &Vec<(u16, Vec<u8>)>) -> (r: Vec<
    u8,
>)
    requires
        layout@.len() == patterns@.len(),
        patterns@.len() <= 97,
        forall|k: int| 0 <= k < patterns@.len() ==> pattern_wf(#[trigger] psv(patterns@)[k]),
        forall|k: int|
            0 <= k < layout@.len() ==> (#[trigger] layout@[k]).0 == spec_offset(psv(patterns@), k),
    ensures
        r@ == spec_header_region(psv(patterns@)),
        r@.len() == 686,
{
    let ghost views = psv(patterns@);
    let mut data: Vec<u8> = Vec::new();
    let mut k: usize = 0;
    while k < patterns.len()
        invariant
            views == psv(patterns@),
            layout@.len() == patterns@.len() <= 97,
            forall|t: int| 0 <= t < patterns@.len() ==> pattern_wf(#[trigger] views[t]),
            forall|t: int|
                0 <= t < layout@.len() ==> (#[trigger] layout@[t]).0 == spec_offset(views, t),
            k <= patterns@.len(),
            data@ == spec_headers(views, k as int),
            data@.len() == 7 * k,
        decreases patterns@.len() - k,
    {
        proof {
            assert(views[k as int] == patterns@[k as int]@);
        }
        let mut hb = patterns[k].serialize_header(layout[k].0);
        data.append(&mut hb);
        k += 1;
    }
    let mut max_number: u16 = 900;
    if patterns.len() > 0 {
        max_number = patterns[0].number;
        proof {
            assert(views.take(1).len() == 1);
            assert(views.take(1)[0] == views[0]);
        }
        let mut t: usize = 1;
        while t < patterns.len()
            invariant
                views == psv(patterns@),
                forall|u: int| 0 <= u < patterns@.len() ==> pattern_wf(#[trigger] views[u]),
                1 <= t <= patterns@.len(),
                max_number == spec_max_number(views.take(t as int)),
                max_number <= 9998,
            decreases patterns@.len() - t,
        {
            let m = patterns[t].number;
            proof {
                assert(views.take(t + 1).drop_last() =~= views.take(t as int));
                assert(views.take(t + 1).last() == views[t as int]);
                assert(views[t as int] == patterns@[t as int]@);
            }
            if m > max_number {
                max_number = m;
            }
            t += 1;
        }
        proof {
            assert(views.take(patterns@.len() as int) =~= views);
        }
    }
    data.push(0);
    data.push(0);
    data.push(0);
    data.push(0);
    data.push(0);
    proof {
        reveal_with_fuel(pow10, 5);
        lemma_bcd_rep_len_exact((max_number + 1) as nat, 4);
    }
    let marker_nibbles = to_bcd(max_number + 1, 4);
    let mut marker = from_nibbles(&marker_nibbles);
    data.append(&mut marker);
    let pad_patterns = 97 - patterns.len();
    let mut z = byte_vec(pad_patterns * 7, 0);
    data.append(&mut z);
    proof {
        assert(data@ =~= spec_header_region(views));
    }
    data
}

/// The zero fill between the header region and the topmost pattern body.
pub fn serialize_pattern_memory_padding(layout: &Vec<(u16, Vec<u8>)>) -> (r: Vec<u8>)
    requires
        spec_layout_end(layout@) <= 0x7d52,
        layout@.len() > 0 ==> layout@.last().0 >= 0x120,
    ensures
        r@ == zero_seq(0x8000 - spec_layout_end(layout@) - 686),
{
    let n = layout.len();
    let last_end: usize = if n == 0 {
        0x120
    } else {
        (layout[n - 1].0 as usize) + layout[n - 1].1.len()
    };
    let r = byte_vec(0x8000 - last_end - 686, 0);
    proof {
        assert(r@ =~= zero_seq(0x8000 - spec_layout_end(layout@) - 686));
    }
    r
}

/// The pattern bodies in reverse layout order, largest offset first.
pub fn serialize_pattern_memory(layout: &Vec<(u16, Vec<u8>)>) -> (r: Vec<u8>)
    ensures
        r@ == spec_layout_bodies_rev(layout@, 0),
{
    let mut data: Vec<u8> = Vec::new();
    let mut k: usize = layout.len();
    while k > 0
        invariant
            k <= layout@.len(),
            data@ == spec_layout_bodies_rev(layout@, k as int),
        decreases k,
    {
        k -= 1;
        data.extend_from_slice(layout[k].1.as_slice());
    }
    data
}

/// The two-byte loaded-pattern field: a `1` marker nibble and three BCD
/// digits.
pub fn serialize_loaded_pattern(pattern: u16) -> (r: Vec<u8>)
    requires
        pattern <= 999,
    ensures
        r@ == spec_loaded_bytes(pattern),
        r@.len() == 2,
{
    let mut nibbles: Vec<Nibble> = Vec::new();
    nibbles.push(Nibble::new(1));
    let mut bcd = to_bcd(pattern, 3);
    nibbles.append(&mut bcd);
    proof {
        reveal_with_fuel(pow10, 4);
        lemma_bcd_rep_len_exact(pattern as nat, 3);
        assert(crate::nibble::nib_vals(nibbles@) =~= seq![1u8] + bcd_rep(pattern as nat, 3));
    }
    from_nibbles(&nibbles)
}

/// The patterns that do not carry the given number.
pub open spec fn spec_others(ps: Seq<PatternView>, n: u16) -> Seq<PatternView> {
    ps.filter(|q: PatternView| q.number != n)
}

impl MachineState {
    /// Decode a machine state from a RAM image of at least 32 768 bytes.
    pub fn from_memory_dump(data: &Vec<u8>) -> (r: MachineState)
        requires
            data@.len() >= 0x8000,
        ensures
            r@.patterns == spec_decode_upto(data@, 98),
            forall|i: int| 0 <= i < r@.patterns.len() ==> pattern_wf(#[trigger] r@.patterns[i]),
            r@.data0 == data@.subrange(0x7ee0, 0x7f00),
            r@.control_data == spec_parse_control(data@.subrange(0x7f00, 0x7f17)),
            r@.data1 == data@.subrange(0x7f17, 0x7fea),
            r@.loaded_pattern == spec_loaded_of(data@),
            r@.data2 == data@.subrange(0x7fec, 0x8000),
    {
        let mut patterns: Vec<Pattern> = Vec::new();
        let mut i: usize = 0;
        while i < 98
            invariant
                data@.len() >= 0x8000,
                i <= 98,
                psv(patterns@) == spec_decode_upto(data@, i as int),
                forall|k: int|
                    0 <= k < patterns@.len() ==> pattern_wf(#[trigger] psv(patterns@)[k]),
            decreases 98 - i,
        {
            let ghost pre = psv(patterns@);
            match Pattern::from_memory_dump(data, i) {
                Some(p) => {
                    let ghost pv = p@;
                    patterns.push(p);
                    proof {
                        assert(psv(patterns@) =~= pre.push(pv));
                        assert(pre.push(pv) =~= pre + seq![spec_slot_pattern(data@, i as int)]);
                    }
                },
                None => {
                    proof {
                        assert(pre + Seq::<PatternView>::empty() =~= pre);
                    }
                },
            }
            i += 1;
        }
        let data0 = copy_range(data, 0x7ee0, 0x7f00);
        let cslice = copy_range(data, 0x7f00, 0x7f17);
        let control_data = ControlData::from_memory_dump(&cslice);
        let data1 = copy_range(data, 0x7f17, 0x7fea);
        let lp = copy_range(data, 0x7fea, 0x7fec);
        let ns = to_nibbles(&lp);
        let sub = copy_nibble_range(&ns, 1, 4);
        proof {
            lemma_bcd_val_bound(crate::nibble::nib_vals(sub@));
        }
        let loaded_pattern = from_bcd(&sub);
        let data2 = copy_range(data, 0x7fec, 0x8000);
        MachineState { patterns, data0, control_data, data1, loaded_pattern, data2 }
    }

    /// The stored patterns, in their current order.
    pub fn patterns(&self) -> (r: &Vec<Pattern>)
        ensures
            r@ == self.patterns@,
    {
        &self.patterns
    }

    /// Whether the state can be serialized: fixed-size regions, every
    /// pattern well-formed, and the layout inside the 32 KiB image.
    pub fn can_serialize(&self) -> (b: bool)
        ensures
            b == machine_wf(self@),
    {
        if self.data0.len() != 32 || self.data1.len() != 211 || self.data2.len() != 20
            || self.loaded_pattern > 999 || self.patterns.len() > 97 {
            return false;
        }
        let ghost views = psv(self.patterns@);
        let mut end: usize = 0x120;
        let mut i: usize = 0;
        while i < self.patterns.len()
            invariant
                self.data0@.len() == 32,
                self.data1@.len() == 211,
                self.data2@.len() == 20,
                self.loaded_pattern <= 999,
                views == psv(self.patterns@),
                i <= self.patterns@.len() <= 97,
                end == spec_offset(views, i as int),
                end <= 0x7d52,
                forall|k: int| 0 <= k < i ==> pattern_wf(#[trigger] views[k]),
            decreases self.patterns@.len() - i,
        {
            let p = &self.patterns[i];
            proof {
                assert(views[i as int] == p@);
            }
            if p.width < 1 || p.width > 999 || p.height < 1 || p.height > 999 || p.number > 9998 {
                return false;
            }
            if p.rows.len() != p.height as usize {
                return false;
            }
            let mut rr: usize = 0;
            while rr < p.rows.len()
                invariant
                    views == psv(self.patterns@),
                    i < self.patterns@.len(),
                    views[i as int] == p@,
                    p == &self.patterns[i as int],
                    rr <= p.rows@.len(),
                    forall|t: int| 0 <= t < rr ==> (#[trigger] p.rows@[t])@.len() == p.width,
                decreases p.rows@.len() - rr,
            {
                if p.rows[rr].len() != p.width as usize {
                    proof {
                        assert(p@.rows[rr as int].len() != p@.width);
                        assert(!pattern_wf(views[i as int]));
                    }
                    return false;
                }
                rr += 1;
            }
            let msize = crate::pattern::memo_size(p.height);
            if p.memo.len() != msize {
                return false;
            }
            proof {
                assert(pattern_wf(p@));
                crate::pattern::lemma_body_bits(p@.width as int, p@.height as int);
                assert(spec_pattern_size(p@.width as int, p@.height as int) <= 125876)
                    by (nonlinear_arith)
                    requires
                        2 * spec_pattern_size(p@.width as int, p@.height as int)
                            == crate::pattern::spec_row_nibbles(p@.width as int) * (
                        p@.height as int) + crate::pattern::spec_initial_padding(
                            p@.width as int,
                            p@.height as int,
                        ),
                        crate::pattern::spec_row_nibbles(p@.width as int) <= 251,
                        p@.height <= 999,
                        crate::pattern::spec_initial_padding(p@.width as int, p@.height as int)
                            < 2,
                        crate::pattern::spec_row_nibbles(p@.width as int) >= 0,
                ;
            }
            let (rn, _, ip) = crate::pattern::pattern_data_sizes(p.width, p.height);
            proof {
                assert(rn * (p.height as usize) <= 251 * 999) by (nonlinear_arith)
                    requires
                        0 <= rn <= 251,
                        0 <= p.height as usize <= 999,
                ;
                lemma_body_len(p@);
            }
            let psize = (rn * (p.height as usize) + ip) / 2;
            end = end + psize + msize;
            if end > 0x7d52 {
                proof {
                    if machine_wf(self@) {
                        lemma_offset_monotone(views, i + 1, views.len() as int);
                    }
                }
                return false;
            }
            i += 1;
        }
        proof {
            assert(end == spec_total_end(views));
        }
        true
    }

    /// Replace any pattern carrying the same number, insert the new one,
    /// and keep the collection sorted ascending by number.
    pub fn add_pattern(&mut self, pattern: Pattern)
        ensures
            spec_sorted(final(self)@.patterns),
            final(self)@.patterns.to_multiset() == spec_others(
                old(self)@.patterns,
                pattern@.number,
            ).to_multiset().insert(pattern@),
            forall|j: int|
                0 <= j < final(self)@.patterns.len() && (#[trigger] final(self)@.patterns[j]).number
                    == pattern@.number ==> final(self)@.patterns[j] == pattern@,
            final(self)@.patterns.to_multiset().count(pattern@) == 1,
            final(self)@.data0 == old(self)@.data0,
            final(self)@.control_data == old(self)@.control_data,
            final(self)@.data1 == old(self)@.data1,
            final(self)@.loaded_pattern == old(self)@.loaded_pattern,
            final(self)@.data2 == old(self)@.data2,
    {
        broadcast use vstd::seq_lib::group_to_multiset_ensures;
        broadcast use vstd::multiset::group_multiset_axioms;

        let ghost n = pattern@.number;
        let ghost orig = psv(self.patterns@);
        let ghost pred = |q: PatternView| q.number != n;
        let mut tmp: Vec<Pattern> = Vec::new();
        core::mem::swap(&mut tmp, &mut self.patterns);
        let mut kept: Vec<Pattern> = Vec::new();
        proof {
            vstd::seq_lib::lemma_seq_empty_contains_nothing::<PatternView>(pattern@);
            assert(psv(kept@) =~= Seq::<PatternView>::empty());
            assert(psv(kept@).to_multiset().add(psv(tmp@).filter(pred).to_multiset())
                =~= orig.filter(pred).to_multiset());
        }
        while tmp.len() > 0
            invariant
                n == pattern@.number,
                pred == (|q: PatternView| q.number != n),
                psv(kept@).to_multiset().add(psv(tmp@).filter(pred).to_multiset()) == orig.filter(
                    pred,
                ).to_multiset(),
                forall|k: int| 0 <= k < kept@.len() ==> (#[trigger] psv(kept@)[k]).number != n,
            decreases tmp@.len(),
        {
            let ghost tmp_pre = psv(tmp@);
            let ghost kept_pre = psv(kept@);
            let p = tmp.pop().unwrap();
            proof {
                assert(psv(tmp@) =~= tmp_pre.drop_last());
                assert(tmp_pre.drop_last().push(p@) =~= tmp_pre);
                tmp_pre.drop_last().lemma_filter_push(p@, pred);
            }
            if p.number != pattern.number {
                kept.push(p);
                proof {
                    assert(psv(kept@) =~= kept_pre.push(p@));
                    vstd::seq_lib::to_multiset_build(kept_pre, p@);
                    vstd::seq_lib::to_multiset_build(psv(tmp@).filter(pred), p@);
                    assert(psv(kept@).to_multiset().add(psv(tmp@).filter(pred).to_multiset())
                        =~= orig.filter(pred).to_multiset());
                }
            } else {
                proof {
                    assert(!pred(p@));
                }
            }
        }
        proof {
            assert(psv(tmp@).filter(pred) =~= Seq::<PatternView>::empty()) by {
                reveal(Seq::filter);
            }
            assert(psv(kept@).to_multiset() =~= orig.filter(pred).to_multiset());
        }
        let ghost kept_all = psv(kept@);
        let mut out: Vec<Pattern> = Vec::new();
        out.push(pattern);
        proof {
            vstd::seq_lib::to_multiset_build(Seq::<PatternView>::empty(), pattern@);
            assert(psv(out@) =~= Seq::<PatternView>::empty().push(pattern@));
            assert(psv(out@).to_multiset() =~= Multiset::<PatternView>::empty().insert(pattern@));
        }
        while kept.len() > 0
            invariant
                n == pattern@.number,
                spec_sorted(psv(out@)),
                psv(out@).to_multiset().add(psv(kept@).to_multiset()) == kept_all.to_multiset().insert(
                    pattern@,
                ),
                forall|k: int| 0 <= k < kept@.len() ==> (#[trigger] psv(kept@)[k]).number != n,
                forall|j: int|
                    0 <= j < out@.len() && (#[trigger] psv(out@)[j]).number == n ==> psv(out@)[j]
                        == pattern@,
            decreases kept@.len(),
        {
            let ghost kept_pre = psv(kept@);
            let ghost out_pre = psv(out@);
            let p = kept.pop().unwrap();
            proof {
                assert(psv(kept@) =~= kept_pre.drop_last());
                assert(kept_pre.drop_last().push(p@) =~= kept_pre);
                vstd::seq_lib::to_multiset_build(kept_pre.drop_last(), p@);
                assert(p@ == kept_pre[kept_pre.len() - 1]);
                assert(p@.number != n);
            }
            let mut idx: usize = 0;
            while idx < out.len() && out[idx].number <= p.number
                invariant
                    out_pre == psv(out@),
                    idx <= out@.len(),
                    forall|t: int| 0 <= t < idx ==> (#[trigger] psv(out@)[t]).number <= p@.number,
                decreases out@.len() - idx,
            {
                proof {
                    assert(psv(out@)[idx as int] == out@[idx as int]@);
                }
                idx += 1;
            }
            proof {
                if (idx as int) < out_pre.len() {
                    assert(out_pre[idx as int] == out@[idx as int]@);
                    assert(out_pre[idx as int].number > p@.number);
                }
            }
            out.insert(idx, p);
            proof {
                assert(psv(out@) =~= out_pre.insert(idx as int, p@));
                out_pre.insert_ensures(idx as int, p@);
                vstd::seq_lib::to_multiset_insert(out_pre, idx as int, p@);
                assert forall|j: int|
                    0 <= j < psv(out@).len() && (#[trigger] psv(out@)[j]).number
                        == n implies psv(out@)[j] == pattern@ by {
                    let i0 = idx as int;
                    if j < i0 {
                        assert(psv(out@)[j] == out_pre[j]);
                    } else if j == i0 {
                        assert(psv(out@)[j] == p@);
                    } else {
                        assert(psv(out@)[j] == out_pre[j - 1]);
                    }
                }
                assert(spec_sorted(psv(out@))) by {
                    assert forall|a: int, b: int|
                        0 <= a < b < psv(out@).len() implies psv(out@)[a].number <= psv(
                        out@,
                    )[b].number by {
                        let s = psv(out@);
                        let i0 = idx as int;
                        if a < i0 && b < i0 {
                        } else if a < i0 && b == i0 {
                        } else if a == i0 {
                            assert(s[b] == out_pre[b - 1]);
                        } else if b == i0 {
                            assert(s[a] == out_pre[a]);
                        } else if a > i0 && b > i0 {
                            assert(s[a] == out_pre[a - 1] && s[b] == out_pre[b - 1]);
                        } else {
                            assert(s[a] == out_pre[a] && s[b] == out_pre[b - 1]);
                        }
                    }
                }
            }
        }
        self.patterns = out;
        proof {
            assert(psv(kept@) =~= Seq::<PatternView>::empty());
            assert(psv(self.patterns@).to_multiset() =~= kept_all.to_multiset().insert(pattern@));
            assert(kept_all.to_multiset().count(pattern@) == 0) by {
                if kept_all.to_multiset().count(pattern@) > 0 {
                    vstd::seq_lib::to_multiset_contains(kept_all, pattern@);
                    assert(kept_all.contains(pattern@));
                    let w = choose|w: int| 0 <= w < kept_all.len() && kept_all[w] == pattern@;
                    assert(kept_all[w].number != n);
                }
            }
        }
    }

    /// Serialize the state when it is well-formed; otherwise report that
    /// the image's invariant cannot be met and leave the state untouched.
    pub fn try_serialize(&mut self) -> (r: Result<Vec<u8>, KhError>)
        ensures
            r is Ok <==> machine_wf(old(self)@),
            r is Ok ==> r->Ok_0@ == spec_serialize(old(self)@) && r->Ok_0@.len() == 32768
                && final(self)@.control_data == spec_updated_control(
                old(self)@.control_data,
                old(self)@.patterns,
            ) && final(self)@.patterns == old(self)@.patterns,
            r is Err ==> self == old(self) && r->Err_0 == KhError::Invariant,
    {
        if self.can_serialize() {
            Ok(self.serialize())
        } else {
            Err(KhError::Invariant)
        }
    }

    /// Serialize the state to its byte-exact 32 768-byte RAM image,
    /// recomputing the control block's pointer fields.
    pub fn serialize(&mut self) -> (r: Vec<u8>)
        requires
            machine_wf(old(self)@),
        ensures
            r@ == spec_serialize(old(self)@),
            r@.len() == 32768,
            final(self)@.patterns == old(self)@.patterns,
            final(self)@.data0 == old(self)@.data0,
            final(self)@.data1 == old(self)@.data1,
            final(self)@.data2 == old(self)@.data2,
            final(self)@.loaded_pattern == old(self)@.loaded_pattern,
            final(self)@.control_data == spec_updated_control(
                old(self)@.control_data,
                old(self)@.patterns,
            ),
    {
        let ghost views = psv(self.patterns@);
        let mut layout: Vec<(u16, Vec<u8>)> = Vec::new();
        let mut offset: u16 = 0x120;
        let mut i: usize = 0;
        while i < self.patterns.len()
            invariant
                machine_wf(old(self)@),
                self == old(self),
                views == psv(self.patterns@),
                i <= self.patterns@.len(),
                offset == spec_offset(views, i as int),
                layout@.len() == i,
                forall|k: int|
                    0 <= k < i ==> (#[trigger] layout@[k]).0 == spec_offset(views, k)
                        && layout@[k].1@ == crate::pattern::spec_serialize_data(views[k])
                        && layout@[k].1@.len() == spec_body_len(views[k]),
            decreases self.patterns@.len() - i,
        {
            proof {
                assert(views[i as int] == self.patterns@[i as int]@);
                lemma_offset_monotone(views, i as int, views.len() as int);
                lemma_offset_monotone(views, i + 1, views.len() as int);
            }
            let body = self.patterns[i].serialize_data();
            let blen = body.len();
            layout.push((offset, body));
            offset = offset + (blen as u16);
            i += 1;
        }
        proof {
            assert(offset == spec_total_end(views));
            if views.len() > 0 {
                assert(layout@.last().0 == spec_offset(views, views.len() - 1));
                assert(layout@.last().1@.len() == spec_body_len(views[views.len() - 1]));
                lemma_offset_monotone(views, views.len() - 1, views.len() as int);
                assert(layout@.last().0 + layout@.last().1@.len() == spec_total_end(views));
            }
            assert(spec_layout_end(layout@) == if views.len() == 0 {
                0x120int
            } else {
                spec_total_end(views)
            });
            assert(spec_layout_end(layout@) <= 0x7d52);
        }
        self.control_data.update(&layout);
        let header = serialize_pattern_layout(&self.patterns, &layout);
        let pad = serialize_pattern_memory_padding(&layout);
        let mem = serialize_pattern_memory(&layout);
        let control = self.control_data.serialize();
        let loaded = serialize_loaded_pattern(self.loaded_pattern);
        proof {
            lemma_layout_bodies_match(layout@, views, 0);
            assert(self.control_data == spec_updated_control(old(self)@.control_data, views));
        }
        let mut out = header;
        let mut pad_v = pad;
        let mut mem_v = mem;
        let mut control_v = control;
        let mut loaded_v = loaded;
        out.append(&mut pad_v);
        out.append(&mut mem_v);
        out.extend_from_slice(self.data0.as_slice());
        out.append(&mut control_v);
        out.extend_from_slice(self.data1.as_slice());
        out.append(&mut loaded_v);
        out.extend_from_slice(self.data2.as_slice());
        proof {
            lemma_bodies_rev_len(views, 0);
            lemma_headers_len(views, views.len() as int);
            assert(out@ == spec_serialize(old(self)@));
            assert(out@.len() == 32768);
        }
        out
    }
}

/// The reversed body block holds every byte of every body.
pub proof fn lemma_bodies_rev_len(ps: Seq<PatternView>, k: int)
    requires
        0 <= k <= ps.len(),
        forall|t: int| 0 <= t < ps.len() ==> pattern_wf(#[trigger] ps[t]),
    ensures
        spec_bodies_rev(ps, k).len() == spec_offset(ps, ps.len() as int) - spec_offset(ps, k),
    decreases ps.len() - k,
{
    if k < ps.len() {
        lemma_bodies_rev_len(ps, k + 1);
        lemma_body_len(ps[k]);
        assert(spec_offset(ps, k + 1) == spec_offset(ps, k) + spec_body_len(ps[k]));
    }
}

/// Each header slot adds seven bytes.
pub proof fn lemma_headers_len(ps: Seq<PatternView>, i: int)
    requires
        0 <= i <= ps.len(),
        forall|k: int| 0 <= k < ps.len() ==> pattern_wf(#[trigger] ps[k]),
    ensures
        spec_headers(ps, i).len() == 7 * i,
    decreases i,
{
    if i > 0 {
        lemma_headers_len(ps, i - 1);
        lemma_header_bytes_len(ps[i - 1], spec_offset(ps, i - 1) as u16);
    }
}

/// A well-formed pattern's header is exactly seven bytes.
pub proof fn lemma_header_bytes_len(p: PatternView, offset: u16)
    requires
        pattern_wf(p),
    ensures
        spec_header_bytes(p, offset).len() == 7,
{
    reveal_with_fuel(pow10, 5);
    lemma_bcd_rep_len_exact(p.height as nat, 3);
    lemma_bcd_rep_len_exact(p.width as nat, 3);
    lemma_bcd_rep_len_exact(p.number as nat, 4);
}

/// The highest number in use stays in the encodable range.
pub proof fn lemma_max_number_bound(ps: Seq<PatternView>)
    requires
        forall|i: int| 0 <= i < ps.len() ==> (#[trigger] ps[i]).number <= 9998,
    ensures
        0 <= spec_max_number(ps) <= 9998,
    decreases ps.len(),
{
    if ps.len() > 1 {
        assert(forall|i: int|
            0 <= i < ps.drop_last().len() ==> (#[trigger] ps.drop_last()[i]).number <= 9998);
        lemma_max_number_bound(ps.drop_last());
    }
}

/// The header region of a well-formed state is exactly 686 bytes.
pub proof fn lemma_header_region_len(ps: Seq<PatternView>)
    requires
        ps.len() <= 97,
        forall|i: int| 0 <= i < ps.len() ==> pattern_wf(#[trigger] ps[i]),
    ensures
        spec_header_region(ps).len() == 686,
{
    lemma_headers_len(ps, ps.len() as int);
    lemma_max_number_bound(ps);
    reveal_with_fuel(pow10, 5);
    lemma_bcd_rep_len_exact((spec_max_number(ps) + 1) as nat, 4);
}

/// The loaded-pattern field is two bytes and decodes back to the number it
/// was made from.
pub proof fn lemma_loaded_round_trip(n: u16)
    requires
        n <= 999,
    ensures
        spec_loaded_bytes(n).len() == 2,
        spec_to_nibbles(spec_loaded_bytes(n)).subrange(1, 4) == bcd_rep(n as nat, 3),
        bcd_val(spec_to_nibbles(spec_loaded_bytes(n)).subrange(1, 4)) == n,
{
    reveal_with_fuel(pow10, 4);
    lemma_bcd_rep_len_exact(n as nat, 3);
    crate::util::lemma_bcd_rep_digits(n as nat, 3);
    let x = seq![1u8] + bcd_rep(n as nat, 3);
    assert(forall|i: int| 0 <= i < x.len() ==> x[i] <= 15);
    crate::util::lemma_from_to_nibbles(x);
    assert(spec_to_nibbles(spec_loaded_bytes(n)).subrange(1, 4) =~= bcd_rep(n as nat, 3));
    crate::util::lemma_bcd_round_trip(n as nat, 3);
}

/// Each header slot of the header block reads back its pattern's header.
pub proof fn lemma_headers_index(ps: Seq<PatternView>, k: int, i: int)
    requires
        0 <= i < k <= ps.len(),
        forall|t: int| 0 <= t < ps.len() ==> pattern_wf(#[trigger] ps[t]),
    ensures
        forall|t: int|
            0 <= t < 7 ==> spec_headers(ps, k)[7 * i + t] == (#[trigger] spec_header_bytes(
                ps[i],
                spec_offset(ps, i) as u16,
            )[t]),
    decreases k,
{
    lemma_headers_len(ps, k - 1);
    lemma_header_bytes_len(ps[k - 1], spec_offset(ps, k - 1) as u16);
    if i < k - 1 {
        lemma_headers_index(ps, k - 1, i);
        assert forall|t: int| 0 <= t < 7 implies spec_headers(ps, k)[7 * i + t] == (
        #[trigger] spec_header_bytes(ps[i], spec_offset(ps, i) as u16)[t]) by {
            assert(7 * i + t < 7 * (k - 1));
            assert(spec_headers(ps, k)[7 * i + t] == spec_headers(ps, k - 1)[7 * i + t]);
        }
    }
}

/// Each pattern's body sits at its computed place in the reversed body
/// block.
pub proof fn lemma_bodies_rev_index(ps: Seq<PatternView>, k: int, i: int)
    requires
        0 <= k <= i < ps.len(),
        forall|t: int| 0 <= t < ps.len() ==> pattern_wf(#[trigger] ps[t]),
    ensures
        forall|t: int|
            0 <= t < spec_body_len(ps[i]) ==> spec_bodies_rev(ps, k)[spec_total_end(ps)
                - spec_offset(ps, i + 1) + t] == (#[trigger] crate::pattern::spec_serialize_data(
                ps[i],
            )[t]),
    decreases i - k,
{
    let te = spec_total_end(ps);
    lemma_bodies_rev_len(ps, k + 1);
    lemma_body_len(ps[k]);
    lemma_offset_monotone(ps, k + 1, i + 1);
    if i == k {
        assert(spec_bodies_rev(ps, k) == spec_bodies_rev(ps, k + 1)
            + crate::pattern::spec_serialize_data(ps[k]));
        assert(spec_bodies_rev(ps, k + 1).len() == te - spec_offset(ps, k + 1));
    } else {
        lemma_bodies_rev_index(ps, k + 1, i);
        lemma_body_len(ps[i]);
        lemma_offset_monotone(ps, k + 1, i);
        lemma_offset_monotone(ps, i + 1, ps.len() as int);
        assert(spec_offset(ps, i + 1) == spec_offset(ps, i) + spec_body_len(ps[i]));
        assert forall|t: int|
            0 <= t < spec_body_len(ps[i]) implies spec_bodies_rev(ps, k)[te - spec_offset(
            ps,
            i + 1,
        ) + t] == (#[trigger] crate::pattern::spec_serialize_data(ps[i])[t]) by {
            assert(te - spec_offset(ps, i + 1) + t < te - spec_offset(ps, k + 1));
            let whole = spec_bodies_rev(ps, k + 1) + crate::pattern::spec_serialize_data(ps[k]);
            assert(spec_bodies_rev(ps, k) == whole);
            assert(whole[te - spec_offset(ps, i + 1) + t] == spec_bodies_rev(ps, k + 1)[te
                - spec_offset(ps, i + 1) + t]);
        }
    }
}

/// For a number of at most three digits, the four-digit spelling is a zero
/// digit and the three-digit spelling.
pub proof fn lemma_bcd_rep_small(n: nat)
    requires
        n <= 999,
    ensures
        bcd_rep(n, 3).len() == 3,
        bcd_rep(n, 4) == seq![0u8] + bcd_rep(n, 3),
{
    reveal_with_fuel(pow10, 5);
    lemma_bcd_rep_len_exact(n, 3);
    if bcd_rep(n, 0).len() > 3 {
        crate::util::lemma_bcd_rep_narrow(n, 3);
        assert(false);
    }
    crate::util::lemma_bcd_rep_widen(n, 3);
}

/// Header slot `i` of a serialized well-formed state holds exactly pattern
/// `i`, provided its number fits the three digits the decoder reads back.
#[verifier::rlimit(100)]
pub proof fn lemma_slot_of_serialized(m: MachineStateView, i: int)
    requires
        machine_wf(m),
        forall|t: int| 0 <= t < m.patterns.len() ==> (#[trigger] m.patterns[t]).number <= 999,
        0 <= i < m.patterns.len(),
    ensures
        spec_slot_ok(spec_serialize(m), i),
        spec_slot_pattern(spec_serialize(m), i) == m.patterns[i],
{
    let ps = m.patterns;
    let p = ps[i];
    let n = ps.len() as int;
    let te = spec_total_end(ps);
    let img = spec_serialize(m);
    let hr = spec_header_region(ps);
    let z = zero_seq(0x8000 - te - 686);
    let bod = spec_bodies_rev(ps, 0);
    let ctrl = spec_control_bytes(spec_updated_control(m.control_data, ps));
    let ld = spec_loaded_bytes(m.loaded_pattern);
    let off = spec_offset(ps, i);
    lemma_header_region_len(ps);
    lemma_bodies_rev_len(ps, 0);
    lemma_headers_len(ps, n);
    lemma_offset_monotone(ps, 0, i);
    lemma_offset_monotone(ps, i, i + 1);
    lemma_offset_monotone(ps, i + 1, n);
    lemma_body_len(p);
    lemma_loaded_round_trip(m.loaded_pattern);
    let p3 = hr + z + bod;
    assert(p3.len() == 0x7ee0);
    let p4 = p3 + m.data0;
    let p5 = p4 + ctrl;
    let p6 = p5 + m.data1;
    let p7 = p6 + ld;
    assert(img == p7 + m.data2);
    assert(p4.len() == 0x7f00 && p5.len() == 0x7f17 && p6.len() == 0x7fea && p7.len() == 0x7fec);
    // Bytes below 686 come from the header region's header block.
    assert forall|j: int| 0 <= j < 686 implies img[j] == hr[j] by {
        assert((hr + z)[j] == hr[j]);
    }
    assert(forall|j: int| 0 <= j < 7 * n ==> hr[j] == spec_headers(ps, n)[j]);
    lemma_headers_index(ps, n, i);
    let hb = spec_header_bytes(p, off as u16);
    lemma_header_bytes_len(p, off as u16);
    assert forall|t: int| 0 <= t < 7 implies img[7 * i + t] == hb[t] by {
        assert(7 * i + t < 7 * n <= 679);
        assert(spec_headers(ps, n)[7 * i + t] == hb[t]);
    }
    // The end offset reads back.
    let offw = off as u16;
    assert(offw / 256 * 256 + offw % 256 == offw) by (bit_vector);
    assert(crate::pattern::spec_slot_end_offset(img, i) == off) by {
        assert(img[7 * i] == hb[0] && img[7 * i + 1] == hb[1]);
        assert(hb[0] == offw / 256 && hb[1] == offw % 256);
    }
    // The ten header nibbles read back.
    let nibs = bcd_rep(p.height as nat, 3) + bcd_rep(p.width as nat, 3) + bcd_rep(
        p.number as nat,
        4,
    );
    reveal_with_fuel(pow10, 5);
    lemma_bcd_rep_len_exact(p.height as nat, 3);
    lemma_bcd_rep_len_exact(p.width as nat, 3);
    lemma_bcd_rep_len_exact(p.number as nat, 4);
    crate::util::lemma_bcd_rep_digits(p.height as nat, 3);
    crate::util::lemma_bcd_rep_digits(p.width as nat, 3);
    crate::util::lemma_bcd_rep_digits(p.number as nat, 4);
    assert(forall|t: int| 0 <= t < nibs.len() ==> nibs[t] <= 15);
    crate::util::lemma_from_to_nibbles(nibs);
    assert(img.subrange(7 * i + 2, 7 * i + 7) =~= spec_from_nibbles(nibs)) by {
        assert forall|t: int|
            0 <= t < 5 implies img.subrange(7 * i + 2, 7 * i + 7)[t] == spec_from_nibbles(
            nibs,
        )[t] by {
            assert(img[7 * i + (2 + t)] == hb[2 + t]);
            assert(hb[2 + t] == spec_from_nibbles(nibs)[t]);
        }
    }
    assert(crate::pattern::spec_slot_nibbles(img, i) == nibs);
    assert(crate::pattern::spec_slot_nibbles(img, i).subrange(0, 3) =~= bcd_rep(
        p.height as nat,
        3,
    ));
    assert(crate::pattern::spec_slot_nibbles(img, i).subrange(3, 6) =~= bcd_rep(
        p.width as nat,
        3,
    ));
    lemma_bcd_rep_small(p.number as nat);
    assert(crate::pattern::spec_slot_nibbles(img, i).subrange(7, 10) =~= bcd_rep(
        p.number as nat,
        3,
    ));
    crate::util::lemma_bcd_round_trip(p.height as nat, 3);
    crate::util::lemma_bcd_round_trip(p.width as nat, 3);
    crate::util::lemma_bcd_round_trip(p.number as nat, 3);
    assert(crate::pattern::spec_slot_height(img, i) == p.height);
    assert(crate::pattern::spec_slot_width(img, i) == p.width);
    assert(crate::pattern::spec_slot_number(img, i) == p.number);
    // Geometry: the body lies inside the image.
    let blen = spec_body_len(p);
    let msize = spec_memo_size(p.height as int);
    let psize = spec_pattern_size(p.width as int, p.height as int);
    assert(spec_offset(ps, i + 1) == off + blen);
    assert(0x120 <= off && off + blen <= te <= 0x7d52);
    assert(spec_slot_ok(img, i));
    // The body bytes read back from the reversed body block.
    let body = crate::pattern::spec_serialize_data(p);
    lemma_bodies_rev_index(ps, 0, i);
    assert forall|t: int| 0 <= t < blen implies img[0x8000 - (off + blen) + t] == body[t] by {
        let j = 0x8000 - (off + blen) + t;
        assert((hr + z).len() == 0x8000 - te);
        assert(0x8000 - te <= j < 0x7ee0);
        assert(p3[j] == bod[j - (0x8000 - te)]);
        assert(bod[te - (off + blen) + t] == body[t]);
    }
    let memo_end = 0x7fff - off;
    let memo_start = memo_end - msize;
    let pattern_start = memo_start - psize;
    crate::pattern::lemma_body_bits(p.width as int, p.height as int);
    let packed = spec_bits_to_bytes(
        crate::pattern::spec_pattern_bits(p.width as int, p.height as int, p.rows),
    );
    assert(body == packed + p.memo);
    assert(packed.len() == psize);
    assert(img.subrange(memo_start + 1, memo_end + 1) =~= p.memo) by {
        assert forall|t: int| 0 <= t < msize implies img[memo_start + 1 + t] == p.memo[t] by {
            assert(memo_start + 1 + t == 0x8000 - (off + blen) + (psize + t));
            assert(img[0x8000 - (off + blen) + (psize + t)] == body[psize + t]);
            assert(body[psize + t] == p.memo[t]);
        }
    }
    assert(img.subrange(pattern_start + 1, memo_start + 1) =~= packed) by {
        assert forall|t: int| 0 <= t < psize implies img[pattern_start + 1 + t] == packed[t] by {
            assert(pattern_start + 1 + t == 0x8000 - (off + blen) + t);
            assert(img[0x8000 - (off + blen) + t] == body[t]);
            assert(body[t] == packed[t]);
        }
    }
    crate::pattern::lemma_pattern_body_round_trip(p);
    assert(spec_parse_rows(p.width as int, p.height as int, packed) == p.rows);
    assert(spec_slot_pattern(img, i) == p);
}

/// Slots past the stored patterns are empty in a serialized image.
pub proof fn lemma_slot_empty(m: MachineStateView, i: int)
    requires
        machine_wf(m),
        m.patterns.len() <= i < 98,
    ensures
        !spec_slot_ok(spec_serialize(m), i),
{
    let ps = m.patterns;
    let n = ps.len() as int;
    let te = spec_total_end(ps);
    let img = spec_serialize(m);
    let hr = spec_header_region(ps);
    let z = zero_seq(0x8000 - te - 686);
    let bod = spec_bodies_rev(ps, 0);
    lemma_header_region_len(ps);
    lemma_headers_len(ps, n);
    lemma_bodies_rev_len(ps, 0);
    lemma_offset_monotone(ps, 0, n);
    lemma_max_number_bound(ps);
    reveal_with_fuel(pow10, 5);
    lemma_bcd_rep_len_exact((spec_max_number(ps) + 1) as nat, 4);
    let marker = spec_from_nibbles(bcd_rep((spec_max_number(ps) + 1) as nat, 4));
    assert(marker.len() == 2);
    let p3 = hr + z + bod;
    assert(p3.len() == 0x7ee0);
    assert forall|j: int| 0 <= j < 686 implies img[j] == hr[j] by {
        assert((hr + z)[j] == hr[j]);
    }
    assert forall|j: int| j == 7 * i || j == 7 * i + 1 implies hr[j] == 0 by {
        let heads = spec_headers(ps, n);
        if i == n {
            assert(((heads + zero_seq(5)) + marker)[j] == (heads + zero_seq(5))[j]);
            assert((heads + zero_seq(5))[j] == zero_seq(5)[j - 7 * n]);
        } else {
            assert(7 * n + 7 <= 7 * i <= j);
            assert(j < 686);
            assert(hr[j] == zero_seq((97 - n) * 7)[j - (7 * n + 7)]);
        }
    }
    assert(crate::pattern::spec_slot_end_offset(img, i) == 0);
}

/// The first `i` decoded slots of a serialized image are the first
/// patterns of the state.
pub proof fn lemma_decode_prefix(m: MachineStateView, i: int)
    requires
        machine_wf(m),
        forall|t: int| 0 <= t < m.patterns.len() ==> (#[trigger] m.patterns[t]).number <= 999,
        0 <= i <= 98,
    ensures
        spec_decode_upto(spec_serialize(m), i) == if i <= m.patterns.len() {
            m.patterns.take(i)
        } else {
            m.patterns
        },
    decreases i,
{
    let ps = m.patterns;
    let img = spec_serialize(m);
    if i > 0 {
        lemma_decode_prefix(m, i - 1);
        if i - 1 < ps.len() {
            lemma_slot_of_serialized(m, i - 1);
            assert(ps.take(i - 1) + seq![ps[i - 1]] =~= ps.take(i));
        } else {
            lemma_slot_empty(m, i - 1);
            if i - 1 == ps.len() {
                assert(ps.take(i - 1) =~= ps);
            }
            assert(spec_decode_upto(img, i) =~= spec_decode_upto(img, i - 1));
        }
    } else {
        assert(ps.take(0) =~= Seq::<PatternView>::empty());
    }
}

/// The machine-level round trip: decoding a serialized well-formed state
/// recovers every pattern, every passthrough byte, the loaded-pattern
/// field, and exactly the recomputed control block. Pattern numbers must
/// fit the three digits the header decoder reads back.
pub proof fn lemma_serialize_round_trip(m: MachineStateView)
    requires
        machine_wf(m),
        forall|t: int| 0 <= t < m.patterns.len() ==> (#[trigger] m.patterns[t]).number <= 999,
    ensures
        spec_decode_upto(spec_serialize(m), 98) == m.patterns,
        spec_serialize(m).subrange(0x7ee0, 0x7f00) == m.data0,
        spec_parse_control(spec_serialize(m).subrange(0x7f00, 0x7f17)) == spec_updated_control(
            m.control_data,
            m.patterns,
        ),
        spec_serialize(m).subrange(0x7f17, 0x7fea) == m.data1,
        spec_loaded_of(spec_serialize(m)) == m.loaded_pattern,
        spec_serialize(m).subrange(0x7fec, 0x8000) == m.data2,
{
    lemma_serialize_regions(m);
    lemma_decode_prefix(m, 98);
}

/// Decoding a serialized image and serializing the decoded state again
/// reproduces the image byte for byte: the pointer fields the decoder read
/// were already the recomputed ones.
pub proof fn lemma_reencode_stable(m: MachineStateView)
    requires
        machine_wf(m),
        forall|t: int| 0 <= t < m.patterns.len() ==> (#[trigger] m.patterns[t]).number <= 999,
    ensures
        ({
            let img = spec_serialize(m);
            let decoded = MachineStateView {
                patterns: spec_decode_upto(img, 98),
                data0: img.subrange(0x7ee0, 0x7f00),
                control_data: spec_parse_control(img.subrange(0x7f00, 0x7f17)),
                data1: img.subrange(0x7f17, 0x7fea),
                loaded_pattern: spec_loaded_of(img) as u16,
                data2: img.subrange(0x7fec, 0x8000),
            };
            spec_serialize(decoded) == img
        }),
{
    lemma_serialize_round_trip(m);
    let img = spec_serialize(m);
    let decoded = MachineStateView {
        patterns: spec_decode_upto(img, 98),
        data0: img.subrange(0x7ee0, 0x7f00),
        control_data: spec_parse_control(img.subrange(0x7f00, 0x7f17)),
        data1: img.subrange(0x7f17, 0x7fea),
        loaded_pattern: spec_loaded_of(img) as u16,
        data2: img.subrange(0x7fec, 0x8000),
    };
    assert(spec_updated_control(decoded.control_data, decoded.patterns) == spec_updated_control(
        m.control_data,
        m.patterns,
    ));
}

/// Decoding the tail of a serialized image restores the passthrough
/// regions and the loaded-pattern field byte-for-byte, and yields exactly
/// the recomputed control block.
pub proof fn lemma_serialize_regions(m: MachineStateView)
    requires
        machine_wf(m),
    ensures
        spec_serialize(m).len() == 32768,
        spec_serialize(m).subrange(0x7ee0, 0x7f00) == m.data0,
        spec_parse_control(spec_serialize(m).subrange(0x7f00, 0x7f17)) == spec_updated_control(
            m.control_data,
            m.patterns,
        ),
        spec_serialize(m).subrange(0x7f17, 0x7fea) == m.data1,
        spec_loaded_of(spec_serialize(m)) == m.loaded_pattern,
        spec_serialize(m).subrange(0x7fec, 0x8000) == m.data2,
{
    let ps = m.patterns;
    let te = spec_total_end(ps);
    let hr = spec_header_region(ps);
    let z = zero_seq(0x8000 - te - 686);
    let bod = spec_bodies_rev(ps, 0);
    let ctrl = spec_control_bytes(spec_updated_control(m.control_data, ps));
    let ld = spec_loaded_bytes(m.loaded_pattern);
    let img = spec_serialize(m);
    lemma_header_region_len(ps);
    lemma_bodies_rev_len(ps, 0);
    lemma_offset_monotone(ps, 0, ps.len() as int);
    lemma_control_round_trip(spec_updated_control(m.control_data, ps));
    lemma_loaded_round_trip(m.loaded_pattern);
    let p3 = hr + z + bod;
    assert(p3.len() == 0x7ee0);
    let p4 = p3 + m.data0;
    let p5 = p4 + ctrl;
    let p6 = p5 + m.data1;
    let p7 = p6 + ld;
    assert(img == p7 + m.data2);
    assert(p4.len() == 0x7f00 && p5.len() == 0x7f17 && p6.len() == 0x7fea && p7.len() == 0x7fec);
    assert(img.len() == 32768);
    assert(img.subrange(0x7ee0, 0x7f00) =~= m.data0);
    assert(img.subrange(0x7f00, 0x7f17) =~= ctrl);
    assert(img.subrange(0x7f17, 0x7fea) =~= m.data1);
    assert(img.subrange(0x7fea, 0x7fec) =~= ld);
    assert(img.subrange(0x7fec, 0x8000) =~= m.data2);
    assert(spec_to_nibbles(img.subrange(0x7fea, 0x7fec)) == spec_to_nibbles(ld));
}

} // verus!
