//! The FDC protocol engine: a byte-at-a-time state machine speaking the
//! FDD-19 wire dialect. The caller feeds it one received byte at a time and
//! writes the returned reply bytes to the line; when a step reports a
//! completed transaction the disk should be persisted.

use vstd::prelude::*;

use crate::disk::{copy_bytes, Disk, Sector, SectorView, SECTOR_COUNT};
use crate::KhError;

verus! {

/// The engine's position inside a transaction.
pub enum FdcState {
    /// Op mode, waiting for the two non-zero `Z Z` preamble bytes; zero
    /// bytes are line idle and are discarded.
    OpPreamble { first: Option<u8> },
    /// Op mode, the preamble seen; the next byte is the command.
    OpCmd,
    /// Op mode, waiting for the data length byte.
    OpLen { cmd: u8 },
    /// Op mode, consuming `remaining` data bytes.
    OpData { cmd: u8, remaining: u8 },
    /// Op mode, waiting for the checksum byte, which is not validated.
    OpChecksum { cmd: u8 },
    /// FDC mode, waiting for a command byte.
    FdcIdle,
    /// FDC mode, a `Z` seen; a second `Z` opens an Op-mode request.
    FdcEscape,
    /// FDC mode, collecting the argument line up to the carriage return.
    FdcArgs { cmd: u8, args: Vec<u8> },
    /// Reply sent; a carriage return triggers the data phase of `A` or `R`.
    FdcAwaitCr { cmd: u8, psn: u8 },
    /// Collecting the 12-byte identifier to search for.
    FdcRecvSearchId { buf: Vec<u8> },
    /// Collecting the 12-byte identifier to store in sector `psn`.
    FdcRecvId { psn: u8, buf: Vec<u8> },
    /// Collecting the 1024-byte data body to store in sector `psn`.
    FdcRecvData { psn: u8, buf: Vec<u8> },
    /// A protocol violation happened; the engine is dead.
    Failed,
}

/// The mathematical value of an engine state.
pub ghost enum StateV {
    OpPreamble { first: Option<u8> },
    OpCmd,
    OpLen { cmd: u8 },
    OpData { cmd: u8, remaining: u8 },
    OpChecksum { cmd: u8 },
    FdcIdle,
    FdcEscape,
    FdcArgs { cmd: u8, args: Seq<u8> },
    FdcAwaitCr { cmd: u8, psn: u8 },
    FdcRecvSearchId { buf: Seq<u8> },
    FdcRecvId { psn: u8, buf: Seq<u8> },
    FdcRecvData { psn: u8, buf: Seq<u8> },
    Failed,
}

impl View for FdcState {
    type V = StateV;

    open spec fn view(&self) -> StateV {
        match self {
            FdcState::OpPreamble { first } => StateV::OpPreamble { first: *first },
            FdcState::OpCmd => StateV::OpCmd,
            FdcState::OpLen { cmd } => StateV::OpLen { cmd: *cmd },
            FdcState::OpData { cmd, remaining } => StateV::OpData {
                cmd: *cmd,
                remaining: *remaining,
            },
            FdcState::OpChecksum { cmd } => StateV::OpChecksum { cmd: *cmd },
            FdcState::FdcIdle => StateV::FdcIdle,
            FdcState::FdcEscape => StateV::FdcEscape,
            FdcState::FdcArgs { cmd, args } => StateV::FdcArgs { cmd: *cmd, args: args@ },
            FdcState::FdcAwaitCr { cmd, psn } => StateV::FdcAwaitCr { cmd: *cmd, psn: *psn },
            FdcState::FdcRecvSearchId { buf } => StateV::FdcRecvSearchId { buf: buf@ },
            FdcState::FdcRecvId { psn, buf } => StateV::FdcRecvId { psn: *psn, buf: buf@ },
            FdcState::FdcRecvData { psn, buf } => StateV::FdcRecvData { psn: *psn, buf: buf@ },
            FdcState::Failed => StateV::Failed,
        }
    }
}

/// Collected buffers stay under their target sizes and stored sector
/// numbers are in range.
pub open spec fn state_wf(s: StateV) -> bool {
    match s {
        StateV::FdcAwaitCr { cmd, psn } => psn < 80,
        StateV::FdcRecvSearchId { buf } => buf.len() < 12,
        StateV::FdcRecvId { psn, buf } => psn < 80 && buf.len() < 12,
        StateV::FdcRecvData { psn, buf } => psn < 80 && buf.len() < 1024,
        _ => true,
    }
}

/// The engine: its transaction state and the disk it serves.
pub struct FdcEngine {
    pub state: FdcState,
    pub disk: Disk,
}

/// The mathematical value of an engine.
pub ghost struct EngineV {
    pub state: StateV,
    pub disk: Seq<SectorView>,
}

impl View for FdcEngine {
    type V = EngineV;

    open spec fn view(&self) -> EngineV {
        EngineV { state: self.state@, disk: self.disk@ }
    }
}

pub open spec fn engine_wf(e: EngineV) -> bool {
    state_wf(e.state) && crate::disk::disk_wf(e.disk)
}

/// What one pushed byte does: the successor state, the possibly changed
/// disk, the bytes to put on the wire, whether a transaction completed, and
/// whether the byte was legal.
pub ghost struct StepSpec {
    pub state: StateV,
    pub disk: Seq<SectorView>,
    pub reply: Seq<u8>,
    pub done: bool,
    pub ok: bool,
}

pub open spec fn step_cont(s: StateV, d: Seq<SectorView>) -> StepSpec {
    StepSpec { state: s, disk: d, reply: Seq::empty(), done: false, ok: true }
}

pub open spec fn step_done(s: StateV, d: Seq<SectorView>, reply: Seq<u8>) -> StepSpec {
    StepSpec { state: s, disk: d, reply, done: true, ok: true }
}

pub open spec fn step_fail(d: Seq<SectorView>) -> StepSpec {
    StepSpec { state: StateV::Failed, disk: d, reply: Seq::empty(), done: false, ok: false }
}

/// The ASCII hex digit of a value below 16, uppercase.
pub open spec fn spec_hex_digit(d: u8) -> u8
    recommends
        d < 16,
{
    if d < 10 {
        (48 + d) as u8
    } else {
        (55 + d) as u8
    }
}

/// The success status reply: `"00"`, the sector number as two uppercase hex
/// digits, `"0000"`.
pub open spec fn spec_reply(psn: u8) -> Seq<u8> {
    seq![
        48u8,
        48u8,
        spec_hex_digit(psn / 16),
        spec_hex_digit(psn % 16),
        48u8,
        48u8,
        48u8,
        48u8,
    ]
}

/// The search-miss reply `"40000000"`.
pub open spec fn spec_miss_reply() -> Seq<u8> {
    seq![52u8, 48u8, 48u8, 48u8, 48u8, 48u8, 48u8, 48u8]
}

pub open spec fn spec_dec_digit(b: u8) -> bool {
    48 <= b <= 57
}

/// The value of an ASCII decimal digit string.
pub open spec fn spec_dec_val(s: Seq<u8>) -> int
    decreases s.len(),
{
    if s.len() == 0 {
        0
    } else {
        spec_dec_val(s.drop_last()) * 10 + (s.last() - 48)
    }
}

pub open spec fn spec_all_digits(s: Seq<u8>) -> bool {
    forall|i: int| 0 <= i < s.len() ==> spec_dec_digit(#[trigger] s[i])
}

/// An unsigned byte parsed as `str::parse::<u8>` would: an optional
/// leading `+`, then one or more decimal digits, value at most 255.
pub open spec fn spec_parse_u8(s: Seq<u8>) -> Option<u8> {
    let t = if s.len() > 0 && s[0] == 43 {
        s.skip(1)
    } else {
        s
    };
    if t.len() == 0 || !spec_all_digits(t) || spec_dec_val(t) > 255 {
        None
    } else {
        Some(spec_dec_val(t) as u8)
    }
}

/// The first comma at or after `from`, or the end of the line.
pub open spec fn spec_first_comma(s: Seq<u8>, from: int) -> int
    recommends
        0 <= from <= s.len(),
    decreases s.len() - from,
{
    if from < 0 || from >= s.len() {
        s.len() as int
    } else if s[from] == 44 {
        from
    } else {
        spec_first_comma(s, from + 1)
    }
}

/// The physical and logical sector numbers of an argument line with spaces
/// already removed: fields split on commas, `PSN` below 80, defaults
/// `(0, 1)`, extra fields ignored.
pub open spec fn spec_parse_psn_lsn(args: Seq<u8>) -> Option<(u8, u8)> {
    if args.len() == 0 {
        Some((0u8, 1u8))
    } else {
        let c1 = spec_first_comma(args, 0);
        match spec_parse_u8(args.subrange(0, c1)) {
            None => None,
            Some(psn) => if psn >= 80 {
                None
            } else {
                if c1 == args.len() {
                    Some((psn, 1u8))
                } else {
                    let c2 = spec_first_comma(args, c1 + 1);
                    match spec_parse_u8(args.subrange(c1 + 1, c2)) {
                        None => None,
                        Some(lsn) => Some((psn, lsn)),
                    }
                }
            },
        }
    }
}

/// The first sector at or after `i` whose identifier equals `id`.
pub open spec fn spec_search(d: Seq<SectorView>, id: Seq<u8>, i: int) -> Option<int>
    decreases d.len() - i,
{
    if i < 0 || i >= d.len() {
        None
    } else if d[i].id == id {
        Some(i)
    } else {
        spec_search(d, id, i + 1)
    }
}

pub open spec fn is_fdc_cmd(b: u8) -> bool {
    b == 65 || b == 83 || b == 66 || b == 67 || b == 87 || b == 88 || b == 82
}

/// The reply and successor state after a parsed argument line, per command.
pub open spec fn spec_dispatch(cmd: u8, psn: u8, d: Seq<SectorView>) -> StepSpec {
    if cmd == 65 || cmd == 82 {
        StepSpec {
            state: StateV::FdcAwaitCr { cmd, psn },
            disk: d,
            reply: spec_reply(psn),
            done: false,
            ok: true,
        }
    } else if cmd == 66 || cmd == 67 {
        StepSpec {
            state: StateV::FdcRecvId { psn, buf: Seq::empty() },
            disk: d,
            reply: spec_reply(psn),
            done: false,
            ok: true,
        }
    } else {
        StepSpec {
            state: StateV::FdcRecvData { psn, buf: Seq::empty() },
            disk: d,
            reply: spec_reply(psn),
            done: false,
            ok: true,
        }
    }
}

/// The engine's transition relation, one received byte at a time.
pub open spec fn spec_step(e: EngineV, b: u8) -> StepSpec {
    let d = e.disk;
    match e.state {
        StateV::OpPreamble { first } => {
            if b == 0 {
                step_cont(StateV::OpPreamble { first }, d)
            } else {
                match first {
                    None => step_cont(StateV::OpPreamble { first: Some(b) }, d),
                    Some(f) => if f == 90 && b == 90 {
                        step_cont(StateV::OpCmd, d)
                    } else {
                        step_fail(d)
                    },
                }
            }
        },
        StateV::OpCmd => step_cont(StateV::OpLen { cmd: b }, d),
        StateV::OpLen { cmd } => {
            if b == 0 {
                step_cont(StateV::OpChecksum { cmd }, d)
            } else {
                step_cont(StateV::OpData { cmd, remaining: b }, d)
            }
        },
        StateV::OpData { cmd, remaining } => {
            if remaining <= 1 {
                step_cont(StateV::OpChecksum { cmd }, d)
            } else {
                step_cont(StateV::OpData { cmd, remaining: (remaining - 1) as u8 }, d)
            }
        },
        StateV::OpChecksum { cmd } => {
            if cmd == 8 {
                step_done(StateV::FdcIdle, d, Seq::empty())
            } else {
                step_fail(d)
            }
        },
        StateV::FdcIdle => {
            if b == 13 {
                step_done(StateV::FdcIdle, d, Seq::empty())
            } else if b == 90 {
                step_cont(StateV::FdcEscape, d)
            } else if is_fdc_cmd(b) {
                step_cont(StateV::FdcArgs { cmd: b, args: Seq::empty() }, d)
            } else {
                step_fail(d)
            }
        },
        StateV::FdcEscape => {
            if b == 90 {
                step_cont(StateV::OpCmd, d)
            } else {
                step_fail(d)
            }
        },
        StateV::FdcArgs { cmd, args } => {
            if b == 32 {
                step_cont(StateV::FdcArgs { cmd, args }, d)
            } else if b != 13 {
                step_cont(StateV::FdcArgs { cmd, args: args.push(b) }, d)
            } else if cmd == 83 {
                if args.len() == 0 {
                    StepSpec {
                        state: StateV::FdcRecvSearchId { buf: Seq::empty() },
                        disk: d,
                        reply: spec_reply(0),
                        done: false,
                        ok: true,
                    }
                } else {
                    step_fail(d)
                }
            } else {
                match spec_parse_psn_lsn(args) {
                    None => step_fail(d),
                    Some((psn, lsn)) => spec_dispatch(cmd, psn, d),
                }
            }
        },
        StateV::FdcAwaitCr { cmd, psn } => {
            if b == 13 {
                if cmd == 65 {
                    step_done(StateV::FdcIdle, d, d[psn as int].id)
                } else {
                    step_done(StateV::FdcIdle, d, d[psn as int].data)
                }
            } else {
                step_fail(d)
            }
        },
        StateV::FdcRecvSearchId { buf } => {
            let buf2 = buf.push(b);
            if buf2.len() < 12 {
                step_cont(StateV::FdcRecvSearchId { buf: buf2 }, d)
            } else {
                match spec_search(d, buf2, 0) {
                    Some(i) => step_done(StateV::FdcIdle, d, spec_reply(i as u8)),
                    None => step_done(StateV::FdcIdle, d, spec_miss_reply()),
                }
            }
        },
        StateV::FdcRecvId { psn, buf } => {
            let buf2 = buf.push(b);
            if buf2.len() < 12 {
                step_cont(StateV::FdcRecvId { psn, buf: buf2 }, d)
            } else {
                let d2 = d.update(
                    psn as int,
                    SectorView { id: buf2, data: d[psn as int].data },
                );
                step_done(StateV::FdcIdle, d2, spec_reply(psn))
            }
        },
        StateV::FdcRecvData { psn, buf } => {
            let buf2 = buf.push(b);
            if buf2.len() < 1024 {
                step_cont(StateV::FdcRecvData { psn, buf: buf2 }, d)
            } else {
                let d2 = d.update(
                    psn as int,
                    SectorView { id: d[psn as int].id, data: buf2 },
                );
                step_done(StateV::FdcIdle, d2, spec_reply(psn))
            }
        },
        StateV::Failed => step_fail(d),
    }
}

/// What one pushed byte produced: reply bytes to put on the wire, and
/// whether a transaction completed (after which the disk should be saved).
pub struct StepOutput {
    pub reply: Vec<u8>,
    pub transaction_done: bool,
}

/// Whether two byte strings are equal.
pub fn bytes_eq(a: &Vec<u8>, b: &Vec<u8>) -> (r: bool)
    ensures
        r == (a@ == b@),
{
    if a.len() != b.len() {
        return false;
    }
    let mut i: usize = 0;
    while i < a.len()
        invariant
            a@.len() == b@.len(),
            i <= a@.len(),
            forall|j: int| 0 <= j < i ==> a@[j] == b@[j],
        decreases a@.len() - i,
    {
        if a[i] != b[i] {
            return false;
        }
        i += 1;
    }
    proof {
        assert(a@ =~= b@);
    }
    true
}

/// The 8-character hex status reply for a sector number.
fn reply_bytes(psn: u8) -> (r: Vec<u8>)
    ensures
        r@ == spec_reply(psn),
{
    let mut r: Vec<u8> = Vec::new();
    r.push(48);
    r.push(48);
    let hi = psn / 16;
    let lo = psn % 16;
    r.push(if hi < 10 {
        48 + hi
    } else {
        55 + hi
    });
    r.push(if lo < 10 {
        48 + lo
    } else {
        55 + lo
    });
    r.push(48);
    r.push(48);
    r.push(48);
    r.push(48);
    proof {
        assert(r@ =~= spec_reply(psn));
    }
    r
}

/// The `"40000000"` search-miss reply.
fn miss_reply_bytes() -> (r: Vec<u8>)
    ensures
        r@ == spec_miss_reply(),
{
    let mut r: Vec<u8> = Vec::new();
    r.push(52);
    r.push(48);
    r.push(48);
    r.push(48);
    r.push(48);
    r.push(48);
    r.push(48);
    r.push(48);
    proof {
        assert(r@ =~= spec_miss_reply());
    }
    r
}

/// `spec_dec_val` of a digit string is non-negative.
proof fn lemma_dec_val_nonneg(s: Seq<u8>)
    requires
        spec_all_digits(s),
    ensures
        spec_dec_val(s) >= 0,
    decreases s.len(),
{
    if s.len() > 0 {
        assert(spec_all_digits(s.drop_last()));
        lemma_dec_val_nonneg(s.drop_last());
    }
}

/// A digit-string prefix never exceeds the whole string's value.
proof fn lemma_dec_val_prefix_le(s: Seq<u8>, i: int)
    requires
        spec_all_digits(s),
        0 <= i <= s.len(),
    ensures
        spec_dec_val(s.take(i)) <= spec_dec_val(s),
    decreases s.len() - i,
{
    if i < s.len() {
        assert(s.take(i + 1).drop_last() =~= s.take(i));
        assert(spec_all_digits(s.take(i)));
        lemma_dec_val_nonneg(s.take(i));
        lemma_dec_val_prefix_le(s, i + 1);
    } else {
        assert(s.take(i) =~= s);
    }
}

/// A scan that passed no comma up to `i` finds the first comma at or after
/// `i`.
proof fn lemma_first_comma_advance(s: Seq<u8>, from: int, i: int)
    requires
        0 <= from <= i <= s.len(),
        forall|j: int| from <= j < i ==> s[j] != 44,
    ensures
        spec_first_comma(s, from) == spec_first_comma(s, i),
    decreases i - from,
{
    if from < i {
        lemma_first_comma_advance(s, from + 1, i);
    }
}

/// Parse `v[start..end]` as `str::parse::<u8>` would.
fn parse_dec_u8(v: &Vec<u8>, start: usize, end: usize) -> (r: Option<u8>)
    requires
        start <= end <= v@.len(),
    ensures
        r == spec_parse_u8(v@.subrange(start as int, end as int)),
{
    let ghost s = v@.subrange(start as int, end as int);
    let mut i = start;
    if i < end && v[i] == 43 {
        i += 1;
        proof {
            assert(s.skip(1) =~= v@.subrange(i as int, end as int));
        }
    }
    let ghost i0 = i as int;
    let ghost t = v@.subrange(i0, end as int);
    proof {
        assert(t == if s.len() > 0 && s[0] == 43 {
            s.skip(1)
        } else {
            s
        });
    }
    if i == end {
        return None;
    }
    let mut val: u16 = 0;
    while i < end
        invariant
            start <= i0 <= i <= end <= v@.len(),
            s == v@.subrange(start as int, end as int),
            t == (if s.len() > 0 && s[0] == 43 {
                s.skip(1)
            } else {
                s
            }),
            t == v@.subrange(i0, end as int),
            t.len() == end - i0,
            t.len() > 0,
            spec_all_digits(t.take(i - i0)),
            val == spec_dec_val(t.take(i - i0)),
            val <= 255,
        decreases end - i,
    {
        let b = v[i];
        proof {
            let k = i - i0;
            assert(t[k] == v@.subrange(i0, end as int)[k]);
            assert(t[k] == b);
        }
        if b < 48 || b > 57 {
            proof {
                assert(!spec_dec_digit(t[i - i0]));
                assert(!spec_all_digits(t));
            }
            return None;
        }
        let d = (b - 48) as u16;
        let nv: u16 = val * 10 + d;
        proof {
            let k = i - i0;
            assert(t.take(k + 1).drop_last() =~= t.take(k));
            assert(t.take(k + 1).last() == t[k]);
            assert(spec_dec_val(t.take(k + 1)) == val * 10 + (b - 48));
        }
        if nv > 255 {
            proof {
                if spec_all_digits(t) {
                    lemma_dec_val_prefix_le(t, i - i0 + 1);
                }
            }
            return None;
        }
        val = nv;
        i += 1;
    }
    proof {
        assert(t.take((end as int) - i0) =~= t);
    }
    Some(val as u8)
}

/// Parse an argument line (spaces already removed) into `(PSN, LSN)`.
///
/// Missing fields default to `PSN = 0`, `LSN = 1`; a malformed number or a
/// sector number outside `0..80` is a protocol violation.
pub fn parse_psn_lsn(args: &Vec<u8>) -> (r: Result<(u8, u8), KhError>)
    ensures
        r is Ok <==> spec_parse_psn_lsn(args@) is Some,
        r is Ok ==> r->Ok_0 == spec_parse_psn_lsn(args@)->0,
        r is Err ==> r->Err_0 == KhError::ProtocolViolation,
{
    if args.len() == 0 {
        return Ok((0, 1));
    }
    let mut c1: usize = 0;
    while c1 < args.len() && args[c1] != 44
        invariant
            c1 <= args@.len(),
            forall|j: int| 0 <= j < c1 ==> args@[j] != 44,
        decreases args@.len() - c1,
    {
        c1 += 1;
    }
    proof {
        lemma_first_comma_advance(args@, 0, c1 as int);
        assert(spec_first_comma(args@, 0) == c1 as int);
    }
    let psn = match parse_dec_u8(args, 0, c1) {
        Some(p) => p,
        None => {
            return Err(KhError::ProtocolViolation);
        },
    };
    if psn >= 80 {
        return Err(KhError::ProtocolViolation);
    }
    if c1 == args.len() {
        return Ok((psn, 1));
    }
    let mut c2: usize = c1 + 1;
    while c2 < args.len() && args[c2] != 44
        invariant
            c1 + 1 <= c2 <= args@.len(),
            forall|j: int| c1 + 1 <= j < c2 ==> args@[j] != 44,
        decreases args@.len() - c2,
    {
        c2 += 1;
    }
    proof {
        lemma_first_comma_advance(args@, c1 + 1, c2 as int);
        assert(spec_first_comma(args@, c1 + 1) == c2 as int);
    }
    let lsn = match parse_dec_u8(args, c1 + 1, c2) {
        Some(l) => l,
        None => {
            return Err(KhError::ProtocolViolation);
        },
    };
    Ok((psn, lsn))
}

/// The first sector whose identifier equals `id`, scanning upward from 0.
fn search_disk(disk: &Disk, id: &Vec<u8>) -> (r: Option<u8>)
    requires
        disk.wf(),
    ensures
        match spec_search(disk@, id@, 0) {
            Some(i) => r == Some(i as u8),
            None => r is None,
        },
{
    let mut i: usize = 0;
    while i < SECTOR_COUNT
        invariant
            disk.wf(),
            i <= SECTOR_COUNT,
            spec_search(disk@, id@, 0) == spec_search(disk@, id@, i as int),
        decreases SECTOR_COUNT - i,
    {
        if bytes_eq(&disk.sectors[i].id, id) {
            proof {
                assert(disk@[i as int].id == id@);
            }
            return Some(i as u8);
        }
        proof {
            assert(disk@[i as int].id != id@);
        }
        i += 1;
    }
    None
}

impl FdcEngine {
    /// An engine in the initial Op-mode state, serving the given disk.
    pub fn new(disk: Disk) -> (r: FdcEngine)
        requires
            disk.wf(),
        ensures
            r@.state == (StateV::OpPreamble { first: None }),
            r@.disk == disk@,
            engine_wf(r@),
    {
        FdcEngine { state: FdcState::OpPreamble { first: None }, disk }
    }

    /// Feed one received byte to the engine.
    ///
    /// The result carries the bytes to write to the line and whether a
    /// transaction completed; a protocol violation kills the engine.
    pub fn push_byte(&mut self, b: u8) -> (r: Result<StepOutput, KhError>)
        requires
            engine_wf(old(self)@),
        ensures
            engine_wf(final(self)@),
            final(self)@.state == spec_step(old(self)@, b).state,
            final(self)@.disk == spec_step(old(self)@, b).disk,
            match r {
                Ok(o) => spec_step(old(self)@, b).ok && o.reply@ == spec_step(old(self)@, b).reply
                    && o.transaction_done == spec_step(old(self)@, b).done,
                Err(e) => !spec_step(old(self)@, b).ok && e == KhError::ProtocolViolation,
            },
    {
        let mut st = FdcState::Failed;
        core::mem::swap(&mut st, &mut self.state);
        let ghost pre = old(self)@;
        match st {
            FdcState::OpPreamble { first } => {
                if b == 0 {
                    self.state = FdcState::OpPreamble { first };
                    Ok(StepOutput { reply: Vec::new(), transaction_done: false })
                } else {
                    match first {
                        None => {
                            self.state = FdcState::OpPreamble { first: Some(b) };
                            Ok(StepOutput { reply: Vec::new(), transaction_done: false })
                        },
                        Some(f) => {
                            if f == 90 && b == 90 {
                                self.state = FdcState::OpCmd;
                                Ok(StepOutput { reply: Vec::new(), transaction_done: false })
                            } else {
                                Err(KhError::ProtocolViolation)
                            }
                        },
                    }
                }
            },
            FdcState::OpCmd => {
                self.state = FdcState::OpLen { cmd: b };
                Ok(StepOutput { reply: Vec::new(), transaction_done: false })
            },
            FdcState::OpLen { cmd } => {
                if b == 0 {
                    self.state = FdcState::OpChecksum { cmd };
                } else {
                    self.state = FdcState::OpData { cmd, remaining: b };
                }
                Ok(StepOutput { reply: Vec::new(), transaction_done: false })
            },
            FdcState::OpData { cmd, remaining } => {
                if remaining <= 1 {
                    self.state = FdcState::OpChecksum { cmd };
                } else {
                    self.state = FdcState::OpData { cmd, remaining: remaining - 1 };
                }
                Ok(StepOutput { reply: Vec::new(), transaction_done: false })
            },
            FdcState::OpChecksum { cmd } => {
                if cmd == 8 {
                    self.state = FdcState::FdcIdle;
                    Ok(StepOutput { reply: Vec::new(), transaction_done: true })
                } else {
                    Err(KhError::ProtocolViolation)
                }
            },
            FdcState::FdcIdle => {
                if b == 13 {
                    self.state = FdcState::FdcIdle;
                    Ok(StepOutput { reply: Vec::new(), transaction_done: true })
                } else if b == 90 {
                    self.state = FdcState::FdcEscape;
                    Ok(StepOutput { reply: Vec::new(), transaction_done: false })
                } else if b == 65 || b == 83 || b == 66 || b == 67 || b == 87 || b == 88 || b == 82 {
                    self.state = FdcState::FdcArgs { cmd: b, args: Vec::new() };
                    Ok(StepOutput { reply: Vec::new(), transaction_done: false })
                } else {
                    Err(KhError::ProtocolViolation)
                }
            },
            FdcState::FdcEscape => {
                if b == 90 {
                    self.state = FdcState::OpCmd;
                    Ok(StepOutput { reply: Vec::new(), transaction_done: false })
                } else {
                    Err(KhError::ProtocolViolation)
                }
            },
            FdcState::FdcArgs { cmd, args } => {
                if b == 32 {
                    self.state = FdcState::FdcArgs { cmd, args };
                    Ok(StepOutput { reply: Vec::new(), transaction_done: false })
                } else if b != 13 {
                    let mut args2 = args;
                    args2.push(b);
                    self.state = FdcState::FdcArgs { cmd, args: args2 };
                    Ok(StepOutput { reply: Vec::new(), transaction_done: false })
                } else if cmd == 83 {
                    if args.len() == 0 {
                        self.state = FdcState::FdcRecvSearchId { buf: Vec::new() };
                        Ok(StepOutput { reply: reply_bytes(0), transaction_done: false })
                    } else {
                        Err(KhError::ProtocolViolation)
                    }
                } else {
                    match parse_psn_lsn(&args) {
                        Err(e) => Err(e),
                        Ok((psn, _lsn)) => {
                            if cmd == 65 || cmd == 82 {
                                self.state = FdcState::FdcAwaitCr { cmd, psn };
                            } else if cmd == 66 || cmd == 67 {
                                self.state = FdcState::FdcRecvId { psn, buf: Vec::new() };
                            } else {
                                self.state = FdcState::FdcRecvData { psn, buf: Vec::new() };
                            }
                            Ok(StepOutput { reply: reply_bytes(psn), transaction_done: false })
                        },
                    }
                }
            },
            FdcState::FdcAwaitCr { cmd, psn } => {
                if b == 13 {
                    self.state = FdcState::FdcIdle;
                    let payload = if cmd == 65 {
                        copy_bytes(&self.disk.sectors[psn as usize].id)
                    } else {
                        copy_bytes(&self.disk.sectors[psn as usize].data)
                    };
                    Ok(StepOutput { reply: payload, transaction_done: true })
                } else {
                    Err(KhError::ProtocolViolation)
                }
            },
            FdcState::FdcRecvSearchId { buf } => {
                let mut buf2 = buf;
                buf2.push(b);
                if buf2.len() < 12 {
                    self.state = FdcState::FdcRecvSearchId { buf: buf2 };
                    Ok(StepOutput { reply: Vec::new(), transaction_done: false })
                } else {
                    self.state = FdcState::FdcIdle;
                    match search_disk(&self.disk, &buf2) {
                        Some(i) => Ok(StepOutput { reply: reply_bytes(i), transaction_done: true }),
                        None => Ok(
                            StepOutput { reply: miss_reply_bytes(), transaction_done: true },
                        ),
                    }
                }
            },
            FdcState::FdcRecvId { psn, buf } => {
                let mut buf2 = buf;
                buf2.push(b);
                if buf2.len() < 12 {
                    self.state = FdcState::FdcRecvId { psn, buf: buf2 };
                    Ok(StepOutput { reply: Vec::new(), transaction_done: false })
                } else {
                    let data = copy_bytes(&self.disk.sectors[psn as usize].data);
                    let ghost id2 = buf2@;
                    self.disk.sectors[psn as usize] = Sector { id: buf2, data };
                    self.state = FdcState::FdcIdle;
                    proof {
                        assert(self.disk@ =~= pre.disk.update(
                            psn as int,
                            SectorView { id: id2, data: pre.disk[psn as int].data },
                        ));
                    }
                    Ok(StepOutput { reply: reply_bytes(psn), transaction_done: true })
                }
            },
            FdcState::FdcRecvData { psn, buf } => {
                let mut buf2 = buf;
                buf2.push(b);
                if buf2.len() < 1024 {
                    self.state = FdcState::FdcRecvData { psn, buf: buf2 };
                    Ok(StepOutput { reply: Vec::new(), transaction_done: false })
                } else {
                    let id = copy_bytes(&self.disk.sectors[psn as usize].id);
                    let ghost data2 = buf2@;
                    self.disk.sectors[psn as usize] = Sector { id, data: buf2 };
                    self.state = FdcState::FdcIdle;
                    proof {
                        assert(self.disk@ =~= pre.disk.update(
                            psn as int,
                            SectorView { id: pre.disk[psn as int].id, data: data2 },
                        ));
                    }
                    Ok(StepOutput { reply: reply_bytes(psn), transaction_done: true })
                }
            },
            FdcState::Failed => Err(KhError::ProtocolViolation),
        }
    }
}

} // verus!
