//! The in-memory floppy disk: 80 fixed-size sectors, each a 12-byte
//! identifier plus a 1024-byte data body, with a flat byte view of the
//! bodies and a byte-exact file layout.

use vstd::prelude::*;

use crate::util::lemma_mul_div_plus;
use crate::KhError;

verus! {

/// Bytes in a sector identifier.
pub const SECTOR_ID_LEN: usize = 12;

/// Bytes in a sector data body.
pub const SECTOR_DATA_LEN: usize = 1024;

/// Sectors on a disk.
pub const SECTOR_COUNT: usize = 80;

/// Bytes in the on-disk file layout: 80 repetitions of identifier plus body.
pub const DISK_FILE_LEN: usize = 82880;

/// Bytes in the flat view of all data bodies.
pub const FLAT_LEN: usize = 81920;

/// A sector: an opaque 12-byte identifier and a 1024-byte data body.
pub struct Sector {
    pub id: Vec<u8>,
    pub data: Vec<u8>,
}

/// The mathematical value of a sector.
pub ghost struct SectorView {
    pub id: Seq<u8>,
    pub data: Seq<u8>,
}

impl View for Sector {
    type V = SectorView;

    open spec fn view(&self) -> SectorView {
        SectorView { id: self.id@, data: self.data@ }
    }
}

/// A sector holds exactly 12 identifier bytes and 1024 data bytes.
pub open spec fn sector_wf(s: SectorView) -> bool {
    s.id.len() == SECTOR_ID_LEN && s.data.len() == SECTOR_DATA_LEN
}

/// A disk holds exactly 80 well-formed sectors.
pub open spec fn disk_wf(d: Seq<SectorView>) -> bool {
    d.len() == SECTOR_COUNT && forall|i: int| 0 <= i < d.len() ==> sector_wf(#[trigger] d[i])
}

/// The concatenation of the 80 data bodies, identifiers excluded.
pub open spec fn spec_flatten(d: Seq<SectorView>) -> Seq<u8>
    recommends
        disk_wf(d),
{
    Seq::new((FLAT_LEN) as nat, |i: int| d[i / 1024].data[i % 1024])
}

/// `s` brought to exactly 81 920 bytes: truncated, or right-padded with
/// zeros.
pub open spec fn spec_pad_truncate(s: Seq<u8>) -> Seq<u8> {
    Seq::new((FLAT_LEN) as nat, |i: int| if i < s.len() {
        s[i]
    } else {
        0u8
    })
}

/// The byte-exact file layout of a disk.
pub open spec fn spec_disk_bytes(d: Seq<SectorView>) -> Seq<u8>
    recommends
        disk_wf(d),
{
    Seq::new((DISK_FILE_LEN) as nat, |i: int| if i % 1036 < 12 {
        d[i / 1036].id[i % 1036]
    } else {
        d[i / 1036].data[i % 1036 - 12]
    })
}

/// The disk a well-formed file byte string describes.
pub open spec fn spec_parse_disk(bytes: Seq<u8>) -> Seq<SectorView>
    recommends
        bytes.len() == DISK_FILE_LEN,
{
    Seq::new((SECTOR_COUNT) as nat, |i: int| SectorView {
        id: bytes.subrange(1036 * i, 1036 * i + 12),
        data: bytes.subrange(1036 * i + 12, 1036 * i + 1036),
    })
}

/// A copy of a byte vector.
pub fn copy_bytes(v: &Vec<u8>) -> (r: Vec<u8>)
    ensures
        r@ == v@,
{
    let mut r: Vec<u8> = Vec::new();
    let mut i: usize = 0;
    while i < v.len()
        invariant
            i <= v@.len(),
            r@ == v@.take(i as int),
        decreases v@.len() - i,
    {
        r.push(v[i]);
        proof {
            assert(v@.take(i + 1) =~= v@.take(i as int).push(v@[i as int]));
        }
        i += 1;
    }
    proof {
        assert(v@.take(v@.len() as int) =~= v@);
    }
    r
}

/// A vector of `len` equal bytes.
pub fn byte_vec(len: usize, val: u8) -> (r: Vec<u8>)
    ensures
        r@ == Seq::new(len as nat, |i: int| val),
{
    let mut r: Vec<u8> = Vec::new();
    let mut i: usize = 0;
    while i < len
        invariant
            i <= len,
            r@.len() == i,
            forall|j: int| 0 <= j < i ==> r@[j] == val,
        decreases len - i,
    {
        r.push(val);
        i += 1;
    }
    proof {
        assert(r@ =~= Seq::new(len as nat, |i: int| val));
    }
    r
}

/// An in-memory disk of 80 sectors.
pub struct Disk {
    pub sectors: Vec<Sector>,
}

impl View for Disk {
    type V = Seq<SectorView>;

    open spec fn view(&self) -> Seq<SectorView> {
        self.sectors@.map_values(|s: Sector| s@)
    }
}

impl Disk {
    pub open spec fn wf(&self) -> bool {
        disk_wf(self@)
    }

    /// A disk of 80 zeroed sectors.
    pub fn new() -> (r: Disk)
        ensures
            r.wf(),
            forall|i: int|
                0 <= i < SECTOR_COUNT ==> (#[trigger] r@[i]).id == Seq::new(
                    (SECTOR_ID_LEN) as nat,
                    |j: int| 0u8,
                ) && r@[i].data == Seq::new((SECTOR_DATA_LEN) as nat, |j: int| 0u8),
    {
        let mut sectors: Vec<Sector> = Vec::new();
        let mut i: usize = 0;
        while i < SECTOR_COUNT
            invariant
                i <= SECTOR_COUNT,
                sectors@.len() == i,
                forall|k: int|
                    0 <= k < i ==> (#[trigger] sectors@[k]@).id == Seq::new(
                        (SECTOR_ID_LEN) as nat,
                        |j: int| 0u8,
                    ) && sectors@[k]@.data == Seq::new((SECTOR_DATA_LEN) as nat, |j: int| 0u8),
            decreases SECTOR_COUNT - i,
        {
            let id = byte_vec(SECTOR_ID_LEN, 0);
            let data = byte_vec(SECTOR_DATA_LEN, 0);
            sectors.push(Sector { id, data });
            i += 1;
        }
        Disk { sectors }
    }

    /// The flat 81 920-byte view: the 80 data bodies concatenated in order.
    pub fn flatten_data(&self) -> (r: Vec<u8>)
        requires
            self.wf(),
        ensures
            r@ == spec_flatten(self@),
            r@.len() == FLAT_LEN,
    {
        let mut r: Vec<u8> = Vec::new();
        let mut i: usize = 0;
        while i < SECTOR_COUNT
            invariant
                self.wf(),
                i <= SECTOR_COUNT,
                r@.len() == 1024 * i,
                forall|t: int| 0 <= t < r@.len() ==> r@[t] == spec_flatten(self@)[t],
            decreases SECTOR_COUNT - i,
        {
            let ghost pre = r@;
            let sector = &self.sectors[i];
            r.extend_from_slice(sector.data.as_slice());
            proof {
                assert(self@[i as int].data == sector@.data);
                assert(r@ == pre + sector.data@);
                assert forall|t: int| pre.len() <= t < r@.len() implies r@[t] == spec_flatten(
                    self@,
                )[t] by {
                    lemma_mul_div_plus(i as int, t - 1024 * (i as int), 1024);
                }
            }
            i += 1;
        }
        proof {
            assert(r@ =~= spec_flatten(self@));
        }
        r
    }

    /// Overwrite the 80 data bodies from `data`, brought to 81 920 bytes by
    /// truncation or zero padding; the identifiers are untouched.
    pub fn set_flattened_data(&mut self, data: Vec<u8>) -> (r: Result<(), KhError>)
        requires
            old(self).wf(),
        ensures
            r is Ok,
            final(self).wf(),
            final(self)@.len() == SECTOR_COUNT,
            forall|i: int|
                0 <= i < SECTOR_COUNT ==> (#[trigger] final(self)@[i]).id == old(self)@[i].id,
            spec_flatten(final(self)@) == spec_pad_truncate(data@),
    {
        let mut padded = data;
        padded.resize(FLAT_LEN, 0);
        proof {
            assert(padded@ =~= spec_pad_truncate(padded@));
        }
        let mut sectors: Vec<Sector> = Vec::new();
        let mut i: usize = 0;
        while i < SECTOR_COUNT
            invariant
                old(self).wf(),
                padded@.len() == FLAT_LEN,
                i <= SECTOR_COUNT,
                self == old(self),
                sectors@.len() == i,
                forall|k: int|
                    0 <= k < i ==> sector_wf(#[trigger] sectors@[k]@) && sectors@[k]@.id == old(
                        self,
                    )@[k].id,
                forall|k: int, j: int|
                    0 <= k < i && 0 <= j < 1024 ==> (#[trigger] sectors@[k]@.data[j]) == padded@[
                        1024 * k + j],
            decreases SECTOR_COUNT - i,
        {
            let id = copy_bytes(&self.sectors[i].id);
            let mut body: Vec<u8> = Vec::new();
            let mut j: usize = 0;
            while j < SECTOR_DATA_LEN
                invariant
                    padded@.len() == FLAT_LEN,
                    i < SECTOR_COUNT,
                    j <= SECTOR_DATA_LEN,
                    body@.len() == j,
                    forall|t: int| 0 <= t < j ==> body@[t] == padded@[1024 * (i as int) + t],
                decreases SECTOR_DATA_LEN - j,
            {
                body.push(padded[1024 * i + j]);
                j += 1;
            }
            let ghost gid = id@;
            let ghost gbody = body@;
            sectors.push(Sector { id, data: body });
            proof {
                assert(sectors@[i as int]@.id == gid);
                assert(sectors@[i as int]@.data == gbody);
                assert(gid == old(self)@[i as int].id);
            }
            i += 1;
        }
        self.sectors = sectors;
        proof {
            assert forall|t: int| 0 <= t < FLAT_LEN implies spec_flatten(self@)[t]
                == spec_pad_truncate(data@)[t] by {
                let k = t / 1024;
                let j = t % 1024;
                lemma_mul_div_plus(k, j, 1024);
                vstd::arithmetic::div_mod::lemma_fundamental_div_mod(t, 1024);
                assert(t == 1024 * k + j);
                assert(self@[k].data[j] == padded@[1024 * k + j]);
                assert(spec_pad_truncate(data@)[t] == padded@[t]);
            }
            assert(spec_flatten(self@) =~= spec_pad_truncate(data@));
        }
        Ok(())
    }

    /// The byte-exact 82 880-byte file image of the disk.
    pub fn to_bytes(&self) -> (r: Vec<u8>)
        requires
            self.wf(),
        ensures
            r@ == spec_disk_bytes(self@),
            r@.len() == DISK_FILE_LEN,
    {
        let mut r: Vec<u8> = Vec::new();
        let mut i: usize = 0;
        while i < SECTOR_COUNT
            invariant
                self.wf(),
                i <= SECTOR_COUNT,
                r@.len() == 1036 * i,
                forall|t: int| 0 <= t < r@.len() ==> r@[t] == spec_disk_bytes(self@)[t],
            decreases SECTOR_COUNT - i,
        {
            let ghost pre = r@;
            let sector = &self.sectors[i];
            r.extend_from_slice(sector.id.as_slice());
            r.extend_from_slice(sector.data.as_slice());
            proof {
                assert(r@ == pre + sector.id@ + sector.data@);
                assert(self@[i as int] == sector@);
                assert forall|t: int| pre.len() <= t < r@.len() implies r@[t] == spec_disk_bytes(
                    self@,
                )[t] by {
                    lemma_mul_div_plus(i as int, t - 1036 * (i as int), 1036);
                }
            }
            i += 1;
        }
        proof {
            assert(r@ =~= spec_disk_bytes(self@));
        }
        r
    }

    /// The disk an 82 880-byte file image describes; any other length is
    /// rejected.
    pub fn from_bytes(bytes: &Vec<u8>) -> (r: Result<Disk, KhError>)
        ensures
            r is Ok <==> bytes@.len() == DISK_FILE_LEN,
            r is Ok ==> {
                let d = r->Ok_0;
                &&& d.wf()
                &&& d@ == spec_parse_disk(bytes@)
            },
    {
        if bytes.len() != DISK_FILE_LEN {
            return Err(KhError::Io);
        }
        let mut sectors: Vec<Sector> = Vec::new();
        let mut i: usize = 0;
        while i < SECTOR_COUNT
            invariant
                bytes@.len() == DISK_FILE_LEN,
                i <= SECTOR_COUNT,
                sectors@.len() == i,
                forall|k: int|
                    0 <= k < i ==> (#[trigger] sectors@[k]@) == spec_parse_disk(bytes@)[k],
            decreases SECTOR_COUNT - i,
        {
            let mut id: Vec<u8> = Vec::new();
            let mut j: usize = 0;
            while j < SECTOR_ID_LEN
                invariant
                    bytes@.len() == DISK_FILE_LEN,
                    i < SECTOR_COUNT,
                    j <= SECTOR_ID_LEN,
                    id@.len() == j,
                    forall|t: int| 0 <= t < j ==> id@[t] == bytes@[1036 * (i as int) + t],
                decreases SECTOR_ID_LEN - j,
            {
                id.push(bytes[1036 * i + j]);
                j += 1;
            }
            let mut data: Vec<u8> = Vec::new();
            let mut j2: usize = 0;
            while j2 < SECTOR_DATA_LEN
                invariant
                    bytes@.len() == DISK_FILE_LEN,
                    i < SECTOR_COUNT,
                    j2 <= SECTOR_DATA_LEN,
                    data@.len() == j2,
                    forall|t: int| 0 <= t < j2 ==> data@[t] == bytes@[1036 * (i as int) + 12 + t],
                decreases SECTOR_DATA_LEN - j2,
            {
                data.push(bytes[1036 * i + 12 + j2]);
                j2 += 1;
            }
            proof {
                assert(id@ =~= bytes@.subrange(1036 * (i as int), 1036 * (i as int) + 12));
                assert(data@ =~= bytes@.subrange(
                    1036 * (i as int) + 12,
                    1036 * (i as int) + 1036,
                ));
            }
            sectors.push(Sector { id, data });
            i += 1;
        }
        let d = Disk { sectors };
        proof {
            assert(d@ =~= spec_parse_disk(bytes@));
            assert forall|k: int| 0 <= k < SECTOR_COUNT implies sector_wf(#[trigger] d@[k]) by {}
        }
        Ok(d)
    }
}

/// Writing a disk to its file bytes and reading them back restores the disk
/// byte-for-byte.
pub proof fn lemma_disk_bytes_round_trip(d: Seq<SectorView>)
    requires
        disk_wf(d),
    ensures
        spec_disk_bytes(d).len() == DISK_FILE_LEN,
        spec_parse_disk(spec_disk_bytes(d)) == d,
{
    let bytes = spec_disk_bytes(d);
    assert forall|i: int| 0 <= i < SECTOR_COUNT implies spec_parse_disk(bytes)[i] == d[i] by {
        assert forall|j: int| 0 <= j < 12 implies bytes.subrange(1036 * i, 1036 * i + 12)[j] == d[
            i].id[j] by {
            lemma_mul_div_plus(i, j, 1036);
        }
        assert forall|j: int|
            0 <= j < 1024 implies bytes.subrange(1036 * i + 12, 1036 * i + 1036)[j] == d[
            i].data[j] by {
            lemma_mul_div_plus(i, j + 12, 1036);
        }
        assert(bytes.subrange(1036 * i, 1036 * i + 12) =~= d[i].id);
        assert(bytes.subrange(1036 * i + 12, 1036 * i + 1036) =~= d[i].data);
    }
    assert(spec_parse_disk(bytes) =~= d);
}

} // verus!
