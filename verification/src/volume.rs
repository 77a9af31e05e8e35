//! Enumeration of a volume and reading of its change journal, one returned
//! buffer at a time.

use crate::bytes;
use crate::ntfs;
use crate::ntfs::{parse_mft_enum_buffer, MftBufferError, MftRecord};
use crate::text;
use crate::text::{
    decode_utf16_lossy, is_ascii_letter, same_text, string_of, to_ascii_lowercase,
};
use vstd::prelude::*;

verus! {

/// The system's code for the end of an enumeration.
pub const ERROR_HANDLE_EOF: i32 = 38;

/// How far an enumeration of the master file table has come.
#[derive(Debug, Clone, Copy, PartialEq, Eq, Structural)]
pub struct MftEnumeration {
    pub batches: u64,
    pub records: u64,
    pub last_reference: u64,
}

/// The state of a change journal.
#[derive(Debug, Clone, Copy, PartialEq, Eq, Structural)]
pub struct UsnJournalInfo {
    pub journal_id: u64,
    pub first_usn: i64,
    pub next_usn: i64,
    pub lowest_valid_usn: i64,
}

/// How far a change journal has been read.
#[derive(Debug, Clone, Copy, PartialEq, Eq, Structural)]
pub struct UsnReadSummary {
    pub batches: u64,
    pub records: u64,
    pub next_usn: i64,
}

/// Why a returned buffer was refused.
#[derive(Debug, Clone, Copy, PartialEq, Eq)]
pub enum VolumeError {
    Buffer(MftBufferError),
    /// The continuation does not lie behind the place read from.
    NotAdvancing,
}

/// What a buffer that starts with a continuation holds.
pub open spec fn buffer_contents(b: Seq<u8>) -> Result<
    (u64, Seq<ntfs::RecordModel>),
    MftBufferError,
> {
    if b.len() < ntfs::ENUM_HEADER_SIZE {
        Err(MftBufferError::MissingHeader)
    } else {
        match ntfs::enum_records(b, ntfs::ENUM_HEADER_SIZE as int, Seq::empty()) {
            Ok(models) => Ok((bytes::field(b, 0, 8) as u64, models)),
            Err(e) => Err(e),
        }
    }
}

impl MftEnumeration {
    /// An enumeration moves forward with every batch.
    pub open spec fn wf(self) -> bool {
        self.batches <= self.last_reference
    }

    pub fn start() -> (s: Self)
        ensures
            s == (MftEnumeration { batches: 0, records: 0, last_reference: 0 }),
            s.wf(),
    {
        MftEnumeration { batches: 0, records: 0, last_reference: 0 }
    }

    /// Takes the next buffer that the volume returned.
    pub fn enumerate_mft(self, buffer: &[u8]) -> (r: Result<(Self, Vec<MftRecord>), VolumeError>)
        requires
            self.wf(),
            self.records + buffer@.len() <= u64::MAX,
        ensures
            match buffer_contents(buffer@) {
                Err(e) => r == Err::<(Self, Vec<MftRecord>), VolumeError>(VolumeError::Buffer(e)),
                Ok((next, models)) => if next <= self.last_reference {
                    r == Err::<(Self, Vec<MftRecord>), VolumeError>(VolumeError::NotAdvancing)
                } else {
                    &&& r is Ok
                    &&& r->Ok_0.0.wf()
                    &&& r->Ok_0.0.batches == self.batches + 1
                    &&& r->Ok_0.0.records == self.records + models.len()
                    &&& r->Ok_0.0.last_reference == next
                    &&& ntfs::record_models(r->Ok_0.1@) == models
                },
            },
    {
        match parse_mft_enum_buffer(buffer) {
            Err(e) => Err(VolumeError::Buffer(e)),
            Ok((next, records)) => {
                if next <= self.last_reference {
                    return Err(VolumeError::NotAdvancing);
                }
                proof {
                    records_are_fewer_than_bytes(
                        buffer@,
                        ntfs::ENUM_HEADER_SIZE as int,
                        Seq::empty(),
                    );
                    assert(ntfs::record_models(records@).len() == records@.len());
                }
                let summary = MftEnumeration {
                    batches: self.batches + 1,
                    records: self.records + records.len() as u64,
                    last_reference: next,
                };
                Ok((summary, records))
            },
        }
    }
}

/// Each record takes at least one byte.
proof fn records_are_fewer_than_bytes(b: Seq<u8>, offset: int, read: Seq<ntfs::RecordModel>)
    requires
        0 <= offset <= b.len(),
    ensures
        ntfs::enum_records(b, offset, read) matches Ok(models) ==> models.len() <= read.len()
            + b.len() - offset,
    decreases b.len() - offset,
{
    if offset + 4 <= b.len() && bytes::field(b, offset, 4) != 0 && offset + bytes::field(
        b,
        offset,
        4,
    ) <= b.len() {
        let length = bytes::field(b, offset, 4) as int;
        match ntfs::usn_record(b.subrange(offset, offset + length)) {
            Ok(record) => {
                records_are_fewer_than_bytes(b, offset + length, read.push(record));
            },
            Err(_) => {},
        }
    }
}

impl UsnReadSummary {
    pub fn start(start_usn: i64) -> (s: Self)
        ensures
            s == (UsnReadSummary { batches: 0, records: 0, next_usn: start_usn }),
    {
        UsnReadSummary { batches: 0, records: 0, next_usn: start_usn }
    }

    /// Whether the journal has to be read further.
    pub fn unfinished(&self, target_usn: i64) -> (r: bool)
        ensures
            r == (self.next_usn < target_usn),
    {
        self.next_usn < target_usn
    }

    /// Takes the next buffer that the journal returned.
    pub fn read_usn_journal(self, buffer: &[u8]) -> (r: Result<(Self, Vec<MftRecord>), VolumeError>)
        requires
            self.records + buffer@.len() <= u64::MAX,
            self.batches < u64::MAX,
        ensures
            match buffer_contents(buffer@) {
                Err(e) => r == Err::<(Self, Vec<MftRecord>), VolumeError>(VolumeError::Buffer(e)),
                Ok((next, models)) => if bytes::signed(next as nat) <= self.next_usn {
                    r == Err::<(Self, Vec<MftRecord>), VolumeError>(VolumeError::NotAdvancing)
                } else {
                    &&& r is Ok
                    &&& r->Ok_0.0.batches == self.batches + 1
                    &&& r->Ok_0.0.records == self.records + models.len()
                    &&& r->Ok_0.0.next_usn == bytes::signed(next as nat)
                    &&& ntfs::record_models(r->Ok_0.1@) == models
                },
            },
    {
        match parse_mft_enum_buffer(buffer) {
            Err(e) => Err(VolumeError::Buffer(e)),
            Ok((next, records)) => {
                let next: i64 = bytes::to_signed(next);
                if next <= self.next_usn {
                    return Err(VolumeError::NotAdvancing);
                }
                proof {
                    records_are_fewer_than_bytes(
                        buffer@,
                        ntfs::ENUM_HEADER_SIZE as int,
                        Seq::empty(),
                    );
                    assert(ntfs::record_models(records@).len() == records@.len());
                }
                let summary = UsnReadSummary {
                    batches: self.batches + 1,
                    records: self.records + records.len() as u64,
                    next_usn: next,
                };
                Ok((summary, records))
            },
        }
    }
}

/// Whether a failed enumeration call means that the volume is done.
pub fn enumeration_is_complete(os_code: Option<i32>) -> (r: bool)
    ensures
        r == (os_code == Some(ERROR_HANDLE_EOF)),
{
    match os_code {
        Some(code) => code == ERROR_HANDLE_EOF,
        None => false,
    }
}

/// The device name of a drive letter; nothing for other characters.
pub fn open_volume(volume: char) -> (r: Option<String>)
    ensures
        r is Some <==> text::ascii_letter(volume),
        r is Some ==> r->0@ == "\\\\.\\"@.push(text::ascii_upper(volume)).push(':'),
{
    if !is_ascii_letter(volume) {
        return None;
    }
    let mut device = "\\\\.\\".to_owned();
    device.push(text::to_ascii_upper(volume));
    device.push(':');
    Some(device)
}

/// The type of a drive that is fixed.
pub const DRIVE_FIXED: u32 = 3;

pub fn is_fixed_drive(drive_type: u32) -> (r: bool)
    ensures
        r == (drive_type == DRIVE_FIXED),
{
    drive_type == DRIVE_FIXED
}

/// What stands before the first zero.
pub open spec fn before_zero(words: Seq<u16>) -> Seq<u16>
    decreases words.len(),
{
    if words.len() == 0 || words[0] == 0 {
        Seq::empty()
    } else {
        seq![words[0]] + before_zero(words.drop_first())
    }
}

/// Whether a file system is NTFS, by its name as the system tells it.
pub fn names_ntfs(words: &Vec<u16>) -> (r: bool)
    ensures
        r == (text::ascii_lowercase(text::utf16_text(before_zero(words@))) == "ntfs"@),
{
    let mut name: Vec<u16> = Vec::new();
    let mut i: usize = 0;
    assert(words@.skip(0) =~= words@);
    assert(name@ + before_zero(words@) =~= before_zero(words@));
    while i < words.len() && words[i] != 0
        invariant
            i <= words@.len(),
            name@ + before_zero(words@.skip(i as int)) == before_zero(words@),
        decreases words@.len() - i,
    {
        let ghost before = name@;
        let ghost rest = words@.skip(i as int);
        assert(rest.drop_first() =~= words@.skip(i + 1));
        name.push(words[i]);
        i += 1;
        assert(before + before_zero(rest) =~= name@ + before_zero(rest.drop_first()));
    }
    proof {
        let rest = words@.skip(i as int);
        assert(before_zero(rest) =~= Seq::empty());
        assert(name@ + before_zero(rest) =~= name@);
    }
    let lower = to_ascii_lowercase(&decode_utf16_lossy(name.as_slice()));
    same_text(string_of(lower.as_slice()).as_str(), "ntfs")
}

/// The letter of the drive at a place.
pub open spec fn drive_letter(i: int) -> char {
    (65 + i) as char
}

/// The roots of the drives below `n` that are present.
pub open spec fn present_drives(mask: u32, n: nat) -> Seq<Seq<char>>
    decreases n,
{
    if n == 0 {
        Seq::empty()
    } else {
        let earlier = present_drives(mask, (n - 1) as nat);
        if mask & (1u32 << ((n - 1) as u32)) == 0 {
            earlier
        } else {
            earlier.push(seq![drive_letter(n - 1), ':', '\\'])
        }
    }
}

/// The roots of the drives that are present, by the letters of the alphabet.
pub fn drive_roots(mask: u32) -> (r: Vec<String>)
    ensures
        text::texts(r@) == present_drives(mask, 26),
{
    let mut r: Vec<String> = Vec::new();
    assert(text::texts(r@) =~= Seq::empty());
    for i in 0..26u32
        invariant
            text::texts(r@) == present_drives(mask, i as nat),
    {
        let ghost before = r@;
        if mask & (1u32 << i) != 0 {
            let letter: char = (65u8 + i as u8) as char;
            let mut root = String::new();
            root.push(letter);
            root.push(':');
            root.push('\\');
            assert(root@ =~= seq![drive_letter(i as int), ':', '\\']);
            r.push(root);
            assert(text::texts(r@) =~= text::texts(before).push(r@.last()@));
        }
    }
    r
}

/// A buffer that was written with a continuation and some records gives them
/// back.
pub proof fn buffer_reads_back(next: u64, records: Seq<Seq<u8>>)
    requires
        forall|i: int| 0 <= i < records.len() ==> ntfs::usn_record(#[trigger] records[i]) is Ok,
    ensures
        buffer_contents(bytes::le_bytes(next as nat, 8) + ntfs::strung(records)) == Ok::<
            (u64, Seq<ntfs::RecordModel>),
            MftBufferError,
        >((next, records.map_values(|b: Seq<u8>| ntfs::usn_record(b)->Ok_0))),
{
    let head = bytes::le_bytes(next as nat, 8);
    let b = head + ntfs::strung(records);
    bytes::pow256_values();
    bytes::written_number_reads_back(next as nat, 8);
    ntfs::strung_records_are_all_read(head, records, Seq::empty());
    assert(b.subrange(0, 8) =~= head);
    assert(Seq::<ntfs::RecordModel>::empty() + records.map_values(
        |b: Seq<u8>| ntfs::usn_record(b)->Ok_0,
    ) =~= records.map_values(|b: Seq<u8>| ntfs::usn_record(b)->Ok_0));
}

/// A drive is listed exactly if its bit is set: the lowest bit stands for A,
/// the next for B, and so on.
pub proof fn drive_is_listed_by_its_bit(mask: u32, i: u32)
    requires
        i < 26,
    ensures
        present_drives(mask, 26).contains(seq![(65 + i) as char, ':', '\\']) <==> (mask >> i) & 1
            == 1,
{
    drives_below(mask, 26, i);
}

proof fn drives_below(mask: u32, n: nat, i: u32)
    requires
        n <= 26,
        i < 26,
    ensures
        present_drives(mask, n).contains(seq![(65 + i) as char, ':', '\\']) <==> i < n && (mask
            >> i) & 1 == 1,
    decreases n,
{
    let drive = seq![(65 + i) as char, ':', '\\'];
    if n > 0 {
        let m = (n - 1) as nat;
        let k = m as u32;
        drives_below(mask, m, i);
        let earlier = present_drives(mask, m);
        let last = seq![drive_letter(m as int), ':', '\\'];
        assert((mask & (1u32 << k) == 0) == ((mask >> k) & 1 != 1)) by (bit_vector)
            requires
                k < 32,
        ;
        assert(drive[0] as u32 == 65 + i);
        assert(last[0] as u32 == 65 + m);
        if i == m {
            assert(last =~= drive);
        } else {
            assert(last[0] != drive[0]);
        }
        if mask & (1u32 << k) != 0 {
            let all = earlier.push(last);
            assert(all.last() == last);
            if earlier.contains(drive) {
                let j = choose|j: int| 0 <= j < earlier.len() && earlier[j] == drive;
                assert(all[j] == drive);
            }
            if all.contains(drive) {
                let j = choose|j: int| 0 <= j < all.len() && all[j] == drive;
                if j < earlier.len() {
                    assert(earlier[j] == drive);
                }
            }
        }
    }
}

/// What the system tells counts up to the first zero.
pub proof fn zero_ends_a_name(name: Seq<u16>, after: Seq<u16>)
    requires
        forall|i: int| 0 <= i < name.len() ==> #[trigger] name[i] != 0,
    ensures
        before_zero(name + seq![0u16] + after) == name,
    decreases name.len(),
{
    let all = name + seq![0u16] + after;
    if name.len() > 0 {
        let rest = name.drop_first();
        assert forall|i: int| 0 <= i < rest.len() implies #[trigger] rest[i] != 0 by {
            assert(rest[i] == name[i + 1]);
        }
        zero_ends_a_name(rest, after);
        assert(all[0] == name[0]);
        assert(all.drop_first() =~= rest + seq![0u16] + after);
    }
    assert(before_zero(all) =~= name);
}

} // verus!
