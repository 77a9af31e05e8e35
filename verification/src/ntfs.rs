//! NTFS change-journal records.

use crate::bytes;
use crate::bytes::{push_le, read_16, read_i64, read_u16, read_u32, read_u64};
use crate::text;
use crate::text::{decode_utf16_lossy, string_of};
use vstd::prelude::*;

verus! {

pub const FILE_ATTRIBUTE_DIRECTORY: u32 = 0x10;

pub const FILE_ATTRIBUTE_REPARSE_POINT: u32 = 0x400;

pub const ENUM_HEADER_SIZE: usize = 8;

pub const USN_V2_MIN_SIZE: usize = 60;

pub const USN_V3_MIN_SIZE: usize = 76;

/// A file reference of up to 128 bits.
#[derive(Debug, Clone, Copy, PartialEq, Eq, Hash, PartialOrd, Ord)]
pub struct FileId([u8; 16]);

impl View for FileId {
    type V = Seq<u8>;

    closed spec fn view(&self) -> Seq<u8> {
        self.0@
    }
}

impl FileId {
    /// The file-record number 5 belongs to the root directory; the upper
    /// 16 bits of a 64-bit reference are its sequence number.
    pub open spec fn names_root(self) -> bool {
        bytes::field(self@, 0, 8) % 0x1_0000_0000_0000 == 5
    }

    /// The reference as a number.
    pub open spec fn number(self) -> u128 {
        bytes::le_value(self@) as u128
    }

    pub fn from_u64(value: u64) -> (id: Self)
        ensures
            id@ == bytes::le_bytes(value as nat, 8) + Seq::new(8, |i: int| 0u8),
    {
        let mut bytes: [u8; 16] = [0u8; 16];
        let mut low: Vec<u8> = Vec::new();
        push_le(&mut low, value, 8);
        proof {
            bytes::le_bytes_len(value as nat, 8);
        }
        for i in 0..8usize
            invariant
                low@.len() == 8,
                forall|j: int| 0 <= j < i ==> bytes@[j] == low@[j],
                forall|j: int| i <= j < 16 ==> bytes@[j] == 0,
        {
            bytes[i] = low[i];
        }
        assert(bytes@ =~= low@ + Seq::new(8, |i: int| 0u8));
        FileId(bytes)
    }

    pub fn from_bytes(bytes: [u8; 16]) -> (id: Self)
        ensures
            id@ == bytes@,
    {
        FileId(bytes)
    }

    pub fn as_bytes(self) -> (bytes: [u8; 16])
        ensures
            bytes@ == self@,
    {
        self.0
    }

    /// Two references with the same bytes are the same reference.
    pub proof fn same_bytes(a: Self, b: Self)
        ensures
            a@ == b@ ==> a == b,
            a@.len() == 16,
    {
        if a@ == b@ {
            assert forall|i: int| 0 <= i < 16 implies a.0[i] == b.0[i] by {
                assert(a@[i] == b@[i]);
            }
            assert(a.0 =~= b.0);
        }
    }

    /// Distinct references have distinct numbers.
    pub proof fn number_is_unique(a: Self, b: Self)
        ensures
            a.number() == b.number() ==> a == b,
    {
        bytes::read_number_writes_back(a@);
        bytes::read_number_writes_back(b@);
        Self::same_bytes(a, b);
        Self::same_bytes(b, a);
        bytes::pow256_values();
    }

    /// The reference as a 128-bit number.
    pub fn key(self) -> (k: u128)
        ensures
            k == self.number(),
    {
        proof {
            bytes::read_number_writes_back(self@);
            bytes::pow256_values();
        }
        let mut v: u128 = 0;
        let mut i: usize = 16;
        assert(self.0@.subrange(16, 16) =~= Seq::<u8>::empty());
        while i > 0
            invariant
                i <= 16,
                v == bytes::le_value(self.0@.subrange(i as int, 16)),
            decreases i,
        {
            let ghost tail = self.0@.subrange(i as int, 16);
            let ghost next = self.0@.subrange(i - 1, 16);
            proof {
                bytes::read_number_writes_back(tail);
                reveal_with_fuel(bytes::pow256, 17);
                assert(next.drop_first() =~= tail);
            }
            i = i - 1;
            v = self.0[i] as u128 + 256 * v;
        }
        assert(self.0@.subrange(0, 16) =~= self@);
        v
    }

    pub fn is_ntfs_root_reference(self) -> (r: bool)
        ensures
            r == self.names_root(),
    {
        let low = match read_u64(self.0.as_slice(), 0) {
            Some(v) => v,
            None => 0,
        };
        low % 0x1_0000_0000_0000 == 5
    }

    /// Whether both are the same reference.
    pub fn same(self, other: Self) -> (r: bool)
        ensures
            r == (self == other),
    {
        proof {
            Self::number_is_unique(self, other);
        }
        self.key() == other.key()
    }
}

/// One record of the master file table or of the change journal.
#[derive(Debug, PartialEq, Eq)]
pub struct MftRecord {
    pub id: FileId,
    pub parent_id: FileId,
    pub name: String,
    pub attributes: u32,
    pub reason: u32,
    pub usn: i64,
}

impl Clone for MftRecord {
    fn clone(&self) -> (r: Self)
        ensures
            r == *self,
    {
        MftRecord {
            id: self.id,
            parent_id: self.parent_id,
            name: self.name.clone(),
            attributes: self.attributes,
            reason: self.reason,
            usn: self.usn,
        }
    }
}

/// What a record says.
#[verifier::ext_equal]
pub struct RecordModel {
    pub id: Seq<u8>,
    pub parent_id: Seq<u8>,
    pub name: Seq<char>,
    pub attributes: u32,
    pub reason: u32,
    pub usn: int,
}

impl View for MftRecord {
    type V = RecordModel;

    open spec fn view(&self) -> RecordModel {
        RecordModel {
            id: self.id@,
            parent_id: self.parent_id@,
            name: self.name@,
            attributes: self.attributes,
            reason: self.reason,
            usn: self.usn as int,
        }
    }
}

/// What some records say.
pub open spec fn record_models(records: Seq<MftRecord>) -> Seq<RecordModel> {
    records.map_values(|r: MftRecord| r@)
}

impl MftRecord {
    pub open spec fn directory(self) -> bool {
        self.attributes & FILE_ATTRIBUTE_DIRECTORY != 0
    }

    pub open spec fn reparse_point(self) -> bool {
        self.attributes & FILE_ATTRIBUTE_REPARSE_POINT != 0
    }

    pub fn is_directory(&self) -> (r: bool)
        ensures
            r == self.directory(),
    {
        self.attributes & FILE_ATTRIBUTE_DIRECTORY != 0
    }
}

/// Why a change-journal record was refused.
#[derive(Debug, Clone, Copy, PartialEq, Eq)]
pub enum UsnError {
    /// Fewer bytes than a record header.
    HeaderTooShort,
    /// The declared length is not the length of the record.
    LengthMismatch,
    /// A record version other than 2 or 3.
    UnsupportedVersion(u16),
    /// A fixed field reaches past the record.
    FieldPastRecord,
    /// The name has an odd length or starts inside the fixed fields.
    InvalidBounds,
    /// The name reaches past the record.
    NamePastRecord,
    /// The name holds a path separator or NUL.
    PathLikeName,
}

/// The code units in a run of bytes.
pub open spec fn code_units(b: Seq<u8>) -> Seq<u16> {
    Seq::new(b.len() / 2, |i: int| (b[2 * i] as int + 256 * b[2 * i + 1]) as u16)
}

/// Whether a name could be mistaken for a path.
pub open spec fn path_like(name: Seq<char>) -> bool {
    exists|i: int| 0 <= i < name.len() && (text::is_separator(#[trigger] name[i]) || name[i] == '\0')
}

/// A record whose fixed fields have been located.
pub open spec fn usn_named_record(
    b: Seq<u8>,
    fixed: RecordModel,
    name_length: nat,
    name_offset: nat,
    minimum: nat,
) -> Result<RecordModel, UsnError> {
    if name_length % 2 != 0 || name_offset < minimum {
        Err(UsnError::InvalidBounds)
    } else if name_offset + name_length > b.len() {
        Err(UsnError::NamePastRecord)
    } else {
        let name = text::utf16_text(
            code_units(b.subrange(name_offset as int, (name_offset + name_length) as int)),
        );
        if path_like(name) {
            Err(UsnError::PathLikeName)
        } else {
            Ok(RecordModel { name, ..fixed })
        }
    }
}

/// The record that `b` holds, or why it holds none.
pub open spec fn usn_record(b: Seq<u8>) -> Result<RecordModel, UsnError> {
    if b.len() < 8 {
        Err(UsnError::HeaderTooShort)
    } else if bytes::field(b, 0, 4) != b.len() {
        Err(UsnError::LengthMismatch)
    } else if bytes::field(b, 4, 2) == 2 {
        if b.len() < USN_V2_MIN_SIZE {
            Err(UsnError::FieldPastRecord)
        } else {
            usn_named_record(
                b,
                RecordModel {
                    id: b.subrange(8, 16) + Seq::new(8, |i: int| 0u8),
                    parent_id: b.subrange(16, 24) + Seq::new(8, |i: int| 0u8),
                    name: Seq::empty(),
                    attributes: bytes::field(b, 52, 4) as u32,
                    reason: bytes::field(b, 40, 4) as u32,
                    usn: bytes::signed(bytes::field(b, 24, 8)),
                },
                bytes::field(b, 56, 2),
                bytes::field(b, 58, 2),
                USN_V2_MIN_SIZE as nat,
            )
        }
    } else if bytes::field(b, 4, 2) == 3 {
        if b.len() < USN_V3_MIN_SIZE {
            Err(UsnError::FieldPastRecord)
        } else {
            usn_named_record(
                b,
                RecordModel {
                    id: b.subrange(8, 24),
                    parent_id: b.subrange(24, 40),
                    name: Seq::empty(),
                    attributes: bytes::field(b, 68, 4) as u32,
                    reason: bytes::field(b, 56, 4) as u32,
                    usn: bytes::signed(bytes::field(b, 40, 8)),
                },
                bytes::field(b, 72, 2),
                bytes::field(b, 74, 2),
                USN_V3_MIN_SIZE as nat,
            )
        }
    } else {
        Err(UsnError::UnsupportedVersion(bytes::field(b, 4, 2) as u16))
    }
}

/// The code units in a run of bytes.
fn read_code_units(b: &[u8]) -> (w: Vec<u16>)
    ensures
        w@ == code_units(b@),
{
    let n: usize = b.len() / 2;
    let mut w: Vec<u16> = Vec::new();
    for i in 0..n
        invariant
            n == b@.len() / 2,
            2 * n <= b.len(),
            w@ =~= code_units(b@).take(i as int),
    {
        w.push(b[2 * i] as u16 + 256 * b[2 * i + 1] as u16);
    }
    w
}

fn is_path_like(name: &Vec<char>) -> (r: bool)
    ensures
        r == path_like(name@),
{
    for i in 0..name.len()
        invariant
            forall|j: int| 0 <= j < i ==> !text::is_separator(#[trigger] name@[j]) && name@[j] != '\0',
    {
        if name[i] == '\\' || name[i] == '/' || name[i] == '\0' {
            assert(text::is_separator(name@[i as int]) || name@[i as int] == '\0');
            return true;
        }
    }
    false
}

/// Reads the name of a record and completes it.
fn parse_name(
    record: &[u8],
    fixed: MftRecord,
    name_length: usize,
    name_offset: usize,
    minimum: usize,
) -> (r: Result<MftRecord, UsnError>)
    requires
        name_length <= 0xffff,
        name_offset <= 0xffff,
    ensures
        match usn_named_record(
            record@,
            fixed@,
            name_length as nat,
            name_offset as nat,
            minimum as nat,
        ) {
            Ok(model) => r is Ok && r->Ok_0@ == model,
            Err(e) => r == Err::<MftRecord, UsnError>(e),
        },
{
    if name_length % 2 != 0 || name_offset < minimum {
        return Err(UsnError::InvalidBounds);
    }
    let end: usize = name_offset + name_length;
    if end > record.len() {
        return Err(UsnError::NamePastRecord);
    }
    let units = read_code_units(vstd::slice::slice_subrange(record, name_offset, end));
    // NTFS stores arbitrary UTF-16 code units, so a lone surrogate must not
    // stop the enumeration of a volume.
    let name = decode_utf16_lossy(&units);
    if is_path_like(&name) {
        return Err(UsnError::PathLikeName);
    }
    Ok(MftRecord { name: string_of(&name), ..fixed })
}

/// A 64-bit reference followed by zeros.
fn short_reference(record: &[u8], at: usize) -> (id: FileId)
    requires
        at + 8 <= record@.len(),
    ensures
        id@ == record@.subrange(at as int, at + 8) + Seq::new(8, |i: int| 0u8),
{
    let value: u64 = match read_u64(record, at) {
        Some(v) => v,
        None => 0,
    };
    proof {
        bytes::read_number_writes_back(record@.subrange(at as int, at + 8));
    }
    FileId::from_u64(value)
}

/// Reads one change-journal record of version 2 or 3.
pub fn parse_usn_record(record: &[u8]) -> (r: Result<MftRecord, UsnError>)
    ensures
        match usn_record(record@) {
            Ok(model) => r is Ok && r->Ok_0@ == model,
            Err(e) => r == Err::<MftRecord, UsnError>(e),
        },
{
    if record.len() < 8 {
        return Err(UsnError::HeaderTooShort);
    }
    let declared: usize = match read_u32(record, 0) {
        Some(v) => v as usize,
        None => 0,
    };
    if declared != record.len() {
        return Err(UsnError::LengthMismatch);
    }
    let major: u16 = match read_u16(record, 4) {
        Some(v) => v,
        None => 0,
    };
    if major == 2 {
        if record.len() < USN_V2_MIN_SIZE {
            return Err(UsnError::FieldPastRecord);
        }
        match (
            read_i64(record, 24),
            read_u32(record, 40),
            read_u32(record, 52),
            read_u16(record, 56),
            read_u16(record, 58),
        ) {
            (Some(usn), Some(reason), Some(attributes), Some(length), Some(offset)) => parse_name(
                record,
                MftRecord {
                    id: short_reference(record, 8),
                    parent_id: short_reference(record, 16),
                    name: String::new(),
                    attributes,
                    reason,
                    usn,
                },
                length as usize,
                offset as usize,
                USN_V2_MIN_SIZE,
            ),
            _ => Err(UsnError::FieldPastRecord),
        }
    } else if major == 3 {
        match (
            read_16(record, 8),
            read_16(record, 24),
            read_i64(record, 40),
            read_u32(record, 56),
            read_u32(record, 68),
            read_u16(record, 72),
            read_u16(record, 74),
        ) {
            (
                Some(id),
                Some(parent),
                Some(usn),
                Some(reason),
                Some(attributes),
                Some(length),
                Some(offset),
            ) => parse_name(
                record,
                MftRecord {
                    id: FileId::from_bytes(id),
                    parent_id: FileId::from_bytes(parent),
                    name: String::new(),
                    attributes,
                    reason,
                    usn,
                },
                length as usize,
                offset as usize,
                USN_V3_MIN_SIZE,
            ),
            _ => Err(UsnError::FieldPastRecord),
        }
    } else {
        Err(UsnError::UnsupportedVersion(major))
    }
}

/// The bytes of some code units, each with its low byte first.
pub open spec fn unit_bytes(w: Seq<u16>) -> Seq<u8> {
    Seq::new(
        2 * w.len(),
        |i: int| if i % 2 == 0 {
            (w[i / 2] % 256) as u8
        } else {
            (w[i / 2] / 256) as u8
        },
    )
}

proof fn units_read_back(w: Seq<u16>)
    ensures
        code_units(unit_bytes(w)) == w,
{
    assert forall|i: int| 0 <= i < w.len() implies code_units(unit_bytes(w))[i] == w[i] by {
        assert((2 * i) / 2 == i && (2 * i + 1) / 2 == i);
    }
    assert(code_units(unit_bytes(w)) =~= w);
}

/// A record of version 2 as the system lays it out: length, version, file,
/// parent, update sequence number, time, reason, source, security,
/// attributes, length and place of the name, and the name, with `gap` in
/// front of it and `padding` behind it.
pub open spec fn version_2_record(
    minor: u16,
    id: u64,
    parent: u64,
    usn: i64,
    time: i64,
    reason: u32,
    source: u32,
    security: u32,
    attributes: u32,
    gap: Seq<u8>,
    name: Seq<char>,
    padding: Seq<u8>,
) -> Seq<u8> {
    let units = unit_bytes(text::utf16_units(name));
    bytes::le_bytes(60 + gap.len() + units.len() + padding.len(), 4) + bytes::le_bytes(2, 2)
        + bytes::le_bytes(minor as nat, 2) + bytes::le_bytes(id as nat, 8) + bytes::le_bytes(
        parent as nat,
        8,
    ) + bytes::le_bytes(bytes::unsigned(usn as int), 8) + bytes::le_bytes(
        bytes::unsigned(time as int),
        8,
    ) + bytes::le_bytes(reason as nat, 4) + bytes::le_bytes(source as nat, 4) + bytes::le_bytes(
        security as nat,
        4,
    ) + bytes::le_bytes(attributes as nat, 4) + bytes::le_bytes(units.len(), 2) + bytes::le_bytes(
        60 + gap.len(),
        2,
    ) + gap + units + padding
}

/// A record of version 3: as version 2, with references of 16 bytes.
pub open spec fn version_3_record(
    minor: u16,
    id: Seq<u8>,
    parent: Seq<u8>,
    usn: i64,
    time: i64,
    reason: u32,
    source: u32,
    security: u32,
    attributes: u32,
    gap: Seq<u8>,
    name: Seq<char>,
    padding: Seq<u8>,
) -> Seq<u8> {
    let units = unit_bytes(text::utf16_units(name));
    bytes::le_bytes(76 + gap.len() + units.len() + padding.len(), 4) + bytes::le_bytes(3, 2)
        + bytes::le_bytes(minor as nat, 2) + id + parent + bytes::le_bytes(
        bytes::unsigned(usn as int),
        8,
    ) + bytes::le_bytes(bytes::unsigned(time as int), 8) + bytes::le_bytes(reason as nat, 4)
        + bytes::le_bytes(source as nat, 4) + bytes::le_bytes(security as nat, 4)
        + bytes::le_bytes(attributes as nat, 4) + bytes::le_bytes(units.len(), 2)
        + bytes::le_bytes(76 + gap.len(), 2) + gap + units + padding
}

/// A name without separators and NUL.
pub open spec fn plain_name(name: Seq<char>) -> bool {
    !name.contains('/') && !name.contains('\\') && !name.contains('\0')
}

/// Reading a record of version 2 gives back everything that was written.
pub proof fn version_2_record_reads_back(
    minor: u16,
    id: u64,
    parent: u64,
    usn: i64,
    time: i64,
    reason: u32,
    source: u32,
    security: u32,
    attributes: u32,
    gap: Seq<u8>,
    name: Seq<char>,
    padding: Seq<u8>,
)
    requires
        plain_name(name),
        2 * text::utf16_units(name).len() <= 0xffff,
        60 + gap.len() <= 0xffff,
        padding.len() <= 0xffff,
    ensures
        usn_record(
            version_2_record(
                minor,
                id,
                parent,
                usn,
                time,
                reason,
                source,
                security,
                attributes,
                gap,
                name,
                padding,
            ),
        ) == Ok::<RecordModel, UsnError>(
            RecordModel {
                id: bytes::le_bytes(id as nat, 8) + bytes::le_bytes(0, 8),
                parent_id: bytes::le_bytes(parent as nat, 8) + bytes::le_bytes(0, 8),
                name,
                attributes,
                reason,
                usn: usn as int,
            },
        ),
{
    let units = unit_bytes(text::utf16_units(name));
    let b = version_2_record(
        minor,
        id,
        parent,
        usn,
        time,
        reason,
        source,
        security,
        attributes,
        gap,
        name,
        padding,
    );
    let total = 60 + gap.len() + units.len() + padding.len();
    bytes::pow256_values();
    bytes::signed_pattern_round_trip(usn);
    bytes::signed_pattern_round_trip(time);
    bytes::written_number_reads_back(total, 4);
    bytes::written_number_reads_back(2, 2);
    bytes::written_number_reads_back(minor as nat, 2);
    bytes::written_number_reads_back(id as nat, 8);
    bytes::written_number_reads_back(parent as nat, 8);
    bytes::written_number_reads_back(bytes::unsigned(usn as int), 8);
    bytes::written_number_reads_back(bytes::unsigned(time as int), 8);
    bytes::written_number_reads_back(reason as nat, 4);
    bytes::written_number_reads_back(source as nat, 4);
    bytes::written_number_reads_back(security as nat, 4);
    bytes::written_number_reads_back(attributes as nat, 4);
    bytes::written_number_reads_back(units.len(), 2);
    bytes::written_number_reads_back(60 + gap.len(), 2);
    assert(b.len() == total);
    assert(b.subrange(0, 4) =~= bytes::le_bytes(total, 4));
    assert(b.subrange(4, 6) =~= bytes::le_bytes(2, 2));
    assert(b.subrange(8, 16) =~= bytes::le_bytes(id as nat, 8));
    assert(b.subrange(16, 24) =~= bytes::le_bytes(parent as nat, 8));
    assert(b.subrange(24, 32) =~= bytes::le_bytes(bytes::unsigned(usn as int), 8));
    assert(b.subrange(40, 44) =~= bytes::le_bytes(reason as nat, 4));
    assert(b.subrange(52, 56) =~= bytes::le_bytes(attributes as nat, 4));
    assert(b.subrange(56, 58) =~= bytes::le_bytes(units.len(), 2));
    assert(b.subrange(58, 60) =~= bytes::le_bytes(60 + gap.len(), 2));
    assert(b.subrange(60 + gap.len() as int, (60 + gap.len() + units.len()) as int) =~= units);
    units_read_back(text::utf16_units(name));
    text::utf16_reads_back(name);
    zeros_are_written();
    name_is_plain(name);
}

/// Reading a record of version 3 gives back everything that was written.
pub proof fn version_3_record_reads_back(
    minor: u16,
    id: Seq<u8>,
    parent: Seq<u8>,
    usn: i64,
    time: i64,
    reason: u32,
    source: u32,
    security: u32,
    attributes: u32,
    gap: Seq<u8>,
    name: Seq<char>,
    padding: Seq<u8>,
)
    requires
        id.len() == 16,
        parent.len() == 16,
        plain_name(name),
        2 * text::utf16_units(name).len() <= 0xffff,
        76 + gap.len() <= 0xffff,
        padding.len() <= 0xffff,
    ensures
        usn_record(
            version_3_record(
                minor,
                id,
                parent,
                usn,
                time,
                reason,
                source,
                security,
                attributes,
                gap,
                name,
                padding,
            ),
        ) == Ok::<RecordModel, UsnError>(
            RecordModel { id, parent_id: parent, name, attributes, reason, usn: usn as int },
        ),
{
    let units = unit_bytes(text::utf16_units(name));
    let b = version_3_record(
        minor,
        id,
        parent,
        usn,
        time,
        reason,
        source,
        security,
        attributes,
        gap,
        name,
        padding,
    );
    let total = 76 + gap.len() + units.len() + padding.len();
    bytes::pow256_values();
    bytes::signed_pattern_round_trip(usn);
    bytes::signed_pattern_round_trip(time);
    bytes::written_number_reads_back(total, 4);
    bytes::written_number_reads_back(3, 2);
    bytes::written_number_reads_back(minor as nat, 2);
    bytes::written_number_reads_back(bytes::unsigned(usn as int), 8);
    bytes::written_number_reads_back(bytes::unsigned(time as int), 8);
    bytes::written_number_reads_back(reason as nat, 4);
    bytes::written_number_reads_back(source as nat, 4);
    bytes::written_number_reads_back(security as nat, 4);
    bytes::written_number_reads_back(attributes as nat, 4);
    bytes::written_number_reads_back(units.len(), 2);
    bytes::written_number_reads_back(76 + gap.len(), 2);
    assert(b.len() == total);
    assert(b.subrange(0, 4) =~= bytes::le_bytes(total, 4));
    assert(b.subrange(4, 6) =~= bytes::le_bytes(3, 2));
    assert(b.subrange(8, 24) =~= id);
    assert(b.subrange(24, 40) =~= parent);
    assert(b.subrange(40, 48) =~= bytes::le_bytes(bytes::unsigned(usn as int), 8));
    assert(b.subrange(56, 60) =~= bytes::le_bytes(reason as nat, 4));
    assert(b.subrange(68, 72) =~= bytes::le_bytes(attributes as nat, 4));
    assert(b.subrange(72, 74) =~= bytes::le_bytes(units.len(), 2));
    assert(b.subrange(74, 76) =~= bytes::le_bytes(76 + gap.len(), 2));
    assert(b.subrange(76 + gap.len() as int, (76 + gap.len() + units.len()) as int) =~= units);
    units_read_back(text::utf16_units(name));
    text::utf16_reads_back(name);
    name_is_plain(name);
}

proof fn zeros_are_written()
    ensures
        bytes::le_bytes(0, 8) == Seq::new(8, |i: int| 0u8),
{
    reveal_with_fuel(bytes::le_bytes, 9);
    assert(bytes::le_bytes(0, 8) =~= Seq::new(8, |i: int| 0u8));
}

proof fn name_is_plain(name: Seq<char>)
    ensures
        path_like(name) == !plain_name(name),
{
    if path_like(name) {
        let i = choose|i: int|
            0 <= i < name.len() && (text::is_separator(#[trigger] name[i]) || name[i] == '\0');
        assert(name.contains(name[i]));
    }
    if !plain_name(name) {
        let c = if name.contains('/') {
            '/'
        } else if name.contains('\\') {
            '\\'
        } else {
            '\0'
        };
        let i = choose|i: int| 0 <= i < name.len() && name[i] == c;
        assert(text::is_separator(name[i]) || name[i] == '\0');
    }
}

/// What is read of an accepted record stands in its bytes: the reason of a
/// record of version 2 is the number at 40 and its attributes the number at
/// 52; a record of version 3 has them 16 bytes further on.
pub proof fn accepted_record_says_what_its_bytes_say(b: Seq<u8>)
    requires
        usn_record(b) is Ok,
    ensures
        b.take(4) == bytes::le_bytes(b.len(), 4),
        b[5] == 0,
        b[4] == 2 || b[4] == 3,
        plain_name(usn_record(b)->Ok_0.name),
        b[4] == 2 ==> {
            let r = usn_record(b)->Ok_0;
            let from = b[58] + 256 * b[59];
            let to = from + b[56] + 256 * b[57];
            &&& r.id == b.subrange(8, 16) + bytes::le_bytes(0, 8)
            &&& r.parent_id == b.subrange(16, 24) + bytes::le_bytes(0, 8)
            &&& bytes::le_bytes(bytes::unsigned(r.usn), 8) == b.subrange(24, 32)
            &&& r.reason == b[40] + 0x100 * b[41] + 0x1_0000 * b[42] + 0x100_0000 * b[43]
            &&& r.attributes == b[52] + 0x100 * b[53] + 0x1_0000 * b[54] + 0x100_0000 * b[55]
            &&& 60 <= from <= to <= b.len()
            &&& (to - from) % 2 == 0
            &&& exists|w: Seq<u16>|
                #[trigger] unit_bytes(w) == b.subrange(from, to) && r.name == text::utf16_text(w)
        },
        b[4] == 3 ==> {
            let r = usn_record(b)->Ok_0;
            let from = b[74] + 256 * b[75];
            let to = from + b[72] + 256 * b[73];
            &&& r.id == b.subrange(8, 24)
            &&& r.parent_id == b.subrange(24, 40)
            &&& bytes::le_bytes(bytes::unsigned(r.usn), 8) == b.subrange(40, 48)
            &&& r.reason == b[56] + 0x100 * b[57] + 0x1_0000 * b[58] + 0x100_0000 * b[59]
            &&& r.attributes == b[68] + 0x100 * b[69] + 0x1_0000 * b[70] + 0x100_0000 * b[71]
            &&& 76 <= from <= to <= b.len()
            &&& (to - from) % 2 == 0
            &&& exists|w: Seq<u16>|
                #[trigger] unit_bytes(w) == b.subrange(from, to) && r.name == text::utf16_text(w)
        },
{
    let r = usn_record(b)->Ok_0;
    bytes::pow256_values();
    bytes::read_number_writes_back(b.subrange(0, 4));
    assert(b.take(4) =~= b.subrange(0, 4));
    name_is_plain(r.name);
    zeros_are_written();
    number_of_two(b, 4);
    if b[4] == 2 {
        bytes::read_number_writes_back(b.subrange(24, 32));
        number_of_four(b, 40);
        number_of_four(b, 52);
        number_of_two(b, 56);
        number_of_two(b, 58);
        let from = b[58] + 256 * b[59];
        let to = from + b[56] + 256 * b[57];
        units_write_back(b.subrange(from, to));
    } else {
        bytes::read_number_writes_back(b.subrange(40, 48));
        number_of_four(b, 56);
        number_of_four(b, 68);
        number_of_two(b, 72);
        number_of_two(b, 74);
        let from = b[74] + 256 * b[75];
        let to = from + b[72] + 256 * b[73];
        units_write_back(b.subrange(from, to));
    }
}

proof fn units_write_back(b: Seq<u8>)
    requires
        b.len() % 2 == 0,
    ensures
        unit_bytes(code_units(b)) == b,
{
    let w = code_units(b);
    assert forall|i: int| 0 <= i < b.len() implies unit_bytes(w)[i] == b[i] by {
        let k = i / 2;
        assert(w[k] == b[2 * k] + 256 * b[2 * k + 1]);
    }
    assert(unit_bytes(w) =~= b);
}

proof fn number_of_two(b: Seq<u8>, at: int)
    requires
        0 <= at,
        at + 2 <= b.len(),
    ensures
        bytes::field(b, at, 2) == b[at] + 256 * b[at + 1],
{
    reveal_with_fuel(bytes::le_value, 3);
}

proof fn number_of_four(b: Seq<u8>, at: int)
    requires
        0 <= at,
        at + 4 <= b.len(),
    ensures
        bytes::field(b, at, 4) == b[at] + 0x100 * b[at + 1] + 0x1_0000 * b[at + 2] + 0x100_0000
            * b[at + 3],
{
    reveal_with_fuel(bytes::le_value, 5);
}

/// Any other version is refused by its number, whatever follows.
pub proof fn other_versions_are_refused(b: Seq<u8>)
    requires
        b.len() >= 8,
        b.take(4) == bytes::le_bytes(b.len(), 4),
        b.len() <= u32::MAX,
        b[5] != 0 || (b[4] != 2 && b[4] != 3),
    ensures
        usn_record(b) == Err::<RecordModel, UsnError>(
            UsnError::UnsupportedVersion((b[4] + 256 * b[5]) as u16),
        ),
{
    bytes::pow256_values();
    bytes::written_number_reads_back(b.len(), 4);
    assert(b.subrange(0, 4) =~= b.take(4));
    number_of_two(b, 4);
}

/// Why an enumeration buffer was refused.
#[derive(Debug, Clone, Copy, PartialEq, Eq)]
pub enum MftBufferError {
    /// No room for the continuation reference.
    MissingHeader,
    /// The length of a record reaches past the buffer.
    LengthPastBuffer,
    /// A record declares no length at all.
    ZeroLength,
    /// A record reaches past the buffer.
    RecordPastBuffer,
    /// A record was refused.
    Record { offset: usize, length: usize, cause: UsnError },
}

/// The records from `offset` on, behind those already read.
pub open spec fn enum_records(
    b: Seq<u8>,
    offset: int,
    read: Seq<RecordModel>,
) -> Result<Seq<RecordModel>, MftBufferError>
    decreases b.len() - offset,
{
    if offset >= b.len() {
        Ok(read)
    } else if offset + 4 > b.len() {
        Err(MftBufferError::LengthPastBuffer)
    } else if bytes::field(b, offset, 4) == 0 {
        Err(MftBufferError::ZeroLength)
    } else if offset + bytes::field(b, offset, 4) > b.len() {
        Err(MftBufferError::RecordPastBuffer)
    } else {
        let length = bytes::field(b, offset, 4) as int;
        match usn_record(b.subrange(offset, offset + length)) {
            Ok(record) => enum_records(b, offset + length, read.push(record)),
            Err(cause) => Err(
                MftBufferError::Record { offset: offset as usize, length: length as usize, cause },
            ),
        }
    }
}

/// Reads an enumeration buffer: the continuation reference and the records.
pub fn parse_mft_enum_buffer(buffer: &[u8]) -> (r: Result<(u64, Vec<MftRecord>), MftBufferError>)
    ensures
        buffer@.len() < ENUM_HEADER_SIZE ==> r == Err::<(u64, Vec<MftRecord>), MftBufferError>(
            MftBufferError::MissingHeader,
        ),
        buffer@.len() >= ENUM_HEADER_SIZE ==> match enum_records(
            buffer@,
            ENUM_HEADER_SIZE as int,
            Seq::empty(),
        ) {
            Ok(models) => r is Ok && r->Ok_0.0 == bytes::field(buffer@, 0, 8) && record_models(
                r->Ok_0.1@,
            ) == models,
            Err(e) => r == Err::<(u64, Vec<MftRecord>), MftBufferError>(e),
        },
{
    if buffer.len() < ENUM_HEADER_SIZE {
        return Err(MftBufferError::MissingHeader);
    }
    let next: u64 = match read_u64(buffer, 0) {
        Some(v) => v,
        None => 0,
    };
    let mut records: Vec<MftRecord> = Vec::new();
    let mut offset: usize = ENUM_HEADER_SIZE;
    assert(record_models(records@) =~= Seq::empty());
    while offset < buffer.len()
        invariant
            offset <= buffer@.len(),
            enum_records(buffer@, offset as int, record_models(records@)) == enum_records(
                buffer@,
                ENUM_HEADER_SIZE as int,
                Seq::empty(),
            ),
            ENUM_HEADER_SIZE <= buffer@.len(),
        decreases buffer@.len() - offset,
    {
        let length: usize = match read_u32(buffer, offset) {
            Some(v) => v as usize,
            None => {
                return Err(MftBufferError::LengthPastBuffer);
            },
        };
        if length == 0 {
            return Err(MftBufferError::ZeroLength);
        }
        if length > buffer.len() - offset {
            return Err(MftBufferError::RecordPastBuffer);
        }
        let end: usize = offset + length;
        match parse_usn_record(vstd::slice::slice_subrange(buffer, offset, end)) {
            Ok(record) => {
                let ghost before = records@;
                records.push(record);
                assert(record_models(records@) =~= record_models(before).push(record@));
            },
            Err(cause) => {
                return Err(MftBufferError::Record { offset, length, cause });
            },
        }
        offset = end;
    }
    Ok((next, records))
}

/// Records one behind the other.
pub open spec fn strung(records: Seq<Seq<u8>>) -> Seq<u8>
    decreases records.len(),
{
    if records.len() == 0 {
        Seq::empty()
    } else {
        records[0] + strung(records.drop_first())
    }
}

/// Every record of a buffer is read, in its order: accepted records one
/// behind the other give what each of them says.
pub proof fn strung_records_are_all_read(
    before: Seq<u8>,
    records: Seq<Seq<u8>>,
    read: Seq<RecordModel>,
)
    requires
        forall|i: int| 0 <= i < records.len() ==> usn_record(#[trigger] records[i]) is Ok,
    ensures
        enum_records(before + strung(records), before.len() as int, read) == Ok::<
            Seq<RecordModel>,
            MftBufferError,
        >(read + records.map_values(|b: Seq<u8>| usn_record(b)->Ok_0)),
    decreases records.len(),
{
    let b = before + strung(records);
    let models = records.map_values(|b: Seq<u8>| usn_record(b)->Ok_0);
    if records.len() == 0 {
        assert(b =~= before);
        assert(read + models =~= read);
    } else {
        let first = records[0];
        let rest = records.drop_first();
        let at = before.len() as int;
        assert(usn_record(first) is Ok);
        assert(b =~= before + first + strung(rest));
        assert(b.subrange(at, at + 4) =~= first.subrange(0, 4));
        assert(b.subrange(at, at + first.len()) =~= first);
        assert forall|i: int| 0 <= i < rest.len() implies usn_record(#[trigger] rest[i]) is Ok by {
            assert(rest[i] == records[i + 1]);
        }
        let next = read.push(usn_record(first)->Ok_0);
        strung_records_are_all_read(before + first, rest, next);
        assert(next + rest.map_values(|b: Seq<u8>| usn_record(b)->Ok_0) =~= read + models);
    }
}

/// A buffer with a record that is refused is refused as a whole, with the
/// place of that record and why it was refused.
pub proof fn one_refused_record_refuses_the_buffer(
    before: Seq<u8>,
    records: Seq<Seq<u8>>,
    refused: Seq<u8>,
    after: Seq<u8>,
    read: Seq<RecordModel>,
)
    requires
        forall|i: int| 0 <= i < records.len() ==> usn_record(#[trigger] records[i]) is Ok,
        refused.len() >= 4,
        refused.len() <= u32::MAX,
        refused.take(4) == bytes::le_bytes(refused.len(), 4),
        usn_record(refused) is Err,
    ensures
        enum_records(
            before + strung(records) + refused + after,
            before.len() as int,
            read,
        ) == Err::<Seq<RecordModel>, MftBufferError>(
            MftBufferError::Record {
                offset: (before.len() + strung(records).len()) as usize,
                length: refused.len() as usize,
                cause: usn_record(refused)->Err_0,
            },
        ),
    decreases records.len(),
{
    let b = before + strung(records) + refused + after;
    let at = before.len() as int;
    if records.len() == 0 {
        bytes::pow256_values();
        bytes::written_number_reads_back(refused.len(), 4);
        assert(b =~= before + refused + after);
        assert(b.subrange(at, at + 4) =~= refused.take(4));
        assert(b.subrange(at, at + refused.len()) =~= refused);
    } else {
        let first = records[0];
        let rest = records.drop_first();
        assert(usn_record(first) is Ok);
        assert(b =~= before + first + strung(rest) + refused + after);
        assert(b.subrange(at, at + 4) =~= first.subrange(0, 4));
        assert(b.subrange(at, at + first.len()) =~= first);
        assert forall|i: int| 0 <= i < rest.len() implies usn_record(#[trigger] rest[i]) is Ok by {
            assert(rest[i] == records[i + 1]);
        }
        one_refused_record_refuses_the_buffer(
            before + first,
            rest,
            refused,
            after,
            read.push(usn_record(first)->Ok_0),
        );
    }
}

/// The root directory has the record number 5, whatever its sequence number.
pub proof fn root_has_record_number_five(id: FileId, reference: u64)
    requires
        id@ == bytes::le_bytes(reference as nat, 8) + bytes::le_bytes(0, 8),
    ensures
        id.names_root() <==> reference % 0x1_0000_0000_0000 == 5,
{
    bytes::pow256_values();
    bytes::written_number_reads_back(reference as nat, 8);
    assert(id@.subrange(0, 8) =~= bytes::le_bytes(reference as nat, 8));
}

/// What the attributes of a record say: bit 4 marks directories, bit 10
/// directories that redirect elsewhere.
pub proof fn attributes_are_bits(r: MftRecord)
    ensures
        r.directory() <==> (r.attributes / 0x10) % 2 == 1,
        r.reparse_point() <==> (r.attributes / 0x400) % 2 == 1,
{
    let a = r.attributes;
    assert((a & 0x10u32 != 0) == ((a / 0x10) % 2 == 1)) by (bit_vector);
    assert((a & 0x400u32 != 0) == ((a / 0x400) % 2 == 1)) by (bit_vector);
}

} // verus!
