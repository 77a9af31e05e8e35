//! RAR archives: headers, listing and the checks while an entry is decoded.

use crate::archive;
use crate::archive::{is_safe_entry_name, ArchiveEntry, ArchiveLimits, EntryError};
use crate::paths::Platform;
use crate::text;
use crate::text::{chars_of, decode_utf16_lossy, same_text, string_of, utf8_text_lossy};
use vstd::prelude::*;

verus! {

pub const ERAR_NO_MEMORY: i32 = 11;

pub const ERAR_BAD_DATA: i32 = 12;

pub const ERAR_BAD_ARCHIVE: i32 = 13;

pub const ERAR_UNKNOWN_FORMAT: i32 = 14;

pub const ERAR_EOPEN: i32 = 15;

pub const ERAR_EREAD: i32 = 18;

pub const ERAR_MISSING_PASSWORD: i32 = 22;

pub const ERAR_BAD_PASSWORD: i32 = 24;

pub const RHDF_SPLITBEFORE: u32 = 0x1;

pub const RHDF_SPLITAFTER: u32 = 0x2;

pub const RHDF_ENCRYPTED: u32 = 0x4;

pub const RHDF_DIRECTORY: u32 = 0x20;

pub const ROADF_VOLUME: u32 = 0x1;

pub const ROADF_ENCHEADERS: u32 = 0x80;

/// What went wrong inside the decoder.
#[derive(Debug, Clone, Copy, PartialEq, Eq, Structural)]
pub enum RarFailure {
    Encrypted,
    Damaged,
    UnknownFormat,
    CannotOpen,
    CannotRead,
    OutOfMemory,
    Other,
}

/// What a result code of the decoder means.
pub fn rar_error(code: i32) -> (r: RarFailure)
    ensures
        r == if code == ERAR_MISSING_PASSWORD || code == ERAR_BAD_PASSWORD {
            RarFailure::Encrypted
        } else if code == ERAR_BAD_DATA || code == ERAR_BAD_ARCHIVE {
            RarFailure::Damaged
        } else if code == ERAR_UNKNOWN_FORMAT {
            RarFailure::UnknownFormat
        } else if code == ERAR_EOPEN {
            RarFailure::CannotOpen
        } else if code == ERAR_EREAD {
            RarFailure::CannotRead
        } else if code == ERAR_NO_MEMORY {
            RarFailure::OutOfMemory
        } else {
            RarFailure::Other
        },
{
    if code == ERAR_MISSING_PASSWORD || code == ERAR_BAD_PASSWORD {
        RarFailure::Encrypted
    } else if code == ERAR_BAD_DATA || code == ERAR_BAD_ARCHIVE {
        RarFailure::Damaged
    } else if code == ERAR_UNKNOWN_FORMAT {
        RarFailure::UnknownFormat
    } else if code == ERAR_EOPEN {
        RarFailure::CannotOpen
    } else if code == ERAR_EREAD {
        RarFailure::CannotRead
    } else if code == ERAR_NO_MEMORY {
        RarFailure::OutOfMemory
    } else {
        RarFailure::Other
    }
}

/// Whether an archive with these flags can be read: neither encrypted
/// headers nor volumes are supported.
pub fn check_archive_flags(flags: u32) -> (r: Result<(), EntryError>)
    ensures
        r == if flags & ROADF_ENCHEADERS != 0 {
            Err::<(), EntryError>(EntryError::Encrypted)
        } else if flags & ROADF_VOLUME != 0 {
            Err(EntryError::Split)
        } else {
            Ok(())
        },
{
    if flags & ROADF_ENCHEADERS != 0 {
        Err(EntryError::Encrypted)
    } else if flags & ROADF_VOLUME != 0 {
        Err(EntryError::Split)
    } else {
        Ok(())
    }
}

/// The header of a RAR entry.
#[derive(Debug)]
pub struct RarHeader {
    /// The name in the system's wide characters, ended by zero.
    pub filename_w: Vec<u32>,
    /// The name in bytes, ended by zero.
    pub filename: Vec<u8>,
    pub flags: u32,
    pub unp_size: u32,
    pub unp_size_high: u32,
    pub redir_type: u32,
}

impl RarHeader {
    pub open spec fn split(self) -> bool {
        self.flags & (RHDF_SPLITBEFORE | RHDF_SPLITAFTER) != 0
    }

    pub open spec fn encrypted(self) -> bool {
        self.flags & RHDF_ENCRYPTED != 0
    }

    /// A directory or a link.
    pub open spec fn special(self) -> bool {
        self.flags & RHDF_DIRECTORY != 0 || self.redir_type != 0
    }

    pub open spec fn size(self) -> int {
        self.unp_size_high * 0x1_0000_0000 + self.unp_size
    }

    fn is_split(&self) -> (r: bool)
        ensures
            r == self.split(),
    {
        self.flags & (RHDF_SPLITBEFORE | RHDF_SPLITAFTER) != 0
    }

    fn is_encrypted(&self) -> (r: bool)
        ensures
            r == self.encrypted(),
    {
        self.flags & RHDF_ENCRYPTED != 0
    }

    pub fn is_special(&self) -> (r: bool)
        ensures
            r == self.special(),
    {
        self.flags & RHDF_DIRECTORY != 0 || self.redir_type != 0
    }

    /// The size of the decoded entry.
    pub fn header_size(&self) -> (r: u64)
        ensures
            r == self.size(),
    {
        self.unp_size_high as u64 * 0x1_0000_0000 + self.unp_size as u64
    }

    /// The name as the header has it.
    pub open spec fn raw_name(self, platform: Platform) -> Seq<char> {
        let wide = until_zero(self.filename_w@);
        if wide.len() == 0 {
            text::lossy_utf8(bytes_until_zero(self.filename@))
        } else if platform == Platform::Windows {
            text::utf16_text(wide.map_values(|u: u32| u as u16))
        } else {
            wide_text(wide)
        }
    }

    /// The path of the entry, with slashes.
    pub open spec fn entry_path(self, platform: Platform) -> Seq<char> {
        self.raw_name(platform).map_values(|c: char| if c == '\\' { '/' } else { c })
    }

    /// The path of the entry, with slashes.
    pub fn header_name(&self, platform: Platform) -> (r: String)
        ensures
            r@ == self.entry_path(platform),
    {
        let wide = prefix_until_zero(&self.filename_w);
        let name: Vec<char> = if wide.len() == 0 {
            let narrow = narrow_until_zero(&self.filename);
            chars_of(utf8_text_lossy(&narrow).as_str())
        } else {
            match platform {
                Platform::Windows => {
                    let mut units: Vec<u16> = Vec::new();
                    for i in 0..wide.len()
                        invariant
                            units@ =~= wide@.map_values(|u: u32| u as u16).take(i as int),
                    {
                        #[verifier::truncate]
                        let unit: u16 = wide[i] as u16;
                        units.push(unit);
                    }
                    assert(units@ =~= wide@.map_values(|u: u32| u as u16));
                    decode_utf16_lossy(&units)
                },
                _ => wide_characters(&wide),
            }
        };
        let ghost raw = name@;
        let mut path: Vec<char> = Vec::new();
        for i in 0..name.len()
            invariant
                path@ =~= name@.map_values(|c: char| if c == '\\' { '/' } else { c }).take(
                    i as int,
                ),
        {
            if name[i] == '\\' {
                path.push('/');
            } else {
                path.push(name[i]);
            }
        }
        assert(path@ =~= name@.map_values(|c: char| if c == '\\' { '/' } else { c }));
        string_of(&path)
    }
}

/// The numbers before the first zero.
pub open spec fn until_zero(v: Seq<u32>) -> Seq<u32>
    decreases v.len(),
{
    if v.len() == 0 || v[0] == 0 {
        Seq::empty()
    } else {
        seq![v[0]] + until_zero(v.drop_first())
    }
}

/// The bytes before the first zero.
pub open spec fn bytes_until_zero(v: Seq<u8>) -> Seq<u8>
    decreases v.len(),
{
    if v.len() == 0 || v[0] == 0 {
        Seq::empty()
    } else {
        seq![v[0]] + bytes_until_zero(v.drop_first())
    }
}

/// The characters among wide numbers; what is no character is left out.
pub open spec fn wide_text(v: Seq<u32>) -> Seq<char>
    decreases v.len(),
{
    if v.len() == 0 {
        Seq::empty()
    } else if v.last() <= 0xd7ff || 0xe000 <= v.last() <= 0x10ffff {
        wide_text(v.drop_last()).push(v.last() as char)
    } else {
        wide_text(v.drop_last())
    }
}

fn prefix_until_zero(v: &Vec<u32>) -> (r: Vec<u32>)
    ensures
        r@ == until_zero(v@),
{
    let mut r: Vec<u32> = Vec::new();
    let mut i: usize = 0;
    assert(v@.skip(0) =~= v@);
    while i < v.len() && v[i] != 0
        invariant
            i <= v@.len(),
            r@ + until_zero(v@.skip(i as int)) =~= until_zero(v@),
        decreases v@.len() - i,
    {
        assert(v@.skip(i as int).drop_first() =~= v@.skip(i + 1));
        r.push(v[i]);
        i = i + 1;
    }
    assert(until_zero(v@.skip(i as int)) =~= Seq::empty());
    r
}

fn narrow_until_zero(v: &Vec<u8>) -> (r: Vec<u8>)
    ensures
        r@ == bytes_until_zero(v@),
{
    let mut r: Vec<u8> = Vec::new();
    let mut i: usize = 0;
    assert(v@.skip(0) =~= v@);
    while i < v.len() && v[i] != 0
        invariant
            i <= v@.len(),
            r@ + bytes_until_zero(v@.skip(i as int)) =~= bytes_until_zero(v@),
        decreases v@.len() - i,
    {
        assert(v@.skip(i as int).drop_first() =~= v@.skip(i + 1));
        r.push(v[i]);
        i = i + 1;
    }
    assert(bytes_until_zero(v@.skip(i as int)) =~= Seq::empty());
    r
}

fn wide_characters(v: &Vec<u32>) -> (r: Vec<char>)
    ensures
        r@ == wide_text(v@),
{
    let mut r: Vec<char> = Vec::new();
    assert(v@.take(0) =~= Seq::empty());
    for i in 0..v.len()
        invariant
            r@ == wide_text(v@.take(i as int)),
    {
        assert(v@.take(i + 1).drop_last() =~= v@.take(i as int));
        match char::from_u32(v[i]) {
            Some(c) => r.push(c),
            None => {},
        }
    }
    assert(v@.take(v@.len() as int) =~= v@);
    r
}

/// A header that is listed: a file whose name stays inside the archive.
pub open spec fn listable(h: RarHeader, platform: Platform, limits: ArchiveLimits) -> bool {
    !h.special() && archive::safe_entry_name(h.entry_path(platform), limits.max_path_bytes as nat)
}

/// The listing behind `listed` after one more header.
pub open spec fn listing_step(
    listed: Seq<archive::EntryModel>,
    h: RarHeader,
    platform: Platform,
    limits: ArchiveLimits,
) -> Result<Seq<archive::EntryModel>, EntryError> {
    if h.split() {
        Err(EntryError::Split)
    } else if !listable(h, platform, limits) {
        Ok(listed)
    } else if listed.len() >= limits.max_entries {
        Err(EntryError::TooManyEntries)
    } else {
        Ok(
            listed.push(
                archive::entry_of(platform, h.entry_path(platform), h.size() as u64, h.encrypted()),
            ),
        )
    }
}

/// A listing keeps the bounds: no more entries than allowed, and only names
/// that stay inside the archive.
pub open spec fn within_bounds(listed: Seq<archive::EntryModel>, limits: ArchiveLimits) -> bool {
    &&& listed.len() <= limits.max_entries
    &&& forall|i: int|
        0 <= i < listed.len() ==> archive::safe_entry_name(
            (#[trigger] listed[i]).path,
            limits.max_path_bytes as nat,
        )
}

/// Whatever headers an archive has, its listing keeps the bounds, and
/// entries once listed stay.
pub proof fn listing_stays_within_bounds(
    listed: Seq<archive::EntryModel>,
    h: RarHeader,
    platform: Platform,
    limits: ArchiveLimits,
)
    requires
        within_bounds(listed, limits),
    ensures
        listing_step(listed, h, platform, limits) matches Ok(next) ==> within_bounds(next, limits)
            && listed.is_prefix_of(next),
{
}

/// Every file of an archive is listed whatever its size, by its name, with its
/// size and whether it is encrypted, as long as its name is safe and there is
/// room; directories, links and unsafe names are passed over.
pub proof fn file_of_a_rar_is_listed(
    listed: Seq<archive::EntryModel>,
    h: RarHeader,
    platform: Platform,
    limits: ArchiveLimits,
)
    requires
        h.flags % 4 == 0,
    ensures
        ({
            let name = h.entry_path(platform);
            let file = (h.flags / 32) % 2 == 0 && h.redir_type == 0 && archive::safe_entry_name(
                name,
                limits.max_path_bytes as nat,
            );
            let next = listing_step(listed, h, platform, limits);
            &&& !file ==> next == Ok::<Seq<archive::EntryModel>, EntryError>(listed)
            &&& file && listed.len() >= limits.max_entries ==> next == Err::<
                Seq<archive::EntryModel>,
                EntryError,
            >(EntryError::TooManyEntries)
            &&& file && listed.len() < limits.max_entries ==> {
                &&& next is Ok
                &&& next->Ok_0.drop_last() == listed
                &&& next->Ok_0.last().path == name
                &&& next->Ok_0.last().size == h.unp_size + 0x1_0000_0000 * h.unp_size_high
                &&& next->Ok_0.last().encrypted == ((h.flags / 4) % 2 == 1)
                &&& next->Ok_0.last().is_log == ((h.flags / 4) % 2 == 0 && archive::log_name(
                    platform,
                    name,
                ))
            }
        }),
{
    flags_are_bits(h.flags);
    let next = listing_step(listed, h, platform, limits);
    if next is Ok {
        let entry = archive::entry_of(
            platform,
            h.entry_path(platform),
            h.size() as u64,
            h.encrypted(),
        );
        assert(listed.push(entry).drop_last() =~= listed);
    }
}

/// One part of a multi-volume archive ends the listing.
pub proof fn split_file_ends_the_listing(
    listed: Seq<archive::EntryModel>,
    h: RarHeader,
    platform: Platform,
    limits: ArchiveLimits,
)
    requires
        h.flags % 4 != 0,
    ensures
        listing_step(listed, h, platform, limits) == Err::<Seq<archive::EntryModel>, EntryError>(
            EntryError::Split,
        ),
{
    flags_are_bits(h.flags);
}

proof fn flags_are_bits(flags: u32)
    ensures
        (flags & (RHDF_SPLITBEFORE | RHDF_SPLITAFTER) != 0) == (flags % 4 != 0),
        (flags & RHDF_ENCRYPTED != 0) == ((flags / 4) % 2 == 1),
        (flags & RHDF_DIRECTORY != 0) == ((flags / 32) % 2 == 1),
{
    assert((flags & (0x1u32 | 0x2u32) != 0) == (flags % 4 != 0)) by (bit_vector);
    assert((flags & 0x4u32 != 0) == ((flags / 4) % 2 == 1)) by (bit_vector);
    assert((flags & 0x20u32 != 0) == ((flags / 32) % 2 == 1)) by (bit_vector);
}

/// A name in wide characters, ended by zero, is the name of the entry, with
/// slashes for backslashes; what follows the zero does not matter.
pub proof fn wide_name_reads_back(
    h: RarHeader,
    platform: Platform,
    name: Seq<char>,
    after: Seq<u32>,
)
    requires
        name.len() > 0,
        !name.contains('\0'),
        h.filename_w@ == if platform == Platform::Windows {
            text::utf16_units(name).map_values(|u: u16| u as u32)
        } else {
            name.map_values(|c: char| c as u32)
        } + seq![0u32] + after,
    ensures
        h.entry_path(platform) == name.map_values(|c: char| if c == '\\' { '/' } else { c }),
{
    if platform == Platform::Windows {
        let units = text::utf16_units(name);
        let wide = units.map_values(|u: u16| u as u32);
        text::units_of_text(name);
        assert forall|i: int| 0 <= i < wide.len() implies #[trigger] wide[i] != 0 by {
            assert(units[i] != 0);
        }
        zero_ends(wide, after);
        assert(wide.map_values(|u: u32| u as u16) =~= units);
        text::utf16_reads_back(name);
    } else {
        let wide = name.map_values(|c: char| c as u32);
        assert forall|i: int| 0 <= i < wide.len() implies #[trigger] wide[i] != 0 by {
            assert(name.contains(name[i]));
            text::character_has_a_number(name[i]);
        }
        zero_ends(wide, after);
        wide_characters_read_back(name);
    }
}

/// Without a wide name the bytes before the first zero are the name, read as
/// UTF-8, with slashes for backslashes; what follows the zero does not matter.
pub proof fn narrow_name_ends_at_zero(
    h: RarHeader,
    platform: Platform,
    name: Seq<u8>,
    after: Seq<u8>,
)
    requires
        h.filename_w@.len() == 0 || h.filename_w@[0] == 0,
        forall|i: int| 0 <= i < name.len() ==> #[trigger] name[i] != 0,
        h.filename@ == name + seq![0u8] + after || h.filename@ == name,
    ensures
        h.entry_path(platform) == text::lossy_utf8(name).map_values(
            |c: char| if c == '\\' { '/' } else { c },
        ),
{
    bytes_end_at_zero(name, after);
}

proof fn bytes_end_at_zero(v: Seq<u8>, after: Seq<u8>)
    requires
        forall|i: int| 0 <= i < v.len() ==> #[trigger] v[i] != 0,
    ensures
        bytes_until_zero(v + seq![0u8] + after) == v,
        bytes_until_zero(v) == v,
    decreases v.len(),
{
    let all = v + seq![0u8] + after;
    if v.len() > 0 {
        let rest = v.drop_first();
        assert forall|i: int| 0 <= i < rest.len() implies #[trigger] rest[i] != 0 by {
            assert(rest[i] == v[i + 1]);
        }
        bytes_end_at_zero(rest, after);
        assert(all[0] == v[0]);
        assert(all.drop_first() =~= rest + seq![0u8] + after);
    } else {
        assert(all[0] == 0);
    }
    assert(bytes_until_zero(all) =~= v);
    assert(bytes_until_zero(v) =~= v);
}

proof fn zero_ends(v: Seq<u32>, after: Seq<u32>)
    requires
        forall|i: int| 0 <= i < v.len() ==> #[trigger] v[i] != 0,
    ensures
        until_zero(v + seq![0u32] + after) == v,
    decreases v.len(),
{
    let all = v + seq![0u32] + after;
    if v.len() > 0 {
        let rest = v.drop_first();
        assert forall|i: int| 0 <= i < rest.len() implies #[trigger] rest[i] != 0 by {
            assert(rest[i] == v[i + 1]);
        }
        zero_ends(rest, after);
        assert(all[0] == v[0]);
        assert(all.drop_first() =~= rest + seq![0u32] + after);
        assert(until_zero(all) =~= v);
    } else {
        assert(all[0] == 0);
        assert(until_zero(all) =~= v);
    }
}

proof fn wide_characters_read_back(name: Seq<char>)
    ensures
        wide_text(name.map_values(|c: char| c as u32)) == name,
    decreases name.len(),
{
    let wide = name.map_values(|c: char| c as u32);
    if name.len() > 0 {
        wide_characters_read_back(name.drop_last());
        assert(wide.drop_last() =~= name.drop_last().map_values(|c: char| c as u32));
        text::character_has_a_number(name.last());
        assert(wide_text(wide) =~= name);
    } else {
        assert(wide_text(wide) =~= name);
    }
}

/// A RAR archive that is being listed.
pub struct RarArchiveReader {
    limits: ArchiveLimits,
    listed: Vec<ArchiveEntry>,
}

impl RarArchiveReader {
    pub closed spec fn bounds(self) -> ArchiveLimits {
        self.limits
    }

    /// What has been listed so far.
    pub closed spec fn listing(self) -> Seq<archive::EntryModel> {
        archive::entry_models(self.listed@)
    }

    /// Only a file can be an archive.
    pub fn open_with_limits(is_file: bool, limits: ArchiveLimits) -> (r: Result<Self, EntryError>)
        ensures
            !is_file ==> r is Err && r->Err_0 == EntryError::NotFound,
            is_file ==> r is Ok && r->Ok_0.bounds() == limits && r->Ok_0.listing() == Seq::<
                archive::EntryModel,
            >::empty(),
    {
        if !is_file {
            return Err(EntryError::NotFound);
        }
        let r = RarArchiveReader { limits, listed: Vec::new() };
        assert(r.listing() =~= Seq::empty());
        Ok(r)
    }

    /// Takes the next header of the archive.
    pub fn read_header(&mut self, header: &RarHeader, platform: Platform) -> (r: Result<
        (),
        EntryError,
    >)
        ensures
            final(self).bounds() == old(self).bounds(),
            match listing_step(old(self).listing(), *header, platform, old(self).bounds()) {
                Ok(listing) => r is Ok && final(self).listing() == listing,
                Err(e) => r == Err::<(), EntryError>(e) && final(self).listing() == old(
                    self,
                ).listing(),
            },
    {
        if header.is_split() {
            return Err(EntryError::Split);
        }
        let name = header.header_name(platform);
        if header.is_special() || !is_safe_entry_name(name.as_str(), self.limits.max_path_bytes) {
            return Ok(());
        }
        if self.listed.len() >= self.limits.max_entries {
            return Err(EntryError::TooManyEntries);
        }
        let ghost before = self.listed@;
        self.listed.push(
            ArchiveEntry::new(platform, name, header.header_size(), header.is_encrypted()),
        );
        assert(self.listing() =~= archive::entry_models(before).push(self.listed@.last()@));
        Ok(())
    }

    /// The complete listing.
    pub fn entries(self) -> (r: Vec<ArchiveEntry>)
        ensures
            archive::entry_models(r@) == self.listing(),
    {
        self.listed
    }
}

/// What to do with a header while an entry is looked for.
#[derive(Debug, Clone, Copy, PartialEq, Eq, Structural)]
pub enum StreamStep {
    Skip,
    /// This is the entry: decode it.
    Decode,
}

/// Whether a header is the entry looked for, and can be decoded.
pub fn stream_entry(header: &RarHeader, platform: Platform, target: &str) -> (r: Result<
    StreamStep,
    EntryError,
>)
    ensures
        r == if header.entry_path(platform) != target@ {
            Ok::<StreamStep, EntryError>(StreamStep::Skip)
        } else if header.encrypted() {
            Err(EntryError::Encrypted)
        } else if header.split() {
            Err(EntryError::Split)
        } else if header.special() {
            Err(EntryError::Special)
        } else {
            Ok(StreamStep::Decode)
        },
{
    let name = header.header_name(platform);
    if !same_text(name.as_str(), target) {
        Ok(StreamStep::Skip)
    } else if header.is_encrypted() {
        Err(EntryError::Encrypted)
    } else if header.is_split() {
        Err(EntryError::Split)
    } else if header.is_special() {
        Err(EntryError::Special)
    } else {
        Ok(StreamStep::Decode)
    }
}

/// How much has been decoded once a block of `length` bytes has come.
pub open spec fn decoded_after(decoded: u64, length: int) -> u64 {
    if decoded + length > u64::MAX {
        u64::MAX
    } else {
        (decoded + length) as u64
    }
}

/// Counts a decoded block; more than `max_decoded_bytes` is refused.
pub fn count_decoded(decoded: u64, length: i64, max_decoded_bytes: u64) -> (r: Result<
    u64,
    EntryError,
>)
    ensures
        r == if length < 0 {
            Err::<u64, EntryError>(EntryError::InvalidBlock)
        } else if decoded_after(decoded, length as int) > max_decoded_bytes {
            Err(EntryError::TooLarge)
        } else {
            Ok(decoded_after(decoded, length as int))
        },
{
    if length < 0 {
        return Err(EntryError::InvalidBlock);
    }
    let total: u64 = decoded.saturating_add(length as u64);
    if total > max_decoded_bytes {
        Err(EntryError::TooLarge)
    } else {
        Ok(total)
    }
}

/// Decoded blocks add up exactly, as long as their sum can be counted.
pub proof fn decoded_blocks_add_up(decoded: u64, length: int)
    requires
        0 <= length,
    ensures
        decoded + length <= u64::MAX ==> decoded_after(decoded, length) == decoded + length,
        decoded + length > u64::MAX ==> decoded_after(decoded, length) == u64::MAX,
{
}

} // verus!
