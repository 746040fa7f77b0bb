//! File sizes on Windows.
//!
//! Opening a file to ask for its size and its identity is expensive: it takes system calls, and
//! can have the file scanned. For plain files the size that comes with the directory entry does
//! as well, and the file is not opened. Such a file is not identified, so that one with several
//! hard links counts once for each.

use vstd::prelude::*;
use crate::metadata::{FileTime, InodeAndDevice};

verus! {

pub const FILE_ATTRIBUTE_READONLY: u32 = 0x01;

pub const FILE_ATTRIBUTE_HIDDEN: u32 = 0x02;

pub const FILE_ATTRIBUTE_SYSTEM: u32 = 0x04;

pub const FILE_ATTRIBUTE_DIRECTORY: u32 = 0x10;

pub const FILE_ATTRIBUTE_ARCHIVE: u32 = 0x20;

pub const FILE_ATTRIBUTE_NORMAL: u32 = 0x80;

pub const FILE_ATTRIBUTE_SPARSE_FILE: u32 = 0x00000200;

pub const FILE_ATTRIBUTE_OFFLINE: u32 = 0x00001000;

pub const FILE_ATTRIBUTE_RECALL_ON_OPEN: u32 = 0x00040000;

pub const FILE_ATTRIBUTE_PINNED: u32 = 0x00080000;

pub const FILE_ATTRIBUTE_UNPINNED: u32 = 0x00100000;

pub const FILE_ATTRIBUTE_RECALL_ON_DATA_ACCESS: u32 = 0x00400000;

/// Any of these tells that the content of a file may be kept elsewhere. The first would be
/// enough, but Windows sometimes masks it out.
pub const IS_PROBABLY_ONEDRIVE: u32 = FILE_ATTRIBUTE_SPARSE_FILE | FILE_ATTRIBUTE_PINNED
    | FILE_ATTRIBUTE_UNPINNED | FILE_ATTRIBUTE_RECALL_ON_OPEN
    | FILE_ATTRIBUTE_RECALL_ON_DATA_ACCESS | FILE_ATTRIBUTE_OFFLINE;

/// What the directory entry tells of a file.
#[derive(Clone, Copy, Debug, PartialEq, Eq)]
pub struct EntryMetadata {
    /// The length of the file in bytes.
    pub len: u64,
    /// The attributes of the file, one bit each.
    pub file_attributes: u32,
    /// When the file was last written.
    pub last_write_time: u64,
    /// When the file was last read.
    pub last_access_time: u64,
    /// When the file was created.
    pub creation_time: u64,
}

/// What the system tells of an open file.
#[derive(Clone, Copy, Debug, PartialEq, Eq)]
pub struct FileInformation {
    /// The length of the file in bytes.
    pub file_size: u64,
    /// The number of the file on its volume.
    pub file_index: u64,
    /// The number of the volume.
    pub volume_serial_number: u64,
    /// When the file was last written, if that is known.
    pub last_write_time: Option<u64>,
    /// When the file was last read, if that is known.
    pub last_access_time: Option<u64>,
    /// When the file was created, if that is known.
    pub creation_time: Option<u64>,
}

/// The attributes have one of those in `flags`.
pub open spec fn has_any(attributes: u32, flags: u32) -> bool {
    attributes & flags != 0
}

/// The size in the directory entry does: the file is a plain file or a directory, and, where
/// what it occupies is asked for, is not one whose content may be kept elsewhere.
pub open spec fn entry_suffices(attributes: u32, use_apparent_size: bool) -> bool {
    &&& {
        ||| has_any(attributes, FILE_ATTRIBUTE_ARCHIVE)
        ||| has_any(attributes, FILE_ATTRIBUTE_DIRECTORY)
        ||| attributes == FILE_ATTRIBUTE_NORMAL
    }
    &&& !(use_apparent_size && has_any(attributes, IS_PROBABLY_ONEDRIVE))
}

/// The file is to be opened: what the directory entry tells does not do, or is not known.
pub open spec fn must_open(entry: Option<EntryMetadata>, use_apparent_size: bool) -> bool {
    match entry {
        Some(md) => !entry_suffices(md.file_attributes, use_apparent_size),
        None => true,
    }
}

/// The number that the bits of `x` write when the first of them is a sign.
pub open spec fn signed(x: u64) -> int {
    if x < 0x8000_0000_0000_0000 {
        x as int
    } else {
        x - 0x1_0000_0000_0000_0000
    }
}

/// All times of the file are known.
pub open spec fn times_known(information: FileInformation) -> bool {
    &&& information.last_write_time is Some
    &&& information.last_access_time is Some
    &&& information.creation_time is Some
}

/// The size that is told of a file that was opened, if it is known.
pub open spec fn opened_size(
    information: FileInformation,
    size_on_disk: Option<u64>,
    use_apparent_size: bool,
) -> Option<u64> {
    if use_apparent_size {
        size_on_disk
    } else {
        Some(information.file_size)
    }
}

/// What can be told of an open file has its times.
pub open spec fn can_tell(
    information: Option<FileInformation>,
    size_on_disk: Option<u64>,
    use_apparent_size: bool,
) -> bool {
    information matches Some(info) ==> opened_size(info, size_on_disk, use_apparent_size) is Some
        ==> times_known(info)
}

/// What is told of a file that was opened: nothing if it could not be, or if its size is not
/// known.
pub open spec fn tells_opened(
    told: Option<(u64, Option<InodeAndDevice>, FileTime)>,
    information: Option<FileInformation>,
    size_on_disk: Option<u64>,
    use_apparent_size: bool,
) -> bool {
    match information {
        Some(info) => match opened_size(info, size_on_disk, use_apparent_size) {
            Some(size) => {
                &&& told matches Some((told_size, id, times))
                &&& told_size == size
                &&& id == Some((info.file_index, info.volume_serial_number))
                &&& times.0 == signed(info.last_write_time->0)
                &&& times.1 == signed(info.last_access_time->0)
                &&& times.2 == signed(info.creation_time->0)
            },
            None => told is None,
        },
        None => told is None,
    }
}

/// What is told of a file by its directory entry alone.
pub open spec fn tells_entry(
    told: Option<(u64, Option<InodeAndDevice>, FileTime)>,
    entry: EntryMetadata,
) -> bool {
    &&& told matches Some((size, id, times))
    &&& size == entry.len
    &&& id is None
    &&& times.0 == signed(entry.last_write_time)
    &&& times.1 == signed(entry.last_access_time)
    &&& times.2 == signed(entry.creation_time)
}

/// That a file is hidden, read-only or a system file makes no difference to whether it is to be
/// opened, unless it has no other attribute but being normal.
pub proof fn lemma_filtered_attributes(attributes: u32, extra: u32, use_apparent_size: bool)
    requires
        extra & !(FILE_ATTRIBUTE_HIDDEN | FILE_ATTRIBUTE_READONLY | FILE_ATTRIBUTE_SYSTEM) == 0,
        attributes != FILE_ATTRIBUTE_NORMAL,
    ensures
        entry_suffices(attributes | extra, use_apparent_size) == entry_suffices(
            attributes,
            use_apparent_size,
        ),
{
    assert((attributes | extra) & FILE_ATTRIBUTE_ARCHIVE == attributes & FILE_ATTRIBUTE_ARCHIVE
        && (attributes | extra) & FILE_ATTRIBUTE_DIRECTORY == attributes
        & FILE_ATTRIBUTE_DIRECTORY && (attributes | extra) & IS_PROBABLY_ONEDRIVE == attributes
        & IS_PROBABLY_ONEDRIVE && (attributes | extra) != FILE_ATTRIBUTE_NORMAL) by (bit_vector)
        requires
            extra & !(FILE_ATTRIBUTE_HIDDEN | FILE_ATTRIBUTE_READONLY | FILE_ATTRIBUTE_SYSTEM)
                == 0,
            attributes != FILE_ATTRIBUTE_NORMAL,
    ;
}

/// A directory entry does for a file with the archive or the directory attribute, and for one
/// that is normal and nothing else; for no other file it does. Where what the file occupies is
/// asked for, none of the attributes of a file that is kept elsewhere may be there.
pub proof fn lemma_entry_suffices(attributes: u32)
    ensures
        attributes & 0x20 != 0 ==> entry_suffices(attributes, false),
        attributes & 0x10 != 0 ==> entry_suffices(attributes, false),
        attributes == 0x80 ==> entry_suffices(attributes, false),
        attributes & 0x20 == 0 && attributes & 0x10 == 0 && attributes != 0x80 ==> !entry_suffices(
            attributes,
            false,
        ),
        entry_suffices(attributes, true) <==> {
            &&& entry_suffices(attributes, false)
            &&& attributes & 0x200 == 0
            &&& attributes & 0x1000 == 0
            &&& attributes & 0x40000 == 0
            &&& attributes & 0x80000 == 0
            &&& attributes & 0x100000 == 0
            &&& attributes & 0x400000 == 0
        },
{
    assert(attributes & IS_PROBABLY_ONEDRIVE == 0 <==> attributes & 0x200 == 0 && attributes & 0x1000
        == 0 && attributes & 0x40000 == 0 && attributes & 0x80000 == 0 && attributes & 0x100000 == 0
        && attributes & 0x400000 == 0) by (bit_vector);
}

/// A file is opened if nothing is known of it, or if its directory entry does not do.
pub proof fn lemma_must_open(entry: EntryMetadata, use_apparent_size: bool)
    ensures
        must_open(None, use_apparent_size),
        must_open(Some(entry), use_apparent_size) <==> !entry_suffices(
            entry.file_attributes,
            use_apparent_size,
        ),
{
}

/// The signed number is the one in the range of 64 bits that differs from the unsigned one by
/// nothing or by two to the power of 64.
pub proof fn lemma_signed(x: u64)
    ensures
        -0x8000_0000_0000_0000 <= signed(x) < 0x8000_0000_0000_0000,
        signed(x) == x || signed(x) == x - 0x1_0000_0000_0000_0000,
{
}

/// What is told of a file by its directory entry is its length there and its times, and nothing
/// that identifies it.
pub proof fn lemma_told_by_entry(
    told: Option<(u64, Option<InodeAndDevice>, FileTime)>,
    entry: EntryMetadata,
)
    requires
        tells_entry(told, entry),
    ensures
        told matches Some((size, id, times)) && {
            &&& size == entry.len
            &&& id is None
            &&& times.0 == signed(entry.last_write_time)
            &&& times.1 == signed(entry.last_access_time)
            &&& times.2 == signed(entry.creation_time)
        },
{
}

/// What is told of an open file identifies it and has its times, whichever size is asked for.
/// Nothing is told of a file that could not be opened, or whose size on disk is asked for and not
/// known.
pub proof fn lemma_told_of_opened(
    told: Option<(u64, Option<InodeAndDevice>, FileTime)>,
    information: FileInformation,
    size_on_disk: Option<u64>,
    use_apparent_size: bool,
)
    ensures
        tells_opened(told, None, size_on_disk, use_apparent_size) ==> told is None,
        tells_opened(told, Some(information), None, true) ==> told is None,
        tells_opened(told, Some(information), size_on_disk, use_apparent_size) && (size_on_disk is Some
            || !use_apparent_size) ==> (told matches Some((size, id, times)) && {
            &&& id == Some((information.file_index, information.volume_serial_number))
            &&& information.last_write_time matches Some(t) ==> times.0 == signed(t)
            &&& information.last_access_time matches Some(t) ==> times.1 == signed(t)
            &&& information.creation_time matches Some(t) ==> times.2 == signed(t)
        }),
{
}

/// Where the apparent size is asked for, the size that is told of an open file is its size on
/// disk, however long it is: two files that occupy the same are told the same size, also if
/// their lengths differ. Where it is not, the size is the length, whatever the file occupies.
pub proof fn lemma_size_of_opened(
    told: Option<(u64, Option<InodeAndDevice>, FileTime)>,
    other: Option<(u64, Option<InodeAndDevice>, FileTime)>,
    information: FileInformation,
    other_information: FileInformation,
    size_on_disk: u64,
    other_size_on_disk: Option<u64>,
)
    ensures
        tells_opened(told, Some(information), Some(size_on_disk), true) ==> (told matches Some(t)
            && t.0 == size_on_disk),
        tells_opened(told, Some(information), other_size_on_disk, false) ==> (told matches Some(t)
            && t.0 == information.file_size),
        tells_opened(told, Some(information), Some(size_on_disk), true) && tells_opened(
            other,
            Some(other_information),
            Some(size_on_disk),
            true,
        ) ==> told is Some && other is Some && (told->0).0 == (other->0).0,
        tells_opened(told, Some(information), Some(size_on_disk), false) && tells_opened(
            other,
            Some(other_information),
            other_size_on_disk,
            false,
        ) && information.file_size == other_information.file_size ==> told is Some && other is Some
            && (told->0).0 == (other->0).0,
{
}

/// Of a file that could not be opened, or whose size on disk is asked for and not known, it can be
/// told that there is nothing to tell; of any other, what is told can be told if and only if all
/// of its times are known.
pub proof fn lemma_can_tell(
    information: FileInformation,
    size_on_disk: Option<u64>,
    use_apparent_size: bool,
)
    ensures
        can_tell(None, size_on_disk, use_apparent_size),
        can_tell(Some(information), None, true),
        size_on_disk is Some || !use_apparent_size ==> (can_tell(
            Some(information),
            size_on_disk,
            use_apparent_size,
        ) <==> information.last_write_time is Some && information.last_access_time is Some
            && information.creation_time is Some),
{
}

/// The bits of `x`, the first of them as a sign.
fn as_signed(x: u64) -> (number: i64)
    ensures
        number == signed(x),
{
    assert(x < 0x8000_0000_0000_0000 ==> x as i64 == x) by (bit_vector);
    assert(x >= 0x8000_0000_0000_0000 ==> x as i64 == x - 0x1_0000_0000_0000_0000) by (bit_vector);
    x as i64
}

/// The file is to be opened before [`get_metadata`] can tell of it.
pub fn needs_open(entry: &Option<EntryMetadata>, use_apparent_size: bool) -> (needs: bool)
    ensures
        needs == must_open(*entry, use_apparent_size),
{
    match entry {
        Some(md) => {
            let attributes = md.file_attributes;
            let attr_filtered = attributes & !(FILE_ATTRIBUTE_HIDDEN | FILE_ATTRIBUTE_READONLY
                | FILE_ATTRIBUTE_SYSTEM);
            assert(attr_filtered & FILE_ATTRIBUTE_ARCHIVE == attributes & FILE_ATTRIBUTE_ARCHIVE
                && attr_filtered & FILE_ATTRIBUTE_DIRECTORY == attributes
                & FILE_ATTRIBUTE_DIRECTORY && attr_filtered & IS_PROBABLY_ONEDRIVE == attributes
                & IS_PROBABLY_ONEDRIVE) by (bit_vector)
                requires
                    attr_filtered == attributes & !(FILE_ATTRIBUTE_HIDDEN
                        | FILE_ATTRIBUTE_READONLY | FILE_ATTRIBUTE_SYSTEM),
            ;
            let plain = (attr_filtered & FILE_ATTRIBUTE_ARCHIVE) != 0 || (attr_filtered
                & FILE_ATTRIBUTE_DIRECTORY) != 0 || attributes == FILE_ATTRIBUTE_NORMAL;
            let elsewhere = (attr_filtered & IS_PROBABLY_ONEDRIVE) != 0;
            !(plain && !(elsewhere && use_apparent_size))
        },
        None => true,
    }
}

/// What is told of an open file can be told: its times are known, or nothing is told of it.
pub fn has_times(
    information: &Option<FileInformation>,
    size_on_disk: Option<u64>,
    use_apparent_size: bool,
) -> (has: bool)
    ensures
        has == can_tell(*information, size_on_disk, use_apparent_size),
{
    match information {
        Some(info) => (use_apparent_size && size_on_disk.is_none()) || (
        info.last_write_time.is_some() && info.last_access_time.is_some()
            && info.creation_time.is_some()),
        None => true,
    }
}

/// The size, the identity and the times of a file that was opened, from what the system tells of
/// it, which is nothing if it could not be opened. The size is what the file occupies on disk if
/// `use_apparent_size`, or else its length.
pub fn get_metadata_expensive(
    information: Option<FileInformation>,
    size_on_disk: Option<u64>,
    use_apparent_size: bool,
) -> (told: Option<(u64, Option<InodeAndDevice>, FileTime)>)
    requires
        can_tell(information, size_on_disk, use_apparent_size),
    ensures
        tells_opened(told, information, size_on_disk, use_apparent_size),
{
    let info = match information {
        Some(info) => info,
        None => {
            return None;
        },
    };
    let size = if use_apparent_size {
        match size_on_disk {
            Some(size) => size,
            None => {
                return None;
            },
        }
    } else {
        info.file_size
    };
    Some(
        (
            size,
            Some((info.file_index, info.volume_serial_number)),
            (
                as_signed(info.last_write_time.unwrap()),
                as_signed(info.last_access_time.unwrap()),
                as_signed(info.creation_time.unwrap()),
            ),
        ),
    )
}

/// The size, the identity and the times of a file, from its directory entry where that does, or
/// else from what the system tells of the open file. A file that is not opened is not
/// identified.
pub fn get_metadata(
    entry: Option<EntryMetadata>,
    use_apparent_size: bool,
    information: Option<FileInformation>,
    size_on_disk: Option<u64>,
) -> (told: Option<(u64, Option<InodeAndDevice>, FileTime)>)
    requires
        must_open(entry, use_apparent_size) ==> can_tell(
            information,
            size_on_disk,
            use_apparent_size,
        ),
    ensures
        must_open(entry, use_apparent_size) ==> tells_opened(
            told,
            information,
            size_on_disk,
            use_apparent_size,
        ),
        !must_open(entry, use_apparent_size) ==> tells_entry(told, entry->0),
{
    if needs_open(&entry, use_apparent_size) {
        return get_metadata_expensive(information, size_on_disk, use_apparent_size);
    }
    match entry {
        Some(md) => Some(
            (
                md.len,
                None,
                (
                    as_signed(md.last_write_time),
                    as_signed(md.last_access_time),
                    as_signed(md.creation_time),
                ),
            ),
        ),
        None => None,
    }
}

} // verus!
