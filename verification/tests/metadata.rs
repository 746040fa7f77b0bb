use dust_platform::unix::{self, can_measure, get_block_size, Stat};
use dust_platform::windows::{self, needs_open, EntryMetadata, FileInformation};

fn stat(len: u64, blksize: u64, blocks: u64) -> Stat {
    Stat {
        len,
        ino: 11,
        dev: 22,
        mtime: -1,
        atime: 2,
        ctime: 3,
        blksize,
        blocks,
    }
}

fn size(len: u64, blksize: u64, blocks: u64) -> u64 {
    let md = stat(len, blksize, blocks);
    assert!(can_measure(&md));
    unix::get_metadata(Some(md), false).unwrap().0
}

#[test]
fn a_block_has_512_bytes() {
    assert_eq!(get_block_size(), 512);
}

#[test]
fn the_apparent_size_is_the_length() {
    let told = unix::get_metadata(Some(stat(1000, 0, u64::MAX)), true);
    assert_eq!(told, Some((1000, Some((11, 22)), (-1, 2, 3))));
}

#[test]
fn the_allocated_size_is_the_reported_one() {
    let told = unix::get_metadata(Some(stat(1000, 4096, 8)), false);
    assert_eq!(told, Some((4096, Some((11, 22)), (-1, 2, 3))));
    assert_eq!(size(1_000_000, 4096, 0), 0);
    assert_eq!(size(0, 4096, 8), 4096);
}

#[test]
fn a_reported_size_that_is_too_large_is_not_believed() {
    // The file takes one block of 4096 bytes, and 65536 more may be allocated.
    let most = (4096 + 4096 * 65536) / 512;
    assert_eq!(size(1000, 4096, most), 4096 + 4096 * 65536);
    assert_eq!(size(1000, 4096, most + 1), 4096);
    assert_eq!(size(4096, 4096, most + 1), 4096);
    assert_eq!(size(4097, 4096, most + 1), 512 * (most + 1));
    assert_eq!(size(4097, 4096, most + 9), 8192);
    assert_eq!(size(0, 4096, u64::MAX / 512), 0);
}

#[test]
fn no_report_tells_nothing() {
    assert_eq!(unix::get_metadata(None, true), None);
    assert_eq!(unix::get_metadata(None, false), None);
}

#[test]
fn sizes_that_do_not_fit_cannot_be_measured() {
    assert!(can_measure(&stat(1000, 1, 8)));
    assert!(!can_measure(&stat(1000, 0, 8)));
    assert!(can_measure(&stat(1000, 4096, u64::MAX / 512)));
    assert!(!can_measure(&stat(1000, 4096, u64::MAX / 512 + 1)));
    assert!(!can_measure(&stat(u64::MAX, 4096, 8)));
    assert!(!can_measure(&stat(0, 1 << 48, 8)));
    assert!(can_measure(&stat(0, (1 << 48) - 1, 8)));
    assert!(can_measure(&stat(u64::MAX - 65536, 1, 8)));
    assert!(!can_measure(&stat(u64::MAX - 65535, 1, 8)));
}

fn entry(file_attributes: u32) -> Option<EntryMetadata> {
    Some(EntryMetadata {
        len: 100,
        file_attributes,
        last_write_time: 1,
        last_access_time: u64::MAX,
        creation_time: 1 << 63,
    })
}

fn information() -> Option<FileInformation> {
    Some(FileInformation {
        file_size: 200,
        file_index: 7,
        volume_serial_number: 8,
        last_write_time: Some(4),
        last_access_time: Some(5),
        creation_time: Some(u64::MAX - 1),
    })
}

#[test]
fn plain_files_are_not_opened() {
    for attributes in [0x20, 0x10, 0x80, 0x21, 0x27, 0x16, 0x820, 0xa0] {
        assert!(!needs_open(&entry(attributes), false), "{:x}", attributes);
        assert!(!needs_open(&entry(attributes), true), "{:x}", attributes);
        let told = windows::get_metadata(entry(attributes), true, None, None);
        assert_eq!(told, Some((100, None, (1, -1, i64::MIN))));
    }
}

#[test]
fn other_files_are_opened() {
    for attributes in [0x0, 0x1, 0x81, 0x82, 0x200, 0x400, 0x880] {
        assert!(needs_open(&entry(attributes), false), "{:x}", attributes);
        assert!(needs_open(&entry(attributes), true), "{:x}", attributes);
    }
    assert!(needs_open(&None, false));
    assert!(needs_open(&None, true));
}

#[test]
fn files_kept_elsewhere_are_opened_for_their_apparent_size() {
    for flag in [0x200, 0x1000, 0x40000, 0x80000, 0x100000, 0x400000] {
        assert!(needs_open(&entry(0x20 | flag), true), "{:x}", flag);
        assert!(!needs_open(&entry(0x20 | flag), false), "{:x}", flag);
    }
}

#[test]
fn hidden_read_only_and_system_make_no_difference() {
    for attributes in 0..0x1000u32 {
        if attributes != 0x80 {
            for extra in 0..8u32 {
                for apparent in [false, true] {
                    assert_eq!(
                        needs_open(&entry(attributes | extra), apparent),
                        needs_open(&entry(attributes), apparent)
                    );
                }
            }
        }
    }
    assert!(!needs_open(&entry(0x80), true));
    assert!(needs_open(&entry(0x82), true));
}

#[test]
fn an_open_file_is_identified() {
    let told = windows::get_metadata(entry(0), false, information(), None);
    assert_eq!(told, Some((200, Some((7, 8)), (4, 5, -2))));
    let told = windows::get_metadata(entry(0), true, information(), Some(300));
    assert_eq!(told, Some((300, Some((7, 8)), (4, 5, -2))));
    let told = windows::get_metadata(None, true, information(), Some(300));
    assert_eq!(told, Some((300, Some((7, 8)), (4, 5, -2))));
}

#[test]
fn a_file_that_cannot_be_opened_tells_nothing() {
    assert_eq!(windows::get_metadata(None, false, None, None), None);
    assert_eq!(windows::get_metadata(entry(0), true, None, Some(300)), None);
    assert_eq!(windows::get_metadata(entry(0), true, information(), None), None);
    assert_eq!(windows::get_metadata_expensive(information(), None, true), None);
}

#[test]
fn times_are_needed_where_something_is_told() {
    let mut info = information().unwrap();
    assert!(windows::has_times(&Some(info), None, false));
    info.last_access_time = None;
    assert!(!windows::has_times(&Some(info), None, false));
    assert!(!windows::has_times(&Some(info), Some(1), true));
    assert!(windows::has_times(&Some(info), None, true));
    assert!(windows::has_times(&None, None, false));
}
