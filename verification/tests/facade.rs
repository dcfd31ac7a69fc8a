use pdpfs::block::flat::Flat;
use pdpfs::block::img::IMG;
use pdpfs::block::{BlockDevice, Geometry};
use pdpfs::date::Date;
use pdpfs::error::Error;
use pdpfs::fs::rt11::home::HomeBlock;
use pdpfs::fs::rt11::volume::RT11FS;
use pdpfs::fs::rt11::{DirEntry as Rt11Entry, DirSegment, EntryKind};
use pdpfs::fs::xxdp::volume::XxdpFs;
use pdpfs::fs::xxdp::{BitmapBlock, DirEntry as XxdpEntry, Mfd, MfdVariantOne, MfdVariantTwo};
use pdpfs::fs::{block_bytes, DirEntry, FileSystem, Timestamp};

fn test_dev(blocks: usize) -> Flat<IMG> {
    Flat(IMG::from_vec(
        vec![0; 512 * blocks],
        Geometry { cylinders: 1, heads: 1, sectors: blocks, sector_size: 512 },
    ))
}

fn exercise<F: FileSystem>(fs: &mut F, total: usize) {
    assert_eq!(fs.used_blocks() + fs.free_blocks(), total);
    fs.write_file("ONE.TXT", b"one").expect("write");
    fs.write_file("TWO.TXT", b"two").expect("write");
    assert_eq!(fs.read_dir("/").expect("read_dir").len(), 2);
    assert!(fs.dir_iter("/").expect("dir_iter").len() > 2);
    assert!(matches!(fs.read_dir("/bin"), Err(Error::BadPath)));
    let entry = fs.stat("ONE.TXT").expect("stat");
    assert_eq!(entry.file_name(), "ONE.TXT");
    assert_eq!(entry.path(), "ONE.TXT");
    assert!(entry.is_file() && !entry.is_dir() && !entry.is_symlink() && !entry.readonly());
    assert_eq!((entry.blocks(), entry.len()), (1, 512));
    assert!(matches!(entry.created(), Ok(Timestamp::Date(_))));
    assert_eq!(entry.modified(), Err(Error::Unsupported));
    assert_eq!(entry.accessed(), Err(Error::Unsupported));
    assert!(fs.stat("NONE.TXT").is_none());
    assert_eq!(&fs.read_file("TWO.TXT").expect("read")[0..3], b"two");
    assert_eq!(fs.rename("NONE.TXT", "X.Y"), Err(Error::NotFound));
    fs.rename("ONE.TXT", "TWO.TXT").expect("rename");
    assert_eq!(&fs.read_file("TWO.TXT").expect("read")[0..3], b"one");
    fs.rename_unchecked("TWO.TXT", "LAST.TXT").expect("rename_unchecked");
    assert_eq!(fs.rename_unchecked("TWO.TXT", "LAST.TXT"), Err(Error::NotFound));
    assert_eq!(fs.rename_unchecked("LAST.TXT", "not valid"), Err(Error::NameInvalid));
    fs.delete("LAST.TXT").expect("delete");
    assert_eq!(fs.delete("LAST.TXT"), Err(Error::NotFound));
    assert_eq!(fs.read_dir("/").expect("read_dir").len(), 0);
    assert_eq!(fs.used_blocks() + fs.free_blocks(), total);
    assert_eq!(fs.block_device().blocks(), 40);
}

#[test]
fn both_filesystems_behind_one_interface() {
    let mut rt11 = RT11FS::mkfs_owned_by(test_dev(40), "owner").expect("mkfs");
    assert_eq!(FileSystem::filesystem_name(&rt11), "RT-11");
    exercise(&mut rt11, 40 - 14);
    let mut xxdp = XxdpFs::mkfs(test_dev(40)).expect("mkfs");
    assert_eq!(FileSystem::filesystem_name(&xxdp), "XXDP");
    exercise(&mut xxdp, 40);
}

#[test]
fn home_block_layout() {
    let home = HomeBlock::owned_by("test-user");
    let bytes = home.repr().expect("repr");
    assert_eq!(bytes.len(), 512);
    assert_eq!(&bytes[466..472], &[0x01, 0x00, 0x06, 0x00, 0xa9, 0x8e]);
    assert_eq!(&bytes[472..484], b"RT11FS DC   ");
    assert_eq!(&bytes[484..496], b"test-user   ");
    assert_eq!(&bytes[496..508], b"DECRT11A    ");
    assert_eq!(&bytes[508..512], &[0x00, 0x00, 0x61, 0x2b]);
    assert!(HomeBlock::checksum_matches(&bytes));
    let back = HomeBlock::from_repr(&bytes).expect("from_repr");
    assert_eq!(back.system_version, "V3A");
    assert_eq!(back.owner_name, "test-user   ");
    assert_eq!((back.pack_cluster_size, back.directory_start_block, back.bup_volume), (1, 6, None));
    let mut backup = HomeBlock::owned_by("a-very-long-owner-name");
    backup.bup_volume = Some(7);
    backup.init_restore[0] = 0x99;
    let bytes = backup.repr().expect("repr");
    assert_eq!(bytes[132], 0x99);
    assert_eq!(&bytes[170..183], b"BUQ         \x07");
    assert_eq!(&bytes[484..496], b"a-very-long-");
    let back = HomeBlock::from_repr(&bytes).expect("from_repr");
    assert_eq!((back.bup_volume, back.init_restore[0]), (Some(7), 0x99));
    let mut broken = bytes.clone();
    broken[510] ^= 1;
    assert!(!HomeBlock::checksum_matches(&broken));
    assert!(HomeBlock::from_repr(&broken).is_ok());
    broken[480] = 0xff;
    assert!(matches!(HomeBlock::from_repr(&broken), Err(Error::Format)));
    assert!(matches!(HomeBlock::from_repr(&bytes[0..100]), Err(Error::Format)));
    let mut odd = HomeBlock::owned_by("x");
    odd.system_version = "v3a".to_string();
    assert_eq!(odd.repr(), Err(Error::Format));
    assert_eq!(HomeBlock::new().directory_start_block, 6);
}

#[test]
fn rt11_entry_and_segment_codecs() {
    let mut entry = Rt11Entry::new_empty(14, 6);
    entry.kind = EntryKind::Permanent;
    entry.name = "FILE.DAT".to_string();
    entry.read_only = true;
    entry.protected = true;
    entry.prefix_block = true;
    entry.job = 3;
    entry.channel = 4;
    entry.creation_date = Some(Date { year: 1990, month: 7, day: 4 });
    let bytes = entry.repr().expect("repr");
    assert_eq!(bytes.len(), 14);
    assert_eq!(u16::from_le_bytes([bytes[0], bytes[1]]), 0o2000 | 0o40000 | 0o100000 | 0o20);
    assert_eq!(&bytes[8..12], &[6, 0, 3, 4]);
    let back = Rt11Entry::from_repr(14, 0, &bytes, 0).expect("from_repr").expect("an entry");
    assert_eq!((back.kind, back.read_only, back.protected, back.prefix_block), (EntryKind::Permanent, true, true, true));
    assert_eq!((back.name.as_str(), back.length, back.job, back.channel, back.block), ("FILE.DAT", 6, 3, 4, 14));
    assert_eq!(back.creation_date, entry.creation_date);
    assert_eq!(back.duplicate().name, "FILE.DAT");
    assert!(matches!(Rt11Entry::from_repr(0, 0, &[0x00, 0x08], 0), Ok(None)));
    assert!(matches!(Rt11Entry::from_repr(0, 0, &[0x00, 0x00, 0, 0], 0), Err(Error::Format)));
    assert!(matches!(Rt11Entry::from_repr(0, 0, &[0x00, 0x04, 0, 0], 0), Err(Error::Format)));
    assert!(matches!(Rt11Entry::from_repr(0, 0, &[0x00], 0), Err(Error::Format)));

    let segment = DirSegment::new(2, 6, 2..4, 100..130);
    assert_eq!((segment.block, segment.last_segment, segment.segments, segment.data_block), (8, 2, 4, 100));
    let range = segment.block_range();
    assert_eq!((range.start, range.end), (100, 130));
    let bytes = segment.repr().expect("repr");
    assert_eq!(bytes.len(), 1024);
    let back = DirSegment::from_repr(2, 8, &bytes).expect("from_repr");
    assert_eq!((back.entries.len(), back.entries[0].length, back.entries[0].block), (1, 30, 100));
    let mut odd = bytes.clone();
    odd[6] = 1;
    assert!(matches!(DirSegment::from_repr(2, 8, &odd), Err(Error::Format)));
    let mut none = bytes.clone();
    none[10] = 0;
    none[11] = 0x08;
    assert!(matches!(DirSegment::from_repr(2, 8, &none), Err(Error::Format)));
    let mut long = bytes.clone();
    long[8] = 0xff;
    long[9] = 0xff;
    assert!(matches!(DirSegment::from_repr(2, 8, &long), Err(Error::Format)));
    assert!(matches!(DirSegment::from_repr(2, 8, &bytes[0..8]), Err(Error::Format)));
    let mut full = DirSegment::new(1, 6, 1..4, 14..15);
    for _ in 0..80 {
        full.entries.push(Rt11Entry::new_empty(15, 0));
    }
    assert_eq!(full.repr(), Err(Error::NoSpace));
}

#[test]
fn xxdp_on_disk_structures() {
    let one = MfdVariantOne { mfd2_block: 2, interleave_factor: 1, bitmap_block: 4, bitmap_pointer: vec![4, 5], ufd_block: 3 };
    let (first, second) = Mfd::VariantOne(one).repr();
    assert_eq!(&first[0..12], &[2, 0, 1, 0, 4, 0, 4, 0, 5, 0, 0, 0]);
    assert_eq!(&second[0..10], &[0, 0, 1, 1, 3, 0, 9, 0, 0, 0]);
    let back = MfdVariantOne::from_repr(1, &first, &second).expect("from_repr");
    assert_eq!((back.mfd2_block, back.bitmap_block, back.ufd_block, back.bitmap_pointer), (2, 4, 3, vec![4, 5]));
    assert!(matches!(MfdVariantOne::from_repr(1, &[2, 0, 1, 0, 4, 0, 4, 0], &second), Err(Error::Format)));
    assert!(matches!(MfdVariantOne::from_repr(1, &first, &[0, 0]), Err(Error::Format)));

    let two = MfdVariantTwo {
        ufd_block: 3,
        ufd_block_count: 4,
        bitmap_block: 7,
        bitmap_block_count: 1,
        other_mfd_block: 2,
        support_blocks: 10,
        preallocated_blocks: 11,
        interleave_factor: 1,
        monitor_core_image_block: 12,
        bad_sector_file_track: 13,
        bad_sector_file_sector: 14,
        bad_sector_file_cylinder: 15,
    };
    let (first, second) = Mfd::VariantTwo(two).repr();
    assert_eq!((first.len(), second.len()), (512, 512));
    assert_eq!(&first[0..12], &[0, 0, 3, 0, 4, 0, 7, 0, 1, 0, 2, 0]);
    assert_eq!(&second[10..12], &[1, 0]);
    assert_eq!(&first[26..34], &[13, 14, 15, 0, 13, 14, 15, 0]);
    assert_eq!(MfdVariantTwo::from_repr(1, &first, &second), Ok(two));
    assert_eq!(MfdVariantTwo::from_repr(1, &first[0..20], &second), Err(Error::Format));

    let block = BitmapBlock { map_number: 1, first_bitmap: 4, entries: vec![0x1f, 0x8000] };
    let bytes = block.repr();
    assert_eq!(bytes.len(), 510);
    assert_eq!(&bytes[0..10], &[1, 0, 60, 0, 4, 0, 0x1f, 0, 0, 0x80]);
    let mut whole = vec![9, 0];
    whole.extend(bytes);
    let back = BitmapBlock::from_repr(&whole).expect("from_repr");
    assert_eq!((back.map_number, back.first_bitmap, back.entries.len(), back.entries[1]), (1, 4, 60, 0x8000));
    whole[4] = 59;
    assert!(matches!(BitmapBlock::from_repr(&whole), Err(Error::Format)));

    let entry = XxdpEntry {
        name: Some("A.B".to_string()),
        date: Some(Date { year: 1982, month: 12, day: 8 }),
        first_block: 5,
        length: 2,
        last_block: 6,
    };
    let bytes = entry.repr().expect("repr");
    assert_eq!(&bytes[6..18], &[0x36, 0x30, 0, 0, 5, 0, 2, 0, 6, 0, 0, 0]);
    let back = XxdpEntry::from_repr(&bytes, 0).expect("from_repr").expect("an entry");
    assert_eq!((back.name.as_deref(), back.date, back.first_block, back.length, back.last_block), (Some("A.B"), entry.date, 5, 2, 6));
    assert!(matches!(XxdpEntry::from_repr(&bytes, 1), Ok(None)));
    assert!(XxdpEntry::from_repr(&XxdpEntry::free().repr().expect("repr"), 0).expect("ok").expect("some").name.is_none());
    assert_eq!(XxdpEntry::encode_filename(""), Ok([0, 0, 0]));
    assert_eq!(XxdpEntry::free().duplicate().file_name(), "");
}

#[test]
fn block_bytes_saturates() {
    assert_eq!(block_bytes(3), 1536);
    assert_eq!(block_bytes(usize::MAX), if usize::BITS >= 64 { u64::MAX } else { usize::MAX as u64 * 512 });
}

#[test]
fn xxdp_second_form_of_the_master_directory_is_read_only() {
    let mut fs = XxdpFs::mkfs(test_dev(20)).expect("mkfs");
    fs.mfd = Mfd::VariantTwo(MfdVariantTwo {
        ufd_block: 3,
        ufd_block_count: 1,
        bitmap_block: 4,
        bitmap_block_count: 1,
        other_mfd_block: 2,
        support_blocks: 0,
        preallocated_blocks: 0,
        interleave_factor: 1,
        monitor_core_image_block: 0,
        bad_sector_file_track: 0,
        bad_sector_file_sector: 0,
        bad_sector_file_cylinder: 0,
    });
    assert_eq!(fs.write_mfd(), Err(Error::Unsupported));
    let (first, _) = fs.mfd.repr();
    let mut image = fs.image;
    image.write_blocks(1, 1, &first).expect("write");
    let opened = XxdpFs::new(image).expect("open");
    assert!(matches!(opened.mfd, Mfd::VariantTwo(_)));
    assert_eq!((opened.mfd.ufd_block(), opened.mfd.bitmap_block()), (3, 4));
}
