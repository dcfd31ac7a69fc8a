use pdpfs::block::flat::Flat;
use pdpfs::block::img::IMG;
use pdpfs::block::{BlockDevice, Geometry};
use pdpfs::date::Date;
use pdpfs::error::Error;
use pdpfs::fs::FileSystem;
use pdpfs::fs::rt11::{DirEntry, DirSegment, EntryKind, RT11FS};

type TestDev = Flat<IMG>;

const ____: u16 = 0xff00;

fn test_dev(blocks: usize) -> TestDev {
    Flat(IMG::from_vec(
        vec![0; 512 * blocks],
        Geometry { cylinders: 1, heads: 1, sectors: blocks, sector_size: 512 },
    ))
}

fn today() -> Date {
    Date { year: 2023, month: 1, day: 19 }
}

fn mkfs(blocks: usize) -> RT11FS<TestDev> {
    RT11FS::mkfs_owned_by(test_dev(blocks), "test-user").expect("Create RT-11 FS")
}

fn bytes(values: &[u8]) -> Vec<u16> {
    values.iter().map(|v| *v as u16).collect()
}

fn assert_block_eq(image: &TestDev, block_num: usize, parts: &[Vec<u16>]) {
    let got = image.read_blocks(block_num, 1).expect(&format!("block {}", block_num));
    let mut expected_and_mask: Vec<u16> = Vec::new();
    for part in parts {
        expected_and_mask.extend(part.iter());
    }
    let expected: Vec<u8> = expected_and_mask.iter().map(|x| (x & 0xff) as u8).collect();
    let mask: Vec<u8> = expected_and_mask.iter().map(|x| !(x >> 8) as u8).collect();
    let masked: Vec<u8> = got.iter().zip(&mask).map(|(data, mask)| data & mask).collect();
    if masked != expected {
        panic!(
            "assertion `block {0} == expected` failed\n  Block {0} was:\n{1:?} \n Expected:\n{2:?}\n Mask:\n{3:?}",
            block_num, got, expected, mask
        );
    }
}

fn incrementing(count: usize) -> Vec<u8> {
    (0..count).map(|x| x as u8).collect::<Vec<u8>>()
}

#[test]
fn test_init() {
    let fs = mkfs(20);
    for b in 0..20 {
        match b {
            1 => assert_block_eq(
                &fs.image,
                1,
                &[
                    vec![0; 512 - 48],
                    bytes(&[
                        0x00, 0x00, 0x01, 0x00, 0x06, 0x00, 0xa9, 0x8e, 0x52, 0x54, 0x31, 0x31, 0x46, 0x53, 0x20, 0x44,
                        0x43, 0x20, 0x20, 0x20, 0x74, 0x65, 0x73, 0x74, 0x2d, 0x75, 0x73, 0x65, 0x72, 0x20, 0x20, 0x20,
                        0x44, 0x45, 0x43, 0x52, 0x54, 0x31, 0x31, 0x41, 0x20, 0x20, 0x20, 0x20, 0x00, 0x00, 0x61, 0x2b,
                    ]),
                ],
            ),
            6 => assert_block_eq(
                &fs.image,
                6,
                &[
                    bytes(&[
                        0x04, 0x00, 0x00, 0x00, 0x01, 0x00, 0x00, 0x00, 0x0e, 0x00, 0x00, 0x02, 0x58, 0x21, 0xee, 0x80,
                        0x25, 0x3a, 0x06, 0x00, 0x00, 0x00, 0x00, 0x00, 0x00, 0x08, 0x00, 0x00, 0x00, 0x00, 0x00, 0x00,
                    ]),
                    vec![0; 512 - 32],
                ],
            ),
            _ => assert_block_eq(&fs.image, b, &[vec![0; 512]]),
        }
    }
}

#[test]
fn rt11_test_write() {
    let mut fs = mkfs(20);
    {
        let f = fs.create_dated("TEST.TXT", 512, today()).expect("write test.txt");
        f.close(&mut fs.image).expect("close");
    }
    assert_block_eq(
        &fs.image,
        6,
        &[
            bytes(&[
                0x04, 0x00, 0x00, 0x00, 0x01, 0x00, 0x00, 0x00, 0x0e, 0x00, 0x00, 0x04, 0xdb, 0x7d, 0x00, 0x7d, 0xd4,
                0x80, 0x01, 0x00, 0x00, 0x00, 0x73, 0x46, 0x00, 0x02, 0x58, 0x21, 0xee, 0x80, 0x25, 0x3a, 0x05, 0x00,
                0x00, 0x00, 0x00, 0x00, 0x00, 0x08,
            ]),
            vec![0; 512 - 40],
        ],
    );
    assert_block_eq(&fs.image, 14, &[vec![0; 512]]);
    let mut fs = mkfs(20);
    {
        let mut f = fs.create_dated("TEST.TXT", 512, today()).expect("write test.txt");
        f.write(&mut fs.image, &incrementing(512)).expect("write");
        f.close(&mut fs.image).expect("close");
    }
    assert_block_eq(&fs.image, 14, &[bytes(&incrementing(512))]);
}

#[test]
fn test_write_chunk() {
    let mut fs = mkfs(20);
    {
        let mut f = fs.create_dated("TEST.TXT", 512, today()).expect("write test.txt");
        assert_eq!(f.pos, 0);
        assert_eq!(f.residue, Vec::<u8>::new());
        f.write(&mut fs.image, &incrementing(256)).expect("write");
        assert_eq!(f.residue, incrementing(256));
        f.write(&mut fs.image, &incrementing(256)).expect("write");
        f.close(&mut fs.image).expect("close");
    }
    assert_block_eq(&fs.image, 14, &[bytes(&incrementing(512))]);
}

#[test]
fn test_write_partial_block() {
    let mut fs = mkfs(20);
    {
        let mut f = fs.create_dated("TEST.TXT", 512, today()).expect("write test.txt");
        f.write(&mut fs.image, &incrementing(256)).expect("write");
        f.close(&mut fs.image).expect("close");
    }
    assert_block_eq(&fs.image, 14, &[bytes(&incrementing(256)), vec![0; 256]]);
}

#[test]
fn rt11_test_overwrite_file() {
    let mut fs = mkfs(20);
    {
        let mut f = fs.create_dated("TEST.TXT", 512, today()).expect("write test.txt");
        f.write(&mut fs.image, &incrementing(256)).expect("write");
        f.close(&mut fs.image).expect("close");
    }
    {
        let mut f = fs.create_dated("TEST.TXT", 1024, today()).expect("write test.txt");
        f.write(&mut fs.image, &vec![0x55; 1024]).expect("write");
        f.close(&mut fs.image).expect("close");
    }
    assert_eq!(fs.dir[0].entries.len(), 2);
    assert_block_eq(&fs.image, 14, &[vec![0x55; 512]]);
    assert_block_eq(&fs.image, 15, &[vec![0x55; 512]]);
}

#[test]
fn test_remove_file() {
    let mut fs = mkfs(20);
    {
        let mut f = fs.create_dated("TEST.TXT", 512, today()).expect("write test.txt");
        f.write(&mut fs.image, &incrementing(256)).expect("write");
        f.close(&mut fs.image).expect("close");
    }
    fs.delete("TEST.TXT").expect("delete test.txt");
    assert_eq!(fs.stat("TEST.TXT").is_none(), true);
    assert_eq!(fs.used_blocks(), 0);
    assert_block_eq(
        &fs.image,
        6,
        &[
            vec![
                0x04, 0x00, 0x00, 0x00, 0x01, 0x00, 0x00, 0x00, 0x0e, 0x00, 0x00, 0x02, ____, ____, ____, ____, ____,
                ____, 0x06, 0x00, 0x00, 0x00, ____, ____, 0x00, 0x08, 0x00, 0x00, 0x00, 0x00, 0x00, 0x00,
            ],
            vec![0; 512 - 32],
        ],
    );
}

#[test]
fn test_coalesce_empty() {
    let mut fs = mkfs(20);
    {
        let mut f = fs.create_dated("TEST.TXT", 512, today()).expect("write test.txt");
        f.write(&mut fs.image, &incrementing(256)).expect("write");
        f.close(&mut fs.image).expect("close");
    }
    fs.delete("TEST.TXT").expect("delete test.txt");
    assert_eq!(fs.dir[0].entries.len(), 1);
}

#[test]
fn test_split_directory_segment() {
    let mut fs = mkfs(200);
    for i in 0..75 {
        let mut f = fs.create_dated(&format!("TEST{i}.TXT"), 512, today()).expect("write test.txt");
        f.write(&mut fs.image, &incrementing(256)).expect("write");
        f.close(&mut fs.image).expect("close");
    }
    assert_eq!(fs.dir.len(), 2);
    assert_eq!(
        fs.dir[1].data_block,
        fs.home.directory_start_block + fs.dir[0].segments * 2 + fs.dir[0].max_entries() as u16 / 2
    );
    assert_eq!(fs.dir[0].last_segment, 2);
    assert_block_eq(
        &fs.image,
        6,
        &[bytes(&[0x04, 0x00, 0x02, 0x00, 0x02, 0x00, 0x00, 0x00, 0x0e, 0x00]), vec![____; 512 - 10]],
    );
    assert_block_eq(
        &fs.image,
        8,
        &[bytes(&[0x04, 0x00, 0x00, 0x00, 0x02, 0x00, 0x00, 0x00, 0x31, 0x00]), vec![____; 512 - 10]],
    );
    assert_block_eq(&fs.image, 0x0e, &[bytes(&incrementing(256)), vec![0; 256]]);
    assert_block_eq(&fs.image, 0x31, &[bytes(&incrementing(256)), vec![0; 256]]);
}

#[test]
fn rt11_entries_after_write_and_overwrite() {
    let mut fs = mkfs(20);
    fs.write_file_dated("TEST.TXT", &incrementing(512), today()).expect("write");
    let e = &fs.dir[0].entries;
    assert_eq!(e.len(), 2);
    assert_eq!((e[0].kind, e[0].block, e[0].length), (EntryKind::Permanent, 14, 1));
    assert_eq!((e[1].kind, e[1].block, e[1].length), (EntryKind::Empty, 15, 5));
    fs.write_file_dated("TEST.TXT", &vec![0x55; 1024], today()).expect("overwrite");
    let e = &fs.dir[0].entries;
    assert_eq!(e.len(), 2);
    assert_eq!((e[0].kind, e[0].length), (EntryKind::Permanent, 2));
    assert_eq!((e[1].kind, e[1].length), (EntryKind::Empty, 4));
    assert_eq!(fs.read_file("TEST.TXT").expect("read"), vec![0x55; 1024]);
}

#[test]
fn rt11_used_and_free_cover_the_data_region() {
    let mut fs = mkfs(20);
    assert_eq!(fs.used_blocks() + fs.free_blocks(), 20 - 14);
    fs.write_file_dated("A.B", &incrementing(700), today()).expect("write");
    assert_eq!(fs.used_blocks(), 2);
    assert_eq!(fs.used_blocks() + fs.free_blocks(), 6);
    fs.delete("A.B").expect("delete");
    assert_eq!((fs.used_blocks(), fs.free_blocks()), (0, 6));
}

#[test]
fn rt11_file_roundtrip_is_padded_with_zeros() {
    let mut fs = mkfs(20);
    fs.write_file_dated("DATA.BIN", &incrementing(700), today()).expect("write");
    let mut want = incrementing(700);
    want.resize(1024, 0);
    assert_eq!(fs.read_file("DATA.BIN").expect("read"), want);
}

#[test]
fn rt11_no_adjacent_empty_entries_after_deletes() {
    let mut fs = mkfs(40);
    for name in ["A.A", "B.B", "C.C", "D.D"] {
        fs.write_file_dated(name, &incrementing(512), today()).expect("write");
    }
    fs.delete("B.B").expect("delete");
    fs.delete("C.C").expect("delete");
    fs.delete("A.A").expect("delete");
    for seg in fs.dir.iter() {
        for pair in seg.entries.windows(2) {
            assert!(!(pair[0].kind == EntryKind::Empty && pair[1].kind == EntryKind::Empty));
        }
        let mut block = seg.data_block as usize;
        for e in seg.entries.iter() {
            assert_eq!(e.block, block);
            block += e.length;
        }
    }
}

#[test]
fn rt11_errors() {
    let mut fs = mkfs(20);
    assert_eq!(fs.delete("NONE.TXT"), Err(Error::NotFound));
    assert!(matches!(fs.read_file("NONE.TXT"), Err(Error::NotFound)));
    assert!(matches!(fs.create_dated("toolongname.txt", 1, today()), Err(Error::NameInvalid)));
    assert!(matches!(fs.create_dated("lower.txt", 1, today()), Err(Error::NameInvalid)));
    assert!(matches!(fs.create_dated("BIG.BIN", 512 * 7, today()), Err(Error::NoSpace)));
    assert_eq!(
        fs.write_file_dated("OLD.TXT", &[1], Date { year: 1971, month: 1, day: 1 }),
        Err(Error::DateOutOfRange)
    );
    assert!(matches!(RT11FS::mkfs_owned_by(test_dev(10), "x"), Err(Error::NoSpace)));
    assert!(matches!(fs.dir_iter("/etc"), Err(Error::BadPath)));
    assert_eq!(fs.read_dir("/").expect("root").len(), 1);
    assert_eq!(fs.dir_iter("").expect("root").len(), 2);
    assert_eq!(RT11FS::new(fs.image).expect("reopen").read_dir("/").expect("root").len(), 0);
}

#[test]
fn rt11_rename() {
    let mut fs = mkfs(20);
    fs.write_file_dated("A.TXT", &[1, 2, 3], today()).expect("write");
    fs.write_file_dated("B.TXT", &[4, 5, 6], today()).expect("write");
    assert_eq!(fs.rename("NONE.TXT", "C.TXT"), Err(Error::NotFound));
    fs.rename("A.TXT", "A.TXT").expect("same name");
    fs.rename("A.TXT", "B.TXT").expect("rename over");
    assert!(fs.stat("A.TXT").is_none());
    assert_eq!(&fs.read_file("B.TXT").expect("read")[0..3], &[1, 2, 3]);
    let reopened = RT11FS::new(fs.image).expect("reopen");
    assert_eq!(reopened.read_dir("/").expect("root").len(), 1);
}

#[test]
fn rt11_dates() {
    assert_eq!(DirEntry::encode_date(None), Ok(0));
    assert_eq!(DirEntry::decode_date(0), Ok(None));
    assert_eq!(DirEntry::encode_date(Some(today())), Ok(0x4673));
    assert_eq!(DirEntry::decode_date(0x4673), Ok(Some(today())));
    let late = Date { year: 2099, month: 12, day: 31 };
    let word = DirEntry::encode_date(Some(late)).expect("encode");
    assert_eq!(DirEntry::decode_date(word), Ok(Some(late)));
    assert_eq!(DirEntry::encode_date(Some(Date { year: 2100, month: 1, day: 1 })), Err(Error::DateOutOfRange));
    assert_eq!(DirEntry::decode_date(2 * 1024 + 30 * 32 + 1), Err(Error::Format));
}

#[test]
fn rt11_segment_block_and_limits() {
    assert_eq!(DirSegment::segment_block(6, 5), 14);
    let fs = mkfs(20);
    assert_eq!(fs.dir[0].max_entries(), 70);
    assert_eq!(fs.filesystem_name(), "RT-11");
}

fn no_free_entries_side_by_side(fs: &RT11FS<TestDev>) -> bool {
    fs.dir.iter().all(|s| s.entries.windows(2).all(|w| !(w[0].kind == EntryKind::Empty && w[1].kind == EntryKind::Empty)))
}

#[test]
fn rt11_totals_after_calls_that_succeed_or_fail() {
    let mut fs = mkfs(40);
    let total = 40 - 14;
    let totals_hold = |fs: &RT11FS<TestDev>| {
        assert_eq!(fs.used_blocks() + fs.free_blocks(), total);
        assert!(no_free_entries_side_by_side(fs));
    };
    totals_hold(&fs);
    fs.write_file_dated("A.TXT", &incrementing(1000), today()).expect("write");
    totals_hold(&fs);
    assert_eq!(fs.write_file_dated("BIG.TXT", &vec![1; 512 * 30], today()), Err(Error::NoSpace));
    totals_hold(&fs);
    assert_eq!(fs.write_file_dated("bad", b"x", today()), Err(Error::NameInvalid));
    totals_hold(&fs);
    fs.write_file_dated("B.TXT", &incrementing(600), today()).expect("write");
    fs.write_file_dated("C.TXT", &incrementing(10), today()).expect("write");
    totals_hold(&fs);
    assert_eq!(fs.delete("NONE.TXT"), Err(Error::NotFound));
    assert_eq!(fs.rename("NONE.TXT", "D.TXT"), Err(Error::NotFound));
    assert_eq!(fs.rename("A.TXT", "bad name"), Err(Error::NameInvalid));
    totals_hold(&fs);
    fs.rename("A.TXT", "C.TXT").expect("rename over");
    totals_hold(&fs);
    fs.delete("B.TXT").expect("delete");
    totals_hold(&fs);
    fs.write_file("D.TXT", &incrementing(512)).expect("write");
    totals_hold(&fs);
    fs.delete("C.TXT").expect("delete");
    fs.delete("D.TXT").expect("delete");
    totals_hold(&fs);
    assert_eq!((fs.used_blocks(), fs.free_blocks()), (0, total));
}
