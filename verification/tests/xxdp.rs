use pdpfs::block::flat::Flat;
use pdpfs::block::img::IMG;
use pdpfs::block::{BlockDevice, Geometry};
use pdpfs::date::Date;
use pdpfs::error::Error;
use pdpfs::fs::FileSystem;
use pdpfs::fs::xxdp::{round_up, DirEntry, Mfd, XxdpFs};

type TestDev = Flat<IMG>;

const ____: u16 = 0xff00;
const ______: u32 = 0xffff0000;

fn test_dev(blocks: usize) -> TestDev {
    Flat(IMG::from_vec(
        vec![0; 512 * blocks],
        Geometry { cylinders: 1, heads: 1, sectors: blocks, sector_size: 512 },
    ))
}

fn today() -> Date {
    Date { year: 2023, month: 1, day: 19 }
}

fn bytes(values: &[u8]) -> Vec<u16> {
    values.iter().map(|v| *v as u16).collect()
}

fn words(words: &[u32]) -> Vec<u16> {
    let mut bytes = vec![];
    for w in words {
        bytes.push((w >> 8 & 0xff00 | w >> 0 & 0xff) as u16);
        bytes.push((w >> 16 & 0xff00 | w >> 8 & 0xff) as u16);
    }
    bytes
}

fn assert_block_eq(image: &TestDev, block_num: usize, parts: &[Vec<u16>]) {
    let got = image.read_blocks(block_num, 1).expect(&format!("block {}", block_num));
    let mut expected_and_mask: Vec<u16> = Vec::new();
    for part in parts {
        expected_and_mask.extend(part.iter());
    }
    let expected: Vec<u8> = expected_and_mask.iter().map(|x| (x & 0xff) as u8).collect();
    let mask: Vec<u8> = expected_and_mask.iter().map(|x| !(x >> 8) as u8).collect();
    let masked: Vec<u8> = got.iter().zip(&mask).map(|(data, mask)| data & mask).collect();
    if masked != expected {
        panic!(
            "assertion `block {0} == expected` failed\n  Block {0} was:\n{1:?} \n Expected:\n{2:?}\n Mask:\n{3:?}",
            block_num, got, expected, mask
        );
    }
}

fn incrementing(count: usize) -> Vec<u8> {
    (0..count).map(|x| x as u8).collect::<Vec<u8>>()
}

#[test]
fn test_date() {
    for (y, m, d, encoded) in [
        (1982, 12, 08, 0x3036),
        (1982, 12, 08, 0x3036),
        (1989, 03, 01, 0x4a74),
        (1982, 12, 08, 0x3036),
        (1982, 12, 08, 0x3036),
        (1977, 12, 29, 0x1cc3),
        (1985, 11, 22, 0x3bde),
    ]
    .into_iter()
    {
        assert_eq!(Date::from_ymd_opt(y, m, d), DirEntry::decode_date(encoded).expect("date error"));
        assert_eq!(encoded, DirEntry::encode_date(Date::from_ymd_opt(y, m, d)).expect("date error"));
    }
}

#[test]
fn test_mkfs() {
    let fs = XxdpFs::mkfs(test_dev(20)).expect("Create XXDP FS");
    for b in 0..20 {
        match b {
            1 => assert_block_eq(
                &fs.image,
                1,
                &[bytes(&[0x02, 0x00, 0x01, 0x00, 0x04, 0x00, 0x04, 0x00, 0x00, 0x00]), vec![0; 512 - 10]],
            ),
            2 => assert_block_eq(
                &fs.image,
                2,
                &[bytes(&[0x00, 0x00, 0x01, 0x01, 0x03, 0x00, 0x09, 0x00, 0x00, 0x00]), vec![0; 512 - 10]],
            ),
            3 => assert_block_eq(&fs.image, 3, &[vec![0; 512]]),
            4 => assert_block_eq(
                &fs.image,
                4,
                &[bytes(&[0x00, 0x00, 0x00, 0x00, 0x3c, 0x00, 0x04, 0x00, 0x1F, 0x00]), vec![0; 512 - 10]],
            ),
            _ => assert_block_eq(&fs.image, b, &[vec![0; 512]]),
        }
    }
}

#[test]
fn test_free_spans() {
    let dev = test_dev(20);
    assert_eq!(20, dev.blocks());
    let fs = XxdpFs::mkfs(dev).expect("Create XXDP FS");
    let spans = fs.calculate_bitmap_free_spans();
    assert_eq!(vec![5..20], spans);
}

#[test]
fn test_allocate_dir_entry() {
    let dev = test_dev(20);
    assert_eq!(20, dev.blocks());
    let mut fs = XxdpFs::mkfs(dev).expect("Create XXDP FS");
    let entry_num = fs.allocate_dir_entry().expect("allocate_dir_entry failed");
    assert_eq!(0, entry_num);
}

#[test]
fn xxdp_test_write() {
    let mut fs = XxdpFs::mkfs(test_dev(20)).expect("Create XXDP FS");
    fs.write_file_dated("TEST.TST", &incrementing(510), today()).expect("write_file failed");
    assert_eq!(Some("TEST.TST"), fs.ufd[0].name.as_deref());
    assert_block_eq(
        &fs.image,
        3,
        &[
            words(&vec![0x0000, 0x7ddb, 0x7d00, 0x800c, 0xcf1b, 0x0000, 0x0005, 0x0001, 0x0005]),
            vec![0; 512 - 18],
        ],
    );
    assert_block_eq(
        &fs.image,
        4,
        &[bytes(&[0x00, 0x00, 0x00, 0x00, 0x3c, 0x00, 0x04, 0x00, 0x3F, 0x00]), vec![0; 512 - 10]],
    );
    assert_block_eq(&fs.image, 5, &[bytes(&[0x00, 0x00]), bytes(&incrementing(510))]);
}

#[test]
fn xxdp_test_overwrite_file() {
    let mut fs = XxdpFs::mkfs(test_dev(20)).expect("Create XXDP FS");
    fs.write_file_dated("TEST.TST", &incrementing(510), today()).expect("write_file failed");
    fs.write_file_dated("TEST.TST", "david rules".as_bytes(), today()).expect("write_file 2 failed");
    assert_eq!(Some("TEST.TST"), fs.ufd[0].name.as_deref());
    assert_block_eq(
        &fs.image,
        3,
        &[
            words(&vec![0x0000, 0x7ddb, 0x7d00, 0x800c, 0xcf1b, 0x0000, 0x0005, 0x0001, 0x0005]),
            vec![0; 512 - 18],
        ],
    );
    assert_block_eq(
        &fs.image,
        4,
        &[bytes(&[0x00, 0x00, 0x00, 0x00, 0x3c, 0x00, 0x04, 0x00, 0x3F, 0x00]), vec![0; 512 - 10]],
    );
    assert_block_eq(&fs.image, 5, &[bytes(&[0x00, 0x00]), bytes("david rules".as_bytes())]);
}

#[test]
fn test_extend_directory() {
    let mut fs = XxdpFs::mkfs(test_dev(40)).expect("Create XXDP FS");
    for i in 0..28 {
        fs.write_file_dated(&format!("TEST{}.TST", i), &incrementing(510), today()).expect("write_file failed");
    }
    assert_block_eq(
        &fs.image,
        4,
        &[
            bytes(&[0x00, 0x00, 0x00, 0x00, 0x3c, 0x00, 0x04, 0x00, 0xFF, 0xFF, 0xFF, 0xFF, 0x01]),
            vec![0; 512 - 13],
        ],
    );
    fs.write_file_dated("TEST28.TST", &incrementing(510), today()).expect("write_file failed");
    assert_block_eq(
        &fs.image,
        4,
        &[
            bytes(&[0x00, 0x00, 0x00, 0x00, 0x3c, 0x00, 0x04, 0x00, 0xFF, 0xFF, 0xFF, 0xFF, 0x07]),
            vec![0; 512 - 13],
        ],
    );
    assert_block_eq(
        &fs.image,
        3,
        &[
            words(&vec![0x0021, 0x7ddb, ______, 0x800c, 0xcf1b, 0x0000, ______, 0x0001, ______]),
            vec![____; 512 - 18],
        ],
    );
    assert_block_eq(
        &fs.image,
        0x21,
        &[
            words(&vec![0x0000, 0x7ddb, 0x8226, 0x800c, 0xcf1b, 0x0000, ______, 0x0001, ______]),
            vec![____; 512 - 18],
        ],
    );
}

#[test]
fn test_delete() {
    let mut fs = XxdpFs::mkfs(test_dev(20)).expect("Create XXDP FS");
    fs.write_file_dated("TEST.TST", &incrementing(510), today()).expect("write_file failed");
    fs.write_file_dated("TEST2.TST", &incrementing(510), today()).expect("write_file failed");
    fs.delete("TEST.TST").expect("Delete failed");
    assert_block_eq(
        &fs.image,
        4,
        &[bytes(&[0x00, 0x00, 0x00, 0x00, 0x3c, 0x00, 0x04, 0x00, 0x5F, 0x00]), vec![0; 512 - 10]],
    );
    assert_block_eq(
        &fs.image,
        3,
        &[
            words(&vec![0x0000, 0x0000, 0x0000, 0x0000, ______, 0x0000, ______, ______, ______]),
            words(&vec![0x0000, 0x7ddb, 0x8200, 0x800c, 0xcf1b, 0x0000, 0x0006, 0x0001, 0x0006]),
            vec![0; 512 - 18 * 2],
        ],
    );
}

#[test]
fn test_rename() {
    let mut fs = XxdpFs::mkfs(test_dev(20)).expect("Create XXDP FS");
    fs.write_file_dated("TEST.TST", &incrementing(510), today()).expect("write_file failed");
    fs.rename("TEST.TST", "DAVID.RUL").expect("rename failed");
    assert_block_eq(
        &fs.image,
        3,
        &[
            words(&vec![0x0000, 0x193e, 0x38e0, 0x73d4, ______, 0x0000, ______, ______, ______]),
            vec![0; 512 - 18 * 1],
        ],
    );
}

#[test]
fn test_rename_overwrite() {
    let mut fs = XxdpFs::mkfs(test_dev(20)).expect("Create XXDP FS");
    fs.write_file_dated("TEST.TST", &incrementing(510), today()).expect("write_file failed");
    fs.write_file_dated("DAVID.RUL", "david rules".as_bytes(), today()).expect("write_file failed");
    fs.rename("TEST.TST", "DAVID.RUL").expect("rename failed");
    assert_block_eq(
        &fs.image,
        3,
        &[
            words(&vec![0x0000, 0x193e, 0x38e0, 0x73d4, ______, 0x0000, 0x0005, 0x0001, 0x0005]),
            words(&vec![0x0000, 0x0000, 0x0000, 0x0000, ______, 0x0000, ______, ______, ______]),
            vec![0; 512 - 18 * 2],
        ],
    );
    assert_block_eq(&fs.image, 5, &[words(&vec![0x0000]), bytes(&incrementing(510))]);
}

#[test]
fn xxdp_rename_keeps_the_bitmap() {
    let mut fs = XxdpFs::mkfs(test_dev(20)).expect("Create XXDP FS");
    fs.write_file_dated("TEST.TST", &incrementing(510), today()).expect("write_file failed");
    let before = fs.bitmap.clone();
    fs.rename("TEST.TST", "DAVID.RUL").expect("rename failed");
    assert_eq!(before, fs.bitmap);
    assert_eq!(fs.ufd[0].name.as_deref(), Some("DAVID.RUL"));
}

#[test]
fn xxdp_used_and_free_cover_the_device() {
    let mut fs = XxdpFs::mkfs(test_dev(20)).expect("Create XXDP FS");
    assert_eq!((fs.used_blocks(), fs.free_blocks()), (5, 15));
    fs.write_file_dated("A.B", &incrementing(1000), today()).expect("write");
    assert_eq!((fs.used_blocks(), fs.free_blocks()), (7, 13));
    assert_eq!(fs.used_blocks() + fs.free_blocks(), fs.image.blocks());
}

#[test]
fn xxdp_chain_of_a_file() {
    let mut fs = XxdpFs::mkfs(test_dev(20)).expect("Create XXDP FS");
    fs.write_file_dated("A.B", &incrementing(1100), today()).expect("write");
    let entry = fs.stat("A.B").expect("stat");
    let chain = XxdpFs::read_chain_raw(&fs.image, entry.first_block as u16).expect("chain");
    assert_eq!(chain.len(), entry.length);
    assert_eq!(chain.last().expect("last").0 as usize, entry.last_block);
    assert_eq!(&chain.last().expect("last").1[0..2], &[0, 0]);
    for (block, _) in chain.iter() {
        assert!(fs.bitmap[*block as usize]);
    }
    let mut want = incrementing(1100);
    want.resize(3 * 510, 0);
    assert_eq!(fs.read_file("A.B").expect("read"), want);
    let reopened = XxdpFs::new(fs.image).expect("reopen");
    assert_eq!(reopened.read_dir("/").expect("root").len(), 1);
    assert_eq!(reopened.dir_iter("/").expect("root").len(), 28);
}

#[test]
fn xxdp_errors() {
    let mut fs = XxdpFs::mkfs(test_dev(20)).expect("Create XXDP FS");
    assert_eq!(fs.delete("NONE.TST"), Err(Error::NotFound));
    assert!(matches!(fs.read_file("NONE.TST"), Err(Error::NotFound)));
    assert_eq!(fs.write_file_dated("bad name", &[1], today()), Err(Error::NameInvalid));
    assert_eq!(fs.write_file_dated("OLD.B", &[1], Date { year: 2036, month: 1, day: 1 }), Err(Error::DateOutOfRange));
    assert_eq!(fs.write_file_dated("BIG.BIN", &vec![0; 510 * 16], today()), Err(Error::NoSpace));
    assert!(matches!(fs.read_dir("x"), Err(Error::BadPath)));
    assert!(matches!(XxdpFs::mkfs(test_dev(3)), Err(Error::NoSpace)));
    assert!(!XxdpFs::image_is(&test_dev(20)));
    assert_eq!(DirEntry::decode_date(366), Err(Error::Format));
    assert_eq!(DirEntry::decode_date(0), Ok(None));
    assert_eq!(DirEntry::encode_date(None), Ok(0));
}

#[test]
fn xxdp_allocation_prefers_exact_then_longest() {
    let mut fs = XxdpFs::mkfs(test_dev(40)).expect("Create XXDP FS");
    for b in [6, 7, 10, 20] {
        fs.bitmap[b] = true;
    }
    assert_eq!(fs.calculate_bitmap_free_spans(), vec![5..6, 8..10, 11..20, 21..40]);
    assert_eq!(fs.allocate_blocks(2).expect("exact"), vec![8, 9]);
    assert_eq!(fs.allocate_blocks(3).expect("longest"), vec![21, 22, 23]);
    let mut want: Vec<u16> = (24..40).collect();
    want.extend(11..20);
    want.push(5);
    assert_eq!(fs.allocate_blocks(26).expect("several"), want);
    assert_eq!(fs.allocate_blocks(1), Err(Error::NoSpace));
}

#[test]
fn xxdp_round_up() {
    assert_eq!(round_up(0, 28), 0);
    assert_eq!(round_up(1, 28), 28);
    assert_eq!(round_up(28, 28), 28);
    assert_eq!(round_up(20, 960), 960);
}

fn blocks_in_use(fs: &XxdpFs<TestDev>) -> Vec<bool> {
    let mut used = vec![false; fs.bitmap.len()];
    used[0] = true;
    used[1] = true;
    if let Mfd::VariantOne(m) = &fs.mfd {
        used[m.mfd2_block as usize] = true;
    }
    for b in fs.ufd_block_list.iter().chain(fs.bitmap_block_list.iter()) {
        used[*b as usize] = true;
    }
    for entry in fs.ufd.iter().filter(|e| e.name.is_some()) {
        let chain = XxdpFs::read_chain_raw(&fs.image, entry.first_block as u16).expect("chain");
        assert_eq!(chain.len(), entry.length);
        for (block, _) in chain.iter() {
            assert!(!used[*block as usize]);
            used[*block as usize] = true;
        }
    }
    used
}

#[test]
fn xxdp_bitmap_marks_just_the_blocks_in_use() {
    let mut fs = XxdpFs::mkfs(test_dev(60)).expect("Create XXDP FS");
    assert_eq!(fs.bitmap, blocks_in_use(&fs));
    for i in 0..30 {
        fs.write_file_dated(&format!("F{}.DAT", i), &incrementing(200 * (i % 4)), today()).expect("write");
        assert_eq!(fs.bitmap, blocks_in_use(&fs));
    }
    for i in [3, 7, 8, 20] {
        fs.delete(&format!("F{}.DAT", i)).expect("delete");
        assert_eq!(fs.bitmap, blocks_in_use(&fs));
    }
    fs.write_file_dated("BIG.DAT", &incrementing(510 * 5 + 1), today()).expect("write");
    fs.rename("F1.DAT", "F2.DAT").expect("rename");
    assert_eq!(fs.bitmap, blocks_in_use(&fs));
    let reopened = XxdpFs::new(fs.image).expect("reopen");
    assert_eq!(reopened.bitmap, blocks_in_use(&reopened));
}

#[test]
fn xxdp_totals_after_calls_that_succeed_or_fail() {
    let mut fs = XxdpFs::mkfs(test_dev(40)).expect("Create XXDP FS");
    let totals_hold = |fs: &XxdpFs<TestDev>| {
        assert_eq!(fs.used_blocks() + fs.free_blocks(), 40);
        assert_eq!(fs.image.blocks(), 40);
    };
    totals_hold(&fs);
    fs.write_file_dated("A.TXT", &incrementing(1000), today()).expect("write");
    totals_hold(&fs);
    assert_eq!(fs.write_file_dated("bad", b"x", today()), Err(Error::NameInvalid));
    fs.write_file_dated("B.TXT", &incrementing(600), today()).expect("write");
    totals_hold(&fs);
    assert_eq!(fs.delete("NONE.TXT"), Err(Error::NotFound));
    assert_eq!(fs.rename("NONE.TXT", "D.TXT"), Err(Error::NotFound));
    fs.rename("A.TXT", "B.TXT").expect("rename over");
    totals_hold(&fs);
    fs.write_file("D.TXT", &incrementing(512)).expect("write");
    totals_hold(&fs);
    fs.delete("B.TXT").expect("delete");
    fs.delete("D.TXT").expect("delete");
    totals_hold(&fs);
    assert_eq!(fs.write_file_dated("BIG.TXT", &vec![1; 510 * 40], today()), Err(Error::NoSpace));
    totals_hold(&fs);
}
