use pdpfs::block::flat::Flat;
use pdpfs::block::imd::{comment_at, stamp_of, Sector, SectorData, Track, IMD};
use pdpfs::block::img::IMG;
use pdpfs::block::rx::{rx01_geometry, rx02_geometry, RX};
use pdpfs::block::{BlockDevice, Geometry, PhysicalBlockDevice};
use pdpfs::date::{moment, now, today, Date};
use pdpfs::error::Error;
use pdpfs::name::{decode_filename, encode_filename};
use pdpfs::ops::{
    convert, create_image, mv, open_device, open_fs, path_to_rt11_filename, rm, Device, DeviceType, FileSystemType,
    ImageType, Medium, Volume,
};

fn small() -> Geometry {
    Geometry { cylinders: 3, heads: 2, sectors: 4, sector_size: 128 }
}

fn pattern(n: usize) -> Vec<u8> {
    (0..n).map(|i| (i * 7 + i / 128) as u8).collect()
}

#[test]
fn geometry_totals() {
    let g = rx01_geometry();
    assert_eq!((g.sectors(), g.bytes()), (2002, 256256));
    assert_eq!(rx02_geometry().bytes(), 512512);
    assert_eq!(small().sectors(), 24);
}

#[test]
fn img_raw_roundtrip_of_zeros() {
    let g = rx01_geometry();
    let img = IMG::from_raw(vec![0; g.bytes()], g);
    let (g2, raw) = img.to_raw().expect("to_raw");
    assert_eq!(g2, g);
    assert_eq!(raw, vec![0; 256256]);
}

#[test]
fn img_sector_addressing_and_errors() {
    let g = small();
    let mut img = IMG::from_vec(pattern(g.bytes()), g);
    let start = ((1 * 2 + 1) * 4 + 2) * 128;
    assert_eq!(img.read_sector(1, 1, 2).expect("read"), pattern(g.bytes())[start..start + 128].to_vec());
    assert_eq!(img.read_sector(3, 0, 0), Err(Error::OutOfRange));
    assert_eq!(img.write_sector(0, 0, 0, &[1, 2, 3]), Err(Error::PartialSector));
    assert_eq!(img.write_sector(3, 0, 0, &[0; 128]), Err(Error::OutOfRange));
    img.write_sector(2, 1, 3, &[9; 128]).expect("write");
    assert_eq!(img.read_sector(2, 1, 3).expect("read"), vec![9; 128]);
    assert_eq!(img.read_sector(2, 1, 2).expect("read"), pattern(g.bytes())[22 * 128..23 * 128].to_vec());
    assert_eq!(img.as_vec().expect("as_vec").len(), g.bytes());
    assert_eq!(img.total_bytes(), g.bytes());
}

#[test]
fn flat_mapping() {
    let dev = Flat(IMG::from_vec(pattern(small().bytes()), small()));
    assert_eq!(dev.physical_from_logical(0), (0, 0, 0));
    assert_eq!(dev.physical_from_logical(13), (1, 1, 1));
    assert_eq!(dev.physical_from_logical(23), (2, 1, 3));
    assert_eq!((dev.sectors(), dev.sector_size(), dev.blocks()), (24, 128, 6));
    assert_eq!(dev.read_sector(24), Err(Error::OutOfRange));
    assert_eq!(dev.read_blocks(1, 2).expect("blocks"), pattern(small().bytes())[512..1536].to_vec());
    assert_eq!(dev.read_blocks(5, 2), Err(Error::OutOfRange));
}

#[test]
fn flat_write_blocks() {
    let mut dev = Flat(IMG::from_vec(vec![0; small().bytes()], small()));
    dev.write_blocks(2, 1, &pattern(512)).expect("write");
    assert_eq!(dev.read_blocks(2, 1).expect("read"), pattern(512));
    assert_eq!(dev.read_blocks(1, 1).expect("read"), vec![0; 512]);
    assert_eq!(dev.write_blocks(2, 1, &[0; 100]), Err(Error::PartialSector));
    assert_eq!(dev.write_blocks(6, 1, &[0; 512]), Err(Error::OutOfRange));
}

#[test]
fn rx_mapping_is_interleaved_and_injective() {
    let dev = RX(IMG::from_vec(vec![0; 256256], rx01_geometry()));
    assert_eq!(dev.sectors(), 1976);
    assert_eq!(dev.physical_from_logical(0), (1, 0, 0));
    assert_eq!(dev.physical_from_logical(1), (1, 0, 2));
    assert_eq!(dev.physical_from_logical(13), (1, 0, 1));
    assert_eq!(dev.physical_from_logical(26), (2, 0, 6));
    assert_eq!(dev.physical_from_logical(1975), (76, 0, (25 * 2 + 1 + 75 * 6) % 26));
    let mut seen = std::collections::HashSet::new();
    for lin in 0..dev.sectors() {
        let (c, h, s) = dev.physical_from_logical(lin);
        assert!((1..=76).contains(&c) && h == 0 && s <= 25);
        assert!(seen.insert((c, s)));
    }
}

#[test]
fn rx_skips_track_zero() {
    let mut data = vec![0u8; 256256];
    for b in data[26 * 128..27 * 128].iter_mut() {
        *b = 0xAA;
    }
    let mut dev = RX(IMG::from_vec(data, rx01_geometry()));
    assert_eq!(dev.read_sector(0).expect("read"), vec![0xAA; 128]);
    dev.write_sector(1, &[0x11; 128]).expect("write");
    assert_eq!(dev.physical_device().read_sector(1, 0, 2).expect("read"), vec![0x11; 128]);
    assert_eq!(dev.blocks(), 494);
}

fn sample_imd() -> Vec<u8> {
    let mut b = b"IMD 1.18: test\r\n".to_vec();
    b.push(0x1A);
    b.extend([2, 0, 0, 3, 0]);
    b.extend([1, 3, 2]);
    b.push(1);
    b.extend(pattern(128));
    b.push(2);
    b.push(0xE5);
    b.push(0);
    b.extend([5, 1, 0, 2, 0]);
    b.extend([1, 2]);
    b.extend([4, 0x00, 8, 0x11]);
    b
}

#[test]
fn imd_parse_and_serialise() {
    let bytes = sample_imd();
    let imd = IMD::from_bytes(&bytes).expect("parse");
    assert_eq!(imd.comment, "IMD 1.18: test\r\n");
    assert_eq!(imd.track.len(), 2);
    assert_eq!(imd.track[0].sector_map, vec![1, 3, 2]);
    assert_eq!((imd.geometry.cylinders, imd.geometry.heads), (2, 1));
    assert_eq!((imd.geometry.sectors, imd.geometry.sector_size), (3, 128));
    assert_eq!(imd.repr().expect("repr"), bytes);
    assert!(!imd.is_device());
    assert_eq!(imd.track[0].sector_data[0].as_bytes().expect("normal"), pattern(128));
    assert_eq!(imd.track[0].sector_data[1].as_bytes().expect("compressed"), vec![0xE5; 128]);
    assert_eq!(imd.track[0].sector_data[2].as_bytes(), Err(Error::SectorQuality));
    assert_eq!(imd.track[1].sector_data[0].as_bytes(), Err(Error::SectorQuality));
    assert_eq!(imd.track[1].sector_data[1].as_bytes(), Err(Error::SectorQuality));
}

#[test]
fn imd_parse_errors() {
    assert!(matches!(IMD::from_bytes(b"IMD no end"), Err(Error::Format)));
    assert!(matches!(IMD::from_bytes(b"IMD\x1a"), Err(Error::Format)));
    assert!(matches!(IMD::from_bytes(b"IMD\x1a\x06\x00\x00\x00\x00"), Err(Error::Format)));
    assert!(matches!(IMD::from_bytes(b"IMD\x1a\x00\x00\x80\x00\x00"), Err(Error::Unsupported)));
    assert!(matches!(IMD::from_bytes(b"IMD\x1a\x00\x00\x40\x00\x00"), Err(Error::Unsupported)));
    assert!(matches!(IMD::from_bytes(b"IMD\x1a\x00\x00\x02\x00\x00"), Err(Error::Format)));
    assert!(matches!(IMD::from_bytes(b"IMD\x1a\x00\x00\x00\x00\x07"), Err(Error::Format)));
    assert!(matches!(IMD::from_bytes(b"IMD\x1a\x00\x00\x00\x01\x00\x01\x09"), Err(Error::Format)));
    assert!(matches!(IMD::from_bytes(b"IMD\x1a\x00\x00\x00\x01\x00\x01\x01\x00"), Err(Error::Format)));
    assert!(matches!(Track::from_repr(&[0, 0, 0], 0), Err(Error::Format)));
    assert!(matches!(Sector::from_repr(&[2], 0, 128), Err(Error::Format)));
    let odd = Sector { data: SectorData::Unavailable, deleted: true, error: false };
    assert_eq!(odd.repr(), Err(Error::Format));
}

#[test]
fn imd_as_a_device() {
    let g = small();
    let data = pattern(g.bytes());
    let mut imd = IMD::from_raw(data.clone(), g);
    assert!(imd.is_device());
    assert_eq!(imd.to_raw().expect("to_raw"), (g, data.clone()));
    assert_eq!(imd.read_sector(1, 1, 2).expect("read"), data[14 * 128..15 * 128].to_vec());
    assert_eq!(imd.read_sector(3, 0, 0), Err(Error::OutOfRange));
    assert_eq!(imd.write_sector(0, 0, 1, &[1]), Err(Error::PartialSector));
    imd.write_sector(0, 0, 1, &[7; 128]).expect("write uniform");
    imd.write_sector(0, 0, 2, &pattern(128)).expect("write mixed");
    assert!(matches!(imd.track[0].sector_data[1].data, SectorData::Compressed(7, 128)));
    assert!(matches!(imd.track[0].sector_data[2].data, SectorData::Normal(_)));
    assert_eq!(imd.read_sector(0, 0, 1).expect("read"), vec![7; 128]);
    assert_eq!(imd.read_sector(0, 0, 0).expect("read"), data[0..128].to_vec());
    let again = IMD::from_bytes(&imd.as_vec().expect("as_vec")).expect("parse");
    assert_eq!(again.repr().expect("repr"), imd.repr().expect("repr"));
    assert_eq!(again.track.len(), 6);
    let img = IMG::from_vec(data.clone(), g);
    let copy = IMD::from_img(IMG::from_vec(data.clone(), g));
    assert_eq!(copy.to_raw().expect("to_raw"), (g, data.clone()));
    assert_eq!(copy.geometry, g);
    assert_eq!(copy.track.len(), 6);
    for (t, track) in copy.track.iter().enumerate() {
        assert_eq!((track.cylinder as usize, track.head as usize), (t / 2, t % 2));
        assert_eq!(track.sector_map, (1..=4).collect::<Vec<u8>>());
    }
    for c in 0..3 {
        for h in 0..2 {
            for sector in 0..4 {
                assert_eq!(copy.read_sector(c, h, sector), img.read_sector(c, h, sector));
            }
        }
    }
    for comment in [&copy.comment, &imd.comment] {
        assert!(comment.starts_with("IMD 1.18: "));
        assert!(comment.ends_with("\nConverted from IMG by rt11fs[1]\n[1]: https://porkrind.org/rt11fs\n"));
        let stamp: Vec<char> = comment["IMD 1.18: ".len()..].chars().take(19).collect();
        for (i, c) in stamp.iter().enumerate() {
            match i {
                2 | 5 => assert_eq!(*c, '/'),
                10 => assert_eq!(*c, ' '),
                13 | 16 => assert_eq!(*c, ':'),
                _ => assert!(c.is_ascii_digit()),
            }
        }
        assert_eq!(comment.chars().nth("IMD 1.18: ".len() + 19), Some('\n'));
    }
}

#[test]
fn time_stamps() {
    let day = Date { year: 2023, month: 1, day: 19 };
    assert_eq!(stamp_of(day, 0), "01/19/2023 00:00:00");
    assert_eq!(stamp_of(day, 3723), "01/19/2023 01:02:03");
    assert_eq!(stamp_of(Date { year: 1999, month: 12, day: 31 }, 86399), "12/31/1999 23:59:59");
    assert_eq!(stamp_of(Date { year: 806, month: 10, day: 5 }, 45296), "10/05/0806 12:34:56");
    assert_eq!(stamp_of(Date { year: -1, month: 1, day: 1 }, 60), "01/01/0000 00:01:00");
    assert_eq!(stamp_of(Date { year: 10000, month: 1, day: 1 }, 60), "01/01/0000 00:01:00");
}

#[test]
fn comments_of_new_images() {
    assert_eq!(
        comment_at(Some((Date { year: 2023, month: 1, day: 19 }, 3723))),
        "IMD 1.18: 01/19/2023 01:02:03\nConverted from IMG by rt11fs[1]\n[1]: https://porkrind.org/rt11fs\n"
    );
    assert_eq!(
        comment_at(None),
        "IMD 1.18: 01/01/1970 00:00:00\nConverted from IMG by rt11fs[1]\n[1]: https://porkrind.org/rt11fs\n"
    );
}

#[test]
fn moments() {
    assert_eq!(moment(0), Some((Date { year: 1970, month: 1, day: 1 }, 0)));
    assert_eq!(moment(86399), Some((Date { year: 1970, month: 1, day: 1 }, 86399)));
    assert_eq!(moment(86400), Some((Date { year: 1970, month: 1, day: 2 }, 0)));
    assert_eq!(moment(1674137045), Some((Date { year: 2023, month: 1, day: 19 }, 50645)));
    assert_eq!(moment(951782400), Some((Date { year: 2000, month: 2, day: 29 }, 0)));
    assert_eq!(moment(u64::MAX), None);
    assert_eq!(moment(i64::MAX as u64), None);
}

#[test]
fn clock_days() {
    let (day, second) = now().expect("the clock shows a day");
    assert!(day.year >= 2023);
    assert_eq!(Date::from_ymd_opt(day.year, day.month, day.day), Some(day));
    assert!(second < 86400);
    let again = today().expect("the clock shows a day");
    assert!(again == day || Date::from_yo_opt(day.year, day.ordinal() + 1) == Some(again) || again.year == day.year + 1);
}

#[test]
fn filename_words_roundtrip() {
    assert_eq!(encode_filename("TEST.TXT"), Ok([0x7ddb, 0x7d00, 0x80d4]));
    assert_eq!(encode_filename("EMPTYF.ILE"), Ok([0x2158, 0x80ee, 0x3a25]));
    for name in ["TEST.TXT", "A.B", "ABCDEF.GHI", "X$1.9", "A B.C"] {
        assert_eq!(decode_filename(&encode_filename(name).expect("encode")), name);
    }
    for bad in ["", "NODOT", ".TXT", "TOOLONG1.TXT", "A.", "A.LONG", "a.b", "A%.B", "A_B.C", "\u{e9}.B"] {
        assert_eq!(encode_filename(bad), Err(Error::NameInvalid));
    }
    assert_eq!(decode_filename(&[0, 0, 0]), ".");
}

#[test]
fn calendar_days() {
    assert_eq!(Date::from_ymd_opt(2023, 2, 29), None);
    assert_eq!(Date::from_ymd_opt(2024, 2, 29), Some(Date { year: 2024, month: 2, day: 29 }));
    assert_eq!(Date::from_ymd_opt(2023, 13, 1), None);
    assert_eq!(Date::from_yo_opt(2023, 365), Some(Date { year: 2023, month: 12, day: 31 }));
    assert_eq!(Date::from_yo_opt(2023, 366), None);
    assert_eq!(Date::from_yo_opt(2024, 60), Some(Date { year: 2024, month: 2, day: 29 }));
    assert_eq!(Date { year: 1982, month: 12, day: 8 }.ordinal(), 342);
}

#[test]
fn image_detection() {
    assert!(matches!(open_device(vec![0; 256256]), Ok(Device::RX(RX(Medium::IMG(_))))));
    assert!(matches!(open_device(vec![0; 512512]), Ok(Device::RX(RX(Medium::IMG(_))))));
    match open_device(vec![0; 1024 * 1024 + 100]) {
        Ok(Device::Flat(Flat(Medium::IMG(img)))) => assert_eq!(img.geometry.sectors, 2048),
        _ => panic!("flat image expected"),
    }
    assert!(matches!(open_device(vec![0; 1000]), Err(Error::Format)));
    assert!(matches!(open_device(vec![]), Err(Error::Format)));
    assert!(matches!(open_device(b"IMD".to_vec()), Err(Error::Format)));
    let floppy = IMD::from_raw(vec![0; 256256], rx01_geometry()).repr().expect("repr");
    assert!(matches!(open_device(floppy), Ok(Device::RX(RX(Medium::IMD(_))))));
    let other = IMD::from_raw(vec![0; small().bytes()], small()).repr().expect("repr");
    assert!(matches!(open_device(other), Err(Error::Unsupported)));
}

#[test]
fn create_and_reopen_images() {
    for (image_type, fstype) in [
        (ImageType::IMG, FileSystemType::RT11),
        (ImageType::IMD, FileSystemType::RT11),
        (ImageType::IMG, FileSystemType::XXDP),
        (ImageType::IMD, FileSystemType::XXDP),
    ] {
        let mut fs = create_image(image_type, DeviceType::RX01, fstype).expect("create");
        fs.write_file("HELLO.TXT", b"hello").expect("write");
        assert_eq!(&fs.read_file("HELLO.TXT").expect("read")[0..5], b"hello");
        assert_eq!(fs.used_blocks() + fs.free_blocks(), if fstype == FileSystemType::RT11 { 494 - 14 } else { 494 });
        let file = fs.block_device().physical_device().as_vec().expect("as_vec");
        let again = open_fs(open_device(file).expect("open device")).expect("open fs");
        assert_eq!(again.filesystem_name(), fs.filesystem_name());
        assert!(again.contains_file("HELLO.TXT"));
        assert_eq!(matches!(again, Volume::RT11(_)), fstype == FileSystemType::RT11);
    }
    assert!(matches!(create_image(ImageType::IMG, DeviceType::Flat(100), FileSystemType::RT11), Err(Error::Format)));
    assert!(matches!(
        create_image(ImageType::IMD, DeviceType::Flat(512 * 300), FileSystemType::RT11),
        Err(Error::Unsupported)
    ));
    assert!(create_image(ImageType::IMG, DeviceType::Flat(512 * 300), FileSystemType::XXDP).is_ok());
    assert!(matches!(open_fs(open_device(vec![0; 256256]).expect("device")), Err(Error::Format)));
}

#[test]
fn operations_on_a_volume() {
    let mut fs = create_image(ImageType::IMG, DeviceType::RX02, FileSystemType::XXDP).expect("create");
    assert_eq!(path_to_rt11_filename("file.txt"), "FILE.TXT");
    fs.write_file(&path_to_rt11_filename("a.txt"), b"a").expect("write");
    fs.write_file("B.TXT", b"b").expect("write");
    assert_eq!(mv(&mut fs, "a.txt", "b.txt", false), Err(Error::Exists));
    mv(&mut fs, "a.txt", "b.txt", true).expect("mv");
    assert!(!fs.contains_file("A.TXT"));
    assert_eq!(&fs.read_file("B.TXT").expect("read")[0..1], b"a");
    rm(&mut fs, "b.txt").expect("rm");
    assert_eq!(rm(&mut fs, "b.txt"), Err(Error::NotFound));
    assert_eq!(ImageType::from_file_ext("img"), Ok(ImageType::IMG));
    assert_eq!(ImageType::from_file_ext("imd"), Ok(ImageType::IMD));
    assert_eq!(ImageType::from_file_ext("iso"), Err(Error::Format));
    assert_eq!(DeviceType::Flat(2048).geometry().sectors, 4);
}

#[test]
fn conversion_keeps_the_sectors() {
    let fs = create_image(ImageType::IMG, DeviceType::RX01, FileSystemType::RT11).expect("create");
    let imd = convert(fs.block_device(), ImageType::IMD).expect("convert");
    let img = convert(fs.block_device(), ImageType::IMG).expect("convert");
    assert!(matches!(imd, Medium::IMD(_)) && matches!(img, Medium::IMG(_)));
    assert_eq!(imd.to_raw().expect("raw"), fs.block_device().physical_device().to_raw().expect("raw"));
    assert_eq!(img.to_raw().expect("raw"), imd.to_raw().expect("raw"));
}

#[test]
fn medium_holds_what_the_device_writes() {
    let g = rx01_geometry();
    let mut dev = RX(IMG::from_vec(vec![0; 256256], g));
    dev.write_sector(13, &[0x5A; 128]).expect("write");
    assert_eq!(*dev.physical_device().geometry(), g);
    let mut expected = vec![0u8; 256256];
    expected[(26 + 1) * 128..(26 + 2) * 128].fill(0x5A);
    assert_eq!(dev.physical_device().data, expected);
    dev.write_blocks(1, 1, &pattern(512)).expect("write");
    for (i, lin) in (4..8).enumerate() {
        let (c, h, s) = dev.physical_from_logical(lin);
        assert_eq!((c, h), (1, 0));
        let at = (c * 26 + s) * 128;
        expected[at..at + 128].copy_from_slice(&pattern(512)[i * 128..(i + 1) * 128]);
    }
    assert_eq!(dev.physical_device().data, expected);
    assert_eq!(dev.write_sector(1976, &[1; 128]), Err(Error::OutOfRange));
    assert_eq!(dev.write_sector(0, &[1; 127]), Err(Error::PartialSector));
    assert_eq!(dev.write_blocks(493, 2, &[7; 1024]), Err(Error::OutOfRange));
    let (c, _, s) = dev.physical_from_logical(1975);
    for (i, lin) in (1972..1976).enumerate() {
        let (c, _, s) = dev.physical_from_logical(lin);
        let at = (c * 26 + s) * 128;
        expected[at..at + 128].copy_from_slice(&[7; 1024][i * 128..(i + 1) * 128]);
    }
    assert_eq!((c, s), (76, (25 * 2 + 1 + 75 * 6) % 26));
    assert_eq!(dev.physical_device().data, expected);
    assert_eq!(*dev.physical_device().geometry(), g);
    let mut flat = Flat(IMG::from_vec(vec![0; small().bytes()], small()));
    flat.write_sector(5, &pattern(128)).expect("write");
    let mut expected = vec![0u8; small().bytes()];
    expected[5 * 128..6 * 128].copy_from_slice(&pattern(128));
    assert_eq!(flat.physical_device().data, expected);
}

#[test]
fn img_write_changes_one_sector() {
    let g = small();
    let mut img = IMG::from_vec(pattern(g.bytes()), g);
    let mut expected = pattern(g.bytes());
    img.write_sector(2, 1, 3, &[9; 128]).expect("write");
    expected[23 * 128..24 * 128].fill(9);
    assert_eq!((img.geometry, img.data.clone()), (g, expected.clone()));
    assert_eq!(img.write_sector(3, 0, 0, &[9; 128]), Err(Error::OutOfRange));
    assert_eq!(img.write_sector(0, 0, 0, &[9; 12]), Err(Error::PartialSector));
    assert_eq!((img.geometry, img.data), (g, expected));
}

#[test]
fn dated_write_on_a_volume() {
    let mut fs = create_image(ImageType::IMG, DeviceType::RX01, FileSystemType::RT11).expect("create");
    let day = Date { year: 1999, month: 12, day: 31 };
    fs.write_file_dated("OLD.TXT", b"old", day).expect("write");
    match &fs {
        Volume::RT11(v) => assert_eq!(v.stat("OLD.TXT").expect("stat").creation_date, Some(day)),
        Volume::XXDP(_) => panic!("an RT-11 volume was made"),
    }
    fs.write_file("NEW.TXT", b"new").expect("write");
    match &fs {
        Volume::RT11(v) => assert_eq!(v.stat("NEW.TXT").expect("stat").creation_date, pdpfs::date::today()),
        Volume::XXDP(_) => panic!("an RT-11 volume was made"),
    }
    assert_eq!(fs.write_file_dated("bad name", b"x", day), Err(Error::NameInvalid));
}
