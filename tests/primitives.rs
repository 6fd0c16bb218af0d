use gc_fst::align;
use gc_fst::banner::{create_opening_bnr, CreateOpeningBnrError, GameInfo, GameRegion, RGB5A1Image};
use gc_fst::boot::{apploader_size, dol_size};
use gc_fst::edit::{collapse_empty_dirs, mkdir_all, sweep_deletions};
use gc_fst::errors::OperateISOError;
use gc_fst::fst::{read_name, FsEntry};
use gc_fst::path::{name_precedes, split_path};
use gc_fst::space::{first_fit, free_space, sort_extents, ROM_SIZE};

fn dir(n: &str) -> FsEntry {
    FsEntry::PushDir { name: n.as_bytes().to_vec() }
}

fn file(n: &str, offset: u32, size: u32) -> FsEntry {
    FsEntry::File { name: n.as_bytes().to_vec(), offset, size }
}

#[test]
fn align_rounds_up_to_powers_of_two() {
    assert_eq!(align(0, 15), 0);
    assert_eq!(align(1, 15), 0x8000);
    assert_eq!(align(0x8000, 15), 0x8000);
    assert_eq!(align(0x8001, 15), 0x10000);
    assert_eq!(align(33, 5), 64);
    assert_eq!(align(9, 3), 16);
}

#[test]
fn names_are_read_up_to_nul() {
    let buf = b"ab\0cd".to_vec();
    assert_eq!(read_name(&buf, 0), Some(b"ab".to_vec()));
    assert_eq!(read_name(&buf, 2), Some(Vec::new()));
    assert_eq!(read_name(&buf, 3), None);
    assert_eq!(read_name(&buf, 9), None);
}

#[test]
fn names_must_be_utf8() {
    assert_eq!(read_name(&[0xff, 0x00], 0), None);
    assert_eq!(read_name(&[0xc3, 0xa9, 0x00], 0), Some(vec![0xc3, 0xa9]));
}

#[test]
fn mkdir_all_refuses_an_unclosed_directory() {
    let mut fs = vec![dir("a"), file("f", 0, 1)];
    assert!(matches!(mkdir_all(&mut fs, "b"), Err(OperateISOError::InvalidISO)));
}

#[test]
fn paths_split_on_slashes() {
    assert_eq!(split_path(b"/a//b/"), vec![b"a".to_vec(), b"b".to_vec()]);
    assert_eq!(split_path(b""), Vec::<Vec<u8>>::new());
}

#[test]
fn name_order_ignores_ascii_case() {
    assert!(name_precedes(b"abc", b"ABD"));
    assert!(name_precedes(b"ABC", b"abc"));
    assert!(!name_precedes(b"abc", b"ABC"));
    assert!(name_precedes(b"a", b"a_"));
    assert!(name_precedes(b"_", b"Z"));
    assert!(name_precedes(b"a_", b"Z"));
    assert!(!name_precedes(b"x", b"x"));
}

#[test]
fn free_space_lies_between_payloads() {
    let used = sort_extents(&vec![(0x20000, 0x10), (0x8000, 0x8001), (0x40000, 4)]);
    assert_eq!(used, vec![(0x8000, 0x8001), (0x20000, 0x10), (0x40000, 4)]);
    let free = free_space(&used, 0x3000);
    assert_eq!(free, vec![(0x18000, 0x20000), (0x28000, 0x40000), (0x48000, ROM_SIZE)]);
    let none = free_space(&vec![], 0x3000);
    assert_eq!(none, vec![(0x8000, ROM_SIZE)]);
}

#[test]
fn first_fit_takes_the_first_range_that_holds_the_payload() {
    let mut free = vec![(0x18000, 0x20000), (0x28000, 0x40000), (0x48000, ROM_SIZE)];
    assert_eq!(first_fit(&mut free, 0x9000), Some(0x28000));
    assert_eq!(free, vec![(0x18000, 0x20000), (0x38000, 0x40000), (0x48000, ROM_SIZE)]);
    assert_eq!(first_fit(&mut free, 0x100), Some(0x18000));
    assert_eq!(free[0], (0x20000, 0x20000));
    assert_eq!(first_fit(&mut free, 0x6000_0000), None);
}

#[test]
fn deletions_drop_the_named_files_once() {
    let fs = vec![dir("d"), file("f", 0, 1), FsEntry::PopDir, file("f", 0, 2)];
    let kept = sweep_deletions(&fs, vec![vec![b"d".to_vec(), b"f".to_vec()]]);
    assert_eq!(kept, vec![dir("d"), FsEntry::PopDir, file("f", 0, 2)]);
    assert_eq!(collapse_empty_dirs(&kept), vec![file("f", 0, 2)]);
}

#[test]
fn nested_empty_directories_collapse() {
    let fs = vec![dir("a"), dir("b"), FsEntry::PopDir, FsEntry::PopDir, dir("c"), file("g", 0, 1), FsEntry::PopDir];
    assert_eq!(collapse_empty_dirs(&fs), vec![dir("c"), file("g", 0, 1), FsEntry::PopDir]);
}

#[test]
fn mkdir_all_adds_missing_directories_in_order() {
    let mut fs = vec![dir("b"), FsEntry::PopDir, file("z", 0, 1)];
    let at = mkdir_all(&mut fs, "/a/c").unwrap();
    assert_eq!(fs, vec![dir("a"), dir("c"), FsEntry::PopDir, FsEntry::PopDir, dir("b"), FsEntry::PopDir, file("z", 0, 1)]);
    assert_eq!(at, 2);
    let again = mkdir_all(&mut fs, "b").unwrap();
    assert_eq!(again, 5);
    assert!(matches!(mkdir_all(&mut fs, "z/q"), Err(OperateISOError::InvalidISOPath(_))));
    assert!(matches!(mkdir_all(&mut fs, "a/.."), Err(OperateISOError::InvalidISOPath(_))));
}

#[test]
fn apploader_and_dol_sizes() {
    let mut iso = vec![0u8; 0x2460];
    iso[0x2454..0x2458].copy_from_slice(&0x1001u32.to_be_bytes());
    iso[0x2458..0x245c].copy_from_slice(&0x20u32.to_be_bytes());
    assert_eq!(apploader_size(&iso), Some(0x1040));
    assert_eq!(apploader_size(&iso[..0x2450]), None);
    let mut dol = vec![0u8; 0xd8];
    dol[4..8].copy_from_slice(&0x100u32.to_be_bytes());
    dol[0x94..0x98].copy_from_slice(&0x80u32.to_be_bytes());
    dol[8..12].copy_from_slice(&0x400u32.to_be_bytes());
    dol[0x98..0x9c].copy_from_slice(&0x10u32.to_be_bytes());
    assert_eq!(dol_size(&dol), Some(0x410));
    assert_eq!(dol_size(&dol[..0xd0]), None);
}

#[test]
fn rgba8_pixels_become_tiled_rgb5a1() {
    let mut data = [[0u8; 4]; 3072];
    data[0] = [0xff, 0x00, 0x00, 0x80];
    data[1] = [0x00, 0xff, 0x00, 0x00];
    // row 1, column 0: the fifth pixel of the first tile
    data[96] = [0x00, 0x00, 0xff, 0xff];
    // column 4: the first pixel of the second tile
    data[4] = [0x08, 0x08, 0x08, 0x00];
    let img = RGB5A1Image::from_rgba8(&data);
    assert_eq!(img.0[0], 0x80 | (0x1f << 2));
    assert_eq!(img.0[1], 0x00);
    assert_eq!(img.0[2], 0x03);
    assert_eq!(img.0[3], 0xe0);
    assert_eq!(img.0[8], 0x80);
    assert_eq!(img.0[9], 0x1f);
    assert_eq!(img.0[32], 1 << 2);
    assert_eq!(img.0[33], (1 << 5) | 1);
}

fn info<'a>(banner: &'a RGB5A1Image, title: &'a str, desc: &'a str) -> GameInfo<'a> {
    GameInfo {
        region: GameRegion::Eu,
        game_title: title,
        developer_title: "Dev",
        full_game_title: "Full",
        full_developer_title: "Full Dev",
        game_description: desc,
        banner,
    }
}

#[test]
fn opening_bnr_holds_its_fields() {
    let banner = RGB5A1Image(Box::new([7u8; 0x1800]));
    let bnr = create_opening_bnr(info(&banner, "Training Mode", "Desc")).unwrap();
    assert_eq!(&bnr[0..4], b"BNR2");
    assert_eq!(&bnr[4..0x20], &[0u8; 0x1c][..]);
    assert_eq!(bnr[0x20], 7);
    assert_eq!(bnr[0x181f], 7);
    assert_eq!(&bnr[0x1820..0x182d], b"Training Mode");
    assert_eq!(bnr[0x182d], 0);
    assert_eq!(&bnr[0x1840..0x1843], b"Dev");
    assert_eq!(&bnr[0x1860..0x1864], b"Full");
    assert_eq!(&bnr[0x18a0..0x18a8], b"Full Dev");
    assert_eq!(&bnr[0x18e0..0x18e4], b"Desc");
    assert_eq!(bnr[0x195f], 0);
}

#[test]
fn opening_bnr_rejects_long_texts() {
    let banner = RGB5A1Image(Box::new([0u8; 0x1800]));
    let long = "x".repeat(0x20);
    assert_eq!(info(&banner, &long, "").verify(), Err(CreateOpeningBnrError::GameTitleTooLong));
    assert!(matches!(create_opening_bnr(info(&banner, &long, "")), Err(CreateOpeningBnrError::GameTitleTooLong)));
    let desc = "y".repeat(0x80);
    assert_eq!(info(&banner, "t", &desc).verify(), Err(CreateOpeningBnrError::GameDescTooLong));
    let ok = "y".repeat(0x7f);
    assert_eq!(info(&banner, "t", &ok).verify(), Ok(()));
    let mut i = info(&banner, "t", "");
    i.developer_title = "0123456789abcdef0123456789abcdef";
    assert_eq!(i.verify(), Err(CreateOpeningBnrError::DevTitleTooLong));
    i.developer_title = "";
    i.full_game_title = "0123456789abcdef0123456789abcdef0123456789abcdef0123456789abcdef";
    assert_eq!(i.verify(), Err(CreateOpeningBnrError::FullGameTitleTooLong));
    i.full_game_title = "";
    i.full_developer_title = "0123456789abcdef0123456789abcdef0123456789abcdef0123456789abcdef";
    assert_eq!(i.verify(), Err(CreateOpeningBnrError::FullDevTitleTooLong));
}
