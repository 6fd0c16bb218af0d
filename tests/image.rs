use gc_fst::bytes::write_u32;
use gc_fst::extract::{plan_extract, select_files};
use gc_fst::fst::{parse_fst, write_toc, FsEntry};
use gc_fst::layout::{layout_image, order_children, HostChild, Layout};
use gc_fst::operate::{boot_file_of, plan_operation, BootFile, IsoEdit, IsoOp};
use gc_fst::errors::{OperateISOError, ReadISOError, WriteISOError};
use gc_fst::read_u32;

fn dir(n: &str) -> FsEntry {
    FsEntry::PushDir { name: n.as_bytes().to_vec() }
}

fn pop() -> FsEntry {
    FsEntry::PopDir
}

fn file(n: &str, size: u32) -> FsEntry {
    FsEntry::File { name: n.as_bytes().to_vec(), offset: 0, size }
}

fn boot_blobs() -> (Vec<u8>, Vec<u8>, Vec<u8>) {
    let mut hdr = vec![0u8; 0x2440];
    hdr[0..6].copy_from_slice(b"GALE01");
    let mut apploader = vec![0u8; 0x40];
    // code size 0x20 and trailer size 0x10 at 0x2454 and 0x2458
    apploader[0x14..0x18].copy_from_slice(&0x20u32.to_be_bytes());
    apploader[0x18..0x1c].copy_from_slice(&0x10u32.to_be_bytes());
    let mut dol = vec![0u8; 0x120];
    // one segment at 0x100 of 0x20 bytes
    dol[0..4].copy_from_slice(&0x100u32.to_be_bytes());
    dol[0x90..0x94].copy_from_slice(&0x20u32.to_be_bytes());
    (hdr, apploader, dol)
}

/// Builds an image holding `entries`, each file filled with a byte of its
/// own, and returns it with its layout.
fn build(entries: &Vec<FsEntry>) -> (Vec<u8>, Layout) {
    let (hdr, apploader, dol) = boot_blobs();
    let l = layout_image(hdr.len() as u64, apploader.len() as u64, dol.len() as u64, entries).unwrap();
    let mut iso = vec![0u8; l.end as usize];
    iso[..hdr.len()].copy_from_slice(&hdr);
    let a = l.apploader_offset as usize;
    iso[a..a + apploader.len()].copy_from_slice(&apploader);
    let d = l.dol_offset as usize;
    iso[d..d + dol.len()].copy_from_slice(&dol);
    let f = l.fst_offset as usize;
    iso[f..f + l.toc.len()].copy_from_slice(&l.toc);
    iso[0x420..0x430].copy_from_slice(&l.header_info);
    let mut fill = 1u8;
    for e in l.entries.iter() {
        if let FsEntry::File { offset, size, .. } = e {
            for b in iso[*offset as usize..(*offset + *size) as usize].iter_mut() {
                *b = fill;
            }
            fill = fill.wrapping_add(1);
        }
    }
    (iso, l)
}

fn sample_tree() -> Vec<FsEntry> {
    vec![
        dir("audio"),
        file("a.hps", 0x9000),
        file("z.hps", 0x100),
        pop(),
        file("MnSlChr.dat", 0x20),
        dir("x"),
        dir("y"),
        file("only.dat", 0x10),
        pop(),
        pop(),
        file("zz.dat", 0x30),
    ]
}

fn table_of(iso: &Vec<u8>) -> (u32, Vec<u8>) {
    let fst_offset = read_u32(iso, 0x424);
    let fst_size = read_u32(iso, 0x428);
    (fst_offset, iso[fst_offset as usize..(fst_offset + fst_size) as usize].to_vec())
}

fn plan(iso: &Vec<u8>, ops: &Vec<IsoOp>, sizes: &Vec<u64>) -> Result<IsoEdit, OperateISOError> {
    let (fst_offset, fst) = table_of(iso);
    plan_operation(ops, sizes, iso.len() as u64, read_u32(iso, 0x420), fst_offset, &fst)
}

/// Applies an edit to an image held in memory, as the command line does to a file.
fn apply(iso: &mut Vec<u8>, edit: &IsoEdit, sizes: &Vec<u64>) {
    for (k, offset) in edit.payloads.iter() {
        let end = *offset as usize + sizes[*k] as usize;
        if iso.len() < end {
            iso.resize(end, 0);
        }
        for b in iso[*offset as usize..end].iter_mut() {
            *b = 0xee;
        }
    }
    let f = edit.fst_offset as usize;
    if iso.len() < f + edit.toc.len() {
        iso.resize(f + edit.toc.len(), 0);
    }
    iso[f..f + edit.toc.len()].copy_from_slice(&edit.toc);
    iso[0x420..0x430].copy_from_slice(&edit.header_info);
}

fn names_in_dir(entries: &Vec<FsEntry>, dir_name: &str) -> Vec<String> {
    let mut out = Vec::new();
    let mut depth = 0i32;
    let mut inside = false;
    for e in entries.iter() {
        match e {
            FsEntry::PushDir { name } => {
                if inside && depth == 1 {
                    out.push(String::from_utf8(name.clone()).unwrap());
                }
                if !inside && name == dir_name.as_bytes() {
                    inside = true;
                    depth = 0;
                }
                if inside {
                    depth += 1;
                }
            }
            FsEntry::PopDir => {
                if inside {
                    depth -= 1;
                    if depth == 0 {
                        inside = false;
                    }
                }
            }
            FsEntry::File { name, .. } => {
                if inside && depth == 1 {
                    out.push(String::from_utf8(name.clone()).unwrap());
                }
            }
        }
    }
    out
}

fn file_of<'a>(entries: &'a Vec<FsEntry>, wanted: &str) -> Option<(u32, u32)> {
    for e in entries.iter() {
        if let FsEntry::File { name, offset, size } = e {
            if name == wanted.as_bytes() {
                return Some((*offset, *size));
            }
        }
    }
    None
}

#[test]
fn extract_then_rebuild_gives_the_same_image() {
    let (iso, l) = build(&sample_tree());
    let p = plan_extract(&iso).unwrap();
    assert_eq!(p.entries, l.entries);
    assert_eq!(p.apploader_end, 0x2440 + 0x40);
    assert_eq!(p.dol_offset, l.dol_offset);
    assert_eq!(p.dol_end, l.dol_offset + 0x120);
    // rebuild from what was extracted: the same boot files, the same tree
    let files = p.entries.iter().filter(|e| matches!(e, FsEntry::File { .. })).count();
    let dirs = p.entries.iter().filter(|e| matches!(e, FsEntry::PushDir { .. })).count();
    assert_eq!(files, 5);
    assert_eq!(dirs, 3);
    let (again, l2) = build(&p.entries);
    assert_eq!(l2.toc, l.toc);
    assert_eq!(again, iso);
}

#[test]
fn single_insert_into_existing_directory() {
    let (iso, _) = build(&sample_tree());
    let (_, fst) = table_of(&iso);
    let count_before = read_u32(&fst, 8);
    let ops = vec![IsoOp::Insert { iso_path: "/audio/new.hps", input_path: "new.hps" }];
    let sizes = vec![4 * 1024 * 1024u64];
    let edit = plan(&iso, &ops, &sizes).unwrap();
    assert_eq!(names_in_dir(&edit.entries, "audio"), vec!["a.hps", "new.hps", "z.hps"]);
    let (offset, size) = file_of(&edit.entries, "new.hps").unwrap();
    assert_eq!(offset % 0x8000, 0);
    assert_eq!(size, 4 * 1024 * 1024);
    assert_eq!(edit.payloads, vec![(0usize, offset)]);
    assert_eq!(read_u32(&edit.toc, 8), count_before + 1);
    assert_eq!(parse_fst(&edit.toc, 0).unwrap(), edit.entries);
}

#[test]
fn insert_and_delete_in_one_batch_leave_the_table_as_it_was() {
    // a deletion that follows an insertion of the same path cancels it
    let (iso, l) = build(&sample_tree());
    let ops = vec![
        IsoOp::Insert { iso_path: "/a/b.dat", input_path: "f" },
        IsoOp::Delete { iso_path: "/a/b.dat" },
    ];
    let sizes = vec![0x10u64, 0];
    let edit = plan(&iso, &ops, &sizes).unwrap();
    assert!(file_of(&edit.entries, "b.dat").is_none());
    assert!(edit.payloads.is_empty());
    assert_eq!(edit.toc, l.toc);
}

#[test]
fn a_deletion_before_an_insertion_does_not_cancel_it() {
    let (iso, _) = build(&sample_tree());
    let ops = vec![
        IsoOp::Delete { iso_path: "/a/b.dat" },
        IsoOp::Insert { iso_path: "/a/b.dat", input_path: "f" },
    ];
    let edit = plan(&iso, &ops, &vec![0, 0x10u64]).unwrap();
    assert!(file_of(&edit.entries, "b.dat").is_some());
    assert_eq!(edit.payloads.len(), 1);
    assert_eq!(edit.payloads[0].0, 1);
}

#[test]
fn names_that_are_not_utf8_make_the_table_invalid() {
    let (iso, _) = build(&sample_tree());
    let (fst_offset, mut fst) = table_of(&iso);
    // the first name in the pool is "audio"; make its first byte 0xff
    let count = read_u32(&fst, 8) as usize;
    fst[12 * count] = 0xff;
    assert!(parse_fst(&fst, 0).is_none());
    let ops = vec![IsoOp::Delete { iso_path: "zz.dat" }];
    let r = plan_operation(&ops, &vec![0], iso.len() as u64, read_u32(&iso, 0x420), fst_offset, &fst);
    assert!(matches!(r, Err(OperateISOError::InvalidISO)));
    assert!(select_files(&fst, &vec!["zz.dat"]).is_none());
}

#[test]
fn inserting_through_a_file_is_refused() {
    let (iso, _) = build(&sample_tree());
    let ops = vec![IsoOp::Insert { iso_path: "zz.dat/inner.dat", input_path: "f" }];
    assert!(matches!(plan(&iso, &ops, &vec![1u64]), Err(OperateISOError::InvalidISOPath(_))));
}

#[test]
fn every_kept_file_stays_with_its_place() {
    let (iso, l) = build(&sample_tree());
    let ops = vec![IsoOp::Insert { iso_path: "x/new.dat", input_path: "n" }];
    let edit = plan(&iso, &ops, &vec![0x40u64]).unwrap();
    for e in l.entries.iter() {
        if let FsEntry::File { .. } = e {
            assert!(edit.entries.contains(e));
        }
    }
    assert_eq!(names_in_dir(&edit.entries, "x"), vec!["new.dat", "y"]);
}

#[test]
fn insert_then_delete_restores_the_table() {
    let (mut iso, _) = build(&sample_tree());
    let (_, fst_before) = table_of(&iso);
    let sizes = vec![0x10u64];
    let ops = vec![IsoOp::Insert { iso_path: "/a/b.dat", input_path: "f" }];
    let edit = plan(&iso, &ops, &sizes).unwrap();
    apply(&mut iso, &edit, &sizes);
    assert!(file_of(&edit.entries, "b.dat").is_some());
    let ops = vec![IsoOp::Delete { iso_path: "/a/b.dat" }];
    let sizes = vec![0u64];
    let edit = plan(&iso, &ops, &sizes).unwrap();
    apply(&mut iso, &edit, &sizes);
    let (_, fst_after) = table_of(&iso);
    assert_eq!(fst_after, fst_before);
}

#[test]
fn delete_collapses_empty_directories() {
    let (iso, _) = build(&sample_tree());
    let ops = vec![IsoOp::Delete { iso_path: "/x/y/only.dat" }];
    let sizes = vec![0u64];
    let edit = plan(&iso, &ops, &sizes).unwrap();
    let expected = vec![
        dir("audio"),
        file("a.hps", 0x9000),
        file("z.hps", 0x100),
        pop(),
        file("MnSlChr.dat", 0x20),
        file("zz.dat", 0x30),
    ];
    let shape: Vec<FsEntry> = edit
        .entries
        .iter()
        .map(|e| match e {
            FsEntry::File { name, size, .. } => FsEntry::File { name: name.clone(), offset: 0, size: *size },
            other => other.clone(),
        })
        .collect();
    assert_eq!(shape, expected);
    // the root now holds 6 entries; audio's next index is 4
    assert_eq!(read_u32(&edit.toc, 8), 6);
    assert_eq!(read_u32(&edit.toc, 12 + 8), 4);
    assert!(edit.payloads.is_empty());
}

#[test]
fn boot_header_replacement() {
    let (iso, l) = build(&sample_tree());
    let ops = vec![IsoOp::Insert { iso_path: "ISO.hdr", input_path: "new.hdr" }];
    let sizes = vec![0x2440u64];
    let edit = plan(&iso, &ops, &sizes).unwrap();
    assert_eq!(edit.iso_hdr, Some(0));
    assert_eq!(edit.apploader, None);
    assert_eq!(edit.start_dol, None);
    assert!(edit.payloads.is_empty());
    assert_eq!(edit.toc, l.toc);
    let mut words = Vec::new();
    words.extend_from_slice(&l.dol_offset.to_be_bytes());
    words.extend_from_slice(&l.fst_offset.to_be_bytes());
    words.extend_from_slice(&(l.toc.len() as u32).to_be_bytes());
    words.extend_from_slice(&(l.toc.len() as u32).to_be_bytes());
    assert_eq!(edit.header_info, words);
}

#[test]
fn insert_beyond_capacity() {
    let (iso, _) = build(&sample_tree());
    let ops = vec![IsoOp::Insert { iso_path: "/big.dat", input_path: "big" }];
    let sizes = vec![1_503_238_554u64];
    assert!(matches!(plan(&iso, &ops, &sizes), Err(OperateISOError::ISOTooLarge)));
}

#[test]
fn inserted_payloads_avoid_every_kept_file() {
    let (iso, _) = build(&sample_tree());
    let ops = vec![
        IsoOp::Delete { iso_path: "audio/z.hps" },
        IsoOp::Insert { iso_path: "audio/b.hps", input_path: "b" },
        IsoOp::Insert { iso_path: "c.dat", input_path: "c" },
    ];
    let sizes = vec![0u64, 0x100, 0x100];
    let edit = plan(&iso, &ops, &sizes).unwrap();
    let mut extents = Vec::new();
    for e in edit.entries.iter() {
        if let FsEntry::File { offset, size, .. } = e {
            extents.push((*offset as u64, *offset as u64 + *size as u64));
        }
    }
    for (i, a) in extents.iter().enumerate() {
        for (j, b) in extents.iter().enumerate() {
            if i != j {
                assert!(a.1 <= b.0 || b.1 <= a.0);
            }
        }
        assert_eq!(a.0 % 0x8000, 0);
    }
    // b.hps takes the room that z.hps left, the first free range
    let (b_off, _) = file_of(&edit.entries, "b.hps").unwrap();
    let (m_off, _) = file_of(&edit.entries, "MnSlChr.dat").unwrap();
    assert!(b_off < m_off);
    assert!(file_of(&edit.entries, "z.hps").is_none());
}

#[test]
fn replacing_a_file_keeps_one_entry() {
    let (iso, _) = build(&sample_tree());
    let ops = vec![IsoOp::Insert { iso_path: "MnSlChr.dat", input_path: "m" }];
    let sizes = vec![0x40u64];
    let edit = plan(&iso, &ops, &sizes).unwrap();
    let n = edit.entries.iter().filter(|e| matches!(e, FsEntry::File { name, .. } if name == b"MnSlChr.dat")).count();
    assert_eq!(n, 1);
    assert_eq!(file_of(&edit.entries, "MnSlChr.dat").unwrap().1, 0x40);
}

#[test]
fn inserting_over_a_directory_is_refused() {
    let (iso, _) = build(&sample_tree());
    let ops = vec![IsoOp::Insert { iso_path: "audio", input_path: "f" }];
    let sizes = vec![1u64];
    assert!(matches!(plan(&iso, &ops, &sizes), Err(OperateISOError::FileInsertionReplicatesFolder(_))));
}

#[test]
fn reserved_and_dot_paths_are_refused() {
    let (iso, _) = build(&sample_tree());
    for p in ["&&systemdata/x.dat", "a/../b.dat", "./c.dat", "/", "caf\u{e9}.dat"] {
        let ops = vec![IsoOp::Insert { iso_path: p, input_path: "f" }];
        let sizes = vec![1u64];
        assert!(matches!(plan(&iso, &ops, &sizes), Err(OperateISOError::InvalidISOPath(_))), "{}", p);
    }
}

#[test]
fn too_long_image_is_invalid() {
    let (iso, _) = build(&sample_tree());
    let (fst_offset, fst) = table_of(&iso);
    let ops = vec![IsoOp::Delete { iso_path: "zz.dat" }];
    let r = plan_operation(&ops, &vec![0], 0x5705_8001, read_u32(&iso, 0x420), fst_offset, &fst);
    assert!(matches!(r, Err(OperateISOError::InvalidISO)));
}

#[test]
fn malformed_table_is_invalid() {
    let (iso, _) = build(&sample_tree());
    let (fst_offset, mut fst) = table_of(&iso);
    // the first entry, a directory, now ends before itself
    let n = fst.len();
    fst[12 + 8..12 + 12].copy_from_slice(&1u32.to_be_bytes());
    assert_eq!(n, fst.len());
    let ops = vec![IsoOp::Delete { iso_path: "zz.dat" }];
    let r = plan_operation(&ops, &vec![0], iso.len() as u64, read_u32(&iso, 0x420), fst_offset, &fst);
    assert!(matches!(r, Err(OperateISOError::InvalidISO)));
    assert!(parse_fst(&fst, 0).is_none());
}

#[test]
fn table_too_large_for_the_first_payload() {
    let (iso, l) = build(&sample_tree());
    let first = l
        .entries
        .iter()
        .filter_map(|e| match e { FsEntry::File { offset, .. } => Some(*offset), _ => None })
        .min()
        .unwrap();
    let room = (first - l.fst_offset) as usize - l.toc.len();
    // a new entry takes 12 bytes and its name with a NUL
    let long = "n".repeat(room);
    let path = format!("audio/{}", long);
    let ops = vec![IsoOp::Insert { iso_path: &path, input_path: "f" }];
    assert!(matches!(plan(&iso, &ops, &vec![1u64]), Err(OperateISOError::TOCTooLarge)));
    let fits = "n".repeat(room - 13);
    let path = format!("audio/{}", fits);
    let ops = vec![IsoOp::Insert { iso_path: &path, input_path: "f" }];
    let edit = plan(&iso, &ops, &vec![1u64]).unwrap();
    assert_eq!(edit.toc.len(), (first - l.fst_offset) as usize);
}

#[test]
fn selected_files_are_found_by_path() {
    let (iso, l) = build(&sample_tree());
    let (_, fst) = table_of(&iso);
    let reqs = vec!["x/y/only.dat", "/audio/z.hps", "missing.dat", "audio/z.hps"];
    let copies = select_files(&fst, &reqs).unwrap();
    let (z_off, z_size) = file_of(&l.entries, "z.hps").unwrap();
    let (o_off, o_size) = file_of(&l.entries, "only.dat").unwrap();
    assert_eq!(copies, vec![(1, z_off, z_size), (3, z_off, z_size), (0, o_off, o_size)]);
}

#[test]
fn extraction_rejects_a_file_past_the_end() {
    let (mut iso, _) = build(&sample_tree());
    iso.truncate(iso.len() - 1);
    assert!(matches!(plan_extract(&iso), Err(ReadISOError::InvalidISO)));
}

#[test]
fn extraction_rejects_a_too_long_image() {
    let iso = vec![0u8; 0x5705_8001];
    assert!(matches!(plan_extract(&iso), Err(ReadISOError::InvalidISO)));
}

#[test]
fn layout_rejects_names_past_the_string_pool() {
    let long = "n".repeat(0x100_0000);
    let entries = vec![file("a", 1), FsEntry::File { name: long.into_bytes(), offset: 0, size: 1 }];
    assert!(matches!(layout_image(0x2440, 0x40, 0x120, &entries), Err(WriteISOError::InvalidFilename(_))));
}

#[test]
fn layout_rejects_an_oversized_tree() {
    let entries = vec![file("a", 0x5000_0000), file("b", 0x1000_0000)];
    assert!(matches!(layout_image(0x2440, 0x40, 0x120, &entries), Err(WriteISOError::ISOTooLarge)));
}

#[test]
fn layout_places_boot_files_and_payloads() {
    let entries = vec![file("a", 0x10), file("b", 0x8001), file("c", 1)];
    let l = layout_image(0x2440, 0x41, 0x123, &entries).unwrap();
    assert_eq!(l.apploader_offset, 0x2440);
    assert_eq!(l.dol_offset, 0x2488);
    assert_eq!(l.fst_offset, 0x25b0);
    assert_eq!(l.toc.len(), 12 * 4 + 6);
    let offsets: Vec<u32> = l.entries.iter().map(|e| match e { FsEntry::File { offset, .. } => *offset, _ => 0 }).collect();
    assert_eq!(offsets, vec![0x8000, 0x10000, 0x20000]);
    assert_eq!(l.end, 0x20001);
}

#[test]
fn children_are_ordered_without_case() {
    let kids = vec![
        HostChild { name: b"b.dat".to_vec(), is_dir: false, size: 1 },
        HostChild { name: b"&&systemdata".to_vec(), is_dir: true, size: 0 },
        HostChild { name: b"A".to_vec(), is_dir: true, size: 0 },
        HostChild { name: b"a".to_vec(), is_dir: false, size: 2 },
        HostChild { name: b"C.dat".to_vec(), is_dir: false, size: 3 },
    ];
    let names: Vec<Vec<u8>> = order_children(kids).into_iter().map(|c| c.name).collect();
    assert_eq!(names, vec![b"A".to_vec(), b"a".to_vec(), b"b.dat".to_vec(), b"C.dat".to_vec()]);
}

#[test]
fn table_round_trips_through_the_reader() {
    let entries = vec![dir("d"), dir("e"), pop(), file("f", 3), pop(), file("g", 4)];
    let toc = write_toc(&entries).unwrap();
    // root: flag 1, count 5
    assert_eq!(&toc[0..12], &[1, 0, 0, 0, 0, 0, 0, 0, 0, 0, 0, 5]);
    // d: directory, name offset 0, parent 0, next 4
    assert_eq!(&toc[12..24], &[1, 0, 0, 0, 0, 0, 0, 0, 0, 0, 0, 4]);
    // e: directory, name offset 2, parent 1, next 3
    assert_eq!(&toc[24..36], &[1, 0, 0, 2, 0, 0, 0, 1, 0, 0, 0, 3]);
    assert_eq!(&toc[60..], b"d\0e\0f\0g\0");
    assert_eq!(parse_fst(&toc, 0).unwrap(), entries);
}

#[test]
fn unclosed_directories_are_closed_at_the_end() {
    let toc = write_toc(&vec![dir("d"), file("f", 1)]).unwrap();
    assert_eq!(read_u32(&toc, 12 + 8), 3);
    assert_eq!(parse_fst(&toc, 0).unwrap(), vec![dir("d"), file("f", 1), pop()]);
}

#[test]
fn header_words_are_written_big_endian() {
    let mut v = vec![0u8; 8];
    write_u32(&mut v, 2, 0x0102_0304);
    assert_eq!(v, vec![0, 0, 1, 2, 3, 4, 0, 0]);
    assert_eq!(read_u32(&v, 2), 0x0102_0304);
}

#[test]
fn boot_files_are_told_apart() {
    assert_eq!(boot_file_of("ISO.hdr"), Some(BootFile::IsoHdr));
    assert_eq!(boot_file_of("/AppLoader.ldr"), Some(BootFile::AppLoader));
    assert_eq!(boot_file_of("Start.dol"), Some(BootFile::StartDol));
    assert_eq!(boot_file_of("sys/Start.dol"), None);
    assert_eq!(boot_file_of("iso.hdr"), None);
}

#[test]
fn edited_table_keeps_next_indices_consistent() {
    let (iso, _) = build(&sample_tree());
    let ops = vec![
        IsoOp::Insert { iso_path: "x/w/new.dat", input_path: "n" },
        IsoOp::Delete { iso_path: "audio/a.hps" },
    ];
    let edit = plan(&iso, &ops, &vec![0x20u64, 0]).unwrap();
    let toc = &edit.toc;
    let count = read_u32(toc, 8);
    for i in 1..count {
        let at = (12 * i) as usize;
        if toc[at] != 0 {
            let next = read_u32(toc, (at + 8) as u32);
            assert!(i < next && next <= count);
            for j in i + 1..next {
                let bt = (12 * j) as usize;
                if toc[bt] != 0 {
                    let parent = read_u32(toc, (bt + 4) as u32);
                    assert!(i <= parent && parent < next);
                }
            }
        }
    }
    assert_eq!(names_in_dir(&edit.entries, "x"), vec!["w", "y"]);
    assert_eq!(names_in_dir(&edit.entries, "audio"), vec!["z.hps"]);
}
