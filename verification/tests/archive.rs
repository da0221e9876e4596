#![allow(dead_code)]

use std::io::Read;

use cotopha::compact::CompactCO;
use cotopha::compact::CompactEntry;
use cotopha::Error;
use cotopha::CSX;

const MAGIC: &[u8; 56] = b"Entis\x1a\x00\x00\xff\xff\xff\xff\x00\x00\x00\x00Cotopha Image file\x00\x00\x00\x00\x00\x00\x00\x00\x00\x00\x00\x00\x00\x00\x00\x00\x00\x00\x00\x00\x00\x00";

fn utf16(name: &str) -> Vec<u8> {
    let mut bytes = Vec::new();
    for unit in name.encode_utf16() {
        bytes.extend_from_slice(&unit.to_le_bytes());
    }
    bytes
}

fn bytecode(name: &str, body: &[u8]) -> Vec<u8> {
    let name = utf16(name);
    let mut bytes = vec![4u8];
    bytes.extend_from_slice(&((name.len() / 2) as u32).to_le_bytes());
    bytes.extend_from_slice(&name);
    bytes.extend_from_slice(body);
    bytes
}

fn section(tag: &[u8; 8], body: &[u8]) -> Vec<u8> {
    let mut bytes = tag.to_vec();
    bytes.extend_from_slice(&(body.len() as u64).to_le_bytes());
    bytes.extend_from_slice(body);
    bytes
}

fn units(name: &[u8]) -> Vec<u16> {
    name.chunks_exact(2).map(|pair| u16::from_le_bytes([pair[0], pair[1]])).collect()
}

fn directory(functions: &[(&str, Vec<u8>)]) -> Vec<u8> {
    let mut prologues = Vec::new();
    let mut named = Vec::new();
    let mut address = 0u32;
    for (name, body) in functions {
        if *name == "@Initialize" {
            prologues.push(address);
        } else {
            named.push((address, utf16(name)));
        }
        address += bytecode(name, body).len() as u32;
    }
    named.sort_by(|a, b| units(&a.1).cmp(&units(&b.1)));
    let mut bytes = Vec::new();
    bytes.extend_from_slice(&(prologues.len() as u32).to_le_bytes());
    for address in prologues {
        bytes.extend_from_slice(&address.to_le_bytes());
    }
    bytes.extend_from_slice(&0u32.to_le_bytes());
    bytes.extend_from_slice(&(named.len() as u32).to_le_bytes());
    for (address, name) in named {
        bytes.extend_from_slice(&address.to_le_bytes());
        bytes.extend_from_slice(&((name.len() / 2) as u32).to_le_bytes());
        bytes.extend_from_slice(&name);
    }
    bytes
}

fn file(sections: &[Vec<u8>]) -> Vec<u8> {
    let body: Vec<u8> = sections.concat();
    let mut bytes = MAGIC.to_vec();
    bytes.extend_from_slice(&(body.len() as u64).to_le_bytes());
    bytes.extend_from_slice(&body);
    bytes
}

fn image(functions: &[(&str, Vec<u8>)], global: &[u8], data: &[u8]) -> Vec<u8> {
    let mut code = Vec::new();
    for (name, body) in functions {
        code.extend_from_slice(&bytecode(name, body));
    }
    file(&[
        section(b"image   ", &code),
        section(b"function", &directory(functions)),
        section(b"global  ", global),
        section(b"data    ", data),
        section(b"conststr", &[0; 4]),
        section(b"linkinf ", &[0; 16]),
    ])
}

fn base_of(bytes: &[u8]) -> CSX {
    let mut cursor = bytes;
    CSX::new(&mut cursor).expect("a base")
}

fn mod_of(base: &CSX, bytes: &[u8]) -> CSX {
    let mut cursor = bytes;
    base.new_mods(&mut cursor).expect("a mod")
}

fn written(image: &CSX) -> Vec<u8> {
    assert!(image.can_rebuild());
    image.rebuild()
}

fn body_of(bytes: &[u8], tag: &[u8; 8]) -> Vec<u8> {
    let mut at = 64;
    while at < bytes.len() {
        let len = u64::from_le_bytes(bytes[at + 8..at + 16].try_into().unwrap()) as usize;
        if &bytes[at..at + 8] == tag {
            return bytes[at + 16..at + 16 + len].to_vec();
        }
        at += 16 + len;
    }
    panic!("no such section")
}

fn listed_names(bytes: &[u8]) -> Vec<String> {
    let listing = body_of(bytes, b"function");
    let prologues = u32::from_le_bytes(listing[0..4].try_into().unwrap()) as usize;
    let mut at = 4 + 4 * prologues + 4;
    let named = u32::from_le_bytes(listing[at..at + 4].try_into().unwrap()) as usize;
    at += 4;
    let mut names = Vec::new();
    for _ in 0..named {
        let count = u32::from_le_bytes(listing[at + 4..at + 8].try_into().unwrap()) as usize;
        let name = &listing[at + 8..at + 8 + 2 * count];
        names.push(String::from_utf16(&units(name)).unwrap());
        at += 8 + 2 * count;
    }
    names
}


fn big(seed: u32) -> Vec<u8> {
    let mut state = seed;
    let mut bytes = Vec::new();
    for _ in 0..4000 {
        state = state.wrapping_mul(1664525).wrapping_add(1013904223);
        bytes.push((state >> 24) as u8);
    }
    bytes
}

fn base_bytes() -> Vec<u8> {
    image(
        &[("@Initialize", vec![1]), ("Big", big(7)), ("Small", vec![1, 2])],
        &[1, 2, 3, 4],
        &[9, 9],
    )
}

fn entries_of(bytes: &[u8]) -> Vec<(Vec<u8>, u8, Vec<u8>)> {
    let mut at = 36;
    let mut entries = Vec::new();
    while at < bytes.len() {
        let flag = at + bytes[at..].iter().position(|b| *b == 0xc0 || *b == 0xc1).unwrap();
        let len = u32::from_le_bytes(bytes[flag + 1..flag + 5].try_into().unwrap()) as usize;
        entries.push((bytes[at..flag].to_vec(), bytes[flag], bytes[flag + 5..flag + 5 + len].to_vec()));
        at = flag + 5 + len;
    }
    entries
}

fn inflate(data: &[u8]) -> Vec<u8> {
    let mut out = Vec::new();
    flate2::bufread::ZlibDecoder::new(data).read_to_end(&mut out).unwrap();
    out
}

fn archive_of(bytes: &[u8]) -> Result<CompactCO, Error> {
    let mut cursor = bytes;
    CompactCO::new(&mut cursor)
}

fn frame(hash: &[u8], entries: &[(&[u8], u8, &[u8])]) -> Vec<u8> {
    let mut bytes = b"Senko\x1a\x00\x00".to_vec();
    bytes.extend_from_slice(hash);
    for (name, flag, data) in entries {
        bytes.extend_from_slice(name);
        bytes.push(*flag);
        bytes.extend_from_slice(&(data.len() as u32).to_le_bytes());
        bytes.extend_from_slice(data);
    }
    bytes
}

#[test]
fn a_one_byte_change_is_stored_as_a_short_delta() {
    let base = base_of(&base_bytes());
    let mut changed = big(7);
    changed[2000] ^= 0x55;
    let mod_bytes = image(&[("Big", changed.clone())], &[1, 2, 3, 4], &[9, 9]);
    let mods = mod_of(&base, &mod_bytes);
    let archive = CompactCO::compress(&base, &mods).unwrap();
    assert!(archive.can_rebuild());
    let bytes = archive.rebuild();
    let entries = entries_of(&bytes);
    assert_eq!(entries.len(), 3);
    assert_eq!(entries[0].0, b" global ");
    assert_eq!(entries[1].0, b" data ");
    assert_eq!(entries[2].0, b"Big");
    assert_eq!(entries[2].1, 0xc1);
    let raw = bytecode("Big", &changed);
    assert!(entries[2].2.len() < raw.len());
    assert!(entries[2].2.len() < 200);
    let mut patched = Vec::new();
    let delta = inflate(&entries[2].2);
    bsdiff::patch(&bytecode("Big", &big(7)), &mut &delta[..], &mut patched).unwrap();
    assert_eq!(patched, raw);
    let restored = archive_of(&bytes).unwrap().decompress(&base).unwrap();
    assert_eq!(written(&restored), mod_bytes);
}

#[test]
fn what_does_not_shrink_is_stored_as_it_is() {
    let base = base_of(&base_bytes());
    let mod_bytes = image(&[("Tiny", vec![1])], &[1, 2], &[9]);
    let mods = mod_of(&base, &mod_bytes);
    let bytes = CompactCO::compress(&base, &mods).unwrap().rebuild();
    let entries = entries_of(&bytes);
    assert_eq!(entries[0], (b" global ".to_vec(), 0xc0, vec![1, 2]));
    assert_eq!(entries[1], (b" data ".to_vec(), 0xc0, vec![9]));
    assert_eq!(entries[2], (b"Tiny".to_vec(), 0xc0, bytecode("Tiny", &[1])));
    let restored = archive_of(&bytes).unwrap().decompress(&base).unwrap();
    assert_eq!(written(&restored), mod_bytes);
}

#[test]
fn a_new_function_is_compressed_without_a_delta() {
    let base = base_of(&base_bytes());
    let body = vec![3u8; 3000];
    let mod_bytes = image(&[("Fresh", body.clone())], &[1, 2, 3, 4], &[9, 9]);
    let mods = mod_of(&base, &mod_bytes);
    let bytes = CompactCO::compress(&base, &mods).unwrap().rebuild();
    let entries = entries_of(&bytes);
    assert_eq!(entries[2].1, 0xc1);
    assert_eq!(inflate(&entries[2].2), bytecode("Fresh", &body));
    let restored = archive_of(&bytes).unwrap().decompress(&base).unwrap();
    assert_eq!(written(&restored), mod_bytes);
}

#[test]
fn packing_keeps_the_order_of_the_functions() {
    let base = base_of(&base_bytes());
    let mod_bytes = image(
        &[
            ("Zed", vec![1; 300]),
            ("@Initialize", vec![2; 50]),
            ("Small", vec![3; 700]),
            ("Big", big(9)),
            ("Abe", vec![]),
        ],
        &[1, 2, 3],
        &[9, 9],
    );
    let mods = mod_of(&base, &mod_bytes);
    let bytes = CompactCO::compress(&base, &mods).unwrap().rebuild();
    let names: Vec<Vec<u8>> = entries_of(&bytes).into_iter().map(|e| e.0).collect();
    assert_eq!(
        names,
        vec![
            b" global ".to_vec(),
            b" data ".to_vec(),
            b"Zed".to_vec(),
            b"@Initialize".to_vec(),
            b"Small".to_vec(),
            b"Big".to_vec(),
            b"Abe".to_vec()
        ]
    );
    let restored = archive_of(&bytes).unwrap().decompress(&base).unwrap();
    assert_eq!(written(&restored), mod_bytes);
}

#[test]
fn the_archive_carries_the_digest_of_the_base() {
    let bytes = image(&[("@Initialize", vec![]), ("Hello", vec![1, 2, 3])], &[9], &[8]);
    let base = base_of(&bytes);
    let mods = mod_of(&base, &image(&[], &[9], &[8]));
    let archive = CompactCO::compress(&base, &mods).unwrap().rebuild();
    let expected: [u8; 28] = [
        0xa9, 0xdf, 0xea, 0xf9, 0x9d, 0x34, 0x25, 0xb2, 0x94, 0xec, 0x94, 0xab, 0x86, 0xde,
        0x08, 0x60, 0x0c, 0x5f, 0x7f, 0x23, 0xda, 0x40, 0x21, 0xa4, 0x90, 0xfa, 0x26, 0xe0,
    ];
    assert_eq!(&archive[..8], b"Senko\x1a\x00\x00");
    assert_eq!(&archive[8..36], &expected);
}

#[test]
fn a_frame_round_trips() {
    let bytes = frame(
        &[7; 28],
        &[
            (b" global ", 0xc0, &[1, 2, 3]),
            (b"", 0xc1, &[]),
            ("\u{540d}\u{524d}".as_bytes(), 0xc1, &[0xc0, 0xc1, 0xff]),
            (b"Last", 0xc0, &[0; 300]),
        ],
    );
    let mut cursor = &bytes[..];
    let archive = CompactCO::new(&mut cursor).unwrap();
    assert!(cursor.is_empty());
    assert!(archive.can_rebuild());
    assert_eq!(archive.rebuild(), bytes);
}

#[test]
fn an_archive_without_entries() {
    let bytes = frame(&[1; 28], &[]);
    assert_eq!(archive_of(&bytes).unwrap().rebuild(), bytes);
}

#[test]
fn frame_failures_leave_the_cursor_at_the_field() {
    let bytes = frame(&[7; 28], &[(b"Name", 0xc0, &[1, 2, 3])]);
    let offset = |upto: usize| {
        let mut cursor = &bytes[..upto];
        let failed = matches!(CompactCO::new(&mut cursor), Err(Error::UnexpectedEof));
        (failed, upto - cursor.len())
    };
    assert_eq!(offset(35), (true, 0));
    assert_eq!(offset(38), (true, 36));
    assert_eq!(offset(41), (true, 41));
    assert_eq!(offset(44), (true, 41));
    assert_eq!(offset(47), (true, 45));
    let mut wrong = bytes.clone();
    wrong[0] = b's';
    let mut cursor = &wrong[..];
    assert!(matches!(CompactCO::new(&mut cursor), Err(Error::BadMagic)));
    assert_eq!(wrong.len() - cursor.len(), 36);
}

#[test]
fn a_name_that_is_no_utf8_is_reported() {
    let bytes = frame(&[7; 28], &[(&[b'a', 0xff], 0xc0, &[1])]);
    let mut cursor = &bytes[..];
    assert!(matches!(CompactCO::new(&mut cursor), Err(Error::DecodeUtf8(_))));
    assert_eq!(bytes.len() - cursor.len(), 38);
}

#[test]
fn a_broken_stream_is_an_io_failure() {
    let base = base_of(&base_bytes());
    let hash = CompactCO::compress(&base, &mod_of(&base, &image(&[], &[1], &[9])))
        .unwrap()
        .rebuild()[8..36]
        .to_vec();
    let bytes = frame(&hash, &[(b"New", 0xc1, &[1, 2, 3, 4])]);
    assert!(matches!(archive_of(&bytes).unwrap().decompress(&base), Err(Error::IO(_))));
    let mut stream = Vec::new();
    flate2::bufread::ZlibEncoder::new(&[1u8, 2, 3][..], flate2::Compression::best())
        .read_to_end(&mut stream)
        .unwrap();
    let bytes = frame(&hash, &[(b"Big", 0xc1, &stream)]);
    assert!(matches!(archive_of(&bytes).unwrap().decompress(&base), Err(Error::IO(_))));
    let bytes = frame(&hash, &[(b"New", 0xc1, &stream)]);
    let mods = archive_of(&bytes).unwrap().decompress(&base).unwrap();
    let entry = CompactEntry { name: "New".to_string(), zlib: true, data: stream };
    let function = entry.unpack(&base).unwrap();
    assert_eq!(function.name, "New");
    assert_eq!(function.bytecode, vec![1, 2, 3]);
    assert!(!mods.can_rebuild());
}

#[test]
fn the_shorter_form_is_picked() {
    let entry = CompactEntry::pick("n".to_string(), vec![1, 2], &[5, 6, 7]);
    assert!(entry.zlib);
    assert_eq!(entry.data, vec![1, 2]);
    assert_eq!(entry.name, "n");
    let entry = CompactEntry::pick("n".to_string(), vec![1, 2, 3], &[5, 6, 7]);
    assert!(!entry.zlib);
    assert_eq!(entry.data, vec![5, 6, 7]);
    let entry = CompactEntry::pick("n".to_string(), vec![1, 2, 3, 4], &[5, 6, 7]);
    assert!(!entry.zlib);
    assert_eq!(entry.data, vec![5, 6, 7]);
    let entry = CompactEntry::pick("n".to_string(), vec![], &[]);
    assert!(!entry.zlib);
    assert_eq!(entry.data, Vec::<u8>::new());
}

#[test]
fn an_entry_is_shorter_exactly_when_it_is_compressed() {
    let old = big(3);
    let mut new = old.clone();
    new[10] = new[10].wrapping_add(1);
    let cases: Vec<(Option<&[u8]>, Vec<u8>)> = vec![
        (Some(&old[..]), new.clone()),
        (None, new.clone()),
        (None, vec![0; 1000]),
        (Some(&old[..]), vec![]),
        (None, vec![1, 2, 3]),
        (Some(&[][..]), vec![4; 64]),
    ];
    for (base_data, mods_data) in cases {
        let entry = CompactEntry::make("x".to_string(), base_data, &mods_data).unwrap();
        assert_eq!(entry.zlib, entry.data.len() < mods_data.len());
        if entry.zlib {
            let stream = inflate(&entry.data);
            match base_data {
                Some(base_data) => {
                    let mut patched = Vec::new();
                    bsdiff::patch(base_data, &mut &stream[..], &mut patched).unwrap();
                    assert_eq!(patched, mods_data);
                }
                None => assert_eq!(stream, mods_data),
            }
        } else {
            assert_eq!(entry.data, mods_data);
        }
    }
    let entry = CompactEntry::make("x".to_string(), Some(&old[..]), &new).unwrap();
    assert!(entry.zlib);
    let entry = CompactEntry::make("x".to_string(), None, &new).unwrap();
    assert!(!entry.zlib);
}

#[test]
fn a_mod_that_does_not_fit_is_not_packed() {
    let base = base_of(&base_bytes());
    let mods = mod_of(&base, &image(&[], &[1, 2, 3, 4, 5], &[9]));
    assert!(matches!(CompactCO::compress(&base, &mods), Err(Error::IncompatibleGlobal)));
    let mods = mod_of(&base, &image(&[], &[1, 2], &[8]));
    assert!(matches!(CompactCO::compress(&base, &mods), Err(Error::IncompatibleData)));
}

#[test]
fn an_unpacked_mod_applies_like_the_mod() {
    let mod_bytes = image(
        &[("Big", big(11)), ("More", vec![5; 10]), ("@Initialize", vec![6])],
        &[1, 2, 3],
        &[9, 9],
    );
    let mut direct = base_of(&base_bytes());
    let mods = mod_of(&direct, &mod_bytes);
    let archive = CompactCO::compress(&direct, &mods).unwrap().rebuild();
    direct.apply_all_mods(mods).unwrap();
    let mut packed = base_of(&base_bytes());
    let mods = archive_of(&archive).unwrap().decompress(&packed).unwrap();
    packed.apply_all_mods(mods).unwrap();
    assert_eq!(written(&packed), written(&direct));
    assert_eq!(
        written(&direct),
        image(
            &[
                ("@Initialize", vec![1]),
                ("Big", big(11)),
                ("Small", vec![1, 2]),
                ("More", vec![5; 10]),
                ("@Initialize", vec![6]),
            ],
            &[1, 2, 3],
            &[9, 9],
        )
    );
}
