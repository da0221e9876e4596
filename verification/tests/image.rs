use cotopha::compact::CompactCO;
use cotopha::Error;
use cotopha::CSX;

const MAGIC: &[u8; 56] = b"Entis\x1a\x00\x00\xff\xff\xff\xff\x00\x00\x00\x00Cotopha Image file\x00\x00\x00\x00\x00\x00\x00\x00\x00\x00\x00\x00\x00\x00\x00\x00\x00\x00\x00\x00\x00\x00";

fn utf16(name: &str) -> Vec<u8> {
    let mut bytes = Vec::new();
    for unit in name.encode_utf16() {
        bytes.extend_from_slice(&unit.to_le_bytes());
    }
    bytes
}

fn bytecode(name: &str, body: &[u8]) -> Vec<u8> {
    let name = utf16(name);
    let mut bytes = vec![4u8];
    bytes.extend_from_slice(&((name.len() / 2) as u32).to_le_bytes());
    bytes.extend_from_slice(&name);
    bytes.extend_from_slice(body);
    bytes
}

fn section(tag: &[u8; 8], body: &[u8]) -> Vec<u8> {
    let mut bytes = tag.to_vec();
    bytes.extend_from_slice(&(body.len() as u64).to_le_bytes());
    bytes.extend_from_slice(body);
    bytes
}

fn units(name: &[u8]) -> Vec<u16> {
    name.chunks_exact(2).map(|pair| u16::from_le_bytes([pair[0], pair[1]])).collect()
}

fn directory(functions: &[(&str, Vec<u8>)]) -> Vec<u8> {
    let mut prologues = Vec::new();
    let mut named = Vec::new();
    let mut address = 0u32;
    for (name, body) in functions {
        if *name == "@Initialize" {
            prologues.push(address);
        } else {
            named.push((address, utf16(name)));
        }
        address += bytecode(name, body).len() as u32;
    }
    named.sort_by(|a, b| units(&a.1).cmp(&units(&b.1)));
    let mut bytes = Vec::new();
    bytes.extend_from_slice(&(prologues.len() as u32).to_le_bytes());
    for address in prologues {
        bytes.extend_from_slice(&address.to_le_bytes());
    }
    bytes.extend_from_slice(&0u32.to_le_bytes());
    bytes.extend_from_slice(&(named.len() as u32).to_le_bytes());
    for (address, name) in named {
        bytes.extend_from_slice(&address.to_le_bytes());
        bytes.extend_from_slice(&((name.len() / 2) as u32).to_le_bytes());
        bytes.extend_from_slice(&name);
    }
    bytes
}

fn file(sections: &[Vec<u8>]) -> Vec<u8> {
    let body: Vec<u8> = sections.concat();
    let mut bytes = MAGIC.to_vec();
    bytes.extend_from_slice(&(body.len() as u64).to_le_bytes());
    bytes.extend_from_slice(&body);
    bytes
}

fn image(functions: &[(&str, Vec<u8>)], global: &[u8], data: &[u8]) -> Vec<u8> {
    let mut code = Vec::new();
    for (name, body) in functions {
        code.extend_from_slice(&bytecode(name, body));
    }
    file(&[
        section(b"image   ", &code),
        section(b"function", &directory(functions)),
        section(b"global  ", global),
        section(b"data    ", data),
        section(b"conststr", &[0; 4]),
        section(b"linkinf ", &[0; 16]),
    ])
}

fn base_of(bytes: &[u8]) -> CSX {
    let mut cursor = bytes;
    CSX::new(&mut cursor).expect("a base")
}

fn mod_of(base: &CSX, bytes: &[u8]) -> CSX {
    let mut cursor = bytes;
    base.new_mods(&mut cursor).expect("a mod")
}

fn written(image: &CSX) -> Vec<u8> {
    assert!(image.can_rebuild());
    image.rebuild()
}

fn body_of(bytes: &[u8], tag: &[u8; 8]) -> Vec<u8> {
    let mut at = 64;
    while at < bytes.len() {
        let len = u64::from_le_bytes(bytes[at + 8..at + 16].try_into().unwrap()) as usize;
        if &bytes[at..at + 8] == tag {
            return bytes[at + 16..at + 16 + len].to_vec();
        }
        at += 16 + len;
    }
    panic!("no such section")
}

fn listed_names(bytes: &[u8]) -> Vec<String> {
    let listing = body_of(bytes, b"function");
    let prologues = u32::from_le_bytes(listing[0..4].try_into().unwrap()) as usize;
    let mut at = 4 + 4 * prologues + 4;
    let named = u32::from_le_bytes(listing[at..at + 4].try_into().unwrap()) as usize;
    at += 4;
    let mut names = Vec::new();
    for _ in 0..named {
        let count = u32::from_le_bytes(listing[at + 4..at + 8].try_into().unwrap()) as usize;
        let name = &listing[at + 8..at + 8 + 2 * count];
        names.push(String::from_utf16(&units(name)).unwrap());
        at += 8 + 2 * count;
    }
    names
}

fn minimal() -> Vec<u8> {
    image(&[("@Initialize", vec![]), ("Hello", vec![1, 2, 3])], &[9], &[8])
}

fn abc() -> Vec<u8> {
    image(
        &[
            ("@Initialize", vec![0, 1]),
            ("A", vec![10; 5]),
            ("B", vec![20; 6]),
            ("C", vec![30; 7]),
        ],
        &[1, 2, 3],
        &[7, 7],
    )
}

#[test]
fn minimal_base_round_trips() {
    let bytes = minimal();
    let mut cursor = &bytes[..];
    let base = CSX::new(&mut cursor).unwrap();
    assert!(cursor.is_empty());
    assert!(base.can_rebuild());
    assert_eq!(base.rebuild(), bytes);
}

#[test]
fn rebuilt_base_parses_to_the_same_image() {
    let bytes = file(&[
        section(b"data    ", &[5, 6]),
        section(b"global  ", &[1]),
        section(b"function", &directory(&[("@Initialize", vec![]), ("Zed", vec![1]), ("Abe", vec![2])])),
        section(
            b"image   ",
            &[bytecode("@Initialize", &[]), bytecode("Zed", &[1]), bytecode("Abe", &[2])].concat(),
        ),
    ]);
    let first = written(&base_of(&bytes));
    assert_ne!(first, bytes);
    let second = written(&base_of(&first));
    assert_eq!(second, first);
    assert_eq!(
        first,
        image(&[("@Initialize", vec![]), ("Zed", vec![1]), ("Abe", vec![2])], &[1], &[5, 6])
    );
}

#[test]
fn directory_is_sorted_by_code_units() {
    let bytes = image(
        &[
            ("@Initialize", vec![]),
            ("b", vec![1]),
            ("\u{ff5e}", vec![2]),
            ("\u{1f600}", vec![3]),
            ("B", vec![4]),
            ("ab", vec![5]),
            ("a", vec![6]),
        ],
        &[1],
        &[1],
    );
    let out = written(&base_of(&bytes));
    assert_eq!(out, bytes);
    assert_eq!(listed_names(&out), vec!["B", "a", "ab", "b", "\u{1f600}", "\u{ff5e}"]);
}

#[test]
fn mod_overrides_and_adds() {
    let mut base = base_of(&abc());
    let mods = mod_of(
        &base,
        &image(&[("B", vec![99; 3]), ("D", vec![40; 2])], &[1, 2, 3], &[7, 7]),
    );
    base.apply_all_mods(mods).unwrap();
    let out = written(&base);
    assert_eq!(listed_names(&out), vec!["A", "B", "C", "D"]);
    let expected = image(
        &[
            ("@Initialize", vec![0, 1]),
            ("A", vec![10; 5]),
            ("B", vec![99; 3]),
            ("C", vec![30; 7]),
            ("D", vec![40; 2]),
        ],
        &[1, 2, 3],
        &[7, 7],
    );
    assert_eq!(out, expected);
}

#[test]
fn mod_prologues_are_appended() {
    let mut base = base_of(&abc());
    let mods = mod_of(
        &base,
        &image(&[("@Initialize", vec![5]), ("@Initialize", vec![6])], &[1, 2, 3], &[7, 7]),
    );
    base.apply_all_mods(mods).unwrap();
    let expected = image(
        &[
            ("@Initialize", vec![0, 1]),
            ("A", vec![10; 5]),
            ("B", vec![20; 6]),
            ("C", vec![30; 7]),
            ("@Initialize", vec![5]),
            ("@Initialize", vec![6]),
        ],
        &[1, 2, 3],
        &[7, 7],
    );
    assert_eq!(written(&base), expected);
}

#[test]
fn two_mods_adding_one_name_conflict() {
    let mut base = base_of(&abc());
    let first = mod_of(&base, &image(&[("X", vec![1])], &[1, 2, 3], &[7, 7]));
    let second = mod_of(&base, &image(&[("X", vec![2])], &[1, 2, 3], &[7, 7]));
    let joined = CSX::concat_mods(vec![first, second]).unwrap();
    let before = written(&base);
    match base.apply_all_mods(joined) {
        Err(Error::ModsConflicts(name)) => assert_eq!(name, "X"),
        other => panic!("unexpected: {:?}", other.err()),
    }
    assert_eq!(written(&base), before);
}

#[test]
fn a_name_taken_by_an_earlier_mod_conflicts() {
    let mut base = base_of(&abc());
    let first = mod_of(&base, &image(&[("B", vec![1])], &[1, 2, 3], &[7, 7]));
    let second = mod_of(&base, &image(&[("A", vec![3]), ("B", vec![2])], &[1, 2, 3], &[7, 7]));
    base.apply_all_mods(first).unwrap();
    let before = written(&base);
    match base.apply_all_mods(second) {
        Err(Error::ModsConflicts(name)) => assert_eq!(name, "B"),
        other => panic!("unexpected: {:?}", other.err()),
    }
    assert_eq!(written(&base), before);
}

#[test]
fn globals_grow_along_the_longest_prefix() {
    let base = base_of(&image(&[("A", vec![])], &[1, 2, 3], &[4]));
    let first = mod_of(&base, &image(&[("B", vec![])], &[1, 2, 3, 4], &[4]));
    let second = mod_of(&base, &image(&[("C", vec![])], &[1, 2, 3, 4, 5], &[4]));
    let third = mod_of(&base, &image(&[("D", vec![])], &[1, 2], &[4]));
    let joined = CSX::concat_mods(vec![first, second, third]).unwrap();
    let out = written(&joined);
    assert_eq!(body_of(&out, b"global  "), vec![1, 2, 3, 4, 5]);
    assert_eq!(body_of(&out, b"data    "), vec![4]);
    assert_eq!(listed_names(&out), vec!["B", "C", "D"]);
}

#[test]
fn a_mod_longer_than_its_base_is_not_applied() {
    let mut base = base_of(&image(&[("A", vec![])], &[1, 2, 3], &[4]));
    let first = mod_of(&base, &image(&[("B", vec![])], &[1, 2, 3, 4], &[4]));
    let second = mod_of(&base, &image(&[("C", vec![])], &[1, 2, 3, 4, 5], &[4]));
    let joined = CSX::concat_mods(vec![first, second]).unwrap();
    assert!(matches!(base.apply_all_mods(joined), Err(Error::IncompatibleGlobal)));
    assert_eq!(body_of(&written(&base), b"global  "), vec![1, 2, 3]);
}

#[test]
fn a_base_takes_the_blobs_of_its_mod() {
    let mut base = base_of(&image(&[("A", vec![])], &[1, 2, 3, 4, 5, 6], &[4, 5]));
    let first = mod_of(&base, &image(&[("B", vec![])], &[1, 2, 3, 4], &[4]));
    let second = mod_of(&base, &image(&[("C", vec![])], &[1, 2, 3, 4, 5], &[4]));
    let joined = CSX::concat_mods(vec![first, second]).unwrap();
    base.apply_all_mods(joined).unwrap();
    let out = written(&base);
    assert_eq!(body_of(&out, b"global  "), vec![1, 2, 3, 4, 5]);
    assert_eq!(body_of(&out, b"data    "), vec![4]);
}

#[test]
fn diverging_blobs_do_not_join() {
    let base = base_of(&abc());
    let first = mod_of(&base, &image(&[], &[1, 2, 3], &[7]));
    let second = mod_of(&base, &image(&[], &[1, 2, 4], &[7]));
    assert!(matches!(CSX::concat_mods(vec![first, second]), Err(Error::IncompatibleGlobal)));
    let first = mod_of(&base, &image(&[], &[1, 2, 3], &[7, 1]));
    let second = mod_of(&base, &image(&[], &[1, 2], &[7, 2]));
    assert!(matches!(CSX::concat_mods(vec![first, second]), Err(Error::IncompatibleData)));
}

#[test]
fn no_mods_do_not_join() {
    assert!(matches!(CSX::concat_mods(vec![]), Err(Error::NoMods)));
}

#[test]
fn one_mod_joins_to_itself() {
    let base = base_of(&abc());
    let bytes = image(&[("Q", vec![1, 2])], &[1, 2], &[7]);
    let joined = CSX::concat_mods(vec![mod_of(&base, &bytes)]).unwrap();
    assert_eq!(written(&joined), bytes);
}

#[test]
fn a_mod_of_another_base_is_refused() {
    let mut base = base_of(&abc());
    let other = base_of(&minimal());
    let bytes = image(&[("B", vec![1])], &[1, 2, 3], &[7, 7]);
    let before = written(&base);
    assert!(matches!(base.apply_all_mods(mod_of(&other, &bytes)), Err(Error::HashMismatch)));
    assert_eq!(written(&base), before);
    assert!(matches!(
        CSX::concat_mods(vec![mod_of(&base, &bytes), mod_of(&other, &bytes)]),
        Err(Error::HashMismatch)
    ));
    assert!(matches!(CompactCO::compress(&base, &mod_of(&other, &bytes)), Err(Error::HashMismatch)));
    let archive = CompactCO::compress(&base, &mod_of(&base, &bytes)).unwrap();
    assert!(matches!(archive.decompress(&other), Err(Error::HashMismatch)));
}

#[test]
fn apply_refuses_blobs_that_the_base_does_not_extend() {
    let mut base = base_of(&abc());
    let mods = mod_of(&base, &image(&[], &[1, 2, 3], &[7, 8]));
    assert!(matches!(base.apply_all_mods(mods), Err(Error::IncompatibleData)));
    let mods = mod_of(&base, &image(&[], &[2], &[7, 8]));
    assert!(matches!(base.apply_all_mods(mods), Err(Error::IncompatibleGlobal)));
}

#[test]
fn short_input_ends_early() {
    let bytes = minimal();
    let mut cursor = &bytes[..63];
    assert!(matches!(CSX::new(&mut cursor), Err(Error::UnexpectedEof)));
    assert_eq!(cursor.len(), 63);
    let mut cursor = &bytes[..70];
    assert!(matches!(CSX::new(&mut cursor), Err(Error::UnexpectedEof)));
    assert_eq!(bytes[..70].len() - cursor.len(), 64);
    let mut cursor = &bytes[..75];
    assert!(matches!(CSX::new(&mut cursor), Err(Error::UnexpectedEof)));
    assert_eq!(bytes[..75].len() - cursor.len(), 72);
    let mut cursor = &bytes[..81];
    assert!(matches!(CSX::new(&mut cursor), Err(Error::UnexpectedEof)));
    assert_eq!(bytes[..81].len() - cursor.len(), 80);
}

#[test]
fn wrong_signature_is_bad_magic() {
    let mut bytes = minimal();
    bytes[3] = b'x';
    let mut cursor = &bytes[..];
    assert!(matches!(CSX::new(&mut cursor), Err(Error::BadMagic)));
    assert_eq!(bytes.len() - cursor.len(), 64);
}

#[test]
fn the_length_field_of_the_header_is_not_read() {
    let mut bytes = minimal();
    let expected = written(&base_of(&bytes));
    for byte in &mut bytes[56..64] {
        *byte = 0xee;
    }
    let mods = mod_of(&base_of(&minimal()), &bytes);
    assert_eq!(written(&mods), expected);
}

#[test]
fn unknown_tag_is_reported() {
    let bytes = file(&[section(b"global  ", &[1]), section(b"mystery ", &[1, 2])]);
    let mut cursor = &bytes[..];
    match CSX::new(&mut cursor) {
        Err(Error::UnknownSection(tag)) => assert_eq!(&tag, b"mystery "),
        other => panic!("unexpected: {:?}", other.err()),
    }
    assert!(cursor.is_empty());
}

#[test]
fn missing_or_odd_sections_are_bad() {
    let code = bytecode("A", &[]);
    let list = directory(&[("A", vec![])]);
    let parse = |sections: &[Vec<u8>]| {
        let bytes = file(sections);
        let mut cursor = &bytes[..];
        match CSX::new(&mut cursor) {
            Err(Error::BadSection(tag)) => Some(tag),
            _ => None,
        }
    };
    let image = section(b"image   ", &code);
    let function = section(b"function", &list);
    let global = section(b"global  ", &[1]);
    let data = section(b"data    ", &[1]);
    assert_eq!(parse(&[image.clone(), function.clone(), data.clone()]), Some(*b"global  "));
    assert_eq!(
        parse(&[image.clone(), function.clone(), section(b"global  ", &[]), data.clone()]),
        Some(*b"global  ")
    );
    assert_eq!(parse(&[image.clone(), function.clone(), global.clone()]), Some(*b"data    "));
    assert_eq!(
        parse(&[image.clone(), function.clone(), global.clone(), data.clone(), section(b"conststr", &[0; 3])]),
        Some(*b"conststr")
    );
    assert_eq!(
        parse(&[image.clone(), function.clone(), global.clone(), data.clone(), section(b"conststr", &[0, 0, 1, 0])]),
        Some(*b"conststr")
    );
    assert_eq!(
        parse(&[image.clone(), function.clone(), global.clone(), data.clone(), section(b"linkinf ", &[1; 16])]),
        Some(*b"linkinf ")
    );
    assert_eq!(
        parse(&[image.clone(), function.clone(), global.clone(), data.clone(), global.clone()]),
        Some(*b"global  ")
    );
    assert_eq!(
        parse(&[image.clone(), function.clone(), global.clone(), data.clone(), section(b"conststr", &[])]),
        None
    );
}

#[test]
fn a_mod_may_carry_any_link_section() {
    let base = base_of(&abc());
    let bytes = file(&[
        section(b"image   ", &bytecode("A", &[])),
        section(b"function", &directory(&[("A", vec![])])),
        section(b"global  ", &[1]),
        section(b"data    ", &[1]),
        section(b"linkinf ", &[1; 16]),
    ]);
    let mut cursor = &bytes[..];
    assert!(base.new_mods(&mut cursor).is_ok());
    let mut cursor = &bytes[..];
    assert!(matches!(CSX::new(&mut cursor), Err(Error::BadSection(_))));
}

fn with_directory(code: &[u8], listing: &[u8]) -> Result<CSX, Error> {
    let bytes = file(&[
        section(b"image   ", code),
        section(b"function", listing),
        section(b"global  ", &[1]),
        section(b"data    ", &[1]),
    ]);
    let mut cursor = &bytes[..];
    CSX::new(&mut cursor)
}

fn listing(prologues: &[u32], epilogues: u32, named: &[(u32, &str)]) -> Vec<u8> {
    let mut bytes = Vec::new();
    bytes.extend_from_slice(&(prologues.len() as u32).to_le_bytes());
    for address in prologues {
        bytes.extend_from_slice(&address.to_le_bytes());
    }
    bytes.extend_from_slice(&epilogues.to_le_bytes());
    bytes.extend_from_slice(&(named.len() as u32).to_le_bytes());
    for (address, name) in named {
        let name = utf16(name);
        bytes.extend_from_slice(&address.to_le_bytes());
        bytes.extend_from_slice(&((name.len() / 2) as u32).to_le_bytes());
        bytes.extend_from_slice(&name);
    }
    bytes
}

#[test]
fn directory_failures() {
    let code = [bytecode("@Initialize", &[]), bytecode("A", &[7])].concat();
    let a = bytecode("@Initialize", &[]).len() as u32;
    assert!(with_directory(&code, &listing(&[0], 0, &[(a, "A")])).is_ok());
    assert!(matches!(with_directory(&code, &[]), Err(Error::UnexpectedEof)));
    assert!(matches!(with_directory(&code, &[2, 0, 0, 0, 0, 0, 0, 0]), Err(Error::UnexpectedEof)));
    assert!(matches!(
        with_directory(&code, &listing(&[0], 1, &[(a, "A")])),
        Err(Error::EpilogueNotEmpty)
    ));
    assert!(matches!(
        with_directory(&code, &listing(&[1], 0, &[(a, "A")])),
        Err(Error::BadAddress)
    ));
    assert!(matches!(
        with_directory(&code, &listing(&[1000], 0, &[(a, "A")])),
        Err(Error::BadAddress)
    ));
    assert!(matches!(
        with_directory(&code, &listing(&[a], 0, &[(a, "A")])),
        Err(Error::BadFunctionName)
    ));
    assert!(matches!(
        with_directory(&code, &listing(&[0], 0, &[(a, "B")])),
        Err(Error::BadFunctionName)
    ));
    assert!(matches!(
        with_directory(&code, &listing(&[], 0, &[(0, "@Initialize"), (a, "A")])),
        Err(Error::BadFunctionName)
    ));
    let mut cut = listing(&[0], 0, &[(a, "A")]);
    cut.pop();
    assert!(matches!(with_directory(&code, &cut), Err(Error::UnexpectedEof)));
}

#[test]
fn a_name_that_is_no_utf16_is_reported() {
    let mut code = vec![4u8, 1, 0, 0, 0, 0x00, 0xd8];
    code.push(1);
    let mut list = Vec::new();
    list.extend_from_slice(&0u32.to_le_bytes());
    list.extend_from_slice(&0u32.to_le_bytes());
    list.extend_from_slice(&1u32.to_le_bytes());
    list.extend_from_slice(&0u32.to_le_bytes());
    list.extend_from_slice(&1u32.to_le_bytes());
    list.extend_from_slice(&[0x00, 0xd8]);
    assert!(matches!(with_directory(&code, &list), Err(Error::DecodeUtf16)));
}

#[test]
fn a_name_field_that_leaves_its_function_is_a_bad_address() {
    let code = [4u8, 1, 0, 0, 0, 4, 0, 0, 0, 0, 0];
    let list = listing(&[], 0, &[(0, "\u{4}"), (5, "")]);
    assert!(matches!(with_directory(&code, &list), Err(Error::BadAddress)));
}

#[test]
fn an_image_without_functions() {
    let bytes = image(&[], &[1], &[2]);
    assert_eq!(written(&base_of(&bytes)), bytes);
}

#[test]
fn a_reserved_name_in_a_mod_must_be_the_prologue() {
    let mut base = base_of(&abc());
    let archive = {
        let mut bytes = b"Senko\x1a\x00\x00".to_vec();
        let mods = mod_of(&base, &image(&[], &[1], &[7]));
        let hashed = CompactCO::compress(&base, &mods).unwrap().rebuild();
        bytes.extend_from_slice(&hashed[8..36]);
        bytes.extend_from_slice(b" global \xc0\x01\x00\x00\x00\x01");
        bytes.extend_from_slice(b" data \xc0\x01\x00\x00\x00\x07");
        bytes.extend_from_slice(b"@Other\xc0\x00\x00\x00\x00");
        bytes
    };
    let mut cursor = &archive[..];
    let mods = CompactCO::new(&mut cursor).unwrap().decompress(&base).unwrap();
    let before = written(&base);
    assert!(matches!(base.apply_all_mods(mods), Err(Error::BadFunctionName)));
    assert_eq!(written(&base), before);
}

#[test]
fn an_image_that_cannot_be_written_says_so() {
    let base = base_of(&abc());
    let archive = {
        let mut bytes = b"Senko\x1a\x00\x00".to_vec();
        let mods = mod_of(&base, &image(&[], &[1], &[7]));
        let hashed = CompactCO::compress(&base, &mods).unwrap().rebuild();
        bytes.extend_from_slice(&hashed[8..36]);
        bytes.extend_from_slice(b"Bare\xc0\x02\x00\x00\x00\x01\x02");
        bytes
    };
    let mut cursor = &archive[..];
    let mods = CompactCO::new(&mut cursor).unwrap().decompress(&base).unwrap();
    assert!(!mods.can_rebuild());
    assert!(base.can_rebuild());
}

#[test]
fn the_image_is_cut_from_its_first_byte() {
    let junk = bytecode("@Foo", &[]);
    let code = [junk.clone(), bytecode("A", &[1; 10])].concat();
    let list = listing(&[], 0, &[(junk.len() as u32, "A")]);
    assert!(matches!(
        with_directory(&[junk.clone(), bytecode("A", &[1, 2])].concat(), &list),
        Err(Error::BadAddress)
    ));
    let image = with_directory(&code, &list).unwrap();
    let out = written(&image);
    assert_eq!(body_of(&out, b"image   "), code[..code.len() - junk.len()].to_vec());
    assert_eq!(listed_names(&out), vec!["@Foo"]);
    let mut cursor = &out[..];
    assert!(matches!(CSX::new(&mut cursor), Err(Error::BadFunctionName)));
}

#[test]
fn the_last_function_of_a_name_is_replaced() {
    let mut base = base_of(&image(
        &[("A", vec![1]), ("B", vec![2]), ("A", vec![3])],
        &[1],
        &[1],
    ));
    let mods = mod_of(&base, &image(&[("A", vec![9, 9])], &[1], &[1]));
    base.apply_all_mods(mods).unwrap();
    assert_eq!(
        written(&base),
        image(&[("A", vec![1]), ("B", vec![2]), ("A", vec![9, 9])], &[1], &[1])
    );
}

#[test]
fn records_of_one_name_keep_their_order() {
    let bytes = image(
        &[("b", vec![1]), ("a", vec![2]), ("b", vec![3]), ("a", vec![4])],
        &[1],
        &[1],
    );
    let out = written(&base_of(&bytes));
    assert_eq!(out, bytes);
    let listing = body_of(&out, b"function");
    let addresses: Vec<u32> = [12usize, 22, 32, 42]
        .iter()
        .map(|at| u32::from_le_bytes(listing[*at..*at + 4].try_into().unwrap()))
        .collect();
    assert_eq!(addresses, vec![8, 24, 0, 16]);
}
