//! Loading modules out of object files.
use redbpf::bpf_map::MapCreate;
use redbpf::loading::Step;
use redbpf::module::Module;
use redbpf::{LoadError, ProgramKind};

const PROGBITS: u32 = 1;
const SYMTAB: u32 = 2;
const STRTAB: u32 = 3;
const NOTE: u32 = 7;
const REL: u32 = 9;

/// A section of an object file: name, type, `sh_info` and content.
type Section = (&'static str, u32, u32, Vec<u8>);

fn progbits(name: &'static str, content: Vec<u8>) -> Section {
    (name, PROGBITS, 0, content)
}

/// The relocation of the instruction at `offset` against symbol `sym`.
fn reloc(offset: u64, sym: u64) -> Vec<u8> {
    let mut b = offset.to_le_bytes().to_vec();
    b.extend_from_slice(&(sym << 32 | 1).to_le_bytes());
    b
}

/// The definition of a map, in the byte order of the machine.
fn map_def(kind: u32, key: u32, value: u32, entries: u32, flags: u32) -> Vec<u8> {
    let mut b = vec![];
    for n in [kind, key, value, entries, flags] {
        b.extend_from_slice(&n.to_ne_bytes());
    }
    b.resize(280, 0);
    b
}

/// `count` instructions that load a wide immediate value into register 2.
fn insns(count: usize) -> Vec<u8> {
    let mut b = vec![];
    for _ in 0..count {
        b.extend_from_slice(&[0x18, 0x02]);
        b.extend_from_slice(&(-2i16).to_ne_bytes());
        b.extend_from_slice(&7i32.to_ne_bytes());
    }
    b
}

/// An object file. Section 0 is empty, the given ones follow, then the symbols, of which number 0
/// is undefined and number `n` is defined in section `symbols[n - 1]`, then the names.
fn object(sections: &[Section], symbols: &[u16]) -> Vec<u8> {
    let mut all: Vec<Section> = vec![("", 0, 0, vec![])];
    all.extend_from_slice(sections);
    let mut syms = vec![0; 24];
    for shndx in symbols {
        syms.extend_from_slice(&[0, 0, 0, 0, 0x11, 0]);
        syms.extend_from_slice(&shndx.to_le_bytes());
        syms.extend_from_slice(&[0; 16]);
    }
    all.push((".symtab", SYMTAB, 0, syms));
    let mut names = vec![];
    let mut name_at = vec![];
    for (name, _, _, _) in &all {
        name_at.push(names.len() as u32);
        names.extend_from_slice(name.as_bytes());
        names.push(0);
    }
    name_at.push(names.len() as u32);
    names.extend_from_slice(b".strtab\0");
    all.push((".strtab", STRTAB, 0, names));

    let last = (all.len() - 1) as u16;
    let mut body: Vec<u8> = vec![];
    let mut headers: Vec<u8> = vec![];
    for (i, (_, kind, info, content)) in all.iter().enumerate() {
        let (link, entsize): (u32, u64) = match *kind {
            SYMTAB => (last as u32, 24),
            REL => (last as u32 - 1, 16),
            _ => (0, 0),
        };
        headers.extend_from_slice(&name_at[i].to_le_bytes());
        headers.extend_from_slice(&kind.to_le_bytes());
        headers.extend_from_slice(&[0; 16]);
        headers.extend_from_slice(&(64 + body.len() as u64).to_le_bytes());
        headers.extend_from_slice(&(content.len() as u64).to_le_bytes());
        headers.extend_from_slice(&link.to_le_bytes());
        headers.extend_from_slice(&info.to_le_bytes());
        headers.extend_from_slice(&1u64.to_le_bytes());
        headers.extend_from_slice(&entsize.to_le_bytes());
        body.extend_from_slice(content);
        while body.len() % 8 != 0 {
            body.push(0);
        }
    }

    let mut file = vec![0x7f, b'E', b'L', b'F', 2, 1, 1, 0, 0, 0, 0, 0, 0, 0, 0, 0];
    file.extend_from_slice(&1u16.to_le_bytes());
    file.extend_from_slice(&247u16.to_le_bytes());
    file.extend_from_slice(&1u32.to_le_bytes());
    file.extend_from_slice(&[0; 16]);
    file.extend_from_slice(&(64 + body.len() as u64).to_le_bytes());
    file.extend_from_slice(&0u32.to_le_bytes());
    for n in [64, 56, 0, 64, all.len() as u16, last] {
        file.extend_from_slice(&n.to_le_bytes());
    }
    assert_eq!(file.len(), 64);
    file.extend_from_slice(&body);
    file.extend_from_slice(&headers);
    file
}

/// Changes the header of section `shndx`: eight bytes at `at`.
fn set_header(file: &mut Vec<u8>, shndx: usize, at: usize, value: u64) {
    let mut start = [0; 8];
    start.copy_from_slice(&file[40..48]);
    let at = u64::from_le_bytes(start) as usize + 64 * shndx + at;
    file[at..at + 8].copy_from_slice(&value.to_le_bytes());
}

/// A kernel that gives out descriptors from 10 on.
fn parse(file: &[u8]) -> Option<Result<Module, LoadError>> {
    Module::parse(
        file,
        10,
        |next: i32, _: &MapCreate| (next + 1, next),
        |next: i32| (next, 0x0004_1402),
    )
    .1
}

fn damaged(sections: &[Section]) -> bool {
    parse(&object(sections, &[])).is_none()
}

#[test]
fn a_module_holds_what_its_file_says() {
    let file = object(
        &[
            progbits("kretprobe/tcp_v4_connect", insns(1)),
            progbits("license", b"GPL\0".to_vec()),
            progbits("maps/events", map_def(4, 4, 8, 1024, 1)),
            progbits("version", 0x0004_0e00u32.to_ne_bytes().to_vec()),
            progbits("kprobe/tcp_v4_connect", insns(3)),
            progbits("maps/hits", map_def(1, 16, 32, 0xffff_ffff, 0)),
            progbits("xdp/drop", insns(2)),
            progbits("socketfilter/dns", insns(4)),
            progbits(".text", insns(9)),
            (".relkprobe/tcp_v4_connect", REL, 5, {
                let mut b = reloc(16, 1);
                b.extend(reloc(0, 2));
                b
            }),
            (".relxdp/drop", REL, 7, reloc(12, 2)),
        ],
        &[3, 6],
    );
    let (requests, module) = Module::parse(
        &file,
        vec![],
        |mut requests, request: &MapCreate| {
            requests.push((
                request.kind,
                request.name.clone(),
                request.key_size,
                request.value_size,
                request.max_entries,
                request.map_flags,
            ));
            (requests, if request.name == "events" { 21 } else { 22 })
        },
        |_| panic!("the file names its version"),
    );
    let module = module.unwrap().unwrap();

    assert_eq!(
        requests,
        vec![
            (4, "events".to_string(), 4, 8, 1024, 1),
            (1, "hits".to_string(), 16, 32, -1, 0),
        ]
    );
    assert_eq!(module.license, "GPL");
    assert_eq!(module.version, 0x0004_0e00);
    let maps: Vec<(&str, u32, i32)> =
        module.maps.iter().map(|m| (m.name.as_str(), m.kind, m.fd)).collect();
    assert_eq!(maps, vec![("events", 4, 21), ("hits", 1, 22)]);
    let programs: Vec<(ProgramKind, &str, usize, i32)> = module
        .programs
        .iter()
        .map(|p| (p.kind, p.name.as_str(), p.code.len(), p.code_bytes))
        .collect();
    assert_eq!(
        programs,
        vec![
            (ProgramKind::Kretprobe, "tcp_v4_connect", 1, 8),
            (ProgramKind::Kprobe, "tcp_v4_connect", 3, 24),
            (ProgramKind::XDP, "drop", 2, 16),
            (ProgramKind::SocketFilter, "dns", 4, 32),
        ]
    );
    assert!(module.programs.iter().all(|p| !p.is_loaded() && !p.is_attached()));

    // Which instructions have become loads of a map, and of which one.
    let mut patched = vec![];
    for (i, program) in module.programs.iter().enumerate() {
        for (at, insn) in program.code.iter().enumerate() {
            assert_eq!((insn.code, insn.dst_reg(), insn.off), (0x18, 2, -2));
            if insn.src_reg() == 1 {
                patched.push((i, at, insn.imm));
            } else {
                assert_eq!((insn.src_reg(), insn.imm), (0, 7));
            }
        }
    }
    assert_eq!(patched, vec![(1, 0, 22), (1, 2, 21), (2, 1, 22)]);
}

#[test]
fn the_running_kernel_stands_in_for_a_version() {
    let file = object(&[progbits("version", 0xFFFF_FFFEu32.to_ne_bytes().to_vec())], &[]);
    assert_eq!(parse(&file).unwrap().unwrap().version, 0x0004_1402);
    let file = object(&[progbits("version", 0xFFFF_FFFFu32.to_ne_bytes().to_vec())], &[]);
    assert_eq!(parse(&file).unwrap().unwrap().version, 0xFFFF_FFFF);
}

#[test]
fn the_last_license_and_version_count() {
    let file = object(
        &[
            progbits("license", b"GPL\0".to_vec()),
            progbits("version", vec![1, 0, 0, 0]),
            progbits("license", "Änderbar\0rest".as_bytes().to_vec()),
            progbits("version/again", {
                let mut b = 0x102u32.to_ne_bytes().to_vec();
                b.extend_from_slice(&[9, 9]);
                b
            }),
        ],
        &[],
    );
    let module = parse(&file).unwrap().unwrap();
    assert_eq!(module.license, "Änderbar");
    assert_eq!(module.version, 0x102);
}

#[test]
fn an_empty_object_gives_an_empty_module() {
    let module = parse(&object(&[], &[])).unwrap().unwrap();
    assert_eq!(module.programs.len(), 0);
    assert_eq!(module.maps.len(), 0);
    assert_eq!(module.license, "");
    assert_eq!(module.version, 0);
}

#[test]
fn sections_without_a_second_name_hold_nothing() {
    let file = object(
        &[
            progbits("maps", vec![1]),
            progbits("kprobe", vec![1, 2, 3]),
            progbits("tracepoint/x", vec![1]),
            ("kprobe/x", NOTE, 0, vec![1]),
            ("license", NOTE, 0, vec![1]),
        ],
        &[],
    );
    let module = parse(&file).unwrap().unwrap();
    assert_eq!(module.programs.len(), 0);
    assert_eq!(module.maps.len(), 0);
    assert_eq!(module.license, "");
}

#[test]
fn names_are_cut_at_the_first_slash() {
    let file = object(&[progbits("kprobe/a/b", insns(1)), progbits("xdp/", insns(1))], &[]);
    let module = parse(&file).unwrap().unwrap();
    assert_eq!(module.programs[0].name, "a/b");
    assert_eq!(module.programs[1].name, "");
}

#[test]
fn maps_carry_the_answers_of_the_kernel_in_turn() {
    let file = object(
        &[
            progbits("maps/a", map_def(1, 0, 0, 0, 0)),
            progbits("maps/b", map_def(2, 0, 0, 0, 0)),
            progbits("maps/c", map_def(3, 0, 0, 0, 0)),
        ],
        &[],
    );
    let module = parse(&file).unwrap().unwrap();
    let maps: Vec<(u32, i32)> = module.maps.iter().map(|m| (m.kind, m.fd)).collect();
    assert_eq!(maps, vec![(1, 10), (2, 11), (3, 12)]);
}

#[test]
fn what_is_no_object_is_not_parsed() {
    assert!(matches!(parse(b""), Some(Err(LoadError::Parse(_)))));
    assert!(matches!(parse(b"#!/bin/sh\nexit 0\n"), Some(Err(LoadError::Parse(_)))));
    let file = object(&[], &[]);
    assert!(matches!(parse(&file[..70]), Some(Err(LoadError::Parse(_)))));
}

#[test]
fn the_reason_of_the_parser_is_handed_on() {
    let file = object(&[], &[]);
    let reason = goblin::error::Error::Malformed("no object at all".to_string());
    match Module::begin(&file, Err(reason)) {
        Err(LoadError::Parse(goblin::error::Error::Malformed(text))) => {
            assert_eq!(text, "no object at all")
        }
        _ => panic!(),
    }
    match Module::open(b"#!/bin/sh\nexit 0\nexit 1\n") {
        Err(LoadError::Parse(goblin::error::Error::BadMagic(_))) => {}
        _ => panic!(),
    }
}

#[test]
fn a_section_without_a_name_is_an_error() {
    let mut file = object(&[progbits("xdp/drop", insns(1))], &[]);
    let kind = u64::from(PROGBITS) << 32;
    set_header(&mut file, 1, 0, kind | 0xffff);
    match parse(&file) {
        Some(Err(LoadError::Section(message))) => {
            assert_eq!(message, "Section name not found: 1")
        }
        _ => panic!(),
    }
}

#[test]
fn section_numbers_are_written_in_decimal() {
    let mut sections = vec![];
    for _ in 0..120 {
        sections.push(progbits(".text", vec![]));
    }
    let mut file = object(&sections, &[]);
    set_header(&mut file, 107, 0, 0xffff);
    match parse(&file) {
        Some(Err(LoadError::Section(message))) => {
            assert_eq!(message, "Section name not found: 107")
        }
        _ => panic!(),
    }
}

#[test]
fn a_refused_map_ends_loading() {
    let file = object(
        &[
            progbits("maps/a", map_def(1, 4, 4, 1, 0)),
            progbits("maps/b", map_def(1, 4, 4, 1, 0)),
            progbits("maps/c", map_def(1, 4, 4, 1, 0)),
        ],
        &[],
    );
    let (asked, r) = Module::parse(
        &file,
        0,
        |asked: i32, request: &MapCreate| (asked + 1, if request.name == "b" { -1 } else { 3 }),
        |asked: i32| (asked, 0),
    );
    assert!(matches!(r, Some(Err(LoadError::BPF))));
    assert_eq!(asked, 2);
}

#[test]
fn a_relocation_has_to_refer_to_a_map() {
    let file = object(
        &[progbits("kprobe/x", insns(1)), (".rel", REL, 1, reloc(0, 1))],
        &[1],
    );
    assert!(matches!(parse(&file), Some(Err(LoadError::Reloc))));
    let file = object(
        &[progbits("kprobe/x", insns(1)), (".rel", REL, 1, reloc(0, 0))],
        &[],
    );
    assert!(matches!(parse(&file), Some(Err(LoadError::Reloc))));
}

#[test]
fn the_last_relocation_of_an_instruction_counts() {
    let mut rels = reloc(0, 1);
    rels.extend(reloc(4, 2));
    let file = object(
        &[
            progbits("maps/a", map_def(1, 4, 4, 1, 0)),
            progbits("maps/b", map_def(1, 4, 4, 1, 0)),
            progbits("kprobe/x", insns(2)),
            (".rel", REL, 3, rels),
        ],
        &[1, 2],
    );
    let module = parse(&file).unwrap().unwrap();
    let code = &module.programs[0].code;
    assert_eq!((code[0].src_reg(), code[0].imm), (1, 11));
    assert_eq!((code[1].src_reg(), code[1].imm), (0, 7));
}

#[test]
fn relocations_may_stand_first() {
    let a = || progbits("maps/a", map_def(1, 4, 4, 1, 0));
    let x = || progbits("kprobe/x", insns(2));
    let license = || progbits("license", b"GPL\0".to_vec());
    let after = object(&[a(), x(), license(), (".rel", REL, 2, reloc(8, 1))], &[1]);
    let before = object(&[(".rel", REL, 3, reloc(8, 1)), a(), x(), license()], &[2]);
    let after = parse(&after).unwrap().unwrap();
    let before = parse(&before).unwrap().unwrap();
    assert_eq!(after.programs[0].code[1].src_reg(), 1);
    assert_eq!(before.programs[0].code, after.programs[0].code);
    assert_eq!(before.maps[0].fd, after.maps[0].fd);
    assert_eq!((before.license, before.version), (after.license, after.version));
}

#[test]
fn equal_sections_get_maps_of_their_own() {
    let section = || progbits("maps/a", map_def(1, 4, 4, 1, 0));
    let file = object(&[section(), section()], &[]);
    let (asked, module) = Module::parse(
        &file,
        vec![],
        |mut asked: Vec<String>, request: &MapCreate| {
            asked.push(request.name.clone());
            let fd = 30 + asked.len() as i32;
            (asked, fd)
        },
        |_| panic!(),
    );
    assert_eq!(asked, vec!["a", "a"]);
    let module = module.unwrap().unwrap();
    assert_eq!((module.maps[0].fd, module.maps[1].fd), (31, 32));
}

#[test]
fn relocations_of_other_sections_are_passed_over() {
    let file = object(
        &[
            progbits(".text", insns(1)),
            (".rel.text", REL, 1, reloc(0x1000, 77)),
            (".rel.far", REL, 0xffff_ffff, reloc(0, 0)),
        ],
        &[],
    );
    assert!(matches!(parse(&file), Some(Ok(_))));
}

#[test]
fn damaged_sections_are_not_read() {
    assert!(damaged(&[progbits("version", vec![1, 2, 3])]));
    assert!(!damaged(&[progbits("version", vec![1, 2, 3, 4])]));
    assert!(damaged(&[progbits("license", b"GPL".to_vec())]));
    assert!(damaged(&[progbits("license", vec![0xff, 0])]));
    assert!(!damaged(&[progbits("license", vec![0, 0xff])]));
    assert!(damaged(&[progbits("maps/a", vec![0; 279])]));
    assert!(!damaged(&[progbits("maps/a", vec![0; 280])]));
    assert!(damaged(&[progbits("xdp/a", vec![0; 12])]));
    assert!(!damaged(&[progbits("xdp/a", vec![0; 16])]));
    assert!(!damaged(&[progbits("xdp/a", vec![])]));
}

#[test]
fn sections_outside_the_file_are_not_read() {
    let whole = object(&[progbits(".text", insns(1))], &[]);
    let len = whole.len() as u64;
    for (offset, size) in [(0, len + 1), (len, 1), (len + 1, 0), (1, u64::MAX), (u64::MAX, 1)] {
        let mut file = whole.clone();
        set_header(&mut file, 1, 24, offset);
        set_header(&mut file, 1, 32, size);
        assert!(parse(&file).is_none());
    }
    for (offset, size) in [(0, len), (len, 0)] {
        let mut file = whole.clone();
        set_header(&mut file, 1, 24, offset);
        set_header(&mut file, 1, 32, size);
        assert!(matches!(parse(&file), Some(Ok(_))));
    }
}

#[test]
fn relocations_out_of_bounds_are_not_applied() {
    let with = |offset: u64, sym: u64| {
        object(
            &[
                progbits("maps/a", map_def(1, 4, 4, 1, 0)),
                progbits("kprobe/x", insns(2)),
                (".rel", REL, 2, reloc(offset, sym)),
            ],
            &[1],
        )
    };
    assert!(matches!(parse(&with(8, 1)), Some(Ok(_))));
    assert!(matches!(parse(&with(15, 1)), Some(Ok(_))));
    assert!(parse(&with(16, 1)).is_none());
    assert!(parse(&with(0, 2)).is_none());
}

#[test]
fn what_stands_before_the_damage_counts() {
    let file = object(
        &[progbits("maps/a", map_def(1, 4, 4, 1, 0)), progbits("version", vec![1])],
        &[],
    );
    let with = |fd: i32| {
        Module::parse(&file, 0, |asked: i32, _: &MapCreate| (asked + 1, fd), |_: i32| panic!())
    };
    assert!(matches!(with(-1), (1, Some(Err(LoadError::BPF)))));
    assert!(matches!(with(3), (1, None)));

    let file = object(
        &[progbits("version", vec![1]), progbits("maps/a", map_def(1, 4, 4, 1, 0))],
        &[],
    );
    assert!(Module::parse(&file, (), |_, _: &MapCreate| panic!(), |_| panic!()).1.is_none());
}

#[test]
fn sections_after_a_failure_are_not_looked_at() {
    let mut file = object(
        &[progbits("xdp/drop", insns(1)), progbits("version", vec![1])],
        &[],
    );
    let kind = u64::from(PROGBITS) << 32;
    set_header(&mut file, 1, 0, kind | 0xffff);
    assert!(matches!(parse(&file), Some(Err(LoadError::Section(_)))));
}

#[test]
fn loading_can_be_driven_step_by_step() {
    let file = object(
        &[
            progbits("version", 0xFFFF_FFFEu32.to_ne_bytes().to_vec()),
            progbits("maps/a", map_def(4, 4, 4, 1, 0)),
            progbits("kprobe/x", insns(1)),
            (".rel", REL, 3, reloc(0, 1)),
        ],
        &[2],
    );
    let mut loading = Module::open(&file).unwrap();
    assert!(loading.is_sound());
    assert!(matches!(loading.advance(), Ok(Step::RunningKernel)));
    assert!(matches!(loading.advance(), Ok(Step::RunningKernel)));
    loading.running_kernel(0x0005_0000);
    assert!(loading.is_sound());
    let request = match loading.advance() {
        Ok(Step::CreateMap(request)) => request,
        _ => panic!(),
    };
    assert_eq!((request.kind, request.name.as_str()), (4, "a"));
    assert!(matches!(loading.map_created(request, -22), Err(LoadError::BPF)));
    let request = match loading.advance() {
        Ok(Step::CreateMap(request)) => request,
        _ => panic!(),
    };
    assert!(loading.map_created(request, 0).is_ok());
    assert!(loading.is_sound());
    assert!(matches!(loading.advance(), Ok(Step::Link)));
    assert!(loading.is_linkable());
    let module = loading.link().unwrap();
    assert_eq!(module.version, 0x0005_0000);
    assert_eq!(module.maps[0].fd, 0);
    assert_eq!(module.programs[0].code[0].src_reg(), 1);
    assert_eq!(module.programs[0].code[0].imm, 0);
}

#[test]
fn many_maps_can_be_loaded() {
    let mut sections = vec![];
    for _ in 0..2000 {
        sections.push(progbits("maps/m", map_def(2, 4, 4, 1, 0)));
    }
    let module = parse(&object(&sections, &[])).unwrap().unwrap();
    assert_eq!(module.maps.len(), 2000);
    assert!(module.maps.iter().enumerate().all(|(i, m)| m.fd == 10 + i as i32));
}
