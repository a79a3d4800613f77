//! Relocations: which instruction is patched, and with what.
use redbpf::elf::{Reloc, SectionHeader, Sym};
use redbpf::rel::{add_rel, find_relocs};
use redbpf::section::{data, get_split_section_name, get_version};
use redbpf::{BpfMap, LoadError, Program, ProgramKind, Rel};
use std::collections::HashMap;

fn header(name: Option<Option<String>>) -> SectionHeader {
    SectionHeader { name, sh_type: 1, sh_offset: 2, sh_size: 3, sh_info: 7 }
}

fn programs() -> HashMap<usize, Program> {
    let mut insn = vec![0x18, 0x51];
    insn.extend_from_slice(&1i16.to_ne_bytes());
    insn.extend_from_slice(&9i32.to_ne_bytes());
    let code = insn.repeat(3);
    let mut programs = HashMap::new();
    programs.insert(2, Program::new("kprobe", "open", &code).unwrap());
    programs.insert(4, Program::new("xdp", "drop", &code).unwrap());
    programs
}

fn maps() -> HashMap<usize, BpfMap> {
    let mut maps = HashMap::new();
    maps.insert(6, BpfMap { name: "hits".to_string(), kind: 1, fd: 0x0102_0304 });
    maps
}

#[test]
fn a_relocation_patches_one_instruction() {
    let mut programs = programs();
    let symtab = vec![Sym { st_shndx: 0 }, Sym { st_shndx: 6 }];
    let rel = Rel { shndx: 3, target: 4, offset: 8, sym: 1 };
    assert!(rel.apply(&mut programs, &maps(), &symtab).is_ok());
    for (section, program) in &programs {
        for (at, insn) in program.code.iter().enumerate() {
            assert_eq!((insn.code, insn.dst_reg(), insn.off), (0x18, 1, 1));
            if *section == 4 && at == 1 {
                assert_eq!((insn.src_reg(), insn.imm), (1, 0x0102_0304));
            } else {
                assert_eq!((insn.src_reg(), insn.imm), (5, 9));
            }
        }
    }
    assert_eq!(programs.len(), 2);
    assert_eq!(programs[&4].kind, ProgramKind::XDP);
    assert_eq!(programs[&4].name, "drop");
}

#[test]
fn a_relocation_without_a_program_or_a_map_fails() {
    let symtab = vec![Sym { st_shndx: 0 }, Sym { st_shndx: 6 }];
    let mut programs = programs();
    let no_program = Rel { shndx: 3, target: 5, offset: 8, sym: 1 };
    assert!(matches!(
        no_program.apply(&mut programs, &maps(), &symtab),
        Err(LoadError::Reloc)
    ));
    let no_map = Rel { shndx: 3, target: 4, offset: 8, sym: 0 };
    assert!(matches!(no_map.apply(&mut programs, &maps(), &symtab), Err(LoadError::Reloc)));
    assert!(programs.values().all(|p| p.code.iter().all(|i| i.src_reg() == 5 && i.imm == 9)));
}

#[test]
fn relocations_are_found_under_their_section() {
    let table = vec![
        (3, vec![Reloc { r_offset: 8, r_sym: 1 }, Reloc { r_offset: 24, r_sym: 2 }]),
        (5, vec![]),
        (3, vec![Reloc { r_offset: 0, r_sym: 9 }]),
    ];
    assert_eq!(find_relocs(&table, 3), Some(0));
    assert_eq!(find_relocs(&table, 5), Some(1));
    assert_eq!(find_relocs(&table, 4), None);
    let mut rels = vec![Rel { shndx: 1, target: 1, offset: 1, sym: 1 }];
    add_rel(&mut rels, 3, &header(None), &table);
    assert_eq!(
        rels,
        vec![
            Rel { shndx: 1, target: 1, offset: 1, sym: 1 },
            Rel { shndx: 3, target: 7, offset: 8, sym: 1 },
            Rel { shndx: 3, target: 7, offset: 24, sym: 2 },
        ]
    );
}

#[test]
fn a_section_is_cut_out_of_the_file() {
    let bytes = [0, 1, 2, 3, 4, 5];
    assert_eq!(data(&bytes, &header(None)), &[2, 3, 4]);
}

#[test]
fn the_name_of_a_section_is_split() {
    let shdr = header(Some(Some("kprobe/open".to_string())));
    assert_eq!(get_split_section_name(&shdr, 0).unwrap(), ("kprobe", Some("open")));
    let shdr = header(Some(Some("license".to_string())));
    assert_eq!(get_split_section_name(&shdr, 0).unwrap(), ("license", None));
    match get_split_section_name(&header(None), 12) {
        Err(LoadError::Section(message)) => assert_eq!(message, "Section name not found: 12"),
        _ => panic!(),
    }
}

#[test]
fn a_version_is_read_or_left_to_the_kernel() {
    assert_eq!(get_version(&0x0004_0e00u32.to_ne_bytes()), Some(0x0004_0e00));
    assert_eq!(get_version(&[0, 0, 0, 1]), Some(u32::from_ne_bytes([0, 0, 0, 1])));
    assert_eq!(get_version(&[0, 0, 0, 0]), Some(0));
    assert_eq!(get_version(&0xffff_fffeu32.to_ne_bytes()), None);
    assert_eq!(get_version(&[0xff, 0xff, 0xff, 0xff, 1]), Some(0xffff_ffff));
}
