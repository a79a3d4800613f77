//! Numbers, names and instructions.
use redbpf::bpf_map::{BpfMap, MAP_DEF_SIZE};
use redbpf::grain::BPF_MAP_TYPE_PERF_EVENT_ARRAY;
use redbpf::insn::{read_insns, read_ne16, read_ne32, to_signed16, to_signed32, BpfInsn};
use redbpf::insn::{BPF_PSEUDO_MAP_FD, INSN_SIZE};
use redbpf::section::get_version;
use redbpf::text::{append_decimal, contains_nul, same_text, split_slash};
use redbpf::{LoadError, ProgramKind};

#[test]
fn kinds_have_the_numbers_of_the_kernel() {
    assert_eq!(ProgramKind::Kprobe.to_prog_type(), bpf_sys::bpf_prog_type_BPF_PROG_TYPE_KPROBE);
    assert_eq!(ProgramKind::Kretprobe.to_prog_type(), bpf_sys::bpf_prog_type_BPF_PROG_TYPE_KPROBE);
    assert_eq!(ProgramKind::XDP.to_prog_type(), bpf_sys::bpf_prog_type_BPF_PROG_TYPE_XDP);
    assert_eq!(
        ProgramKind::SocketFilter.to_prog_type(),
        bpf_sys::bpf_prog_type_BPF_PROG_TYPE_SOCKET_FILTER
    );
    assert_eq!(
        ProgramKind::Kprobe.to_attach_type(),
        bpf_sys::bpf_probe_attach_type_BPF_PROBE_ENTRY
    );
    assert_eq!(
        ProgramKind::Kretprobe.to_attach_type(),
        bpf_sys::bpf_probe_attach_type_BPF_PROBE_RETURN
    );
    assert_eq!(
        BPF_MAP_TYPE_PERF_EVENT_ARRAY,
        bpf_sys::bpf_map_type_BPF_MAP_TYPE_PERF_EVENT_ARRAY
    );
    assert_eq!(u32::from(BPF_PSEUDO_MAP_FD), bpf_sys::BPF_PSEUDO_MAP_FD);
}

#[test]
fn definitions_have_the_sizes_of_the_kernel() {
    assert_eq!(MAP_DEF_SIZE, std::mem::size_of::<bpf_sys::bpf_map_def>());
    assert_eq!(INSN_SIZE, std::mem::size_of::<bpf_sys::bpf_insn>());
}

#[test]
fn kinds_are_found_by_the_names_of_their_sections() {
    for (name, kind) in [
        ("kprobe", ProgramKind::Kprobe),
        ("kretprobe", ProgramKind::Kretprobe),
        ("xdp", ProgramKind::XDP),
        ("socketfilter", ProgramKind::SocketFilter),
    ] {
        assert_eq!(ProgramKind::from_section(name).unwrap(), kind);
    }
    for name in ["", "XDP", "kprobes", "kprob", "maps", "socket"] {
        match ProgramKind::from_section(name) {
            Err(LoadError::Section(section)) => assert_eq!(section, name),
            _ => panic!(),
        }
    }
}

#[test]
fn numbers_are_in_the_byte_order_of_the_machine() {
    let mut b = vec![9];
    b.extend_from_slice(&0xff84u16.to_ne_bytes());
    b.extend_from_slice(&0x8403_0201u32.to_ne_bytes());
    assert_eq!(read_ne16(&b, 1), 0xff84);
    assert_eq!(read_ne32(&b, 3), 0x8403_0201);
    let little = 1u16.to_ne_bytes() == [1, 0];
    assert_eq!(read_ne16(&[1, 2], 0), if little { 0x0201 } else { 0x0102 });
    assert_eq!(read_ne32(&[1, 2, 3, 4], 0), if little { 0x0403_0201 } else { 0x0102_0304 });
}

#[test]
fn bytes_are_read_as_they_lie_in_memory() {
    let mut buffer = vec![0; 8];
    buffer.extend((0..=255u8).map(|b| b.wrapping_mul(37)));
    buffer.resize(400, 0xa5);
    let at = (0..8).find(|at| buffer[*at..].as_ptr().align_offset(8) == 0).unwrap();
    let code = &buffer[at..at + 288];

    assert_eq!(get_version(&code[16..]), Some(*zero::read::<u32>(&code[16..])));
    let expected = zero::read_array::<bpf_sys::bpf_insn>(code);
    let insns = read_insns(code);
    assert_eq!(insns.len(), expected.len());
    for (insn, other) in insns.iter().zip(expected) {
        assert_eq!((insn.code, insn.off, insn.imm), (other.code, other.off, other.imm));
        assert_eq!((insn.dst_reg(), insn.src_reg()), (other.dst_reg(), other.src_reg()));
    }
}

#[test]
fn numbers_are_in_twos_complement() {
    assert_eq!(to_signed16(0x7fff), 32767);
    assert_eq!(to_signed16(0x8000), -32768);
    assert_eq!(to_signed16(0xffff), -1);
    assert_eq!(to_signed32(0x7fff_ffff), i32::MAX);
    assert_eq!(to_signed32(0x8000_0000), i32::MIN);
    assert_eq!(to_signed32(0xffff_fffe), -2);
}

#[test]
fn instructions_hold_the_bytes_they_were_read_from() {
    let mut b = vec![0x18, 0xa1];
    b.extend_from_slice(&0x9234u16.to_ne_bytes());
    b.extend_from_slice(&0xf234_5678u32.to_ne_bytes());
    b.extend_from_slice(&[0x95, 0, 0, 0]);
    b.extend_from_slice(&1u32.to_ne_bytes());
    let insns = read_insns(&b);
    assert_eq!(
        insns,
        vec![
            BpfInsn { code: 0x18, regs: 0xa1, off: 0x9234u16 as i16, imm: 0xf234_5678u32 as i32 },
            BpfInsn { code: 0x95, regs: 0, off: 0, imm: 1 },
        ]
    );
    let mut back = vec![];
    for insn in &insns {
        back.push(insn.code);
        back.push(insn.regs);
        back.extend_from_slice(&insn.off.to_ne_bytes());
        back.extend_from_slice(&insn.imm.to_ne_bytes());
    }
    assert_eq!(back, b);
    assert_eq!(read_insns(&[]), vec![]);
}

#[test]
fn setting_the_source_register_keeps_the_rest() {
    for regs in 0..=255u8 {
        for val in [0, 1, 9, 15, 16, 0xf3] {
            let mut insn = BpfInsn { code: 0x18, regs, off: -3, imm: 77 };
            insn.set_src_reg(val);
            assert_eq!(insn.src_reg(), val & 0xf);
            assert_eq!(insn.dst_reg(), regs & 0xf);
            assert_eq!((insn.code, insn.off, insn.imm), (0x18, -3, 77));
            let field = bpf_sys::bpf_insn::new_bitfield_1(regs & 0xf, regs >> 4);
            let mut other = bpf_sys::bpf_insn { code: 0x18, _bitfield_1: field, off: -3, imm: 77 };
            other.set_src_reg(val & 0xf);
            assert_eq!(other.src_reg(), insn.src_reg());
            assert_eq!(other.dst_reg(), insn.dst_reg());
        }
    }
}

#[test]
fn text_is_cut_at_the_first_slash() {
    assert_eq!(split_slash("maps/events"), ("maps", Some("events")));
    assert_eq!(split_slash("a/b/c"), ("a", Some("b/c")));
    assert_eq!(split_slash("/x"), ("", Some("x")));
    assert_eq!(split_slash("x/"), ("x", Some("")));
    assert_eq!(split_slash("license"), ("license", None));
    assert_eq!(split_slash(""), ("", None));
    assert_eq!(split_slash("größe/ü/ß"), ("größe", Some("ü/ß")));
}

#[test]
fn text_is_compared_as_a_whole() {
    assert!(same_text("", ""));
    assert!(same_text("maß", "maß"));
    assert!(!same_text("maps", "map"));
    assert!(!same_text("maps", "mapt"));
}

#[test]
fn nul_is_found_anywhere() {
    assert!(!contains_nul(""));
    assert!(!contains_nul("name"));
    assert!(contains_nul("\0"));
    assert!(contains_nul("na\0me"));
    assert!(contains_nul("ü\0"));
}

#[test]
fn numbers_are_appended_in_decimal() {
    for n in [0, 1, 9, 10, 99, 100, 1234567890, usize::MAX] {
        let mut out = "n".to_string();
        append_decimal(&mut out, n);
        assert_eq!(out, format!("n{}", n));
    }
}

#[test]
fn a_map_is_requested_as_it_is_defined() {
    let mut code = vec![];
    for n in [0x0102_0304u32, 4, 0x8000_0000, 10240, 3, 99] {
        code.extend_from_slice(&n.to_ne_bytes());
    }
    code.resize(300, 0xee);
    let request = BpfMap::load("hits", &code).unwrap();
    assert_eq!(request.kind, 0x0102_0304);
    assert_eq!(request.name, "hits");
    assert_eq!(request.key_size, 4);
    assert_eq!(request.value_size, i32::MIN);
    assert_eq!(request.max_entries, 10240);
    assert_eq!(request.map_flags, 3);
    let map = BpfMap::load_reply(request, 5).unwrap();
    assert_eq!((map.name.as_str(), map.kind, map.fd), ("hits", 0x0102_0304, 5));
}

#[test]
fn a_map_can_be_refused() {
    let code = [0; 280];
    assert!(matches!(BpfMap::load("a\0b", &code), Err(LoadError::StringConversion)));
    let request = BpfMap::load("a", &code).unwrap();
    assert!(matches!(BpfMap::load_reply(request, -1), Err(LoadError::BPF)));
}
