//! Programs: loading and attaching them.
use redbpf::grain::{PerfBind, SocketBind};
use redbpf::program::{ProbeAttach, ProgLoad, SocketAttach, XdpAttach};
use redbpf::{BpfMap, Grain, LoadError, Module, Program, ProgramKind};

fn program(kind: &str, name: &str) -> Program {
    Program::new(kind, name, &[0x95, 0, 0, 0, 0, 0, 0, 0]).unwrap()
}

fn map(name: &str, kind: u32) -> BpfMap {
    BpfMap { name: name.to_string(), kind, fd: 3 }
}

fn module() -> Module {
    Module {
        programs: vec![
            program("socketfilter", "dns"),
            program("kprobe", "open"),
            program("xdp", "drop"),
            program("kretprobe", "open"),
            program("socketfilter", "tls"),
        ],
        maps: vec![map("events", 4), map("hits", 1), map("drops", 4)],
        license: "GPL".to_string(),
        version: 0x0004_0e00,
    }
}

fn loaded() -> Grain<u8> {
    let mut module = module();
    let (_, r) = module.load_programs(101, |next: i32, _: &ProgLoad<'_>| (next + 1, next));
    assert!(r.is_ok());
    Grain { module, native: 7 }
}

fn descriptors(module: &Module) -> Vec<(Option<i32>, Option<i32>)> {
    module.programs.iter().map(|p| (p.fd, p.pfd)).collect()
}

#[test]
fn a_program_is_made_of_its_section() {
    let p = Program::new("kprobe", "open", &[1, 0x32, 3, 3, 4, 4, 4, 4].repeat(2)).unwrap();
    assert_eq!(p.kind, ProgramKind::Kprobe);
    assert_eq!(p.name, "open");
    assert_eq!(p.code.len(), 2);
    assert_eq!(p.code_bytes, 16);
    assert_eq!((p.code[1].dst_reg(), p.code[1].src_reg()), (2, 3));
    assert!(!p.is_loaded() && !p.is_attached());
    match Program::new("tracepoint", "open", &[]) {
        Err(LoadError::Section(kind)) => assert_eq!(kind, "tracepoint"),
        _ => panic!(),
    }
}

#[test]
fn a_program_is_loaded_under_its_name() {
    let p = program("xdp", "drop");
    let request = p.load(77, "GPL".to_string()).unwrap();
    assert_eq!(request.prog_type, 6);
    assert_eq!(request.name, "drop");
    assert_eq!(request.code, &p.code);
    assert_eq!(request.code_bytes, 8);
    assert_eq!(request.license, "GPL");
    assert_eq!(request.kernel_version, 77);
    assert_eq!(request.log_level, 0);
    assert_eq!(request.log_buf_size, 64 * 65535);
}

#[test]
fn text_with_a_nul_is_not_handed_to_the_kernel() {
    let p = program("xdp", "drop");
    assert!(matches!(p.load(0, "GPL\0".to_string()), Err(LoadError::StringConversion)));
    let p = program("xdp", "dr\0op");
    assert!(matches!(p.load(0, "GPL".to_string()), Err(LoadError::StringConversion)));
}

#[test]
fn a_program_is_loaded_when_the_kernel_accepts_it() {
    let mut p = program("xdp", "drop");
    assert!(matches!(p.load_reply(-1), Err(LoadError::BPF)));
    assert!(!p.is_loaded());
    assert!(matches!(p.load_reply(0), Ok(0)));
    assert!(p.is_loaded() && !p.is_attached());
    assert!(matches!(p.load_reply(-1), Err(LoadError::BPF)));
    assert_eq!(p.fd, Some(0));
}

#[test]
fn a_probe_is_named_after_its_function_and_side() {
    let mut p = program("kretprobe", "open");
    p.load_reply(5).unwrap();
    let request = p.attach_probe();
    assert_eq!(request.fd, 5);
    assert_eq!(request.attach_type, 1);
    assert_eq!(request.ev_name, "open1");
    assert_eq!(request.fn_name, "open");
    assert_eq!(request.fn_offset, 0);
    assert!(matches!(p.attach_probe_reply(-1), Err(LoadError::BPF)));
    assert!(!p.is_attached());
    assert!(matches!(p.attach_probe_reply(6), Ok(6)));
    assert!(p.is_attached());
    assert_eq!((p.fd, p.pfd), (Some(5), Some(6)));

    let mut p = program("kprobe", "open");
    p.load_reply(5).unwrap();
    assert_eq!(p.attach_probe().ev_name, "open0");
}

#[test]
fn attaching_to_an_interface_leaves_no_descriptor() {
    let mut p = program("xdp", "drop");
    p.load_reply(5).unwrap();
    let request = p.attach_xdp("eth0");
    assert_eq!((request.iface.as_str(), request.fd, request.flags), ("eth0", 5, 0));
    assert!(matches!(p.attach_xdp_reply(-1), Err(LoadError::BPF)));
    assert!(matches!(p.attach_xdp_reply(0), Ok(())));
    assert!(!p.is_attached());
}

#[test]
fn a_socket_filter_needs_a_socket_and_a_loaded_program() {
    let mut p = program("socketfilter", "dns");
    assert!(matches!(p.attach_socketfilter(-1, 13), Err(LoadError::IO(13))));
    assert!(matches!(p.attach_socketfilter(8, 0), Err(LoadError::BPF)));
    p.load_reply(5).unwrap();
    assert!(matches!(p.attach_socketfilter(-1, 13), Err(LoadError::IO(13))));
    assert_eq!(p.attach_socketfilter(8, 0).unwrap(), SocketAttach { sfd: 8, fd: 5 });
    assert!(matches!(p.attach_socketfilter_reply(8, -1, 22), Err(LoadError::IO(22))));
    assert!(matches!(p.attach_socketfilter_reply(8, 1, 22), Err(LoadError::IO(22))));
    assert!(!p.is_attached());
    assert!(matches!(p.attach_socketfilter_reply(8, 0, 22), Ok(8)));
    assert_eq!(p.pfd, Some(8));
}

#[test]
fn all_programs_of_a_module_are_loaded_in_turn() {
    let mut module = module();
    let (asked, r) = module.load_programs(vec![], |mut asked: Vec<_>, request: &ProgLoad<'_>| {
        asked.push((
            request.prog_type,
            request.name.to_string(),
            request.license.clone(),
            request.kernel_version,
        ));
        let fd = asked.len() as i32;
        (asked, fd)
    });
    assert!(r.is_ok());
    let asked: Vec<(u32, String)> = asked
        .into_iter()
        .map(|(prog_type, name, license, version)| {
            assert_eq!((license.as_str(), version), ("GPL", 0x0004_0e00));
            (prog_type, name)
        })
        .collect();
    let expected: Vec<(u32, String)> =
        [(1, "dns"), (2, "open"), (6, "drop"), (2, "open"), (1, "tls")]
            .iter()
            .map(|(prog_type, name)| (*prog_type, name.to_string()))
            .collect();
    assert_eq!(asked, expected);
    assert_eq!(
        descriptors(&module),
        vec![(Some(1), None), (Some(2), None), (Some(3), None), (Some(4), None), (Some(5), None)]
    );
}

#[test]
fn the_first_refused_program_ends_loading() {
    let mut m = module();
    let (asked, r) = m.load_programs(0, |asked: i32, request: &ProgLoad<'_>| {
        (asked + 1, if request.name == "drop" { -1 } else { 1 })
    });
    assert!(matches!(r, Err(LoadError::BPF)));
    assert_eq!(asked, 3);
    assert_eq!(
        descriptors(&m),
        vec![(Some(1), None), (Some(1), None), (None, None), (None, None), (None, None)]
    );
    let mut m = module();
    m.license = "G\0L".to_string();
    let (_, r) = m.load_programs((), |_, _: &ProgLoad<'_>| panic!());
    assert!(matches!(r, Err(LoadError::StringConversion)));
    assert!(matches!(m.load(2), Err(LoadError::StringConversion)));
}

#[test]
fn all_probes_are_attached_and_nothing_else() {
    let mut grain = loaded();
    let (asked, r) = grain.attach_kprobes(vec![], |mut asked: Vec<_>, request: &ProbeAttach| {
        asked.push((request.fd, request.ev_name.clone()));
        (asked, request.fd + 100)
    });
    assert!(r.is_ok());
    assert_eq!(asked, vec![(102, "open0".to_string()), (104, "open1".to_string())]);
    assert_eq!(
        descriptors(&grain.module),
        vec![
            (Some(101), None),
            (Some(102), Some(202)),
            (Some(103), None),
            (Some(104), Some(204)),
            (Some(105), None),
        ]
    );
    assert_eq!(grain.native, 7);
}

#[test]
fn the_first_refused_probe_ends_attaching() {
    let mut grain = loaded();
    let (_, r) = grain.attach_kprobes((), |_, request: &ProbeAttach| {
        ((), if request.attach_type == 1 { -1 } else { 50 })
    });
    assert!(matches!(r, Err(LoadError::BPF)));
    assert_eq!(grain.module.programs[1].pfd, Some(50));
    assert_eq!(grain.module.programs[3].pfd, None);
}

#[test]
fn packet_handlers_are_attached_to_the_interface() {
    let mut grain = loaded();
    let before = descriptors(&grain.module);
    let (asked, r) =
        grain.attach_xdps("eth1", vec![], |mut asked: Vec<_>, request: &XdpAttach| {
            asked.push((request.iface.clone(), request.fd, request.flags));
            (asked, 0)
        });
    assert!(r.is_ok());
    assert_eq!(asked, vec![("eth1".to_string(), 103, 0)]);
    assert_eq!(descriptors(&grain.module), before);
    let (_, r) = grain.attach_xdps("eth1", (), |_, _: &XdpAttach| ((), -1));
    assert!(matches!(r, Err(LoadError::BPF)));
    assert_eq!(descriptors(&grain.module), before);
}

#[test]
fn each_filter_gets_a_socket_of_its_own() {
    let mut grain = loaded();
    let ((_, asked), binds) = grain.attach_socketfilters(
        "lo",
        (31, vec![]),
        |(next, asked): (i32, Vec<_>), iface: &str| {
            assert_eq!(iface, "lo");
            ((next + 1, asked), (next, 0))
        },
        |(next, mut asked), request: &SocketAttach| {
            asked.push(*request);
            ((next, asked), (0, 0))
        },
    );
    let binds = binds.unwrap();
    assert_eq!(
        binds,
        vec![SocketBind { program: 0, sfd: 31 }, SocketBind { program: 4, sfd: 32 }]
    );
    assert_eq!(
        asked,
        vec![SocketAttach { sfd: 31, fd: 101 }, SocketAttach { sfd: 32, fd: 105 }]
    );
    let attached: Vec<Option<i32>> = grain.module.programs.iter().map(|p| p.pfd).collect();
    assert_eq!(attached, vec![Some(31), None, None, None, Some(32)]);
}

#[test]
fn filters_that_cannot_be_attached_say_why() {
    let mut grain = loaded();
    let (_, r) = grain.attach_socketfilters(
        "lo",
        (),
        |_, _: &str| ((), (-1, 19)),
        |_, _: &SocketAttach| panic!(),
    );
    assert!(matches!(r, Err(LoadError::IO(19))));
    let (_, r) = grain.attach_socketfilters(
        "lo",
        (),
        |_, _: &str| ((), (4, 0)),
        |_, _: &SocketAttach| ((), (-1, 22)),
    );
    assert!(matches!(r, Err(LoadError::IO(22))));
    assert!(grain.module.programs.iter().all(|p| !p.is_attached()));
    let mut grain = Grain { module: module(), native: () };
    let (_, r) = grain.attach_socketfilters(
        "lo",
        (),
        |_, _: &str| ((), (4, 0)),
        |_, _: &SocketAttach| panic!(),
    );
    assert!(matches!(r, Err(LoadError::BPF)));
}

#[test]
fn filters_keep_the_order_of_their_sockets() {
    let mut module = Module {
        programs: vec![
            program("socketfilter", "f"),
            program("kprobe", "k"),
            program("socketfilter", "g"),
        ],
        maps: vec![],
        license: "GPL".to_string(),
        version: 0,
    };
    module.load_programs((), |_, _: &ProgLoad<'_>| ((), 3)).1.unwrap();
    let mut grain = Grain { module, native: () };
    let (next, binds) = grain.attach_socketfilters(
        "eth0",
        10,
        |next: i32, _: &str| (next + 1, (next, 0)),
        |next: i32, _: &SocketAttach| (next, (0, 0)),
    );
    assert_eq!(next, 12);
    let names: Vec<(&str, i32)> = binds
        .unwrap()
        .iter()
        .map(|bind| (grain.module.programs[bind.program].name.as_str(), bind.sfd))
        .collect();
    assert_eq!(names, vec![("f", 10), ("g", 11)]);
}

#[test]
fn only_probes_and_sockets_leave_a_program_attached() {
    let mut p = program("kprobe", "open");
    p.load_reply(3).unwrap();
    p.attach_xdp_reply(0).unwrap();
    assert!(p.attach_probe_reply(-1).is_err());
    assert!(p.attach_socketfilter_reply(4, -1, 22).is_err());
    assert!(p.is_loaded() && !p.is_attached());
    p.attach_probe_reply(5).unwrap();
    assert!(p.attach_probe_reply(-1).is_err());
    assert!(p.load_reply(-1).is_err());
    p.attach_xdp_reply(0).unwrap();
    assert!(p.is_loaded() && p.is_attached());
}

#[test]
fn a_ring_is_bound_for_each_map_of_events_and_processor() {
    let grain = loaded();
    let bind = |map: usize, cpu: i32| PerfBind {
        map,
        pid: -1,
        cpu,
        page_cnt: 16,
        group: -1,
        flags: 0,
    };
    assert_eq!(
        grain.bind_perf(&vec![0, 1, 5]),
        vec![bind(0, 0), bind(0, 1), bind(0, 5), bind(2, 0), bind(2, 1), bind(2, 5)]
    );
    assert_eq!(grain.bind_perf(&vec![]), vec![]);
}
