//! Grains: modules whose programs are loaded, with the native code that handles their events.
use crate::bpf_map::BpfMapView;
use crate::error::{Failure, LoadError};
use crate::kind::ProgramKind;
use crate::module::{Module, ModuleView};
use crate::program::{
    a_probe_is_asked_for_on_the_function_of_its_name, ProbeAttach, ProbeAttachView, ProgLoad,
    ProgLoadView, ProgramView, SocketAttach, XdpAttach, XdpAttachView,
};
use crate::text::has_nul;
use vstd::prelude::*;

verus! {

/// The kind of map through which programs send events to user space, one ring for each processor.
pub const BPF_MAP_TYPE_PERF_EVENT_ARRAY: u32 = 4;

/// The number of memory pages in the ring of one processor.
pub const PERF_PAGES: u32 = 16;

/// In place of a process: events of all processes.
pub const ANY_PROCESS: i32 = -1;

/// In place of a group of events: none.
pub const NO_GROUP: i32 = -1;

/// A module with the native code that handles its events.
pub struct Grain<T> {
    pub module: Module,
    pub native: T,
}

/// One ring of events to bind: the one of map `map` of the module for processor `cpu`.
#[derive(Debug, Clone, Copy, PartialEq, Eq, Structural)]
pub struct PerfBind {
    pub map: usize,
    pub pid: i32,
    pub cpu: i32,
    pub page_cnt: u32,
    pub group: i32,
    pub flags: u32,
}

/// A program of the module and the socket that it is attached to.
#[derive(Debug, Clone, Copy, PartialEq, Eq, Structural)]
pub struct SocketBind {
    pub program: usize,
    pub sfd: i32,
}

/// Whether the programs before `upto` have been dealt with in turn as `done` says, and the others
/// are as they were. `handles[i]` is the handle of the kernel with which program `i` was come to.
pub open spec fn done_upto<S>(
    before: Seq<ProgramView>,
    after: Seq<ProgramView>,
    handles: Seq<S>,
    upto: int,
    done: spec_fn(ProgramView, S, ProgramView, S) -> bool,
) -> bool {
    &&& after.len() == before.len()
    &&& 0 <= upto <= before.len()
    &&& handles.len() == upto + 1
    &&& forall|i: int|
        0 <= i < upto ==> done(before[i], handles[i], #[trigger] after[i], handles[i + 1])
    &&& forall|i: int| upto <= i < before.len() ==> #[trigger] after[i] == before[i]
}

/// Whether all programs have been dealt with in turn as `done` says, or, where there is a failure,
/// those before a program that failed for that reason as `failed` says. `kernel` is the handle of
/// the kernel before the first program, `kernel_after` the one after the last that was dealt with.
pub open spec fn dealt_with<S>(
    before: ModuleView,
    kernel: S,
    after: ModuleView,
    kernel_after: S,
    failure: Option<Failure>,
    done: spec_fn(ProgramView, S, ProgramView, S) -> bool,
    failed: spec_fn(ProgramView, S, Failure, S) -> bool,
) -> bool {
    &&& after == ModuleView { programs: after.programs, ..before }
    &&& exists|handles: Seq<S>, upto: int|
        {
            &&& #[trigger] done_upto(before.programs, after.programs, handles, upto, done)
            &&& handles[0] == kernel
            &&& match failure {
                None => upto == before.programs.len() && handles[upto] == kernel_after,
                Some(failure) => {
                    &&& upto < before.programs.len()
                    &&& failed(before.programs[upto], handles[upto], failure, kernel_after)
                },
            }
        }
}

/// Whether `prog_load`, called with the handle `kernel` and a request of this content, may give
/// back the handle `after` and answer with `fd`.
pub open spec fn may_load_program<S, F: Fn(S, &ProgLoad<'_>) -> (S, i32)>(
    prog_load: F,
    kernel: S,
    request: ProgLoadView,
    after: S,
    fd: i32,
) -> bool {
    exists|q: ProgLoad<'_>|
        q@ == request && #[trigger] call_ensures(prog_load, (kernel, &q), (after, fd))
}

/// A program that the kernel, asked once, accepted under some descriptor.
pub open spec fn program_loaded<S, F: Fn(S, &ProgLoad<'_>) -> (S, i32)>(
    prog_load: F,
    version: u32,
    license: Seq<char>,
) -> spec_fn(ProgramView, S, ProgramView, S) -> bool {
    |p: ProgramView, kernel: S, q: ProgramView, after: S|
        {
            &&& p.load_request(version, license) matches Ok(request)
            &&& exists|fd: i32|
                fd >= 0 && #[trigger] may_load_program(prog_load, kernel, request, after, fd) && q
                    == p.after_load(fd)
        }
}

/// A program that could not be handed to the kernel, or that the kernel, asked once, refused.
pub open spec fn program_refused<S, F: Fn(S, &ProgLoad<'_>) -> (S, i32)>(
    prog_load: F,
    version: u32,
    license: Seq<char>,
) -> spec_fn(ProgramView, S, Failure, S) -> bool {
    |p: ProgramView, kernel: S, failure: Failure, after: S|
        match p.load_request(version, license) {
            Ok(request) => failure == Failure::BPF && exists|fd: i32|
                fd < 0 && #[trigger] may_load_program(prog_load, kernel, request, after, fd),
            Err(reason) => failure == reason && after == kernel,
        }
}

/// Whether `attach`, called with the handle `kernel` and a request of this content, may give back
/// the handle `after` and answer with `pfd`.
pub open spec fn may_attach_probe<S, F: Fn(S, &ProbeAttach) -> (S, i32)>(
    attach: F,
    kernel: S,
    request: ProbeAttachView,
    after: S,
    pfd: i32,
) -> bool {
    exists|q: ProbeAttach|
        q@ == request && #[trigger] call_ensures(attach, (kernel, &q), (after, pfd))
}

/// A program that, if it belongs to a probe, was attached to it by one call.
pub open spec fn probe_attached<S, F: Fn(S, &ProbeAttach) -> (S, i32)>(attach: F) -> spec_fn(
    ProgramView,
    S,
    ProgramView,
    S,
) -> bool {
    |p: ProgramView, kernel: S, q: ProgramView, after: S|
        if p.kind.is_probe() {
            exists|pfd: i32|
                pfd >= 0 && #[trigger] may_attach_probe(
                    attach,
                    kernel,
                    p.probe_request(),
                    after,
                    pfd,
                ) && q == p.after_attach(pfd)
        } else {
            q == p && after == kernel
        }
}

/// A program that belongs to a probe and that the kernel, asked once, did not attach to it.
pub open spec fn probe_refused<S, F: Fn(S, &ProbeAttach) -> (S, i32)>(attach: F) -> spec_fn(
    ProgramView,
    S,
    Failure,
    S,
) -> bool {
    |p: ProgramView, kernel: S, failure: Failure, after: S|
        p.kind.is_probe() && failure == Failure::BPF && exists|pfd: i32|
            pfd < 0 && #[trigger] may_attach_probe(attach, kernel, p.probe_request(), after, pfd)
}

/// Whether `attach`, called with the handle `kernel` and a request of this content, may give back
/// the handle `after` and answer with `res`.
pub open spec fn may_attach_xdp<S, F: Fn(S, &XdpAttach) -> (S, i32)>(
    attach: F,
    kernel: S,
    request: XdpAttachView,
    after: S,
    res: i32,
) -> bool {
    exists|q: XdpAttach|
        q@ == request && #[trigger] call_ensures(attach, (kernel, &q), (after, res))
}

/// A program that, if it handles received packets, was attached to the interface by one call.
pub open spec fn xdp_attached<S, F: Fn(S, &XdpAttach) -> (S, i32)>(
    attach: F,
    iface: Seq<char>,
) -> spec_fn(ProgramView, S, ProgramView, S) -> bool {
    |p: ProgramView, kernel: S, q: ProgramView, after: S|
        {
            &&& q == p
            &&& if p.kind == ProgramKind::XDP {
                exists|res: i32|
                    res >= 0 && #[trigger] may_attach_xdp(
                        attach,
                        kernel,
                        p.xdp_request(iface),
                        after,
                        res,
                    )
            } else {
                after == kernel
            }
        }
}

/// A program that handles received packets and that the kernel, asked once, did not attach to the
/// interface.
pub open spec fn xdp_refused<S, F: Fn(S, &XdpAttach) -> (S, i32)>(
    attach: F,
    iface: Seq<char>,
) -> spec_fn(ProgramView, S, Failure, S) -> bool {
    |p: ProgramView, kernel: S, failure: Failure, after: S|
        p.kind == ProgramKind::XDP && failure == Failure::BPF && exists|res: i32|
            res < 0 && #[trigger] may_attach_xdp(attach, kernel, p.xdp_request(iface), after, res)
}

/// A program that, if it is a socket filter, was attached to a socket: one call opened the socket
/// on the interface, and the next one attached the program to it.
pub open spec fn filter_attached<
    S,
    O: Fn(S, &str) -> (S, (i32, i32)),
    A: Fn(S, &SocketAttach) -> (S, (i32, i32)),
>(open: O, attach: A, iface: &str) -> spec_fn(ProgramView, S, ProgramView, S) -> bool {
    |p: ProgramView, kernel: S, q: ProgramView, after: S|
        if p.kind == ProgramKind::SocketFilter {
            exists|between: S, opened: (i32, i32), request: SocketAttach, attached: (i32, i32)|
                {
                    &&& #[trigger] call_ensures(open, (kernel, iface), (between, opened))
                    &&& p.socket_request(opened.0, opened.1) == Ok::<SocketAttach, Failure>(request)
                    &&& #[trigger] call_ensures(attach, (between, &request), (after, attached))
                    &&& attached.0 == 0
                    &&& q == p.after_socket(opened.0, attached.0)
                }
        } else {
            q == p && after == kernel
        }
}

/// A socket filter for which the one call to open a socket failed, which is not loaded, or which
/// the next call did not attach to the socket.
pub open spec fn filter_refused<
    S,
    O: Fn(S, &str) -> (S, (i32, i32)),
    A: Fn(S, &SocketAttach) -> (S, (i32, i32)),
>(open: O, attach: A, iface: &str) -> spec_fn(ProgramView, S, Failure, S) -> bool {
    |p: ProgramView, kernel: S, failure: Failure, after: S|
        p.kind == ProgramKind::SocketFilter && {
            ||| exists|opened: (i32, i32)|
                {
                    &&& #[trigger] call_ensures(open, (kernel, iface), (after, opened))
                    &&& p.socket_request(opened.0, opened.1) == Err::<SocketAttach, Failure>(
                        failure,
                    )
                }
            ||| exists|between: S, opened: (i32, i32), request: SocketAttach, attached: (i32, i32)|
                {
                    &&& #[trigger] call_ensures(open, (kernel, iface), (between, opened))
                    &&& p.socket_request(opened.0, opened.1) == Ok::<SocketAttach, Failure>(request)
                    &&& #[trigger] call_ensures(attach, (between, &request), (after, attached))
                    &&& attached.0 != 0
                    &&& failure == Failure::IO(attached.1)
                }
        }
}

/// The socket filters among the first `upto` programs, in their order, each with the descriptor
/// that it is attached to.
pub open spec fn socket_binds(programs: Seq<ProgramView>, upto: nat) -> Seq<SocketBind>
    decreases upto,
{
    if upto == 0 {
        Seq::empty()
    } else {
        let before = socket_binds(programs, (upto - 1) as nat);
        let program = programs[upto - 1];
        if program.kind == ProgramKind::SocketFilter {
            before.push(SocketBind { program: (upto - 1) as usize, sfd: program.pfd->0 })
        } else {
            before
        }
    }
}

/// The ring of map `map` for processor `cpu`: for all processes, of a fixed size, in no group.
pub open spec fn perf_bind(map: usize, cpu: i32) -> PerfBind {
    PerfBind { map, pid: ANY_PROCESS, cpu, page_cnt: PERF_PAGES, group: NO_GROUP, flags: 0 }
}

/// The rings to bind for the first `upto` maps: for each map of events in turn, one for each
/// processor.
pub open spec fn perf_binds(maps: Seq<BpfMapView>, cpus: Seq<i32>, upto: nat) -> Seq<PerfBind>
    decreases upto,
{
    if upto == 0 {
        Seq::empty()
    } else {
        let before = perf_binds(maps, cpus, (upto - 1) as nat);
        if maps[upto - 1].kind == BPF_MAP_TYPE_PERF_EVENT_ARRAY {
            before + cpus.map_values(|cpu: i32| perf_bind((upto - 1) as usize, cpu))
        } else {
            before
        }
    }
}

/// The failure in a result, if there is one.
pub open spec fn failure_of<V>(r: Result<V, LoadError>) -> Option<Failure> {
    match r {
        Ok(_) => None,
        Err(e) => Some(e@),
    }
}

/// Whether a program, if it belongs to a probe, can be attached: it is loaded, and its name can be
/// handed to the kernel.
pub open spec fn probe_ready(p: ProgramView) -> bool {
    p.kind.is_probe() ==> p.fd is Some && !has_nul(p.name)
}

/// Whether a program, if it handles received packets, can be attached to the interface: it is
/// loaded, and the name of the interface can be handed to the kernel.
pub open spec fn xdp_ready(p: ProgramView, iface: Seq<char>) -> bool {
    p.kind == ProgramKind::XDP ==> p.fd is Some && !has_nul(iface)
}

/// Whether a socket can be asked for on the interface, if the program is a socket filter: the name
/// of the interface can be handed to the kernel.
pub open spec fn filter_ready(p: ProgramView, iface: Seq<char>) -> bool {
    p.kind == ProgramKind::SocketFilter ==> !has_nul(iface)
}

/// All rings to bind for a module on these processors.
pub open spec fn rings_of(module: ModuleView, cpus: Seq<i32>) -> Seq<PerfBind> {
    perf_binds(module.maps, cpus, module.maps.len())
}

/// All socket filters of a module, each with the descriptor that it is attached to.
pub open spec fn sockets_of(module: ModuleView) -> Seq<SocketBind> {
    socket_binds(module.programs, module.programs.len())
}

impl Module {
    /// Loads all programs of the module in turn. `prog_load` hands a request to the kernel and
    /// returns its answer; it takes the handle that the call before gave back, and gives it back
    /// in turn. The first program that cannot be loaded ends it.
    pub fn load_programs<S, F: Fn(S, &ProgLoad<'_>) -> (S, i32)>(
        &mut self,
        kernel: S,
        prog_load: F,
    ) -> (r: (S, Result<(), LoadError>))
        requires
            forall|k: S, request: &ProgLoad<'_>| call_requires(prog_load, (k, request)),
        ensures
            dealt_with(
                old(self)@,
                kernel,
                final(self)@,
                r.0,
                failure_of(r.1),
                program_loaded(prog_load, old(self)@.version, old(self)@.license),
                program_refused(prog_load, old(self)@.version, old(self)@.license),
            ),
    {
        let count: usize = self.programs.len();
        let ghost before = self@;
        let ghost done = program_loaded::<S, F>(prog_load, before.version, before.license);
        let mut handle = kernel;
        let ghost mut handles = seq![kernel];
        for i in 0..count
            invariant
                before == old(self)@,
                done == program_loaded::<S, F>(prog_load, before.version, before.license),
                count == before.programs.len(),
                self@ == (ModuleView { programs: self@.programs, ..before }),
                done_upto(before.programs, self@.programs, handles, i as int, done),
                handles[0] == kernel,
                handles[i as int] == handle,
                forall|k: S, request: &ProgLoad<'_>| call_requires(prog_load, (k, request)),
        {
            let ghost now = self@;
            let ghost p = before.programs[i as int];
            let ghost wanted = p.load_request(before.version, before.license);
            assert(now.programs[i as int] == p);
            let ghost asked = handle;
            let fd: i32 = match self.load(i) {
                Ok(request) => {
                    let (given_back, fd): (S, i32) = prog_load(handle, &request);
                    handle = given_back;
                    assert(wanted == Ok::<ProgLoadView, Failure>(request@));
                    assert(may_load_program(prog_load, asked, request@, handle, fd));
                    fd
                },
                Err(e) => {
                    return (handle, Err(e));
                },
            };
            assert(may_load_program(prog_load, asked, wanted->Ok_0, handle, fd));
            match self.programs[i].load_reply(fd) {
                Ok(_) => {},
                Err(e) => {
                    assert(self@.programs =~= now.programs);
                    return (handle, Err(e));
                },
            }
            assert(self@.programs =~= now.programs.update(i as int, p.after_load(fd)));
            assert(done(p, asked, self@.programs[i as int], handle));
            proof {
                handles = handles.push(handle);
            }
        }
        (handle, Ok(()))
    }
}

impl<T> Grain<T> {
    /// Attaches all programs that belong to probes, which are loaded and have names that can be
    /// handed to the kernel, in turn. `attach` hands a request to the kernel and returns its
    /// answer; it takes the handle that the call before gave back, and gives it back in turn. The
    /// first program that cannot be attached ends it.
    pub fn attach_kprobes<S, F: Fn(S, &ProbeAttach) -> (S, i32)>(
        &mut self,
        kernel: S,
        attach: F,
    ) -> (r: (S, Result<(), LoadError>))
        requires
            forall|i: int|
                0 <= i < old(self).module@.programs.len() ==> probe_ready(
                    #[trigger] old(self).module@.programs[i],
                ),
            forall|k: S, request: &ProbeAttach| call_requires(attach, (k, request)),
        ensures
            final(self).native == old(self).native,
            dealt_with(
                old(self).module@,
                kernel,
                final(self).module@,
                r.0,
                failure_of(r.1),
                probe_attached(attach),
                probe_refused(attach),
            ),
    {
        let count: usize = self.module.programs.len();
        let ghost before = self.module@;
        let ghost done = probe_attached::<S, F>(attach);
        let mut handle = kernel;
        let ghost mut handles = seq![kernel];
        for i in 0..count
            invariant
                before == old(self).module@,
                self.native == old(self).native,
                done == probe_attached::<S, F>(attach),
                count == before.programs.len(),
                self.module@ == (ModuleView { programs: self.module@.programs, ..before }),
                done_upto(before.programs, self.module@.programs, handles, i as int, done),
                handles[0] == kernel,
                handles[i as int] == handle,
                forall|i: int|
                    0 <= i < before.programs.len() ==> probe_ready(#[trigger] before.programs[i]),
                forall|k: S, request: &ProbeAttach| call_requires(attach, (k, request)),
        {
            let ghost now = self.module@;
            let ghost p = before.programs[i as int];
            let ghost asked = handle;
            assert(now.programs[i as int] == p);
            if self.module.programs[i].kind == ProgramKind::Kprobe || self.module.programs[i].kind
                == ProgramKind::Kretprobe {
                let request = self.module.programs[i].attach_probe();
                let (given_back, pfd): (S, i32) = attach(handle, &request);
                handle = given_back;
                assert(may_attach_probe(attach, asked, request@, handle, pfd));
                match self.module.programs[i].attach_probe_reply(pfd) {
                    Ok(_) => {},
                    Err(e) => {
                        assert(self.module@.programs =~= now.programs);
                        return (handle, Err(e));
                    },
                }
                assert(self.module@.programs =~= now.programs.update(
                    i as int,
                    p.after_attach(pfd),
                ));
            }
            assert(done(p, asked, self.module@.programs[i as int], handle));
            proof {
                handles = handles.push(handle);
            }
        }
        (handle, Ok(()))
    }

    /// Attaches all programs that handle received packets, which are loaded, to the interface in
    /// turn. `attach` hands a request to the kernel and returns its answer; it takes the handle
    /// that the call before gave back, and gives it back in turn. The first program that cannot
    /// be attached ends it.
    pub fn attach_xdps<S, F: Fn(S, &XdpAttach) -> (S, i32)>(
        &mut self,
        iface: &str,
        kernel: S,
        attach: F,
    ) -> (r: (S, Result<(), LoadError>))
        requires
            forall|i: int|
                0 <= i < old(self).module@.programs.len() ==> xdp_ready(
                    #[trigger] old(self).module@.programs[i],
                    iface@,
                ),
            forall|k: S, request: &XdpAttach| call_requires(attach, (k, request)),
        ensures
            final(self).native == old(self).native,
            dealt_with(
                old(self).module@,
                kernel,
                final(self).module@,
                r.0,
                failure_of(r.1),
                xdp_attached(attach, iface@),
                xdp_refused(attach, iface@),
            ),
    {
        let count: usize = self.module.programs.len();
        let ghost before = self.module@;
        let ghost done = xdp_attached::<S, F>(attach, iface@);
        let mut handle = kernel;
        let ghost mut handles = seq![kernel];
        for i in 0..count
            invariant
                before == old(self).module@,
                self.native == old(self).native,
                done == xdp_attached::<S, F>(attach, iface@),
                count == before.programs.len(),
                self.module@ == (ModuleView { programs: self.module@.programs, ..before }),
                done_upto(before.programs, self.module@.programs, handles, i as int, done),
                handles[0] == kernel,
                handles[i as int] == handle,
                forall|i: int|
                    0 <= i < before.programs.len() ==> xdp_ready(
                        #[trigger] before.programs[i],
                        iface@,
                    ),
                forall|k: S, request: &XdpAttach| call_requires(attach, (k, request)),
        {
            let ghost now = self.module@;
            let ghost p = before.programs[i as int];
            let ghost asked = handle;
            assert(now.programs[i as int] == p);
            if self.module.programs[i].kind == ProgramKind::XDP {
                let request = self.module.programs[i].attach_xdp(iface);
                let (given_back, res): (S, i32) = attach(handle, &request);
                handle = given_back;
                assert(may_attach_xdp(attach, asked, request@, handle, res));
                let reply = self.module.programs[i].attach_xdp_reply(res);
                assert(self.module@.programs =~= now.programs);
                match reply {
                    Ok(_) => {},
                    Err(e) => {
                        return (handle, Err(e));
                    },
                }
            }
            assert(done(p, asked, self.module@.programs[i as int], handle));
            proof {
                handles = handles.push(handle);
            }
        }
        (handle, Ok(()))
    }

    /// Attaches all socket filters in turn, each to a socket of its own on the interface, and
    /// says which program sits on which socket. `open` opens a socket on an interface, `attach`
    /// hands a request to the kernel; both return the answer with the `errno` that goes with it,
    /// and both take the handle that the call before gave back, and give it back in turn. The
    /// first program that cannot be attached ends it.
    pub fn attach_socketfilters<
        S,
        O: Fn(S, &str) -> (S, (i32, i32)),
        A: Fn(S, &SocketAttach) -> (S, (i32, i32)),
    >(&mut self, iface: &str, kernel: S, open: O, attach: A) -> (r: (
        S,
        Result<Vec<SocketBind>, LoadError>,
    ))
        requires
            forall|i: int|
                0 <= i < old(self).module@.programs.len() ==> filter_ready(
                    #[trigger] old(self).module@.programs[i],
                    iface@,
                ),
            forall|k: S| call_requires(open, (k, iface)),
            forall|k: S, request: &SocketAttach| call_requires(attach, (k, request)),
        ensures
            final(self).native == old(self).native,
            dealt_with(
                old(self).module@,
                kernel,
                final(self).module@,
                r.0,
                failure_of(r.1),
                filter_attached(open, attach, iface),
                filter_refused(open, attach, iface),
            ),
            r.1 matches Ok(binds) ==> binds@ == socket_binds(
                final(self).module@.programs,
                final(self).module@.programs.len(),
            ),
            r.1 matches Ok(binds) ==> binds@ == sockets_of(final(self).module@),
    {
        let count: usize = self.module.programs.len();
        let ghost before = self.module@;
        let ghost done = filter_attached::<S, O, A>(open, attach, iface);
        let mut handle = kernel;
        let ghost mut handles = seq![kernel];
        let mut binds: Vec<SocketBind> = Vec::new();
        for i in 0..count
            invariant
                before == old(self).module@,
                self.native == old(self).native,
                done == filter_attached::<S, O, A>(open, attach, iface),
                count == before.programs.len(),
                self.module@ == (ModuleView { programs: self.module@.programs, ..before }),
                done_upto(before.programs, self.module@.programs, handles, i as int, done),
                handles[0] == kernel,
                handles[i as int] == handle,
                binds@ == socket_binds(self.module@.programs, i as nat),
                forall|k: S| call_requires(open, (k, iface)),
                forall|k: S, request: &SocketAttach| call_requires(attach, (k, request)),
        {
            let ghost now = self.module@;
            let ghost p = before.programs[i as int];
            let ghost asked = handle;
            assert(now.programs[i as int] == p);
            if self.module.programs[i].kind == ProgramKind::SocketFilter {
                let (between, opened): (S, (i32, i32)) = open(handle, iface);
                let request = match self.module.programs[i].attach_socketfilter(
                    opened.0,
                    opened.1,
                ) {
                    Ok(request) => request,
                    Err(e) => {
                        return (between, Err(e));
                    },
                };
                let (given_back, attached): (S, (i32, i32)) = attach(between, &request);
                handle = given_back;
                let sfd: i32 = match self.module.programs[i].attach_socketfilter_reply(
                    opened.0,
                    attached.0,
                    attached.1,
                ) {
                    Ok(sfd) => sfd,
                    Err(e) => {
                        assert(self.module@.programs =~= now.programs);
                        return (handle, Err(e));
                    },
                };
                binds.push(SocketBind { program: i, sfd });
                assert(self.module@.programs =~= now.programs.update(
                    i as int,
                    p.after_socket(opened.0, attached.0),
                ));
                proof {
                    lemma_socket_binds_prefix(now.programs, self.module@.programs, i as nat);
                }
            }
            assert(done(p, asked, self.module@.programs[i as int], handle));
            proof {
                handles = handles.push(handle);
            }
        }
        (handle, Ok(binds))
    }

    /// The rings of events to bind, one for each map of events and each of the processors.
    pub fn bind_perf(&self, online_cpus: &Vec<i32>) -> (r: Vec<PerfBind>)
        ensures
            r@ == perf_binds(self.module@.maps, online_cpus@, self.module@.maps.len()),
            r@ == rings_of(self.module@, online_cpus@),
    {
        let mut binds: Vec<PerfBind> = Vec::new();
        for map in 0..self.module.maps.len()
            invariant
                binds@ == perf_binds(self.module@.maps, online_cpus@, map as nat),
        {
            if self.module.maps[map].kind == BPF_MAP_TYPE_PERF_EVENT_ARRAY {
                let ghost before = binds@;
                for j in 0..online_cpus.len()
                    invariant
                        binds@ =~= before + online_cpus@.take(j as int).map_values(
                            |cpu: i32| perf_bind(map, cpu),
                        ),
                {
                    binds.push(
                        PerfBind {
                            map,
                            pid: ANY_PROCESS,
                            cpu: online_cpus[j],
                            page_cnt: PERF_PAGES,
                            group: NO_GROUP,
                            flags: 0,
                        },
                    );
                    assert(online_cpus@.take(j + 1) =~= online_cpus@.take(j as int).push(
                        online_cpus@[j as int],
                    ));
                }
                assert(online_cpus@.take(online_cpus@.len() as int) =~= online_cpus@);
            }
        }
        binds
    }
}

/// Which programs sit on which sockets depends on no later program.
proof fn lemma_socket_binds_prefix(a: Seq<ProgramView>, b: Seq<ProgramView>, upto: nat)
    requires
        forall|i: int| 0 <= i < upto ==> a[i] == b[i],
    ensures
        socket_binds(a, upto) == socket_binds(b, upto),
    decreases upto,
{
    if upto > 0 {
        lemma_socket_binds_prefix(a, b, (upto - 1) as nat);
    }
}

/// When loading a module's programs succeeds, every one of them is loaded, so all of them can be
/// attached, and nothing else about them has changed.
pub proof fn loading_leaves_every_program_loaded<S, F: Fn(S, &ProgLoad<'_>) -> (S, i32)>(
    prog_load: F,
    before: ModuleView,
    kernel: S,
    after: ModuleView,
    kernel_after: S,
)
    requires
        dealt_with(
            before,
            kernel,
            after,
            kernel_after,
            None,
            program_loaded(prog_load, before.version, before.license),
            program_refused(prog_load, before.version, before.license),
        ),
    ensures
        after.programs.len() == before.programs.len(),
        forall|i: int|
            0 <= i < before.programs.len() ==> {
                &&& (#[trigger] after.programs[i]).fd matches Some(fd) && fd >= 0
                &&& after.programs[i] == ProgramView {
                    fd: after.programs[i].fd,
                    ..before.programs[i]
                }
            },
{
    let done = program_loaded::<S, F>(prog_load, before.version, before.license);
    let (handles, upto) = choose|handles: Seq<S>, upto: int|
        {
            &&& #[trigger] done_upto(before.programs, after.programs, handles, upto, done)
            &&& upto == before.programs.len()
        };
    assert forall|i: int| 0 <= i < before.programs.len() implies {
        &&& (#[trigger] after.programs[i]).fd matches Some(fd) && fd >= 0
        &&& after.programs[i] == ProgramView { fd: after.programs[i].fd, ..before.programs[i] }
    } by {
        assert(done(before.programs[i], handles[i], after.programs[i], handles[i + 1]));
    }
}

/// When attaching a grain's probes succeeds, exactly the programs that belong to probes have been
/// attached, and nothing else about any program has changed.
pub proof fn attaching_probes_attaches_all_of_them<S, F: Fn(S, &ProbeAttach) -> (S, i32)>(
    attach: F,
    before: ModuleView,
    kernel: S,
    after: ModuleView,
    kernel_after: S,
)
    requires
        dealt_with(
            before,
            kernel,
            after,
            kernel_after,
            None,
            probe_attached(attach),
            probe_refused(attach),
        ),
    ensures
        after.programs.len() == before.programs.len(),
        forall|i: int|
            0 <= i < before.programs.len() ==> {
                &&& (#[trigger] after.programs[i]) == ProgramView {
                    pfd: after.programs[i].pfd,
                    ..before.programs[i]
                }
                &&& if before.programs[i].kind.is_probe() {
                    after.programs[i].pfd matches Some(pfd) && pfd >= 0
                } else {
                    after.programs[i].pfd == before.programs[i].pfd
                }
            },
{
    let done = probe_attached::<S, F>(attach);
    let (handles, upto) = choose|handles: Seq<S>, upto: int|
        {
            &&& #[trigger] done_upto(before.programs, after.programs, handles, upto, done)
            &&& upto == before.programs.len()
        };
    assert forall|i: int| 0 <= i < before.programs.len() implies {
        &&& (#[trigger] after.programs[i]) == ProgramView {
            pfd: after.programs[i].pfd,
            ..before.programs[i]
        }
        &&& if before.programs[i].kind.is_probe() {
            after.programs[i].pfd matches Some(pfd) && pfd >= 0
        } else {
            after.programs[i].pfd == before.programs[i].pfd
        }
    } by {
        assert(done(before.programs[i], handles[i], after.programs[i], handles[i + 1]));
    }
}

/// Whether or not attaching to an interface succeeds, the module stays as it was.
pub proof fn attaching_to_an_interface_leaves_the_module<S, F: Fn(S, &XdpAttach) -> (S, i32)>(
    attach: F,
    iface: Seq<char>,
    before: ModuleView,
    kernel: S,
    after: ModuleView,
    kernel_after: S,
    failure: Option<Failure>,
)
    requires
        dealt_with(
            before,
            kernel,
            after,
            kernel_after,
            failure,
            xdp_attached(attach, iface),
            xdp_refused(attach, iface),
        ),
    ensures
        after == before,
{
    let done = xdp_attached::<S, F>(attach, iface);
    let (handles, upto) = choose|handles: Seq<S>, upto: int| #[trigger]
        done_upto(before.programs, after.programs, handles, upto, done);
    assert forall|i: int| 0 <= i < before.programs.len() implies after.programs[i]
        == before.programs[i] by {
        if i < upto {
            assert(done(before.programs[i], handles[i], after.programs[i], handles[i + 1]));
        }
    }
    assert(after.programs =~= before.programs);
}

/// When attaching a grain's socket filters succeeds, the result names every socket filter once,
/// in the order of the programs, each with the socket that it is attached to; the other programs
/// have not changed.
pub proof fn each_socket_goes_with_its_filter<
    S,
    O: Fn(S, &str) -> (S, (i32, i32)),
    A: Fn(S, &SocketAttach) -> (S, (i32, i32)),
>(
    open: O,
    attach: A,
    iface: &str,
    before: ModuleView,
    kernel: S,
    after: ModuleView,
    kernel_after: S,
    binds: Seq<SocketBind>,
)
    requires
        before.programs.len() <= usize::MAX,
        dealt_with(
            before,
            kernel,
            after,
            kernel_after,
            None,
            filter_attached(open, attach, iface),
            filter_refused(open, attach, iface),
        ),
        binds == socket_binds(after.programs, after.programs.len()),
    ensures
        forall|j: int|
            0 <= j < binds.len() ==> {
                let bind = #[trigger] binds[j];
                &&& bind.program < after.programs.len()
                &&& after.programs[bind.program as int].kind == ProgramKind::SocketFilter
                &&& after.programs[bind.program as int].pfd == Some(bind.sfd)
                &&& bind.sfd >= 0
            },
        forall|j: int, k: int|
            0 <= j < k < binds.len() ==> (#[trigger] binds[j]).program < (
            #[trigger] binds[k]).program,
        forall|i: int|
            0 <= i < after.programs.len() && (#[trigger] after.programs[i]).kind
                == ProgramKind::SocketFilter ==> exists|j: int|
                0 <= j < binds.len() && (#[trigger] binds[j]).program == i,
        forall|i: int|
            0 <= i < before.programs.len() ==> {
                &&& (#[trigger] after.programs[i]) == ProgramView {
                    pfd: after.programs[i].pfd,
                    ..before.programs[i]
                }
                &&& before.programs[i].kind != ProgramKind::SocketFilter ==> after.programs[i]
                    == before.programs[i]
            },
{
    let done = filter_attached::<S, O, A>(open, attach, iface);
    let (handles, upto) = choose|handles: Seq<S>, upto: int|
        {
            &&& #[trigger] done_upto(before.programs, after.programs, handles, upto, done)
            &&& upto == before.programs.len()
        };
    assert forall|i: int| 0 <= i < before.programs.len() implies {
        &&& (#[trigger] after.programs[i]) == ProgramView {
            pfd: after.programs[i].pfd,
            ..before.programs[i]
        }
        &&& if before.programs[i].kind == ProgramKind::SocketFilter {
            after.programs[i].pfd matches Some(sfd) && sfd >= 0
        } else {
            after.programs[i] == before.programs[i]
        }
    } by {
        assert(done(before.programs[i], handles[i], after.programs[i], handles[i + 1]));
    }
    lemma_socket_binds(after.programs, after.programs.len());
}

/// The socket filters among the first `upto` programs are each named once.
proof fn lemma_socket_binds(programs: Seq<ProgramView>, upto: nat)
    requires
        upto <= programs.len() <= usize::MAX,
        forall|i: int|
            0 <= i < programs.len() && (#[trigger] programs[i]).kind == ProgramKind::SocketFilter
                ==> (programs[i].pfd matches Some(sfd) && sfd >= 0),
    ensures
        ({
            let binds = socket_binds(programs, upto);
            &&& forall|j: int|
                0 <= j < binds.len() ==> {
                    let bind = #[trigger] binds[j];
                    &&& bind.program < upto
                    &&& programs[bind.program as int].kind == ProgramKind::SocketFilter
                    &&& programs[bind.program as int].pfd == Some(bind.sfd)
                    &&& bind.sfd >= 0
                }
            &&& forall|j: int, k: int|
                0 <= j < k < binds.len() ==> (#[trigger] binds[j]).program < (
                #[trigger] binds[k]).program
            &&& forall|i: int|
                0 <= i < upto && (#[trigger] programs[i]).kind == ProgramKind::SocketFilter
                    ==> exists|j: int| 0 <= j < binds.len() && (#[trigger] binds[j]).program == i
        }),
    decreases upto,
{
    if upto > 0 {
        lemma_socket_binds(programs, (upto - 1) as nat);
        let before = socket_binds(programs, (upto - 1) as nat);
        let binds = socket_binds(programs, upto);
        assert forall|j: int| 0 <= j < before.len() implies binds[j] == before[j] by {}
        assert forall|i: int|
            0 <= i < upto && (#[trigger] programs[i]).kind
                == ProgramKind::SocketFilter implies exists|j: int|
            0 <= j < binds.len() && (#[trigger] binds[j]).program == i by {
            if i < upto - 1 {
                let j = choose|j: int| 0 <= j < before.len() && (#[trigger] before[j]).program == i;
                assert(binds[j].program == i);
            } else {
                assert(binds[before.len() as int].program == i);
            }
        }
    }
}

/// How many of the first `upto` maps are maps of events.
pub open spec fn perf_maps(maps: Seq<BpfMapView>, upto: nat) -> nat
    decreases upto,
{
    if upto == 0 {
        0
    } else {
        let before = perf_maps(maps, (upto - 1) as nat);
        if maps[upto - 1].kind == BPF_MAP_TYPE_PERF_EVENT_ARRAY {
            before + 1
        } else {
            before
        }
    }
}

/// A ring is bound for every map of events and every processor, and no other: as many as there
/// are pairs of the two.
pub proof fn rings_are_bound_for_each_map_and_processor(
    maps: Seq<BpfMapView>,
    cpus: Seq<i32>,
    upto: nat,
)
    requires
        upto <= maps.len() <= usize::MAX,
    ensures
        perf_binds(maps, cpus, upto).len() == perf_maps(maps, upto) * cpus.len(),
        forall|bind: PerfBind| #[trigger]
            perf_binds(maps, cpus, upto).contains(bind) <==> {
                &&& bind.map < upto
                &&& maps[bind.map as int].kind == BPF_MAP_TYPE_PERF_EVENT_ARRAY
                &&& cpus.contains(bind.cpu)
                &&& bind == perf_bind(bind.map, bind.cpu)
            },
    decreases upto,
{
    if upto == 0 {
        assert(perf_maps(maps, upto) * cpus.len() == 0) by (nonlinear_arith)
            requires
                perf_maps(maps, upto) == 0,
        ;
    } else {
        let last = (upto - 1) as usize;
        let before = perf_binds(maps, cpus, (upto - 1) as nat);
        let binds = perf_binds(maps, cpus, upto);
        rings_are_bound_for_each_map_and_processor(maps, cpus, (upto - 1) as nat);
        if maps[last as int].kind == BPF_MAP_TYPE_PERF_EVENT_ARRAY {
            let added = cpus.map_values(|cpu: i32| perf_bind(last, cpu));
            assert(binds == before + added);
            let count = perf_maps(maps, (upto - 1) as nat);
            assert((count + 1) * cpus.len() == count * cpus.len() + cpus.len())
                by (nonlinear_arith);
            assert forall|bind: PerfBind| #[trigger] binds.contains(bind) <==> {
                &&& bind.map < upto
                &&& maps[bind.map as int].kind == BPF_MAP_TYPE_PERF_EVENT_ARRAY
                &&& cpus.contains(bind.cpu)
                &&& bind == perf_bind(bind.map, bind.cpu)
            } by {
                lemma_contains_either(before, added, bind);
                if added.contains(bind) {
                    let j = choose|j: int| 0 <= j < added.len() && added[j] == bind;
                    assert(cpus[j] == bind.cpu);
                }
                if bind.map == last && cpus.contains(bind.cpu) && bind == perf_bind(
                    bind.map,
                    bind.cpu,
                ) {
                    let j = choose|j: int| 0 <= j < cpus.len() && cpus[j] == bind.cpu;
                    assert(added[j] == bind);
                }
            }
        }
    }
}

/// What is in one of two sequences is in both of them together.
proof fn lemma_contains_either<T>(a: Seq<T>, b: Seq<T>, x: T)
    ensures
        (a + b).contains(x) == (a.contains(x) || b.contains(x)),
{
    if a.contains(x) {
        let j = choose|j: int| 0 <= j < a.len() && a[j] == x;
        assert((a + b)[j] == x);
    }
    if b.contains(x) {
        let j = choose|j: int| 0 <= j < b.len() && b[j] == x;
        assert((a + b)[a.len() + j] == x);
    }
    if (a + b).contains(x) {
        let j = choose|j: int| 0 <= j < (a + b).len() && (a + b)[j] == x;
        if j < a.len() {
            assert(a[j] == x);
        } else {
            assert(b[j - a.len()] == x);
        }
    }
}

/// Whether a request is one to load all of a program, for this version and under this license.
pub open spec fn asks_to_load(
    request: ProgLoadView,
    p: ProgramView,
    version: u32,
    license: Seq<char>,
) -> bool {
    &&& request.prog_type == p.kind.prog_type()
    &&& request.name == p.name
    &&& request.code == p.code
    &&& request.code_bytes == p.code_bytes
    &&& request.license == license
    &&& request.kernel_version == version
    &&& request.log_level == 0
    &&& request.log_buf_size == 64 * 65535
}

/// Whether one call of `prog_load` asked to load the program and was answered with `fd`.
pub open spec fn load_call<S, F: Fn(S, &ProgLoad<'_>) -> (S, i32)>(
    prog_load: F,
    p: ProgramView,
    version: u32,
    license: Seq<char>,
    before: S,
    after: S,
    fd: i32,
) -> bool {
    exists|q: ProgLoad<'_>|
        asks_to_load(q@, p, version, license) && #[trigger] call_ensures(
            prog_load,
            (before, &q),
            (after, fd),
        )
}

/// Loading the programs of a module makes one call for each program, in turn, with the handle that
/// the call before gave back: it asks to load all of that program, for the version and under the
/// license of the module, and the program keeps the descriptor of the answer. It ends before the
/// first program that is refused, or that has a NUL character in its name or license; the programs
/// from there on, and all else of the module, stay as they were.
pub proof fn each_program_is_loaded_by_a_call_of_its_own<S, F: Fn(S, &ProgLoad<'_>) -> (S, i32)>(
    prog_load: F,
    before: ModuleView,
    kernel: S,
    after: ModuleView,
    kernel_after: S,
    failure: Option<Failure>,
) -> (handles: Seq<S>)
    requires
        dealt_with(
            before,
            kernel,
            after,
            kernel_after,
            failure,
            program_loaded(prog_load, before.version, before.license),
            program_refused(prog_load, before.version, before.license),
        ),
    ensures
        ({
            let upto = handles.len() - 1;
            let n = before.programs.len();
            &&& 0 <= upto <= n
            &&& handles[0] == kernel
            &&& after.maps == before.maps
            &&& after.license == before.license
            &&& after.version == before.version
            &&& after.programs.len() == n
            &&& forall|i: int|
                0 <= i < upto ==> {
                    &&& (#[trigger] after.programs[i]).fd matches Some(fd)
                    &&& fd >= 0
                    &&& after.programs[i] == ProgramView { fd: Some(fd), ..before.programs[i] }
                    &&& load_call(
                        prog_load,
                        before.programs[i],
                        before.version,
                        before.license,
                        handles[i],
                        handles[i + 1],
                        fd,
                    )
                }
            &&& forall|i: int| upto <= i < n ==> #[trigger] after.programs[i] == before.programs[i]
            &&& match failure {
                None => upto == n && kernel_after == handles[upto],
                Some(failure) => {
                    let p = before.programs[upto];
                    &&& upto < n
                    &&& if before.license.contains('\0') || p.name.contains('\0') {
                        failure == Failure::StringConversion && kernel_after == handles[upto]
                    } else {
                        &&& failure == Failure::BPF
                        &&& exists|fd: i32|
                            fd < 0 && #[trigger] load_call(
                                prog_load,
                                p,
                                before.version,
                                before.license,
                                handles[upto],
                                kernel_after,
                                fd,
                            )
                    }
                },
            }
        }),
{
    let done = program_loaded::<S, F>(prog_load, before.version, before.license);
    let failed = program_refused::<S, F>(prog_load, before.version, before.license);
    let (handles, upto) = choose|handles: Seq<S>, upto: int|
        {
            &&& #[trigger] done_upto(before.programs, after.programs, handles, upto, done)
            &&& handles[0] == kernel
            &&& match failure {
                None => upto == before.programs.len() && handles[upto] == kernel_after,
                Some(failure) => {
                    &&& upto < before.programs.len()
                    &&& failed(before.programs[upto], handles[upto], failure, kernel_after)
                },
            }
        };
    assert forall|i: int| 0 <= i < upto implies {
        &&& (#[trigger] after.programs[i]).fd matches Some(fd)
        &&& fd >= 0
        &&& after.programs[i] == ProgramView { fd: Some(fd), ..before.programs[i] }
        &&& load_call(
            prog_load,
            before.programs[i],
            before.version,
            before.license,
            handles[i],
            handles[i + 1],
            fd,
        )
    } by {
        let p = before.programs[i];
        assert(done(p, handles[i], after.programs[i], handles[i + 1]));
        let request = p.load_request(before.version, before.license)->Ok_0;
        let fd = choose|fd: i32|
            fd >= 0 && #[trigger] may_load_program(
                prog_load,
                handles[i],
                request,
                handles[i + 1],
                fd,
            ) && after.programs[i] == p.after_load(fd);
        let q = choose|q: ProgLoad<'_>|
            q@ == request && #[trigger] call_ensures(
                prog_load,
                (handles[i], &q),
                (handles[i + 1], fd),
            );
        assert(asks_to_load(q@, p, before.version, before.license));
    }
    if failure is Some {
        let p = before.programs[upto];
        if !(before.license.contains('\0') || p.name.contains('\0')) {
            let request = p.load_request(before.version, before.license)->Ok_0;
            let fd = choose|fd: i32|
                fd < 0 && #[trigger] may_load_program(
                    prog_load,
                    handles[upto],
                    request,
                    kernel_after,
                    fd,
                );
            let q = choose|q: ProgLoad<'_>|
                q@ == request && #[trigger] call_ensures(
                    prog_load,
                    (handles[upto], &q),
                    (kernel_after, fd),
                );
            assert(asks_to_load(q@, p, before.version, before.license));
            assert(load_call(
                prog_load,
                p,
                before.version,
                before.license,
                handles[upto],
                kernel_after,
                fd,
            ));
        }
    }
    handles
}

/// Whether one call of `attach` asked for a probe on the function that the program is named after,
/// on the side that the program belongs to, and was answered with `pfd`.
pub open spec fn probe_call<S, F: Fn(S, &ProbeAttach) -> (S, i32)>(
    attach: F,
    p: ProgramView,
    before: S,
    after: S,
    pfd: i32,
) -> bool {
    exists|q: ProbeAttach|
        {
            &&& Some(q@.fd) == p.fd
            &&& q@.attach_type == if p.kind == ProgramKind::Kprobe {
                0u32
            } else {
                1u32
            }
            &&& q@.fn_name == p.name
            &&& q@.ev_name == p.name + (if p.kind == ProgramKind::Kprobe {
                seq!['0']
            } else {
                seq!['1']
            })
            &&& q@.fn_offset == 0
            &&& #[trigger] call_ensures(attach, (before, &q), (after, pfd))
        }
}

/// A program that is loaded is asked for as its probe call says.
proof fn lemma_probe_call<S, F: Fn(S, &ProbeAttach) -> (S, i32)>(
    attach: F,
    p: ProgramView,
    before: S,
    after: S,
    pfd: i32,
)
    requires
        p.kind.is_probe(),
        p.fd is Some,
        may_attach_probe(attach, before, p.probe_request(), after, pfd),
    ensures
        probe_call(attach, p, before, after, pfd),
{
    a_probe_is_asked_for_on_the_function_of_its_name(p, p);
    let q = choose|q: ProbeAttach|
        q@ == p.probe_request() && #[trigger] call_ensures(attach, (before, &q), (after, pfd));
    assert(call_ensures(attach, (before, &q), (after, pfd)));
}

/// Attaching the probes of a grain makes one call for each program that belongs to a probe, in
/// turn, with the handle that the call before gave back, and none for another program. The call
/// asks for the probe on the function that the program is named after, and the program keeps the
/// descriptor of the answer. It ends before the first program that is refused; the programs from
/// there on, and all else of the module, stay as they were.
pub proof fn each_probe_is_attached_by_a_call_of_its_own<S, F: Fn(S, &ProbeAttach) -> (S, i32)>(
    attach: F,
    before: ModuleView,
    kernel: S,
    after: ModuleView,
    kernel_after: S,
    failure: Option<Failure>,
) -> (handles: Seq<S>)
    requires
        forall|i: int|
            0 <= i < before.programs.len() ==> probe_ready(#[trigger] before.programs[i]),
        dealt_with(
            before,
            kernel,
            after,
            kernel_after,
            failure,
            probe_attached(attach),
            probe_refused(attach),
        ),
    ensures
        ({
            let upto = handles.len() - 1;
            let n = before.programs.len();
            &&& 0 <= upto <= n
            &&& handles[0] == kernel
            &&& after.maps == before.maps
            &&& after.license == before.license
            &&& after.version == before.version
            &&& after.programs.len() == n
            &&& forall|i: int|
                0 <= i < upto ==> {
                    let p = before.programs[i];
                    let q = #[trigger] after.programs[i];
                    if p.kind == ProgramKind::Kprobe || p.kind == ProgramKind::Kretprobe {
                        &&& q.pfd matches Some(pfd)
                        &&& pfd >= 0
                        &&& q == ProgramView { pfd: Some(pfd), ..p }
                        &&& probe_call(attach, p, handles[i], handles[i + 1], pfd)
                    } else {
                        q == p && handles[i + 1] == handles[i]
                    }
                }
            &&& forall|i: int| upto <= i < n ==> #[trigger] after.programs[i] == before.programs[i]
            &&& match failure {
                None => upto == n && kernel_after == handles[upto],
                Some(failure) => {
                    let p = before.programs[upto];
                    &&& upto < n
                    &&& p.kind == ProgramKind::Kprobe || p.kind == ProgramKind::Kretprobe
                    &&& failure == Failure::BPF
                    &&& exists|pfd: i32|
                        pfd < 0 && #[trigger] probe_call(
                            attach,
                            p,
                            handles[upto],
                            kernel_after,
                            pfd,
                        )
                },
            }
        }),
{
    let done = probe_attached::<S, F>(attach);
    let failed = probe_refused::<S, F>(attach);
    let (handles, upto) = choose|handles: Seq<S>, upto: int|
        {
            &&& #[trigger] done_upto(before.programs, after.programs, handles, upto, done)
            &&& handles[0] == kernel
            &&& match failure {
                None => upto == before.programs.len() && handles[upto] == kernel_after,
                Some(failure) => {
                    &&& upto < before.programs.len()
                    &&& failed(before.programs[upto], handles[upto], failure, kernel_after)
                },
            }
        };
    assert forall|i: int| 0 <= i < upto implies {
        let p = before.programs[i];
        let q = #[trigger] after.programs[i];
        if p.kind == ProgramKind::Kprobe || p.kind == ProgramKind::Kretprobe {
            &&& q.pfd matches Some(pfd)
            &&& pfd >= 0
            &&& q == ProgramView { pfd: Some(pfd), ..p }
            &&& probe_call(attach, p, handles[i], handles[i + 1], pfd)
        } else {
            q == p && handles[i + 1] == handles[i]
        }
    } by {
        let p = before.programs[i];
        assert(done(p, handles[i], after.programs[i], handles[i + 1]));
        if p.kind.is_probe() {
            let pfd = choose|pfd: i32|
                pfd >= 0 && #[trigger] may_attach_probe(
                    attach,
                    handles[i],
                    p.probe_request(),
                    handles[i + 1],
                    pfd,
                ) && after.programs[i] == p.after_attach(pfd);
            assert(probe_ready(p));
            lemma_probe_call(attach, p, handles[i], handles[i + 1], pfd);
        }
    }
    if failure is Some {
        let p = before.programs[upto];
        assert(probe_ready(p));
        let pfd = choose|pfd: i32|
            pfd < 0 && #[trigger] may_attach_probe(
                attach,
                handles[upto],
                p.probe_request(),
                kernel_after,
                pfd,
            );
        lemma_probe_call(attach, p, handles[upto], kernel_after, pfd);
    }
    handles
}

/// Whether one call of `attach` asked to attach the program to the interface, with no flags, and
/// was answered with `res`.
pub open spec fn xdp_call<S, F: Fn(S, &XdpAttach) -> (S, i32)>(
    attach: F,
    p: ProgramView,
    iface: Seq<char>,
    before: S,
    after: S,
    res: i32,
) -> bool {
    exists|q: XdpAttach|
        {
            &&& q@.iface == iface
            &&& Some(q@.fd) == p.fd
            &&& q@.flags == 0
            &&& #[trigger] call_ensures(attach, (before, &q), (after, res))
        }
}

/// A program that is loaded is asked for as its call for an interface says.
proof fn lemma_xdp_call<S, F: Fn(S, &XdpAttach) -> (S, i32)>(
    attach: F,
    p: ProgramView,
    iface: Seq<char>,
    before: S,
    after: S,
    res: i32,
)
    requires
        p.fd is Some,
        may_attach_xdp(attach, before, p.xdp_request(iface), after, res),
    ensures
        xdp_call(attach, p, iface, before, after, res),
{
    let q = choose|q: XdpAttach|
        q@ == p.xdp_request(iface) && #[trigger] call_ensures(attach, (before, &q), (after, res));
    assert(call_ensures(attach, (before, &q), (after, res)));
}

/// Attaching a grain to an interface makes one call for each program that handles received
/// packets, in turn, with the handle that the call before gave back, and none for another program.
/// It ends before the first program that is refused. The module stays as it was.
pub proof fn each_packet_handler_is_attached_by_a_call_of_its_own<
    S,
    F: Fn(S, &XdpAttach) -> (S, i32),
>(
    attach: F,
    iface: Seq<char>,
    before: ModuleView,
    kernel: S,
    after: ModuleView,
    kernel_after: S,
    failure: Option<Failure>,
) -> (handles: Seq<S>)
    requires
        forall|i: int|
            0 <= i < before.programs.len() ==> xdp_ready(#[trigger] before.programs[i], iface),
        dealt_with(
            before,
            kernel,
            after,
            kernel_after,
            failure,
            xdp_attached(attach, iface),
            xdp_refused(attach, iface),
        ),
    ensures
        ({
            let upto = handles.len() - 1;
            let n = before.programs.len();
            &&& 0 <= upto <= n
            &&& handles[0] == kernel
            &&& after == before
            &&& forall|i: int|
                0 <= i < upto ==> {
                    if (#[trigger] before.programs[i]).kind == ProgramKind::XDP {
                        exists|res: i32|
                            res >= 0 && #[trigger] xdp_call(
                                attach,
                                before.programs[i],
                                iface,
                                handles[i],
                                handles[i + 1],
                                res,
                            )
                    } else {
                        handles[i + 1] == handles[i]
                    }
                }
            &&& match failure {
                None => upto == n && kernel_after == handles[upto],
                Some(failure) => {
                    &&& upto < n
                    &&& before.programs[upto].kind == ProgramKind::XDP
                    &&& failure == Failure::BPF
                    &&& exists|res: i32|
                        res < 0 && #[trigger] xdp_call(
                            attach,
                            before.programs[upto],
                            iface,
                            handles[upto],
                            kernel_after,
                            res,
                        )
                },
            }
        }),
{
    attaching_to_an_interface_leaves_the_module(
        attach,
        iface,
        before,
        kernel,
        after,
        kernel_after,
        failure,
    );
    let done = xdp_attached::<S, F>(attach, iface);
    let failed = xdp_refused::<S, F>(attach, iface);
    let (handles, upto) = choose|handles: Seq<S>, upto: int|
        {
            &&& #[trigger] done_upto(before.programs, after.programs, handles, upto, done)
            &&& handles[0] == kernel
            &&& match failure {
                None => upto == before.programs.len() && handles[upto] == kernel_after,
                Some(failure) => {
                    &&& upto < before.programs.len()
                    &&& failed(before.programs[upto], handles[upto], failure, kernel_after)
                },
            }
        };
    assert forall|i: int| 0 <= i < upto implies {
        if (#[trigger] before.programs[i]).kind == ProgramKind::XDP {
            exists|res: i32|
                res >= 0 && #[trigger] xdp_call(
                    attach,
                    before.programs[i],
                    iface,
                    handles[i],
                    handles[i + 1],
                    res,
                )
        } else {
            handles[i + 1] == handles[i]
        }
    } by {
        let p = before.programs[i];
        assert(done(p, handles[i], after.programs[i], handles[i + 1]));
        if p.kind == ProgramKind::XDP {
            let res = choose|res: i32|
                res >= 0 && #[trigger] may_attach_xdp(
                    attach,
                    handles[i],
                    p.xdp_request(iface),
                    handles[i + 1],
                    res,
                );
            assert(xdp_ready(p, iface));
            lemma_xdp_call(attach, p, iface, handles[i], handles[i + 1], res);
        }
    }
    if failure is Some {
        let p = before.programs[upto];
        assert(xdp_ready(p, iface));
        let res = choose|res: i32|
            res < 0 && #[trigger] may_attach_xdp(
                attach,
                handles[upto],
                p.xdp_request(iface),
                kernel_after,
                res,
            );
        lemma_xdp_call(attach, p, iface, handles[upto], kernel_after, res);
    }
    handles
}

/// Whether one call of `open`, for the interface, opened the socket `sfd`, and the next call, one
/// of `attach`, asked to attach the program with the descriptor `fd` to that socket and was
/// answered with `attached`.
pub open spec fn socket_calls<
    S,
    O: Fn(S, &str) -> (S, (i32, i32)),
    A: Fn(S, &SocketAttach) -> (S, (i32, i32)),
>(
    open: O,
    attach: A,
    iface: &str,
    before: S,
    after: S,
    sfd: i32,
    fd: i32,
    attached: (i32, i32),
) -> bool {
    exists|between: S, errno: i32, request: SocketAttach|
        {
            &&& #[trigger] call_ensures(open, (before, iface), (between, (sfd, errno)))
            &&& request.sfd == sfd
            &&& request.fd == fd
            &&& #[trigger] call_ensures(attach, (between, &request), (after, attached))
        }
}

/// Attaching the socket filters of a grain makes two calls for each socket filter, in turn, each
/// with the handle that the call before gave back, and none for another program: one opens a socket
/// on the interface, the next attaches the program to that socket. The program keeps the descriptor
/// of the socket. It ends before the first filter for which no socket could be opened, which is not
/// loaded, or which was not attached; the programs from there on, and all else of the module, stay
/// as they were.
pub proof fn each_filter_is_attached_to_a_socket_opened_for_it<
    S,
    O: Fn(S, &str) -> (S, (i32, i32)),
    A: Fn(S, &SocketAttach) -> (S, (i32, i32)),
>(
    open: O,
    attach: A,
    iface: &str,
    before: ModuleView,
    kernel: S,
    after: ModuleView,
    kernel_after: S,
    failure: Option<Failure>,
) -> (handles: Seq<S>)
    requires
        dealt_with(
            before,
            kernel,
            after,
            kernel_after,
            failure,
            filter_attached(open, attach, iface),
            filter_refused(open, attach, iface),
        ),
    ensures
        ({
            let upto = handles.len() - 1;
            let n = before.programs.len();
            &&& 0 <= upto <= n
            &&& handles[0] == kernel
            &&& after.maps == before.maps
            &&& after.license == before.license
            &&& after.version == before.version
            &&& after.programs.len() == n
            &&& forall|i: int|
                0 <= i < upto ==> {
                    let p = before.programs[i];
                    let q = #[trigger] after.programs[i];
                    if p.kind == ProgramKind::SocketFilter {
                        &&& p.fd matches Some(fd)
                        &&& q.pfd matches Some(sfd)
                        &&& sfd >= 0
                        &&& q == ProgramView { pfd: Some(sfd), ..p }
                        &&& exists|attached: (i32, i32)|
                            attached.0 == 0 && #[trigger] socket_calls(
                                open,
                                attach,
                                iface,
                                handles[i],
                                handles[i + 1],
                                sfd,
                                fd,
                                attached,
                            )
                    } else {
                        q == p && handles[i + 1] == handles[i]
                    }
                }
            &&& forall|i: int| upto <= i < n ==> #[trigger] after.programs[i] == before.programs[i]
            &&& match failure {
                None => upto == n && kernel_after == handles[upto],
                Some(failure) => {
                    let p = before.programs[upto];
                    &&& upto < n
                    &&& p.kind == ProgramKind::SocketFilter
                    &&& {
                        ||| exists|opened: (i32, i32)|
                            {
                                &&& #[trigger] call_ensures(
                                    open,
                                    (handles[upto], iface),
                                    (kernel_after, opened),
                                )
                                &&& if opened.0 < 0 {
                                    failure == Failure::IO(opened.1)
                                } else {
                                    p.fd is None && failure == Failure::BPF
                                }
                            }
                        ||| exists|sfd: i32, fd: i32, attached: (i32, i32)|
                            {
                                &&& sfd >= 0
                                &&& p.fd == Some(fd)
                                &&& #[trigger] socket_calls(
                                    open,
                                    attach,
                                    iface,
                                    handles[upto],
                                    kernel_after,
                                    sfd,
                                    fd,
                                    attached,
                                )
                                &&& attached.0 != 0
                                &&& failure == Failure::IO(attached.1)
                            }
                    }
                },
            }
        }),
{
    let done = filter_attached::<S, O, A>(open, attach, iface);
    let failed = filter_refused::<S, O, A>(open, attach, iface);
    let (handles, upto) = choose|handles: Seq<S>, upto: int|
        {
            &&& #[trigger] done_upto(before.programs, after.programs, handles, upto, done)
            &&& handles[0] == kernel
            &&& match failure {
                None => upto == before.programs.len() && handles[upto] == kernel_after,
                Some(failure) => {
                    &&& upto < before.programs.len()
                    &&& failed(before.programs[upto], handles[upto], failure, kernel_after)
                },
            }
        };
    assert forall|i: int| 0 <= i < upto implies {
        let p = before.programs[i];
        let q = #[trigger] after.programs[i];
        if p.kind == ProgramKind::SocketFilter {
            &&& p.fd matches Some(fd)
            &&& q.pfd matches Some(sfd)
            &&& sfd >= 0
            &&& q == ProgramView { pfd: Some(sfd), ..p }
            &&& exists|attached: (i32, i32)|
                attached.0 == 0 && #[trigger] socket_calls(
                    open,
                    attach,
                    iface,
                    handles[i],
                    handles[i + 1],
                    sfd,
                    fd,
                    attached,
                )
        } else {
            q == p && handles[i + 1] == handles[i]
        }
    } by {
        let p = before.programs[i];
        let q = after.programs[i];
        let (h, h2) = (handles[i], handles[i + 1]);
        assert(done(p, h, q, h2));
        if p.kind == ProgramKind::SocketFilter {
            let (between, opened, request, attached) = choose|
                between: S,
                opened: (i32, i32),
                request: SocketAttach,
                attached: (i32, i32),
            |
                {
                    &&& #[trigger] call_ensures(open, (h, iface), (between, opened))
                    &&& p.socket_request(opened.0, opened.1) == Ok::<SocketAttach, Failure>(request)
                    &&& #[trigger] call_ensures(attach, (between, &request), (h2, attached))
                    &&& attached.0 == 0
                    &&& q == p.after_socket(opened.0, attached.0)
                };
            assert(opened == (opened.0, opened.1));
            assert(socket_calls(open, attach, iface, h, h2, opened.0, p.fd->0, attached));
        }
    }
    if let Some(failure) = failure {
        let p = before.programs[upto];
        let (h, h2) = (handles[upto], kernel_after);
        assert(failed(p, h, failure, h2));
        if !exists|opened: (i32, i32)|
            {
                &&& #[trigger] call_ensures(open, (h, iface), (h2, opened))
                &&& p.socket_request(opened.0, opened.1) == Err::<SocketAttach, Failure>(failure)
            } {
            let (between, opened, request, attached) = choose|
                between: S,
                opened: (i32, i32),
                request: SocketAttach,
                attached: (i32, i32),
            |
                {
                    &&& #[trigger] call_ensures(open, (h, iface), (between, opened))
                    &&& p.socket_request(opened.0, opened.1) == Ok::<SocketAttach, Failure>(request)
                    &&& #[trigger] call_ensures(attach, (between, &request), (h2, attached))
                    &&& attached.0 != 0
                    &&& failure == Failure::IO(attached.1)
                };
            assert(opened == (opened.0, opened.1));
            assert(socket_calls(open, attach, iface, h, h2, opened.0, p.fd->0, attached));
        }
    }
    handles
}

/// The rings stand in the order of their maps and, for one map, in the order of the processors:
/// the ring of map `map` for the processor at `c` comes after those of as many maps of events as
/// stand before that map, and after those of `c` processors. It is one for all processes, of
/// sixteen pages, in no group and with no flags.
pub proof fn rings_stand_in_the_order_of_maps_and_processors(
    maps: Seq<BpfMapView>,
    cpus: Seq<i32>,
    upto: nat,
    map: int,
    c: int,
)
    requires
        upto <= maps.len() <= usize::MAX,
        0 <= map < upto,
        maps[map].kind == 4,
        0 <= c < cpus.len(),
    ensures
        ({
            let at = perf_maps(maps, map as nat) * cpus.len() + c;
            let binds = perf_binds(maps, cpus, upto);
            &&& 0 <= at < binds.len()
            &&& binds[at].map == map
            &&& binds[at].cpu == cpus[c]
            &&& binds[at].pid == -1
            &&& binds[at].page_cnt == 16
            &&& binds[at].group == -1
            &&& binds[at].flags == 0
        }),
    decreases upto,
{
    let before = perf_binds(maps, cpus, (upto - 1) as nat);
    rings_are_bound_for_each_map_and_processor(maps, cpus, (upto - 1) as nat);
    assert(perf_maps(maps, map as nat) * cpus.len() >= 0) by (nonlinear_arith);
    if map < upto - 1 {
        rings_stand_in_the_order_of_maps_and_processors(maps, cpus, (upto - 1) as nat, map, c);
    } else {
        let added = cpus.map_values(|cpu: i32| perf_bind((upto - 1) as usize, cpu));
        assert(perf_binds(maps, cpus, upto) == before + added);
        assert((before + added)[before.len() + c] == added[c]);
    }
}

/// The failure in a result shows whether there is one, and which.
pub proof fn failures_show_what_they_hold<V>(r: Result<V, LoadError>)
    ensures
        r is Ok <==> failure_of(r) is None,
        r matches Err(e) ==> failure_of(r) == Some(e@),
{
}

/// The rings to bind for a module are those of all its maps of events for all processors, in the
/// order of the maps and, for one map, of the processors, and no others.
pub proof fn a_module_has_a_ring_for_each_map_and_processor(
    module: ModuleView,
    cpus: Seq<i32>,
    map: int,
    c: int,
)
    requires
        module.maps.len() <= usize::MAX,
    ensures
        rings_of(module, cpus).len() == perf_maps(module.maps, module.maps.len()) * cpus.len(),
        0 <= map < module.maps.len() && module.maps[map].kind == 4 && 0 <= c < cpus.len() ==> {
            let at = perf_maps(module.maps, map as nat) * cpus.len() + c;
            let rings = rings_of(module, cpus);
            &&& 0 <= at < rings.len()
            &&& rings[at].map == map
            &&& rings[at].cpu == cpus[c]
            &&& rings[at].pid == -1
            &&& rings[at].page_cnt == 16
            &&& rings[at].group == -1
            &&& rings[at].flags == 0
        },
{
    let n = module.maps.len();
    rings_are_bound_for_each_map_and_processor(module.maps, cpus, n);
    if 0 <= map < n && module.maps[map].kind == 4 && 0 <= c < cpus.len() {
        rings_stand_in_the_order_of_maps_and_processors(module.maps, cpus, n, map, c);
    }
}

/// Of a module whose socket filters are attached, every socket filter is named once, in the order
/// of the programs, with its own socket, and no other program is named.
pub proof fn a_module_has_a_socket_for_each_filter(module: ModuleView)
    requires
        module.programs.len() <= usize::MAX,
        forall|i: int|
            0 <= i < module.programs.len() && (#[trigger] module.programs[i]).kind
                == ProgramKind::SocketFilter ==> (module.programs[i].pfd matches Some(sfd) && sfd
                >= 0),
    ensures
        forall|j: int|
            0 <= j < sockets_of(module).len() ==> {
                let bind = #[trigger] sockets_of(module)[j];
                &&& bind.program < module.programs.len()
                &&& module.programs[bind.program as int].kind == ProgramKind::SocketFilter
                &&& module.programs[bind.program as int].pfd == Some(bind.sfd)
            },
        forall|j: int, k: int|
            0 <= j < k < sockets_of(module).len() ==> (#[trigger] sockets_of(module)[j]).program < (
            #[trigger] sockets_of(module)[k]).program,
        forall|i: int|
            0 <= i < module.programs.len() && (#[trigger] module.programs[i]).kind
                == ProgramKind::SocketFilter ==> exists|j: int|
                0 <= j < sockets_of(module).len() && (#[trigger] sockets_of(module)[j]).program
                    == i,
{
    lemma_socket_binds(module.programs, module.programs.len());
}

} // verus!
