//! Programs, and what the kernel is asked to do with them.
//!
//! The requests to the kernel are made outside this crate. A method such as [`Program::load`]
//! says what to ask for; the method of the same name that ends in `_reply` takes the kernel's
//! answer.
use crate::error::{outcome, Failure, LoadError};
use crate::insn::{
    a_program_is_read_whole, all_bytes, insns_of, read_insns, signed32, to_signed32,
    twos_complement_is_a_turn_away, BpfInsn, BPF_PSEUDO_MAP_FD,
};
use crate::kind::{kind_named, ProgramKind};
use crate::text::{append_decimal, contains_nul, decimal, has_nul};
use vstd::prelude::*;
use vstd::string::*;

verus! {

broadcast use vstd::string::group_string_axioms;

/// How much the verifier in the kernel is asked to report.
pub const LOG_LEVEL: i32 = 0;

/// The number of bytes set aside for the report of the verifier in the kernel.
pub const LOG_BUF_SIZE: u32 = 4194240;

/// A program, and the descriptors that stand for it once it is loaded and attached.
pub struct Program {
    /// The descriptor of what the program is attached to.
    pub pfd: Option<i32>,
    /// The descriptor of the loaded program.
    pub fd: Option<i32>,
    pub kind: ProgramKind,
    pub name: String,
    pub code: Vec<BpfInsn>,
    /// The size of the code in bytes, cut to 32 bits.
    pub code_bytes: i32,
}

/// The mathematical content of a [`Program`].
pub struct ProgramView {
    pub pfd: Option<i32>,
    pub fd: Option<i32>,
    pub kind: ProgramKind,
    pub name: Seq<char>,
    pub code: Seq<BpfInsn>,
    pub code_bytes: i32,
}

impl View for Program {
    type V = ProgramView;

    open spec fn view(&self) -> ProgramView {
        ProgramView {
            pfd: self.pfd,
            fd: self.fd,
            kind: self.kind,
            name: self.name@,
            code: self.code@,
            code_bytes: self.code_bytes,
        }
    }
}

/// The request to load a program.
pub struct ProgLoad<'a> {
    pub prog_type: u32,
    pub name: &'a str,
    pub code: &'a Vec<BpfInsn>,
    pub code_bytes: i32,
    pub license: String,
    pub kernel_version: u32,
    pub log_level: i32,
    pub log_buf_size: u32,
}

/// The mathematical content of a [`ProgLoad`].
pub struct ProgLoadView {
    pub prog_type: u32,
    pub name: Seq<char>,
    pub code: Seq<BpfInsn>,
    pub code_bytes: i32,
    pub license: Seq<char>,
    pub kernel_version: u32,
    pub log_level: i32,
    pub log_buf_size: u32,
}

impl<'a> View for ProgLoad<'a> {
    type V = ProgLoadView;

    open spec fn view(&self) -> ProgLoadView {
        ProgLoadView {
            prog_type: self.prog_type,
            name: self.name@,
            code: self.code@,
            code_bytes: self.code_bytes,
            license: self.license@,
            kernel_version: self.kernel_version,
            log_level: self.log_level,
            log_buf_size: self.log_buf_size,
        }
    }
}

/// The request to attach a loaded program to a kernel probe.
pub struct ProbeAttach {
    pub fd: i32,
    pub attach_type: u32,
    pub ev_name: String,
    pub fn_name: String,
    pub fn_offset: u64,
}

/// The mathematical content of a [`ProbeAttach`].
pub struct ProbeAttachView {
    pub fd: i32,
    pub attach_type: u32,
    pub ev_name: Seq<char>,
    pub fn_name: Seq<char>,
    pub fn_offset: u64,
}

impl View for ProbeAttach {
    type V = ProbeAttachView;

    open spec fn view(&self) -> ProbeAttachView {
        ProbeAttachView {
            fd: self.fd,
            attach_type: self.attach_type,
            ev_name: self.ev_name@,
            fn_name: self.fn_name@,
            fn_offset: self.fn_offset,
        }
    }
}

/// The request to attach a loaded program to an interface.
pub struct XdpAttach {
    pub iface: String,
    pub fd: i32,
    pub flags: u32,
}

/// The mathematical content of an [`XdpAttach`].
pub struct XdpAttachView {
    pub iface: Seq<char>,
    pub fd: i32,
    pub flags: u32,
}

impl View for XdpAttach {
    type V = XdpAttachView;

    open spec fn view(&self) -> XdpAttachView {
        XdpAttachView { iface: self.iface@, fd: self.fd, flags: self.flags }
    }
}

/// The request to attach a loaded program to an open socket.
#[derive(Debug, Clone, Copy, PartialEq, Eq, Structural)]
pub struct SocketAttach {
    pub sfd: i32,
    pub fd: i32,
}

impl View for SocketAttach {
    type V = SocketAttach;

    open spec fn view(&self) -> SocketAttach {
        *self
    }
}

/// The program that a section holds, neither loaded nor attached, or the failure where `kind`
/// names no kind of program.
pub open spec fn new_program(kind: Seq<char>, name: Seq<char>, code: Seq<u8>) -> Result<
    ProgramView,
    Failure,
> {
    match kind_named(kind) {
        Some(kind) => Ok(
            ProgramView {
                pfd: None,
                fd: None,
                kind,
                name,
                code: insns_of(code),
                code_bytes: signed32(code.len() as int % 0x1_0000_0000) as i32,
            },
        ),
        None => Err(Failure::Section(kind)),
    }
}

impl ProgramView {
    /// The request to load the program, or the failure where the license or the name cannot be
    /// handed to the kernel.
    pub open spec fn load_request(self, kernel_version: u32, license: Seq<char>) -> Result<
        ProgLoadView,
        Failure,
    > {
        if has_nul(license) || has_nul(self.name) {
            Err(Failure::StringConversion)
        } else {
            Ok(
                ProgLoadView {
                    prog_type: self.kind.prog_type(),
                    name: self.name,
                    code: self.code,
                    code_bytes: self.code_bytes,
                    license,
                    kernel_version,
                    log_level: LOG_LEVEL,
                    log_buf_size: LOG_BUF_SIZE,
                },
            )
        }
    }

    /// The program after the kernel answered a request to load it.
    pub open spec fn after_load(self, fd: i32) -> ProgramView {
        if fd < 0 {
            self
        } else {
            ProgramView { fd: Some(fd), ..self }
        }
    }

    /// The request to attach the program, which is loaded and belongs to a probe.
    pub open spec fn probe_request(self) -> ProbeAttachView
        recommends
            self.fd is Some,
            self.kind.is_probe(),
    {
        ProbeAttachView {
            fd: self.fd->0,
            attach_type: self.kind.attach_type(),
            ev_name: self.name + decimal(self.kind.attach_type() as nat),
            fn_name: self.name,
            fn_offset: 0,
        }
    }

    /// The request to attach the program, which is loaded, to an interface.
    pub open spec fn xdp_request(self, iface: Seq<char>) -> XdpAttachView
        recommends
            self.fd is Some,
    {
        XdpAttachView { iface, fd: self.fd->0, flags: 0 }
    }

    /// The request to attach the program to the socket that was opened for it, or the failure
    /// where none could be opened or the program is not loaded.
    pub open spec fn socket_request(self, sfd: i32, errno: i32) -> Result<SocketAttach, Failure> {
        if sfd < 0 {
            Err(Failure::IO(errno))
        } else {
            match self.fd {
                Some(fd) => Ok(SocketAttach { sfd, fd }),
                None => Err(Failure::BPF),
            }
        }
    }

    /// The program after the kernel answered a request to attach it to a socket.
    pub open spec fn after_socket(self, sfd: i32, res: i32) -> ProgramView {
        if res == 0 {
            ProgramView { pfd: Some(sfd), ..self }
        } else {
            self
        }
    }

    /// The program after the kernel answered a request to attach it to a probe.
    pub open spec fn after_attach(self, pfd: i32) -> ProgramView {
        if pfd < 0 {
            self
        } else {
            ProgramView { pfd: Some(pfd), ..self }
        }
    }

    /// The program with the descriptor of a map patched into the instruction at `at`.
    pub open spec fn with_map(self, at: int, fd: i32) -> ProgramView {
        let insn = BpfInsn { imm: fd, ..self.code[at].with_src(BPF_PSEUDO_MAP_FD) };
        ProgramView { code: self.code.update(at, insn), ..self }
    }
}

/// What a descriptor that the kernel answered with stands for: a negative one is a refusal.
pub open spec fn accepted(fd: i32) -> Result<i32, Failure> {
    if fd < 0 {
        Err(Failure::BPF)
    } else {
        Ok(fd)
    }
}

impl Program {
    /// The program that a section holds: `kind` and `name` come from the name of the section,
    /// `code` is its content, a whole number of instructions.
    pub fn new(kind: &str, name: &str, code: &[u8]) -> (r: Result<Program, LoadError>)
        requires
            code@.len() % 8 == 0,
        ensures
            outcome(r) == new_program(kind@, name@, code@),
    {
        let len: usize = code.len();
        let code_bytes: i32 = to_signed32((len as u64 % 0x1_0000_0000) as u32);
        let code = read_insns(code);
        let name = name.to_string();
        let kind = match ProgramKind::from_section(kind) {
            Ok(kind) => kind,
            Err(e) => {
                return Err(e);
            },
        };
        Ok(Program { pfd: None, fd: None, kind, name, code, code_bytes })
    }

    /// Whether the kernel has accepted the program.
    #[verifier::allow_in_spec]
    pub fn is_loaded(&self) -> (r: bool)
        ensures
            r == (self@.fd is Some),
        returns
            self@.fd is Some,
    {
        self.fd.is_some()
    }

    /// Whether the program is attached to a probe or a socket.
    #[verifier::allow_in_spec]
    pub fn is_attached(&self) -> (r: bool)
        ensures
            r == (self@.pfd is Some),
        returns
            self@.pfd is Some,
    {
        self.pfd.is_some()
    }

    /// The request to load the program into a kernel of this version under this license.
    pub fn load(&self, kernel_version: u32, license: String) -> (r: Result<ProgLoad<'_>, LoadError>)
        ensures
            outcome(r) == self@.load_request(kernel_version, license@),
    {
        if contains_nul(license.as_str()) || contains_nul(self.name.as_str()) {
            return Err(LoadError::StringConversion);
        }
        Ok(
            ProgLoad {
                prog_type: self.kind.to_prog_type(),
                name: self.name.as_str(),
                code: &self.code,
                code_bytes: self.code_bytes,
                license,
                kernel_version,
                log_level: LOG_LEVEL,
                log_buf_size: LOG_BUF_SIZE,
            },
        )
    }

    /// Takes the kernel's answer to [`Program::load`]: the descriptor of the program, or a
    /// negative number.
    pub fn load_reply(&mut self, fd: i32) -> (r: Result<i32, LoadError>)
        ensures
            outcome(r) == accepted(fd),
            final(self)@ == old(self)@.after_load(fd),
    {
        if fd < 0 {
            Err(LoadError::BPF)
        } else {
            self.fd = Some(fd);
            Ok(fd)
        }
    }

    /// The request to attach the program, which is loaded, belongs to a probe and has a name that
    /// can be handed to the kernel. The event is named after the function, followed by the number
    /// of the side that is probed.
    pub fn attach_probe(&self) -> (r: ProbeAttach)
        requires
            self@.fd is Some,
            self@.kind.is_probe(),
            !has_nul(self@.name),
        ensures
            r@ == self@.probe_request(),
    {
        let attach_type: u32 = self.kind.to_attach_type();
        let mut ev_name = self.name.clone();
        append_decimal(&mut ev_name, attach_type as usize);
        ProbeAttach {
            fd: self.fd.unwrap(),
            attach_type,
            ev_name,
            fn_name: self.name.clone(),
            fn_offset: 0,
        }
    }

    /// Takes the kernel's answer to [`Program::attach_probe`]: the descriptor of the probe, or a
    /// negative number.
    pub fn attach_probe_reply(&mut self, pfd: i32) -> (r: Result<i32, LoadError>)
        ensures
            outcome(r) == accepted(pfd),
            final(self)@ == old(self)@.after_attach(pfd),
    {
        if pfd < 0 {
            Err(LoadError::BPF)
        } else {
            self.pfd = Some(pfd);
            Ok(pfd)
        }
    }

    /// The request to attach the program, which is loaded, to an interface, whose name can be
    /// handed to the kernel.
    pub fn attach_xdp(&self, iface: &str) -> (r: XdpAttach)
        requires
            self@.fd is Some,
            !has_nul(iface@),
        ensures
            r@ == self@.xdp_request(iface@),
    {
        XdpAttach { iface: iface.to_string(), fd: self.fd.unwrap(), flags: 0 }
    }

    /// Takes the kernel's answer to [`Program::attach_xdp`]. The kernel hands out no descriptor
    /// here, so the program is left as it is.
    pub fn attach_xdp_reply(&mut self, res: i32) -> (r: Result<(), LoadError>)
        ensures
            r is Ok <==> res >= 0,
            r matches Err(e) ==> e@ == Failure::BPF,
            final(self)@ == old(self)@,
    {
        if res < 0 {
            Err(LoadError::BPF)
        } else {
            Ok(())
        }
    }

    /// The request to attach the program to the socket that was opened for it. `sfd` is the
    /// descriptor of the socket, or negative where none could be opened; `errno` is then the
    /// reason.
    pub fn attach_socketfilter(&self, sfd: i32, errno: i32) -> (r: Result<SocketAttach, LoadError>)
        ensures
            outcome(r) == self@.socket_request(sfd, errno),
    {
        if sfd < 0 {
            return Err(LoadError::IO(errno));
        }
        match self.fd {
            Some(fd) => Ok(SocketAttach { sfd, fd }),
            None => Err(LoadError::BPF),
        }
    }

    /// Takes the kernel's answer to the request of [`Program::attach_socketfilter`]: zero, or
    /// anything else for a refusal, with `errno` for the reason.
    pub fn attach_socketfilter_reply(&mut self, sfd: i32, res: i32, errno: i32) -> (r: Result<
        i32,
        LoadError,
    >)
        ensures
            outcome(r) == (if res == 0 {
                Ok(sfd)
            } else {
                Err(Failure::IO(errno))
            }),
            final(self)@ == old(self)@.after_socket(sfd, res),
    {
        if res == 0 {
            self.pfd = Some(sfd);
            Ok(sfd)
        } else {
            Err(LoadError::IO(errno))
        }
    }

    /// Patches the descriptor of a map into the instruction at `at`.
    pub(crate) fn patch_map(&mut self, at: usize, fd: i32)
        requires
            at < old(self)@.code.len(),
        ensures
            final(self)@ == old(self)@.with_map(at as int, fd),
    {
        let mut insn = self.code[at];
        insn.set_src_reg(BPF_PSEUDO_MAP_FD);
        insn.imm = fd;
        self.code.set(at, insn);
    }
}

/// One call of a method that loads or attaches a program, with all that the kernel answers.
pub enum Call {
    /// To load it for a kernel of this version under this license; the answer, if it is asked.
    Load(u32, Seq<char>, i32),
    /// To attach it to its probe; the answer.
    AttachProbe(i32),
    /// To attach it to an interface; the answer.
    AttachXdp(i32),
    /// To attach it to a socket: the descriptor of the socket and the answer, if it is asked.
    AttachSocket(i32, i32),
}

impl Call {
    /// Whether the call succeeds on this program.
    pub open spec fn succeeds(self, p: ProgramView) -> bool {
        match self {
            Call::Load(version, license, fd) => p.load_request(version, license) is Ok && fd >= 0,
            Call::AttachProbe(pfd) => pfd >= 0,
            Call::AttachXdp(res) => res >= 0,
            Call::AttachSocket(sfd, res) => p.socket_request(sfd, 0) is Ok && res == 0,
        }
    }

    /// The program after the call.
    pub open spec fn leaves(self, p: ProgramView) -> ProgramView {
        match self {
            Call::Load(version, license, fd) => match p.load_request(version, license) {
                Ok(_) => p.after_load(fd),
                Err(_) => p,
            },
            Call::AttachProbe(pfd) => p.after_attach(pfd),
            Call::AttachXdp(_) => p,
            Call::AttachSocket(sfd, res) => match p.socket_request(sfd, 0) {
                Ok(_) => p.after_socket(sfd, res),
                Err(_) => p,
            },
        }
    }

    /// Whether the call attaches to something that leaves a descriptor: a probe or a socket.
    pub open spec fn leaves_descriptor(self) -> bool {
        self is AttachProbe || self is AttachSocket
    }
}

/// The program after the first `upto` of these calls.
pub open spec fn after_calls(p: ProgramView, calls: Seq<Call>, upto: nat) -> ProgramView
    decreases upto,
{
    if upto == 0 {
        p
    } else {
        calls[upto - 1].leaves(after_calls(p, calls, (upto - 1) as nat))
    }
}

/// Whether call `i` of `calls`, the first of which is made on `p`, succeeds.
pub open spec fn call_succeeds(p: ProgramView, calls: Seq<Call>, i: int) -> bool {
    calls[i].succeeds(after_calls(p, calls, i as nat))
}

/// After any calls on a new program, it is attached if and only if one of the calls that attach
/// it to a probe or a socket succeeded, and loaded if and only if one of the calls that load it
/// did. Attaching it to an interface changes nothing, nor does a call that fails; what it is made
/// of stays the same.
pub proof fn attached_and_loaded_as_the_calls_went(
    kind: Seq<char>,
    name: Seq<char>,
    code: Seq<u8>,
    calls: Seq<Call>,
    upto: nat,
)
    requires
        new_program(kind, name, code) is Ok,
        upto <= calls.len(),
    ensures
        ({
            let p = new_program(kind, name, code)->Ok_0;
            let q = after_calls(p, calls, upto);
            &&& q.pfd is Some <==> exists|i: int|
                0 <= i < upto && #[trigger] calls[i].leaves_descriptor() && call_succeeds(
                    p,
                    calls,
                    i,
                )
            &&& q.fd is Some <==> exists|i: int|
                0 <= i < upto && #[trigger] calls[i] is Load && call_succeeds(p, calls, i)
            &&& q == ProgramView { pfd: q.pfd, fd: q.fd, ..p }
            &&& forall|i: int|
                0 <= i < upto && (calls[i] is AttachXdp || !#[trigger] call_succeeds(p, calls, i))
                    ==> after_calls(p, calls, (i + 1) as nat) == after_calls(p, calls, i as nat)
        }),
    decreases upto,
{
    let p = new_program(kind, name, code)->Ok_0;
    if upto > 0 {
        let before = (upto - 1) as nat;
        attached_and_loaded_as_the_calls_went(kind, name, code, calls, before);
        let last = calls[before as int];
        let q = after_calls(p, calls, upto);
        assert(last.leaves_descriptor() == calls[before as int].leaves_descriptor());
        if q.pfd is Some && after_calls(p, calls, before).pfd is None {
            assert(calls[before as int].leaves_descriptor() && call_succeeds(
                p,
                calls,
                before as int,
            ));
        }
        if q.fd is Some && after_calls(p, calls, before).fd is None {
            assert(calls[before as int] is Load && call_succeeds(p, calls, before as int));
        }
    }
}

/// A new program is neither loaded nor attached. It holds its section: the kind that the first part
/// of the section's name denotes, the second part for its name, and code whose bytes in turn are
/// those of the section, eight for each instruction. The size that it gives for its code is that of
/// the section, cut to 32 bits.
pub proof fn a_new_program_holds_its_section(kind: Seq<char>, name: Seq<char>, code: Seq<u8>)
    requires
        code.len() % 8 == 0,
    ensures
        match new_program(kind, name, code) {
            Ok(p) => {
                &&& kind_named(kind) == Some(p.kind)
                &&& p.name == name
                &&& p.fd is None
                &&& p.pfd is None
                &&& 8 * p.code.len() == code.len()
                &&& all_bytes(p.code) == code
                &&& (code.len() - p.code_bytes) % 0x1_0000_0000 == 0
                &&& code.len() < 0x8000_0000 ==> p.code_bytes == code.len()
            },
            Err(failure) => kind_named(kind) is None && failure == Failure::Section(kind),
        },
{
    a_program_is_read_whole(code);
    let cut = code.len() as int % 0x1_0000_0000;
    twos_complement_is_a_turn_away(0, cut as u32);
    if let Ok(p) = new_program(kind, name, code) {
        assert(p.code_bytes == signed32(cut));
        assert((code.len() - cut) % 0x1_0000_0000 == 0);
        assert((cut - p.code_bytes) % 0x1_0000_0000 == 0);
    }
}

/// The kernel is asked to load all of a program, for the version and under the license given, and
/// to report nothing. It is asked unless the license or the name holds a NUL character.
pub proof fn the_kernel_is_asked_for_all_of_a_program(
    p: ProgramView,
    version: u32,
    license: Seq<char>,
)
    ensures
        match p.load_request(version, license) {
            Ok(request) => {
                &&& !license.contains('\0')
                &&& !p.name.contains('\0')
                &&& request.prog_type == p.kind.prog_type()
                &&& request.name == p.name
                &&& request.code == p.code
                &&& request.code_bytes == p.code_bytes
                &&& request.license == license
                &&& request.kernel_version == version
                &&& request.log_level == 0
                &&& request.log_buf_size == 64 * 65535
            },
            Err(failure) => {
                &&& license.contains('\0') || p.name.contains('\0')
                &&& failure == Failure::StringConversion
            },
        },
{
}

/// Whatever was done with a program of fewer than 2^31 bytes, the kernel is told the size of the
/// code that it is handed: eight bytes for each instruction, and all the bytes of the section.
pub proof fn the_kernel_is_told_the_size_of_the_code(
    kind: Seq<char>,
    name: Seq<char>,
    code: Seq<u8>,
    calls: Seq<Call>,
    upto: nat,
    version: u32,
    license: Seq<char>,
)
    requires
        code.len() % 8 == 0,
        code.len() < 0x8000_0000,
        new_program(kind, name, code) is Ok,
        upto <= calls.len(),
    ensures
        after_calls(new_program(kind, name, code)->Ok_0, calls, upto).load_request(
            version,
            license,
        ) matches Ok(request) ==> {
            &&& request.code_bytes == 8 * request.code.len()
            &&& request.code_bytes == code.len()
            &&& all_bytes(request.code) == code
            &&& request.name == name
        },
{
    a_new_program_holds_its_section(kind, name, code);
    attached_and_loaded_as_the_calls_went(kind, name, code, calls, upto);
}

/// A probe is asked for on the function that the program is named after, whichever side of it the
/// program runs on, so two programs of one name ask for one function. The event is named after the
/// function and the side, so two programs of one name ask for one event if and only if they run on
/// the same side.
pub proof fn a_probe_is_asked_for_on_the_function_of_its_name(p: ProgramView, q: ProgramView)
    requires
        p.kind.is_probe(),
        q.kind.is_probe(),
    ensures
        p.probe_request().fn_name == p.name,
        p.probe_request().fn_offset == 0,
        p.fd matches Some(fd) ==> p.probe_request().fd == fd,
        p.kind == ProgramKind::Kprobe ==> p.probe_request().attach_type == 0
            && p.probe_request().ev_name == p.name + seq!['0'],
        p.kind == ProgramKind::Kretprobe ==> p.probe_request().attach_type == 1
            && p.probe_request().ev_name == p.name + seq!['1'],
        p.name == q.name <==> p.probe_request().fn_name == q.probe_request().fn_name,
        p.name == q.name ==> (p.probe_request().ev_name == q.probe_request().ev_name <==> p.kind
            == q.kind),
{
    reveal_strlit("0");
    reveal_strlit("1");
    assert(decimal(0) =~= seq!['0']);
    assert(decimal(1) =~= seq!['1']);
    assert((p.name + seq!['0']).last() == '0');
    assert((p.name + seq!['1']).last() == '1');
}

/// A program is attached to the interface that is given, with no flags, and to the socket that is
/// given; without a socket the reason is that of the system, and a program that is not loaded is
/// attached to none.
pub proof fn a_program_is_attached_to_what_is_given(
    p: ProgramView,
    iface: Seq<char>,
    sfd: i32,
    errno: i32,
)
    ensures
        p.xdp_request(iface).iface == iface,
        p.xdp_request(iface).flags == 0,
        p.fd matches Some(fd) ==> p.xdp_request(iface).fd == fd,
        match p.socket_request(sfd, errno) {
            Ok(request) => {
                &&& sfd >= 0
                &&& request.sfd == sfd
                &&& p.fd == Some(request.fd)
            },
            Err(failure) => {
                ||| sfd < 0 && failure == Failure::IO(errno)
                ||| sfd >= 0 && p.fd is None && failure == Failure::BPF
            },
        },
{
}

/// The descriptor that the kernel answers with is the one that a program keeps; a refusal, and all
/// else of the program, is left as it was.
pub proof fn a_program_keeps_the_descriptors_of_the_kernel(p: ProgramView, fd: i32, res: i32)
    ensures
        accepted(fd) == (if fd >= 0 {
            Ok::<i32, Failure>(fd)
        } else {
            Err::<i32, Failure>(Failure::BPF)
        }),
        fd >= 0 ==> {
            let q = p.after_load(fd);
            &&& q.fd == Some(fd)
            &&& q.pfd == p.pfd && q.kind == p.kind && q.name == p.name && q.code == p.code
                && q.code_bytes == p.code_bytes
        },
        fd >= 0 ==> {
            let q = p.after_attach(fd);
            &&& q.pfd == Some(fd)
            &&& q.fd == p.fd && q.kind == p.kind && q.name == p.name && q.code == p.code
                && q.code_bytes == p.code_bytes
        },
        res == 0 ==> {
            let q = p.after_socket(fd, res);
            &&& q.pfd == Some(fd)
            &&& q.fd == p.fd && q.kind == p.kind && q.name == p.name && q.code == p.code
                && q.code_bytes == p.code_bytes
        },
        fd < 0 ==> p.after_load(fd) == p && p.after_attach(fd) == p,
        res != 0 ==> p.after_socket(fd, res) == p,
{
}

/// Programs and requests for them show all that they hold.
pub proof fn programs_show_what_they_hold(
    p: Program,
    load: ProgLoad<'_>,
    probe: ProbeAttach,
    xdp: XdpAttach,
    socket: SocketAttach,
)
    ensures
        p.is_loaded() <==> p.fd is Some,
        p.is_attached() <==> p.pfd is Some,
        p@.pfd == p.pfd,
        p@.fd == p.fd,
        p@.kind == p.kind,
        p@.name == p.name@,
        p@.code == p.code@,
        p@.code_bytes == p.code_bytes,
        load@.prog_type == load.prog_type,
        load@.name == load.name@,
        load@.code == load.code@,
        load@.code_bytes == load.code_bytes,
        load@.license == load.license@,
        load@.kernel_version == load.kernel_version,
        load@.log_level == load.log_level,
        load@.log_buf_size == load.log_buf_size,
        probe@.fd == probe.fd,
        probe@.attach_type == probe.attach_type,
        probe@.ev_name == probe.ev_name@,
        probe@.fn_name == probe.fn_name@,
        probe@.fn_offset == probe.fn_offset,
        xdp@.iface == xdp.iface@,
        xdp@.fd == xdp.fd,
        xdp@.flags == xdp.flags,
        socket@ == socket,
{
}

} // verus!
