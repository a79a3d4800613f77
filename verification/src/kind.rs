//! The kinds of program, and the numbers the kernel knows them by.
use crate::error::{Failure, LoadError};
use crate::text::same_text;
use vstd::prelude::*;
use vstd::string::*;

verus! {

broadcast use vstd::string::group_string_axioms;

/// The kernel's number for a socket filter program.
pub const BPF_PROG_TYPE_SOCKET_FILTER: u32 = 1;

/// The kernel's number for a program run by a kernel probe.
pub const BPF_PROG_TYPE_KPROBE: u32 = 2;

/// The kernel's number for a program run on received packets.
pub const BPF_PROG_TYPE_XDP: u32 = 6;

/// Attach a probe to the entry of a function.
pub const BPF_PROBE_ENTRY: u32 = 0;

/// Attach a probe to the return of a function.
pub const BPF_PROBE_RETURN: u32 = 1;

/// What a program is attached to.
#[derive(Debug, Clone, Copy, PartialEq, Eq, Structural)]
pub enum ProgramKind {
    Kprobe,
    Kretprobe,
    XDP,
    SocketFilter,
}

/// The kind of program that a section of this name holds, if the name denotes one.
pub open spec fn kind_named(section: Seq<char>) -> Option<ProgramKind> {
    if section == "kretprobe"@ {
        Some(ProgramKind::Kretprobe)
    } else if section == "kprobe"@ {
        Some(ProgramKind::Kprobe)
    } else if section == "xdp"@ {
        Some(ProgramKind::XDP)
    } else if section == "socketfilter"@ {
        Some(ProgramKind::SocketFilter)
    } else {
        None
    }
}

impl ProgramKind {
    /// The kernel's number for programs of this kind.
    pub open spec fn prog_type(self) -> u32 {
        match self {
            ProgramKind::Kprobe | ProgramKind::Kretprobe => BPF_PROG_TYPE_KPROBE,
            ProgramKind::XDP => BPF_PROG_TYPE_XDP,
            ProgramKind::SocketFilter => BPF_PROG_TYPE_SOCKET_FILTER,
        }
    }

    /// Whether programs of this kind are attached to a kernel probe.
    pub open spec fn is_probe(self) -> bool {
        self == ProgramKind::Kprobe || self == ProgramKind::Kretprobe
    }

    /// The side of a function that a probe of this kind is attached to.
    pub open spec fn attach_type(self) -> u32
        recommends
            self.is_probe(),
    {
        if self == ProgramKind::Kprobe {
            BPF_PROBE_ENTRY
        } else {
            BPF_PROBE_RETURN
        }
    }

    /// The name of the sections that hold programs of this kind.
    pub open spec fn section(self) -> Seq<char> {
        match self {
            ProgramKind::Kprobe => "kprobe"@,
            ProgramKind::Kretprobe => "kretprobe"@,
            ProgramKind::XDP => "xdp"@,
            ProgramKind::SocketFilter => "socketfilter"@,
        }
    }

    /// The kernel's number for programs of this kind.
    pub fn to_prog_type(&self) -> (r: u32)
        ensures
            r == self.prog_type(),
    {
        match self {
            ProgramKind::Kprobe | ProgramKind::Kretprobe => BPF_PROG_TYPE_KPROBE,
            ProgramKind::XDP => BPF_PROG_TYPE_XDP,
            ProgramKind::SocketFilter => BPF_PROG_TYPE_SOCKET_FILTER,
        }
    }

    /// The side of a function that a probe of this kind is attached to. Only the two kinds of
    /// probe have one.
    pub fn to_attach_type(&self) -> (r: u32)
        requires
            self.is_probe(),
        ensures
            r == self.attach_type(),
    {
        match self {
            ProgramKind::Kprobe => BPF_PROBE_ENTRY,
            _ => BPF_PROBE_RETURN,
        }
    }

    /// The kind of program that a section of this name holds. A name that denotes none is handed
    /// back in the error.
    pub fn from_section(section: &str) -> (r: Result<ProgramKind, LoadError>)
        ensures
            match kind_named(section@) {
                Some(kind) => r == Ok::<ProgramKind, LoadError>(kind),
                None => r matches Err(e) && e@ == Failure::Section(section@),
            },
    {
        if same_text(section, "kretprobe") {
            Ok(ProgramKind::Kretprobe)
        } else if same_text(section, "kprobe") {
            Ok(ProgramKind::Kprobe)
        } else if same_text(section, "xdp") {
            Ok(ProgramKind::XDP)
        } else if same_text(section, "socketfilter") {
            Ok(ProgramKind::SocketFilter)
        } else {
            Err(LoadError::Section(section.to_string()))
        }
    }
}

/// Every kind is found again under the name of its own sections, and no other name denotes a kind.
pub proof fn kinds_and_section_names_correspond(kind: ProgramKind, section: Seq<char>)
    ensures
        kind_named(section) == Some(kind) <==> section == kind.section(),
{
    reveal_strlit("kprobe");
    reveal_strlit("kretprobe");
    reveal_strlit("xdp");
    reveal_strlit("socketfilter");
    assert("kprobe"@[1] != "kretprobe"@[1] || "kprobe"@.len() != "kretprobe"@.len());
    assert("xdp"@.len() == 3 && "kprobe"@.len() == 6 && "kretprobe"@.len() == 9
        && "socketfilter"@.len() == 12);
}

/// A section holds programs if and only if its name is one of four, and each of the four stands
/// for a kind of its own.
pub proof fn four_names_denote_the_four_kinds(section: Seq<char>)
    ensures
        kind_named(section) == Some(ProgramKind::Kprobe) <==> section == seq![
            'k', 'p', 'r', 'o', 'b', 'e'
        ],
        kind_named(section) == Some(ProgramKind::Kretprobe) <==> section == seq![
            'k', 'r', 'e', 't', 'p', 'r', 'o', 'b', 'e'
        ],
        kind_named(section) == Some(ProgramKind::XDP) <==> section == seq!['x', 'd', 'p'],
        kind_named(section) == Some(ProgramKind::SocketFilter) <==> section == seq![
            's', 'o', 'c', 'k', 'e', 't', 'f', 'i', 'l', 't', 'e', 'r'
        ],
{
    reveal_strlit("kprobe");
    reveal_strlit("kretprobe");
    reveal_strlit("xdp");
    reveal_strlit("socketfilter");
    assert("kprobe"@ =~= seq!['k', 'p', 'r', 'o', 'b', 'e']);
    assert("kretprobe"@ =~= seq!['k', 'r', 'e', 't', 'p', 'r', 'o', 'b', 'e']);
    assert("xdp"@ =~= seq!['x', 'd', 'p']);
    assert("socketfilter"@ =~= seq![
        's', 'o', 'c', 'k', 'e', 't', 'f', 'i', 'l', 't', 'e', 'r'
    ]);
    kinds_and_section_names_correspond(ProgramKind::Kprobe, section);
    kinds_and_section_names_correspond(ProgramKind::Kretprobe, section);
    kinds_and_section_names_correspond(ProgramKind::XDP, section);
    kinds_and_section_names_correspond(ProgramKind::SocketFilter, section);
}

/// The two kinds of probe are one kind of program to the kernel, told apart by the side that they
/// are attached to; every other two kinds are different to it.
pub proof fn the_kernel_tells_kinds_apart(a: ProgramKind, b: ProgramKind)
    ensures
        a.prog_type() == b.prog_type() <==> (a == b || (a.is_probe() && b.is_probe())),
        a.is_probe() && b.is_probe() ==> (a.attach_type() == b.attach_type() <==> a == b),
        a.is_probe() <==> a == ProgramKind::Kprobe || a == ProgramKind::Kretprobe,
        a.is_probe() ==> a.prog_type() == 2,
        a == ProgramKind::XDP ==> a.prog_type() == 6,
        a == ProgramKind::SocketFilter ==> a.prog_type() == 1,
        a == ProgramKind::Kprobe ==> a.attach_type() == 0,
        a == ProgramKind::Kretprobe ==> a.attach_type() == 1,
{
}

} // verus!
