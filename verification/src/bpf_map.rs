//! Maps, which programs share with each other and with user space.
use crate::error::{outcome, Failure, LoadError};
use crate::insn::{
    bytes32, ne32, numbers_of_32_bits_keep_their_bytes, read_ne32, signed32, to_signed32,
};
use crate::program::accepted;
use crate::text::{contains_nul, has_nul};
use std::rc::Rc;
use vstd::prelude::*;
use vstd::string::*;

verus! {

broadcast use vstd::string::group_string_axioms;

/// The number of bytes in the definition of a map, as C lays it out: six numbers of 32 bits and a
/// name space of 256 bytes.
pub const MAP_DEF_SIZE: usize = 280;

/// A map that the kernel has created.
pub struct BpfMap {
    pub name: String,
    pub kind: u32,
    /// The descriptor of the map.
    pub fd: i32,
}

/// The mathematical content of a [`BpfMap`].
pub struct BpfMapView {
    pub name: Seq<char>,
    pub kind: u32,
    pub fd: i32,
}

impl View for BpfMap {
    type V = BpfMapView;

    open spec fn view(&self) -> BpfMapView {
        BpfMapView { name: self.name@, kind: self.kind, fd: self.fd }
    }
}

/// A walk over the keys of a map.
#[allow(dead_code)]
pub struct MapIter<'map, T> {
    start: bool,
    map: &'map BpfMap,
    key: Rc<T>,
}

/// The request to create a map.
pub struct MapCreate {
    pub kind: u32,
    pub name: String,
    pub key_size: i32,
    pub value_size: i32,
    pub max_entries: i32,
    pub map_flags: i32,
}

/// The mathematical content of a [`MapCreate`].
pub struct MapCreateView {
    pub kind: u32,
    pub name: Seq<char>,
    pub key_size: i32,
    pub value_size: i32,
    pub max_entries: i32,
    pub map_flags: i32,
}

impl View for MapCreate {
    type V = MapCreateView;

    open spec fn view(&self) -> MapCreateView {
        MapCreateView {
            kind: self.kind,
            name: self.name@,
            key_size: self.key_size,
            value_size: self.value_size,
            max_entries: self.max_entries,
            map_flags: self.map_flags,
        }
    }
}

/// The request to create the map of this name that is defined by these bytes, or the failure
/// where the name cannot be handed to the kernel.
pub open spec fn map_request(name: Seq<char>, code: Seq<u8>) -> Result<MapCreateView, Failure> {
    if has_nul(name) {
        Err(Failure::StringConversion)
    } else {
        Ok(
            MapCreateView {
                kind: ne32(code, 0) as u32,
                name,
                key_size: signed32(ne32(code, 4)) as i32,
                value_size: signed32(ne32(code, 8)) as i32,
                max_entries: signed32(ne32(code, 12)) as i32,
                map_flags: signed32(ne32(code, 16)) as i32,
            },
        )
    }
}

/// The map that comes of a request that the kernel answered with `fd`.
pub open spec fn created_map(request: MapCreateView, fd: i32) -> Result<BpfMapView, Failure> {
    match accepted(fd) {
        Ok(fd) => Ok(BpfMapView { name: request.name, kind: request.kind, fd }),
        Err(e) => Err(e),
    }
}

impl BpfMap {
    /// The request to create the map of this name. `code` begins with the definition of the map:
    /// its kind, the sizes of its keys and of its values, its capacity and its flags.
    pub fn load(name: &str, code: &[u8]) -> (r: Result<MapCreate, LoadError>)
        requires
            code@.len() >= MAP_DEF_SIZE,
        ensures
            outcome(r) == map_request(name@, code@),
    {
        if contains_nul(name) {
            return Err(LoadError::StringConversion);
        }
        Ok(
            MapCreate {
                kind: read_ne32(code, 0),
                name: name.to_string(),
                key_size: to_signed32(read_ne32(code, 4)),
                value_size: to_signed32(read_ne32(code, 8)),
                max_entries: to_signed32(read_ne32(code, 12)),
                map_flags: to_signed32(read_ne32(code, 16)),
            },
        )
    }

    /// Takes the kernel's answer to [`BpfMap::load`]: the descriptor of the map, or a negative
    /// number.
    pub fn load_reply(request: MapCreate, fd: i32) -> (r: Result<BpfMap, LoadError>)
        ensures
            outcome(r) == created_map(request@, fd),
    {
        if fd < 0 {
            return Err(LoadError::BPF);
        }
        Ok(BpfMap { name: request.name, kind: request.kind, fd })
    }
}

/// The request for a map carries all four bytes of each of the numbers that define it, in the byte
/// order of the machine, each from its own place.
pub proof fn a_request_carries_every_byte_of_its_numbers(name: Seq<char>, code: Seq<u8>)
    requires
        code.len() >= 20,
        !name.contains('\0'),
    ensures
        ({
            let request = map_request(name, code)->Ok_0;
            &&& map_request(name, code) is Ok
            &&& request.name == name
            &&& bytes32(request.kind as int) == code.subrange(0, 4)
            &&& bytes32(request.key_size as int) == code.subrange(4, 8)
            &&& bytes32(request.value_size as int) == code.subrange(8, 12)
            &&& bytes32(request.max_entries as int) == code.subrange(12, 16)
            &&& bytes32(request.map_flags as int) == code.subrange(16, 20)
        }),
{
    let request = map_request(name, code)->Ok_0;
    numbers_of_32_bits_keep_their_bytes(code, 0);
    numbers_of_32_bits_keep_their_bytes(code, 4);
    numbers_of_32_bits_keep_their_bytes(code, 8);
    numbers_of_32_bits_keep_their_bytes(code, 12);
    numbers_of_32_bits_keep_their_bytes(code, 16);
    assert(request.kind as int == ne32(code, 0));
    assert(request.key_size as int == signed32(ne32(code, 4)));
    assert(request.value_size as int == signed32(ne32(code, 8)));
    assert(request.max_entries as int == signed32(ne32(code, 12)));
    assert(request.map_flags as int == signed32(ne32(code, 16)));
}

/// A map is asked for as it is defined, under its own name: laid out in turn in the byte order of
/// the machine, kind, sizes, capacity and flags are the first twenty bytes of the definition. It is
/// asked for unless its name holds a NUL character.
pub proof fn a_request_carries_the_whole_definition(name: Seq<char>, code: Seq<u8>)
    requires
        code.len() >= 20,
    ensures
        match map_request(name, code) {
            Ok(request) => {
                &&& !name.contains('\0')
                &&& request.name == name
                &&& bytes32(request.kind as int) + bytes32(request.key_size as int) + bytes32(
                    request.value_size as int,
                ) + bytes32(request.max_entries as int) + bytes32(request.map_flags as int)
                    == code.subrange(0, 20)
            },
            Err(failure) => name.contains('\0') && failure == Failure::StringConversion,
        },
{
    if !name.contains('\0') {
        a_request_carries_every_byte_of_its_numbers(name, code);
        assert(code.subrange(0, 20) =~= code.subrange(0, 4) + code.subrange(4, 8)
            + code.subrange(8, 12) + code.subrange(12, 16) + code.subrange(16, 20));
    }
}

/// A map exists if and only if the kernel answered with a descriptor, and has that descriptor and
/// what was asked for.
pub proof fn a_map_is_what_the_kernel_was_asked_for(request: MapCreateView, fd: i32)
    ensures
        match created_map(request, fd) {
            Ok(map) => {
                &&& fd >= 0
                &&& map.fd == fd
                &&& map.name == request.name
                &&& map.kind == request.kind
            },
            Err(failure) => fd < 0 && failure == Failure::BPF,
        },
{
}

/// Maps and requests for them show all that they hold.
pub proof fn maps_show_what_they_hold(map: BpfMap, request: MapCreate)
    ensures
        map@.name == map.name@,
        map@.kind == map.kind,
        map@.fd == map.fd,
        request@.kind == request.kind,
        request@.name == request.name@,
        request@.key_size == request.key_size,
        request@.value_size == request.value_size,
        request@.max_entries == request.max_entries,
        request@.map_flags == request.map_flags,
{
}

} // verus!
