//! eBPF instructions as they stand in an object file: eight bytes each, with numbers in the byte
//! order of the machine.
use vstd::arithmetic::div_mod::lemma_fundamental_div_mod_converse;
use vstd::endian::{endianness, Endian};
use vstd::prelude::*;

verus! {

/// The number of bytes in an instruction.
pub const INSN_SIZE: usize = 8;

/// In the source register field of a wide load: the immediate value is the descriptor of a map.
pub const BPF_PSEUDO_MAP_FD: u8 = 1;

/// One eBPF instruction. `regs` holds the destination register in its low and the source
/// register in its high four bits.
#[derive(Debug, Clone, Copy, PartialEq, Eq, Structural)]
pub struct BpfInsn {
    pub code: u8,
    pub regs: u8,
    pub off: i16,
    pub imm: i32,
}

/// The unsigned number whose two bytes stand in `b` at `at`, in the byte order of the machine.
pub open spec fn ne16(b: Seq<u8>, at: int) -> int {
    match endianness() {
        Endian::Little => b[at] + 0x100 * b[at + 1],
        Endian::Big => b[at + 1] + 0x100 * b[at],
    }
}

/// The unsigned number whose four bytes stand in `b` at `at`, in the byte order of the machine.
pub open spec fn ne32(b: Seq<u8>, at: int) -> int {
    match endianness() {
        Endian::Little => b[at] + 0x100 * b[at + 1] + 0x1_0000 * b[at + 2] + 0x100_0000 * b[at + 3],
        Endian::Big => b[at + 3] + 0x100 * b[at + 2] + 0x1_0000 * b[at + 1] + 0x100_0000 * b[at],
    }
}

/// Calls `u16::from_ne_bytes`, which takes the two bytes in the byte order of the machine.
#[verifier::external_body]
fn u16_from_ne_bytes(b: [u8; 2]) -> (r: u16)
    ensures
        r == ne16(b@, 0),
{
    u16::from_ne_bytes(b)
}

/// Calls `u32::from_ne_bytes`, which takes the four bytes in the byte order of the machine.
#[verifier::external_body]
fn u32_from_ne_bytes(b: [u8; 4]) -> (r: u32)
    ensures
        r == ne32(b@, 0),
{
    u32::from_ne_bytes(b)
}

/// `n`, a number below 2^16, read as a two's complement number of 16 bits.
pub open spec fn signed16(n: int) -> int {
    if n < 0x8000 {
        n
    } else {
        n - 0x1_0000
    }
}

/// `n`, a number below 2^32, read as a two's complement number of 32 bits.
pub open spec fn signed32(n: int) -> int {
    if n < 0x8000_0000 {
        n
    } else {
        n - 0x1_0000_0000
    }
}

/// The instruction whose bytes stand in `b` at `at`.
pub open spec fn insn_at(b: Seq<u8>, at: int) -> BpfInsn {
    BpfInsn {
        code: b[at],
        regs: b[at + 1],
        off: signed16(ne16(b, at + 2)) as i16,
        imm: signed32(ne32(b, at + 4)) as i32,
    }
}

/// The instructions of a program whose bytes are `b`.
pub open spec fn insns_of(b: Seq<u8>) -> Seq<BpfInsn> {
    Seq::new(b.len() / 8, |i: int| insn_at(b, 8 * i))
}

/// The byte of weight `0x100 ^ k` in `n`, a number of 32 bits in two's complement.
pub open spec fn byte_of(n: int, k: int) -> u8 {
    if k == 0 {
        (n % 0x100) as u8
    } else if k == 1 {
        ((n / 0x100) % 0x100) as u8
    } else if k == 2 {
        ((n / 0x1_0000) % 0x100) as u8
    } else {
        ((n / 0x100_0000) % 0x100) as u8
    }
}

/// The two bytes of `n`, a number of 16 bits in two's complement, in the byte order of the machine.
pub open spec fn bytes16(n: int) -> Seq<u8> {
    match endianness() {
        Endian::Little => seq![byte_of(n, 0), byte_of(n, 1)],
        Endian::Big => seq![byte_of(n, 1), byte_of(n, 0)],
    }
}

/// The four bytes of `n`, a number of 32 bits in two's complement, in the byte order of the
/// machine.
pub open spec fn bytes32(n: int) -> Seq<u8> {
    match endianness() {
        Endian::Little => seq![byte_of(n, 0), byte_of(n, 1), byte_of(n, 2), byte_of(n, 3)],
        Endian::Big => seq![byte_of(n, 3), byte_of(n, 2), byte_of(n, 1), byte_of(n, 0)],
    }
}

impl BpfInsn {
    /// The eight bytes of the instruction.
    pub open spec fn bytes(self) -> Seq<u8> {
        seq![self.code, self.regs] + bytes16(self.off as int) + bytes32(self.imm as int)
    }

    /// The destination register.
    pub open spec fn dst(self) -> int {
        self.regs as int % 16
    }

    /// The source register.
    pub open spec fn src(self) -> int {
        self.regs as int / 16
    }

    /// The instruction with `val`, cut to four bits, for its source register.
    pub open spec fn with_src(self, val: u8) -> BpfInsn {
        BpfInsn { regs: (self.dst() + 16 * (val as int % 16)) as u8, ..self }
    }

    /// The destination register.
    pub fn dst_reg(&self) -> (r: u8)
        ensures
            r == self.dst(),
    {
        self.regs % 16
    }

    /// The source register.
    pub fn src_reg(&self) -> (r: u8)
        ensures
            r == self.src(),
    {
        self.regs / 16
    }

    /// Sets the source register to the low four bits of `val`.
    pub fn set_src_reg(&mut self, val: u8)
        ensures
            *final(self) == old(self).with_src(val),
    {
        self.regs = self.regs % 16 + 16 * (val % 16);
    }
}

/// The number whose two bytes stand in `b` at `at`, in the byte order of the machine.
pub fn read_ne16(b: &[u8], at: usize) -> (r: u16)
    requires
        at + 2 <= b@.len(),
    ensures
        r == ne16(b@, at as int),
{
    u16_from_ne_bytes([b[at], b[at + 1]])
}

/// The number whose four bytes stand in `b` at `at`, in the byte order of the machine.
pub fn read_ne32(b: &[u8], at: usize) -> (r: u32)
    requires
        at + 4 <= b@.len(),
    ensures
        r == ne32(b@, at as int),
{
    u32_from_ne_bytes([b[at], b[at + 1], b[at + 2], b[at + 3]])
}

/// `n` read as a two's complement number of 16 bits.
pub fn to_signed16(n: u16) -> (r: i16)
    ensures
        r == signed16(n as int),
{
    if n < 0x8000 {
        n as i16
    } else {
        (n as i32 - 0x1_0000) as i16
    }
}

/// `n` read as a two's complement number of 32 bits.
pub fn to_signed32(n: u32) -> (r: i32)
    ensures
        r == signed32(n as int),
{
    if n < 0x8000_0000 {
        n as i32
    } else {
        (n as i64 - 0x1_0000_0000) as i32
    }
}

/// Reads the instructions of a program. The bytes hold a whole number of instructions.
pub fn read_insns(b: &[u8]) -> (r: Vec<BpfInsn>)
    requires
        b@.len() % 8 == 0,
    ensures
        r@ == insns_of(b@),
{
    let len: usize = b.len();
    let count: usize = len / INSN_SIZE;
    let mut insns: Vec<BpfInsn> = Vec::new();
    for i in 0..count
        invariant
            len == b@.len(),
            count == len / 8,
            insns@.len() == i,
            forall|j: int| 0 <= j < i ==> insns@[j] == insn_at(b@, 8 * j),
    {
        let at: usize = INSN_SIZE * i;
        let off: u16 = read_ne16(b, at + 2);
        let imm: u32 = read_ne32(b, at + 4);
        insns.push(
            BpfInsn { code: b[at], regs: b[at + 1], off: to_signed16(off), imm: to_signed32(imm) },
        );
    }
    insns
}

/// A number of 16 bits has the bytes it is made of, with and without a sign.
proof fn lemma_bytes_of_16(b0: u8, b1: u8)
    ensures
        ({
            let n = b0 + 0x100 * b1;
            &&& byte_of(n, 0) == b0
            &&& byte_of(n, 1) == b1
            &&& byte_of(signed16(n), 0) == b0
            &&& byte_of(signed16(n), 1) == b1
        }),
{
}

/// A number has the bytes it is made of; the highest one counts up to whole turns.
proof fn lemma_bytes_of(b0: u8, b1: u8, b2: u8, top: int)
    ensures
        ({
            let n = b0 + 0x100 * b1 + 0x1_0000 * b2 + 0x100_0000 * top;
            &&& byte_of(n, 0) == b0
            &&& byte_of(n, 1) == b1
            &&& byte_of(n, 2) == b2
            &&& byte_of(n, 3) == (top % 0x100) as u8
        }),
{
    let q2 = b2 + 0x100 * top;
    let q1 = b1 + 0x100 * q2;
    let n = b0 + 0x100 * q1;
    lemma_fundamental_div_mod_converse(n, 0x100, q1, b0 as int);
    lemma_fundamental_div_mod_converse(q1, 0x100, q2, b1 as int);
    lemma_fundamental_div_mod_converse(q2, 0x100, top, b2 as int);
    lemma_fundamental_div_mod_converse(n, 0x1_0000, q2, b0 + 0x100 * b1);
    lemma_fundamental_div_mod_converse(n, 0x100_0000, top, b0 + 0x100 * b1 + 0x1_0000 * b2);
}

/// A number of 32 bits has the bytes it is made of, with and without a sign.
proof fn lemma_bytes_of_32(b0: u8, b1: u8, b2: u8, b3: u8)
    ensures
        ({
            let n = b0 + 0x100 * b1 + 0x1_0000 * b2 + 0x100_0000 * b3;
            &&& byte_of(n, 0) == b0
            &&& byte_of(n, 1) == b1
            &&& byte_of(n, 2) == b2
            &&& byte_of(n, 3) == b3
            &&& byte_of(signed32(n), 0) == b0
            &&& byte_of(signed32(n), 1) == b1
            &&& byte_of(signed32(n), 2) == b2
            &&& byte_of(signed32(n), 3) == b3
        }),
{
    lemma_bytes_of(b0, b1, b2, b3 as int);
    lemma_bytes_of(b0, b1, b2, b3 - 0x100);
    assert((b3 - 0x100) % 0x100 == b3);
}

/// Reading a program loses nothing: each instruction holds exactly the eight bytes it was read
/// from.
pub proof fn reading_keeps_every_byte(b: Seq<u8>, i: int)
    requires
        0 <= i < insns_of(b).len(),
    ensures
        insns_of(b)[i].bytes() == b.subrange(8 * i, 8 * i + 8),
{
    let at = 8 * i;
    numbers_of_16_bits_keep_their_bytes(b, at + 2);
    numbers_of_32_bits_keep_their_bytes(b, at + 4);
    let insn = insns_of(b)[i];
    assert(insn == insn_at(b, at));
    assert(insn.off as int == signed16(ne16(b, at + 2)));
    assert(insn.imm as int == signed32(ne32(b, at + 4)));
    assert(insn.bytes() =~= b.subrange(at, at + 8));
}

/// Setting the source register gives it the low four bits of the value and touches nothing else.
pub proof fn setting_the_source_touches_nothing_else(insn: BpfInsn, val: u8)
    ensures
        insn.with_src(val).src() == val as int % 16,
        insn.with_src(val).dst() == insn.dst(),
        insn.with_src(val).code == insn.code,
        insn.with_src(val).off == insn.off,
        insn.with_src(val).imm == insn.imm,
{
}

/// A number of 16 bits read out of a file has, in the byte order of the machine, the bytes that
/// stand there, and so has the same number in two's complement.
pub proof fn numbers_of_16_bits_keep_their_bytes(b: Seq<u8>, at: int)
    requires
        0 <= at,
        at + 2 <= b.len(),
    ensures
        0 <= ne16(b, at) < 0x1_0000,
        bytes16(ne16(b, at)) == b.subrange(at, at + 2),
        bytes16(signed16(ne16(b, at))) == b.subrange(at, at + 2),
{
    match endianness() {
        Endian::Little => lemma_bytes_of_16(b[at], b[at + 1]),
        Endian::Big => lemma_bytes_of_16(b[at + 1], b[at]),
    }
    assert(bytes16(ne16(b, at)) =~= b.subrange(at, at + 2));
    assert(bytes16(signed16(ne16(b, at))) =~= b.subrange(at, at + 2));
}

/// A number of 32 bits read out of a file has, in the byte order of the machine, the bytes that
/// stand there, and so has the same number in two's complement.
pub proof fn numbers_of_32_bits_keep_their_bytes(b: Seq<u8>, at: int)
    requires
        0 <= at,
        at + 4 <= b.len(),
    ensures
        0 <= ne32(b, at) < 0x1_0000_0000,
        bytes32(ne32(b, at)) == b.subrange(at, at + 4),
        bytes32(signed32(ne32(b, at))) == b.subrange(at, at + 4),
{
    let n = ne32(b, at);
    match endianness() {
        Endian::Little => lemma_bytes_of_32(b[at], b[at + 1], b[at + 2], b[at + 3]),
        Endian::Big => lemma_bytes_of_32(b[at + 3], b[at + 2], b[at + 1], b[at]),
    }
    assert(bytes32(n) =~= seq![b[at], b[at + 1], b[at + 2], b[at + 3]]);
    assert(bytes32(signed32(n)) =~= seq![b[at], b[at + 1], b[at + 2], b[at + 3]]);
    assert(b.subrange(at, at + 4) =~= seq![b[at], b[at + 1], b[at + 2], b[at + 3]]);
}

/// A number read in two's complement differs from the unsigned one by a whole number of turns, and
/// is the one of them that fits.
pub proof fn twos_complement_is_a_turn_away(n: u16, m: u32)
    ensures
        -0x8000 <= signed16(n as int) < 0x8000,
        (n - signed16(n as int)) % 0x1_0000 == 0,
        -0x8000_0000 <= signed32(m as int) < 0x8000_0000,
        (m - signed32(m as int)) % 0x1_0000_0000 == 0,
{
}

/// The two registers are the two halves of their byte: the destination its low four bits, the
/// source its high four bits.
pub proof fn registers_are_the_halves_of_a_byte(insn: BpfInsn)
    ensures
        0 <= insn.dst() < 16,
        0 <= insn.src() < 16,
        insn.dst() + 16 * insn.src() == insn.regs,
{
}

/// The bytes of all instructions in turn.
pub open spec fn all_bytes(insns: Seq<BpfInsn>) -> Seq<u8>
    decreases insns.len(),
{
    if insns.len() == 0 {
        Seq::empty()
    } else {
        all_bytes(insns.drop_last()) + insns.last().bytes()
    }
}

/// The bytes of the first `upto` instructions are as many bytes of the file, eight for each.
proof fn lemma_all_bytes(b: Seq<u8>, upto: int)
    requires
        0 <= 8 * upto <= b.len(),
        upto <= insns_of(b).len(),
    ensures
        all_bytes(insns_of(b).take(upto)) == b.subrange(0, 8 * upto),
    decreases upto,
{
    let insns = insns_of(b);
    if upto == 0 {
        assert(insns.take(0) =~= Seq::empty());
        assert(b.subrange(0, 0) =~= Seq::empty());
    } else {
        let at = 8 * (upto - 1);
        lemma_all_bytes(b, upto - 1);
        reading_keeps_every_byte(b, upto - 1);
        assert(insns.take(upto).drop_last() =~= insns.take(upto - 1));
        assert(insns.take(upto).last() == insns[upto - 1]);
        assert(b.subrange(0, at + 8) =~= b.subrange(0, at) + b.subrange(at, at + 8));
    }
}

/// A program is read whole: there is an instruction for every eight bytes, and the bytes of all
/// instructions in turn are those of the file.
pub proof fn a_program_is_read_whole(b: Seq<u8>)
    requires
        b.len() % 8 == 0,
    ensures
        8 * insns_of(b).len() == b.len(),
        all_bytes(insns_of(b)) == b,
{
    lemma_all_bytes(b, insns_of(b).len() as int);
    assert(insns_of(b).take(insns_of(b).len() as int) =~= insns_of(b));
    assert(b.subrange(0, b.len() as int) =~= b);
}

} // verus!
