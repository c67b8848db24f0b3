//! The serial transport envelope: delimiters, 16-bit truncated checksum,
//! and the command header that addresses one device opcode.

use vstd::prelude::*;
use vstd::arithmetic::div_mod::lemma_add_mod_noop;

verus! {

/// The device commands of the protocol, identified on the wire by one opcode byte.
#[derive(Clone, Copy, Debug, PartialEq, Eq, Structural)]
pub enum DivoomCommand {
    UpdateImageFrame,
    UpdateAnimationFrame,
    UpdateBrightness,
    GetInfo,
}

impl DivoomCommand {
    /// The opcode byte that identifies this command on the wire.
    pub open spec fn spec_opcode(self) -> u8 {
        match self {
            DivoomCommand::UpdateImageFrame => 0x44,
            DivoomCommand::UpdateAnimationFrame => 0x49,
            DivoomCommand::UpdateBrightness => 0x74,
            DivoomCommand::GetInfo => 0x46,
        }
    }

    pub fn opcode(self) -> (r: u8)
        ensures
            r == self.spec_opcode(),
    {
        match self {
            DivoomCommand::UpdateImageFrame => 0x44,
            DivoomCommand::UpdateAnimationFrame => 0x49,
            DivoomCommand::UpdateBrightness => 0x74,
            DivoomCommand::GetInfo => 0x46,
        }
    }
}

/// A 16-bit value as two bytes, least-significant byte first.
pub open spec fn spec_le16(v: u16) -> Seq<u8> {
    seq![(v % 256) as u8, (v / 256) as u8]
}

/// The sum of all bytes of a sequence, as an unbounded integer.
pub open spec fn sum_bytes(s: Seq<u8>) -> int
    decreases s.len(),
{
    if s.len() == 0 {
        0
    } else {
        sum_bytes(s.drop_last()) + s.last()
    }
}

/// The transport checksum: the sum of the bytes, truncated to 16 bits.
pub open spec fn spec_checksum(s: Seq<u8>) -> u16 {
    (sum_bytes(s) % 0x10000) as u16
}

/// A payload wrapped in the transport envelope: start delimiter, the payload
/// itself, its checksum in little-endian order, end delimiter.
pub open spec fn spec_framed(payload: Seq<u8>) -> Seq<u8> {
    seq![1u8] + payload + spec_le16(spec_checksum(payload)) + seq![2u8]
}

/// The inner payload of one command: little-endian length field counting the
/// opcode, the two length bytes and the arguments, then the opcode, then the
/// arguments.
pub open spec fn spec_command_payload(opcode: u8, args: Seq<u8>) -> Seq<u8> {
    spec_le16(((args.len() + 3) % 0x10000) as u16) + seq![opcode] + args
}

/// The complete wire frame of one command.
pub open spec fn spec_wire_frame(opcode: u8, args: Seq<u8>) -> Seq<u8> {
    spec_framed(spec_command_payload(opcode, args))
}

proof fn lemma_sum_bytes_nonneg(s: Seq<u8>)
    ensures
        0 <= sum_bytes(s),
    decreases s.len(),
{
    if s.len() > 0 {
        lemma_sum_bytes_nonneg(s.drop_last());
    }
}

/// The two bytes of a 16-bit value, low byte first.
pub fn littlehex(hex: u16) -> (r: Vec<u8>)
    ensures
        r@ == spec_le16(hex),
{
    let mut r: Vec<u8> = Vec::new();
    r.push((hex % 256) as u8);
    r.push((hex / 256) as u8);
    proof {
        assert(r@ =~= spec_le16(hex));
    }
    r
}

/// The 16-bit truncated sum of the payload bytes, as two little-endian bytes.
pub fn checksum(payload: Vec<u8>) -> (r: Vec<u8>)
    ensures
        r@ == spec_le16(spec_checksum(payload@)),
{
    let mut acc: u32 = 0;
    let mut i: usize = 0;
    while i < payload.len()
        invariant
            i <= payload@.len(),
            acc == sum_bytes(payload@.take(i as int)) % 0x10000,
        decreases payload@.len() - i,
    {
        proof {
            let pre = payload@.take(i as int);
            let post = payload@.take(i as int + 1);
            assert(post.drop_last() =~= pre);
            assert(sum_bytes(post) == sum_bytes(pre) + payload@[i as int]);
            lemma_sum_bytes_nonneg(pre);
            lemma_add_mod_noop(sum_bytes(pre), payload@[i as int] as int, 0x10000);
        }
        acc = (acc + payload[i] as u32) % 0x10000;
        i = i + 1;
    }
    proof {
        assert(payload@.take(payload@.len() as int) =~= payload@);
    }
    littlehex(acc as u16)
}

/// Wraps a payload in the transport envelope:
/// `0x01`, the payload, its checksum, `0x02`.
pub fn format_payload(payload: Vec<u8>) -> (r: Vec<u8>)
    ensures
        r@ == spec_framed(payload@),
{
    let mut formatted: Vec<u8> = Vec::new();
    formatted.push(0x01);
    let mut i: usize = 0;
    while i < payload.len()
        invariant
            i <= payload@.len(),
            formatted@ == seq![1u8] + payload@.take(i as int),
        decreases payload@.len() - i,
    {
        formatted.push(payload[i]);
        proof {
            assert(formatted@ =~= seq![1u8] + payload@.take(i as int + 1));
        }
        i = i + 1;
    }
    proof {
        assert(payload@.take(payload@.len() as int) =~= payload@);
    }
    let mut chk = checksum(payload);
    formatted.append(&mut chk);
    formatted.push(0x02);
    proof {
        assert(formatted@ =~= spec_framed(payload@));
    }
    formatted
}

/// The full wire frame for one command: length field, opcode and arguments,
/// wrapped in the transport envelope. This is the pure half of sending a
/// command; writing the bytes to the port is the caller's business.
pub fn divoom_command_bytes(command: DivoomCommand, args: Vec<u8>) -> (r: Vec<u8>)
    requires
        args@.len() + 3 <= 0xFFFF,
    ensures
        r@ == spec_wire_frame(command.spec_opcode(), args@),
{
    let length: u16 = (args.len() + 3) as u16;
    let mut payload: Vec<u8> = littlehex(length);
    payload.push(command.opcode());
    let mut i: usize = 0;
    while i < args.len()
        invariant
            i <= args@.len(),
            args@.len() + 3 <= 0xFFFF,
            length == args@.len() + 3,
            payload@ == spec_le16(length) + seq![command.spec_opcode()] + args@.take(i as int),
        decreases args@.len() - i,
    {
        payload.push(args[i]);
        proof {
            assert(payload@ =~= spec_le16(length) + seq![command.spec_opcode()]
                + args@.take(i as int + 1));
        }
        i = i + 1;
    }
    proof {
        assert(args@.take(args@.len() as int) =~= args@);
        assert((args@.len() + 3) % 0x10000 == args@.len() + 3);
        assert(payload@ =~= spec_command_payload(command.spec_opcode(), args@));
    }
    format_payload(payload)
}

/// Law: a framed message carries, just before its end delimiter, the 16-bit
/// truncated sum of its interior bytes (those between the start delimiter and
/// the checksum), in little-endian order.
pub proof fn lemma_frame_checksum(payload: Seq<u8>)
    ensures
        ({
            let f = spec_framed(payload);
            &&& f.len() == payload.len() + 4
            &&& f[0] == 1u8
            &&& f[f.len() - 1] == 2u8
            &&& f.subrange(1, f.len() - 3) == payload
            &&& f.subrange(f.len() - 3, f.len() - 1)
                == spec_le16(spec_checksum(f.subrange(1, f.len() - 3)))
        }),
{
    let f = spec_framed(payload);
    assert(f.subrange(1, f.len() - 3) =~= payload);
    assert(f.subrange(f.len() - 3, f.len() - 1) =~= spec_le16(spec_checksum(payload)));
}

} // verus!
