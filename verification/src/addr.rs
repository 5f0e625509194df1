//! Node addresses. The agent reports every address as a 128-bit IPv6 number
//! and writes an IPv4 address in its IPv4-mapped form.

use vstd::prelude::*;

verus! {

/// The address of a member.
#[derive(Debug, Clone, Copy, PartialEq, Eq, Structural)]
pub enum NodeAddr {
    /// An IPv4 address, by its four octets in network order.
    V4(u8, u8, u8, u8),
    /// An IPv6 address, as the number its sixteen octets spell.
    V6(u128),
}

/// True when `bits` is an IPv4-mapped IPv6 address: ten zero octets, two
/// octets of ones, then the IPv4 address.
pub open spec fn is_v4_mapped(bits: u128) -> bool {
    bits / 0x1_0000_0000 == 0xffff
}

/// The `i`-th octet of `bits`, counted from the least significant.
pub open spec fn octet(bits: u128, i: nat) -> u8
    recommends
        i < 4,
{
    if i == 0 {
        (bits % 0x100) as u8
    } else if i == 1 {
        ((bits / 0x100) % 0x100) as u8
    } else if i == 2 {
        ((bits / 0x1_0000) % 0x100) as u8
    } else {
        ((bits / 0x100_0000) % 0x100) as u8
    }
}

/// The address that the number `bits` stands for.
pub open spec fn addr_of(bits: u128) -> NodeAddr {
    if is_v4_mapped(bits) {
        NodeAddr::V4(octet(bits, 3), octet(bits, 2), octet(bits, 1), octet(bits, 0))
    } else {
        NodeAddr::V6(bits)
    }
}

/// Reads an address from its 128-bit form, unwrapping an IPv4-mapped one.
pub fn deserialize_ip_addr(bits: u128) -> (addr: NodeAddr)
    ensures
        addr == addr_of(bits),
{
    if bits / 0x1_0000_0000 == 0xffff {
        let a: u8 = ((bits / 0x100_0000) % 0x100) as u8;
        let b: u8 = ((bits / 0x1_0000) % 0x100) as u8;
        let c: u8 = ((bits / 0x100) % 0x100) as u8;
        let d: u8 = (bits % 0x100) as u8;
        NodeAddr::V4(a, b, c, d)
    } else {
        NodeAddr::V6(bits)
    }
}

impl NodeAddr {
    /// The 128-bit form that the agent would report for this address.
    pub open spec fn bits(self) -> u128 {
        match self {
            NodeAddr::V4(a, b, c, d) => (0xffff_0000_0000 + a * 0x100_0000 + b * 0x1_0000 + c
                * 0x100 + d) as u128,
            NodeAddr::V6(bits) => bits,
        }
    }

    /// Writes the address back as a 128-bit number.
    pub fn to_bits(self) -> (bits: u128)
        ensures
            bits == self.bits(),
    {
        match self {
            NodeAddr::V4(a, b, c, d) => {
                let a: u128 = a as u128;
                let b: u128 = b as u128;
                let c: u128 = c as u128;
                let d: u128 = d as u128;
                0xffff_0000_0000 + a * 0x100_0000 + b * 0x1_0000 + c * 0x100 + d
            },
            NodeAddr::V6(bits) => bits,
        }
    }
}

/// Reading an address and writing it back gives the number that was read.
pub proof fn lemma_addr_round_trip(bits: u128)
    ensures
        addr_of(bits).bits() == bits,
{
    if is_v4_mapped(bits) {
        let n = bits as int;
        let o0 = n % 0x100;
        let r1 = n / 0x100;
        let o1 = r1 % 0x100;
        let r2 = r1 / 0x100;
        let o2 = r2 % 0x100;
        let r3 = r2 / 0x100;
        let o3 = r3 % 0x100;
        let r4 = r3 / 0x100;
        assert(r2 == n / 0x1_0000);
        assert(r3 == n / 0x100_0000);
        assert(r4 == n / 0x1_0000_0000);
        assert(n == r4 * 0x1_0000_0000 + o3 * 0x100_0000 + o2 * 0x1_0000 + o1 * 0x100 + o0);
    }
}

} // verus!
