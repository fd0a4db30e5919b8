//! Reading the flow of an IP packet from its raw bytes: protocol, addresses
//! and ports, oriented from the point of view of this machine.

use vstd::prelude::*;

verus! {

/// IP protocol number of TCP.
pub const PROTOCOL_TCP: u8 = 6;

/// IP protocol number of UDP.
pub const PROTOCOL_UDP: u8 = 17;

/// An IP address, held as its bytes in network order read as one number.
#[derive(Clone, Copy, Debug, PartialEq, Eq, Hash, Structural)]
pub enum IpAddress {
    V4(u32),
    V6(u128),
}

/// The five values that identify a network flow, seen from this machine.
#[derive(Clone, Copy, Debug, PartialEq, Eq, Hash, Structural)]
pub struct FlowKey {
    pub protocol: u8,
    pub local_addr: IpAddress,
    pub local_port: u16,
    pub remote_addr: IpAddress,
    pub remote_port: u16,
}

impl FlowKey {
    /// The same flow with its two ends exchanged.
    pub open spec fn swapped(self) -> FlowKey {
        FlowKey {
            protocol: self.protocol,
            local_addr: self.remote_addr,
            local_port: self.remote_port,
            remote_addr: self.local_addr,
            remote_port: self.local_port,
        }
    }
}

/// The number that `bytes` spell in big-endian order.
pub open spec fn be_number(bytes: Seq<u8>) -> nat
    decreases bytes.len(),
{
    if bytes.len() == 0 {
        0
    } else {
        be_number(bytes.drop_last()) * 256 + bytes.last() as nat
    }
}

/// `256` to the power `n`.
pub open spec fn pow256(n: nat) -> nat
    decreases n,
{
    if n == 0 {
        1
    } else {
        256 * pow256((n - 1) as nat)
    }
}

/// A port number as two bytes in network order give it.
pub open spec fn be_port(hi: u8, lo: u8) -> u16 {
    (hi * 256 + lo) as u16
}

/// The flow key of a packet from `src` to `dst`: an outbound packet leaves
/// from the local end, an inbound one arrives at it.
pub open spec fn oriented_key(
    protocol: u8,
    src: IpAddress,
    src_port: u16,
    dst: IpAddress,
    dst_port: u16,
    outbound: bool,
) -> FlowKey {
    if outbound {
        FlowKey {
            protocol,
            local_addr: src,
            local_port: src_port,
            remote_addr: dst,
            remote_port: dst_port,
        }
    } else {
        FlowKey {
            protocol,
            local_addr: dst,
            local_port: dst_port,
            remote_addr: src,
            remote_port: src_port,
        }
    }
}

/// Whether a protocol number is one whose header starts with two ports.
pub open spec fn carries_ports(protocol: u8) -> bool {
    protocol == PROTOCOL_TCP || protocol == PROTOCOL_UDP
}

/// The flow key of an IPv4 packet: addresses from the fixed header, ports
/// from the first four bytes after the header length that byte 0 declares.
pub open spec fn ipv4_flow_key(data: Seq<u8>, outbound: bool) -> Option<FlowKey> {
    if data.len() < 20 {
        None
    } else {
        let ihl = (data[0] % 16) * 4;
        let protocol = data[9];
        if !carries_ports(protocol) {
            None
        } else if data.len() < ihl + 4 {
            None
        } else {
            Some(
                oriented_key(
                    protocol,
                    IpAddress::V4(be_number(data.subrange(12, 16)) as u32),
                    be_port(data[ihl as int], data[ihl + 1]),
                    IpAddress::V4(be_number(data.subrange(16, 20)) as u32),
                    be_port(data[ihl + 2], data[ihl + 3]),
                    outbound,
                ),
            )
        }
    }
}

/// The flow key of an IPv6 packet: addresses from the fixed 40-byte header,
/// ports from the four bytes after it.
pub open spec fn ipv6_flow_key(data: Seq<u8>, outbound: bool) -> Option<FlowKey> {
    if data.len() < 40 {
        None
    } else {
        let protocol = data[6];
        if !carries_ports(protocol) {
            None
        } else if data.len() < 44 {
            None
        } else {
            Some(
                oriented_key(
                    protocol,
                    IpAddress::V6(be_number(data.subrange(8, 24)) as u128),
                    be_port(data[40], data[41]),
                    IpAddress::V6(be_number(data.subrange(24, 40)) as u128),
                    be_port(data[42], data[43]),
                    outbound,
                ),
            )
        }
    }
}

/// The flow key of a raw IP packet, by the version in its first byte; none
/// for packets shorter than 20 bytes, other versions, or protocols other
/// than TCP and UDP.
pub open spec fn packet_flow_key(data: Seq<u8>, outbound: bool) -> Option<FlowKey> {
    if data.len() < 20 {
        None
    } else if data[0] / 16 == 4 {
        ipv4_flow_key(data, outbound)
    } else if data[0] / 16 == 6 {
        ipv6_flow_key(data, outbound)
    } else {
        None
    }
}

proof fn lemma_be_number_bound(bytes: Seq<u8>)
    ensures
        be_number(bytes) < pow256(bytes.len()),
    decreases bytes.len(),
{
    if bytes.len() > 0 {
        let rest = bytes.drop_last();
        lemma_be_number_bound(rest);
        assert(pow256(bytes.len()) == 256 * pow256(rest.len()));
        assert(be_number(rest) * 256 + bytes.last() < 256 * pow256(rest.len())) by (nonlinear_arith)
            requires
                be_number(rest) < pow256(rest.len()),
                bytes.last() < 256,
        ;
    }
}

proof fn lemma_pow256_monotone(a: nat, b: nat)
    requires
        a <= b,
    ensures
        pow256(a) <= pow256(b),
    decreases b,
{
    if a < b {
        lemma_pow256_monotone(a, (b - 1) as nat);
    }
}

/// Reads the four bytes at `at` as an IPv4 address.
fn read_ipv4_address(data: &[u8], at: usize) -> (r: u32)
    requires
        at + 4 <= data@.len(),
    ensures
        r as nat == be_number(data@.subrange(at as int, at + 4)),
{
    let s = Ghost(data@.subrange(at as int, at + 4));
    reveal_with_fuel(be_number, 5);
    assert(s@.drop_last().drop_last().drop_last().drop_last() =~= Seq::<u8>::empty());
    (data[at] as u32) * 0x100_0000 + (data[at + 1] as u32) * 0x1_0000 + (data[at + 2] as u32)
        * 0x100 + (data[at + 3] as u32)
}

/// Reads the sixteen bytes at `at` as an IPv6 address.
fn read_ipv6_address(data: &[u8], at: usize) -> (r: u128)
    requires
        at <= 24,
        at + 16 <= data@.len(),
    ensures
        r as nat == be_number(data@.subrange(at as int, at + 16)),
{
    let mut v: u128 = 0;
    let mut k: usize = 0;
    assert(data@.subrange(at as int, at as int) =~= Seq::<u8>::empty());
    assert(pow256(15) == 1329227995784915872903807060280344576nat) by {
        reveal_with_fuel(pow256, 16);
    }
    while k < 16
        invariant
            at <= 24,
            at + 16 <= data@.len(),
            k <= 16,
            pow256(15) == 1329227995784915872903807060280344576nat,
            v as nat == be_number(data@.subrange(at as int, at + k)),
        decreases 16 - k,
    {
        let ghost prefix = data@.subrange(at as int, at + k);
        proof {
            lemma_be_number_bound(prefix);
            lemma_pow256_monotone(k as nat, 15);
            assert(data@.subrange(at as int, at + k + 1).drop_last() =~= prefix);
            assert(v < 1329227995784915872903807060280344576nat);
        }
        v = v * 256 + data[at + k] as u128;
        k = k + 1;
    }
    v
}

/// Reads the two bytes at `at` as a port number.
fn read_port(data: &[u8], at: usize) -> (r: u16)
    requires
        at + 2 <= data@.len(),
    ensures
        r == be_port(data@[at as int], data@[at + 1]),
{
    (data[at] as u16) * 256 + data[at + 1] as u16
}

/// The flow key of an IPv4 packet.
fn parse_ipv4_flow_key(data: &[u8], is_outbound: bool) -> (r: Option<FlowKey>)
    ensures
        r == ipv4_flow_key(data@, is_outbound),
{
    if data.len() < 20 {
        return None;
    }
    let ihl: usize = (data[0] % 16) as usize * 4;
    let protocol: u8 = data[9];
    let src_ip = IpAddress::V4(read_ipv4_address(data, 12));
    let dst_ip = IpAddress::V4(read_ipv4_address(data, 16));
    if protocol != PROTOCOL_TCP && protocol != PROTOCOL_UDP {
        return None;
    }
    if data.len() < ihl + 4 {
        return None;
    }
    let src_port: u16 = read_port(data, ihl);
    let dst_port: u16 = read_port(data, ihl + 2);
    Some(orient(protocol, src_ip, src_port, dst_ip, dst_port, is_outbound))
}

/// The flow key of an IPv6 packet.
fn parse_ipv6_flow_key(data: &[u8], is_outbound: bool) -> (r: Option<FlowKey>)
    ensures
        r == ipv6_flow_key(data@, is_outbound),
{
    if data.len() < 40 {
        return None;
    }
    let protocol: u8 = data[6];
    let src_ip = IpAddress::V6(read_ipv6_address(data, 8));
    let dst_ip = IpAddress::V6(read_ipv6_address(data, 24));
    if protocol != PROTOCOL_TCP && protocol != PROTOCOL_UDP {
        return None;
    }
    let header_len: usize = 40;
    if data.len() < header_len + 4 {
        return None;
    }
    let src_port: u16 = read_port(data, header_len);
    let dst_port: u16 = read_port(data, header_len + 2);
    Some(orient(protocol, src_ip, src_port, dst_ip, dst_port, is_outbound))
}

/// Builds the flow key of a packet from `src` to `dst`.
fn orient(
    protocol: u8,
    src: IpAddress,
    src_port: u16,
    dst: IpAddress,
    dst_port: u16,
    outbound: bool,
) -> (r: FlowKey)
    ensures
        r == oriented_key(protocol, src, src_port, dst, dst_port, outbound),
{
    if outbound {
        FlowKey {
            protocol,
            local_addr: src,
            local_port: src_port,
            remote_addr: dst,
            remote_port: dst_port,
        }
    } else {
        FlowKey {
            protocol,
            local_addr: dst,
            local_port: dst_port,
            remote_addr: src,
            remote_port: src_port,
        }
    }
}

/// The flow key of a raw IPv4 or IPv6 packet carrying TCP or UDP, oriented
/// by the packet's direction; none for anything else.
pub fn parse_flow_key_from_packet(data: &[u8], is_outbound: bool) -> (r: Option<FlowKey>)
    ensures
        r == packet_flow_key(data@, is_outbound),
{
    if data.len() < 20 {
        return None;
    }
    let version: u8 = data[0] / 16;
    if version == 4 {
        parse_ipv4_flow_key(data, is_outbound)
    } else if version == 6 {
        parse_ipv6_flow_key(data, is_outbound)
    } else {
        None
    }
}

/// A packet read as outbound and the same packet read as inbound give the
/// same flow with its ends exchanged: the local end of one is the remote
/// end of the other.
pub proof fn lemma_flow_key_direction_mirror(data: Seq<u8>)
    ensures
        packet_flow_key(data, true) is Some <==> packet_flow_key(data, false) is Some,
        packet_flow_key(data, true) is Some ==> packet_flow_key(data, true)->0 == packet_flow_key(
            data,
            false,
        )->0.swapped(),
{
}

/// Whether `data` is an IPv6 packet with TCP or UDP ports: at least 44
/// bytes, version 6, and next header 6 or 17.
pub open spec fn is_ipv6_with_ports(data: Seq<u8>) -> bool {
    data.len() >= 44 && data[0] / 16 == 6 && (data[6] == 6 || data[6] == 17)
}

proof fn lemma_be_number_injective(a: Seq<u8>, b: Seq<u8>)
    requires
        a.len() == b.len(),
        be_number(a) == be_number(b),
    ensures
        a == b,
    decreases a.len(),
{
    if a.len() > 0 {
        let x = be_number(a.drop_last());
        let y = be_number(b.drop_last());
        let r = a.last() as int;
        let t = b.last() as int;
        assert(x == y && r == t) by (nonlinear_arith)
            requires
                x * 256 + r == y * 256 + t,
                0 <= r < 256,
                0 <= t < 256,
                x >= 0,
                y >= 0,
        ;
        lemma_be_number_injective(a.drop_last(), b.drop_last());
        assert(a =~= a.drop_last().push(a.last()));
        assert(b =~= b.drop_last().push(b.last()));
    } else {
        assert(a =~= b);
    }
}

proof fn lemma_be_number_16_fits(bytes: Seq<u8>)
    requires
        bytes.len() == 16,
    ensures
        be_number(bytes) < 0x1_0000_0000_0000_0000_0000_0000_0000_0000,
{
    lemma_be_number_bound(bytes);
    assert(pow256(16) == 0x1_0000_0000_0000_0000_0000_0000_0000_0000nat) by {
        reveal_with_fuel(pow256, 17);
    }
}

/// The two ends of an IPv6 flow are its packet's full 128-bit addresses:
/// the source (bytes 8..24) and the destination (bytes 24..40), each read
/// big-endian, on the local or remote side as the direction says.
pub proof fn lemma_ipv6_addresses_are_full(data: Seq<u8>, outbound: bool)
    requires
        is_ipv6_with_ports(data),
    ensures
        packet_flow_key(data, outbound) is Some,
        ({
            let k = packet_flow_key(data, outbound)->0;
            let src = if outbound {
                k.local_addr
            } else {
                k.remote_addr
            };
            let dst = if outbound {
                k.remote_addr
            } else {
                k.local_addr
            };
            &&& src == IpAddress::V6(be_number(data.subrange(8, 24)) as u128)
            &&& dst == IpAddress::V6(be_number(data.subrange(24, 40)) as u128)
            &&& be_number(data.subrange(8, 24)) < 0x1_0000_0000_0000_0000_0000_0000_0000_0000
            &&& be_number(data.subrange(24, 40)) < 0x1_0000_0000_0000_0000_0000_0000_0000_0000
        }),
{
    lemma_be_number_16_fits(data.subrange(8, 24));
    lemma_be_number_16_fits(data.subrange(24, 40));
}

/// IPv6 flow addresses tell packets apart by every address byte: two IPv6
/// TCP/UDP packets read in the same direction have the same destination end
/// exactly when their destination addresses (bytes 24..40) are equal, and
/// the same source end exactly when their source addresses (bytes 8..24) are.
pub proof fn lemma_ipv6_addresses_distinguish_packets(d1: Seq<u8>, d2: Seq<u8>, outbound: bool)
    requires
        is_ipv6_with_ports(d1),
        is_ipv6_with_ports(d2),
    ensures
        ({
            let k1 = packet_flow_key(d1, outbound)->0;
            let k2 = packet_flow_key(d2, outbound)->0;
            &&& (if outbound {
                k1.remote_addr == k2.remote_addr
            } else {
                k1.local_addr == k2.local_addr
            }) == (d1.subrange(24, 40) == d2.subrange(24, 40))
            &&& (if outbound {
                k1.local_addr == k2.local_addr
            } else {
                k1.remote_addr == k2.remote_addr
            }) == (d1.subrange(8, 24) == d2.subrange(8, 24))
        }),
{
    lemma_ipv6_addresses_are_full(d1, outbound);
    lemma_ipv6_addresses_are_full(d2, outbound);
    let a1 = be_number(d1.subrange(24, 40));
    let a2 = be_number(d2.subrange(24, 40));
    let b1 = be_number(d1.subrange(8, 24));
    let b2 = be_number(d2.subrange(8, 24));
    if a1 as u128 == a2 as u128 {
        lemma_be_number_injective(d1.subrange(24, 40), d2.subrange(24, 40));
    }
    if b1 as u128 == b2 as u128 {
        lemma_be_number_injective(d1.subrange(8, 24), d2.subrange(8, 24));
    }
}

} // verus!
