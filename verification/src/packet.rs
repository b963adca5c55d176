//! Minimal IPv4 packets and the one's-complement Internet checksum.
use crate::frame::be16_at;
use crate::ipv4::{octets_value, Ipv4Addr};
use crate::text::{append_bytes, copy_range};
use vstd::prelude::*;

verus! {

/// Protocol number carried by an IPv4 packet.
#[derive(Debug, Clone, Copy, PartialEq, Eq, Structural)]
pub enum IpProtocol {
    Icmp,
    Tcp,
    Udp,
    Ospf,
    Other(u8),
}

/// Invalid or unsupported IPv4 wire data.
#[derive(Debug, Clone, Copy, PartialEq, Eq, Structural)]
pub enum PacketError {
    Truncated,
    UnsupportedHeader,
    InvalidLength,
    InvalidChecksum,
    Expired,
}

/// Minimal IPv4 packet used by the simulator. Options and fragmentation are rejected.
#[derive(Debug, Clone, PartialEq, Eq)]
pub struct Ipv4Packet {
    /// Sender address.
    pub source: Ipv4Addr,
    /// Final destination address.
    pub destination: Ipv4Addr,
    /// Remaining hop limit.
    pub ttl: u8,
    /// Upper-layer protocol number.
    pub protocol: IpProtocol,
    /// Upper-layer message bytes.
    pub payload: Vec<u8>,
}

/// The protocol that a protocol number denotes.
pub open spec fn protocol_of(value: u8) -> IpProtocol {
    if value == 1 {
        IpProtocol::Icmp
    } else if value == 6 {
        IpProtocol::Tcp
    } else if value == 17 {
        IpProtocol::Udp
    } else if value == 89 {
        IpProtocol::Ospf
    } else {
        IpProtocol::Other(value)
    }
}

/// The protocol number of a protocol.
pub open spec fn protocol_value(p: IpProtocol) -> u8 {
    match p {
        IpProtocol::Icmp => 1,
        IpProtocol::Tcp => 6,
        IpProtocol::Udp => 17,
        IpProtocol::Ospf => 89,
        IpProtocol::Other(v) => v,
    }
}

impl IpProtocol {
    /// Classify a protocol number.
    pub fn from_u8(value: u8) -> (p: IpProtocol)
        ensures
            p == protocol_of(value),
    {
        match value {
            1 => IpProtocol::Icmp,
            6 => IpProtocol::Tcp,
            17 => IpProtocol::Udp,
            89 => IpProtocol::Ospf,
            v => IpProtocol::Other(v),
        }
    }

    /// The protocol number.
    pub fn to_u8(self) -> (v: u8)
        ensures
            v == protocol_value(self),
    {
        match self {
            IpProtocol::Icmp => 1,
            IpProtocol::Tcp => 6,
            IpProtocol::Udp => 17,
            IpProtocol::Ospf => 89,
            IpProtocol::Other(v) => v,
        }
    }
}

impl From<u8> for IpProtocol {
    fn from(value: u8) -> (p: IpProtocol) {
        IpProtocol::from_u8(value)
    }
}

impl vstd::std_specs::convert::FromSpecImpl<u8> for IpProtocol {
    open spec fn obeys_from_spec() -> bool {
        true
    }

    open spec fn from_spec(v: u8) -> IpProtocol {
        protocol_of(v)
    }
}

impl From<IpProtocol> for u8 {
    fn from(value: IpProtocol) -> (v: u8) {
        value.to_u8()
    }
}

impl vstd::std_specs::convert::FromSpecImpl<IpProtocol> for u8 {
    open spec fn obeys_from_spec() -> bool {
        true
    }

    open spec fn from_spec(v: IpProtocol) -> u8 {
        protocol_value(v)
    }
}

/// Big-endian 16-bit word `k` of `bytes`, an odd final byte padded with zero.
pub open spec fn word_at(bytes: Seq<u8>, k: int) -> nat {
    (bytes[2 * k] * 256 + if 2 * k + 1 < bytes.len() {
        bytes[2 * k + 1] as int
    } else {
        0
    }) as nat
}

/// Sum of the first `n` 16-bit words.
pub open spec fn words_sum(bytes: Seq<u8>, n: nat) -> nat
    decreases n,
{
    if n == 0 {
        0
    } else {
        words_sum(bytes, (n - 1) as nat) + word_at(bytes, n - 1)
    }
}

/// Repeatedly add the carries above 16 bits back into the low 16 bits.
pub open spec fn fold_carries(x: nat) -> nat
    decreases x,
{
    if x < 0x1_0000 {
        x
    } else {
        proof {
            assert(x % 0x1_0000 + x / 0x1_0000 < x) by (nonlinear_arith)
                requires
                    x >= 0x1_0000,
            ;
        }
        fold_carries(x % 0x1_0000 + x / 0x1_0000)
    }
}

/// The Internet checksum: the complement of the folded 32-bit word sum.
pub open spec fn checksum_spec(bytes: Seq<u8>) -> u16 {
    (0xffff - fold_carries(words_sum(bytes, ((bytes.len() + 1) / 2) as nat) % 0x1_0000_0000)) as u16
}

proof fn lemma_fold_carries(x: nat)
    ensures
        fold_carries(x) < 0x1_0000,
        fold_carries(x) % 0xffff == x % 0xffff,
        x > 0 ==> fold_carries(x) > 0,
    decreases x,
{
    if x >= 0x1_0000 {
        let y = x % 0x1_0000 + x / 0x1_0000;
        assert(y < x && y % 0xffff == x % 0xffff && y > 0) by (nonlinear_arith)
            requires
                x >= 0x1_0000,
                y == x % 0x1_0000 + x / 0x1_0000,
        ;
        lemma_fold_carries(y);
    }
}

/// Compute the standard one's-complement Internet checksum.
pub fn checksum(bytes: &[u8]) -> (c: u16)
    ensures
        c == checksum_spec(bytes@),
{
    let n = bytes.len();
    let words = n / 2 + n % 2;
    let mut sum: u32 = 0;
    let mut k: usize = 0;
    while k < words
        invariant
            n == bytes@.len(),
            words == (n + 1) / 2,
            k <= words,
            sum == words_sum(bytes@, k as nat) % 0x1_0000_0000,
        decreases words - k,
    {
        let high = bytes[2 * k] as u32;
        let low: u32 = if 2 * k + 1 < n {
            bytes[2 * k + 1] as u32
        } else {
            0
        };
        let word = high * 256 + low;
        assert(word == word_at(bytes@, k as int));
        let next = sum.wrapping_add(word);
        assert(next == (words_sum(bytes@, k as nat) + word) % 0x1_0000_0000) by (nonlinear_arith)
            requires
                sum == words_sum(bytes@, k as nat) % 0x1_0000_0000,
                next == (sum + word) % 0x1_0000_0000,
        ;
        sum = next;
        k = k + 1;
    }
    let ghost total = sum as nat;
    while sum >> 16 != 0
        invariant
            fold_carries(sum as nat) == fold_carries(total),
        decreases sum,
    {
        let s = sum;
        assert(s >> 16 == s / 0x1_0000 && s & 0xffff == s % 0x1_0000) by (bit_vector);
        assert(s >> 16 != 0 ==> s >= 0x1_0000) by (bit_vector);
        sum = (sum & 0xffff) + (sum >> 16);
        assert(sum < s) by (nonlinear_arith)
            requires
                s >= 0x1_0000,
                sum == s % 0x1_0000 + s / 0x1_0000,
        ;
    }
    let s = sum;
    assert(s >> 16 == 0 ==> s < 0x1_0000) by (bit_vector);
    assert(s < 0x1_0000 ==> !(s as u16) == (0xffff - s) as u16) by (bit_vector);
    !(sum as u16)
}

/// The 20-byte header of a packet whose header checksum field holds `csum`.
pub open spec fn header_bytes(p: &Ipv4Packet, csum: u16) -> Seq<u8> {
    let total = 20 + p.payload@.len();
    let s = p.source.0;
    let d = p.destination.0;
    seq![
        0x45u8,
        0u8,
        (total / 256) as u8,
        (total % 256) as u8,
        0u8,
        0u8,
        0x40u8,
        0u8,
        p.ttl,
        protocol_value(p.protocol),
        (csum / 256) as u8,
        (csum % 256) as u8,
        (s / 0x100_0000) as u8,
        ((s / 0x1_0000) % 0x100) as u8,
        ((s / 0x100) % 0x100) as u8,
        (s % 0x100) as u8,
        (d / 0x100_0000) as u8,
        ((d / 0x1_0000) % 0x100) as u8,
        ((d / 0x100) % 0x100) as u8,
        (d % 0x100) as u8,
    ]
}

/// Wire bytes of a packet: a checksum-valid header followed by the payload.
pub open spec fn packet_bytes(p: &Ipv4Packet) -> Seq<u8> {
    header_bytes(p, checksum_spec(header_bytes(p, 0))) + p.payload@
}

/// Why wire bytes are rejected, if they are.
pub open spec fn packet_error(bytes: Seq<u8>) -> Option<PacketError> {
    if bytes.len() < 20 {
        Some(PacketError::Truncated)
    } else if bytes[0] != 0x45 || bytes[6] & 0x3f != 0 || bytes[7] != 0 {
        Some(PacketError::UnsupportedHeader)
    } else if be16_at(bytes, 2) < 20 || be16_at(bytes, 2) > bytes.len() {
        Some(PacketError::InvalidLength)
    } else if checksum_spec(bytes.subrange(0, 20)) != 0 {
        Some(PacketError::InvalidChecksum)
    } else if bytes[8] == 0 {
        Some(PacketError::Expired)
    } else {
        None
    }
}

/// The 32-bit big-endian value at `bytes[i..i + 4]`.
pub open spec fn be32_at(bytes: Seq<u8>, i: int) -> u32 {
    octets_value(bytes[i], bytes[i + 1], bytes[i + 2], bytes[i + 3])
}

impl Ipv4Packet {
    /// Encode a checksum-valid 20-byte IPv4 header followed by the payload.
    pub fn encode(&self) -> (r: Result<Vec<u8>, PacketError>)
        ensures
            self.ttl == 0 ==> r == Err::<Vec<u8>, PacketError>(PacketError::Expired),
            self.ttl != 0 && 20 + self.payload@.len() > 0xffff ==> r == Err::<
                Vec<u8>,
                PacketError,
            >(PacketError::InvalidLength),
            self.ttl != 0 && 20 + self.payload@.len() <= 0xffff ==> r is Ok && r->Ok_0@
                == packet_bytes(self),
    {
        if self.ttl == 0 {
            return Err(PacketError::Expired);
        }
        if self.payload.len() > 0xffff - 20 {
            return Err(PacketError::InvalidLength);
        }
        let total = 20 + self.payload.len();
        let s = self.source.octets();
        let d = self.destination.octets();
        let mut header: Vec<u8> = Vec::new();
        header.push(0x45);
        header.push(0);
        header.push((total / 256) as u8);
        header.push((total % 256) as u8);
        header.push(0);
        header.push(0);
        header.push(0x40);
        header.push(0);
        header.push(self.ttl);
        header.push(self.protocol.to_u8());
        header.push(0);
        header.push(0);
        header.push(s[0]);
        header.push(s[1]);
        header.push(s[2]);
        header.push(s[3]);
        header.push(d[0]);
        header.push(d[1]);
        header.push(d[2]);
        header.push(d[3]);
        assert(header@ =~= header_bytes(self, 0));
        let csum = checksum(header.as_slice());
        header.set(10, (csum / 256) as u8);
        header.set(11, (csum % 256) as u8);
        assert(header@ =~= header_bytes(self, csum));
        append_bytes(&mut header, self.payload.as_slice());
        Ok(header)
    }

    /// Decode IPv4 without accepting options or fragments in this phase.
    pub fn decode(bytes: &[u8]) -> (r: Result<Ipv4Packet, PacketError>)
        ensures
            match r {
                Ok(p) => {
                    &&& packet_error(bytes@) is None
                    &&& p.source.0 == be32_at(bytes@, 12)
                    &&& p.destination.0 == be32_at(bytes@, 16)
                    &&& p.ttl == bytes@[8]
                    &&& p.protocol == protocol_of(bytes@[9])
                    &&& p.payload@ == bytes@.subrange(20, be16_at(bytes@, 2) as int)
                },
                Err(e) => packet_error(bytes@) == Some(e),
            },
    {
        if bytes.len() < 20 {
            return Err(PacketError::Truncated);
        }
        if bytes[0] != 0x45 || bytes[6] & 0x3f != 0 || bytes[7] != 0 {
            return Err(PacketError::UnsupportedHeader);
        }
        let total = (bytes[2] as u16) * 256 + (bytes[3] as u16);
        if total < 20 || total as usize > bytes.len() {
            return Err(PacketError::InvalidLength);
        }
        let header = copy_range(bytes, 0, 20);
        if checksum(header.as_slice()) != 0 {
            return Err(PacketError::InvalidChecksum);
        }
        if bytes[8] == 0 {
            return Err(PacketError::Expired);
        }
        Ok(
            Ipv4Packet {
                source: Ipv4Addr::new(bytes[12], bytes[13], bytes[14], bytes[15]),
                destination: Ipv4Addr::new(bytes[16], bytes[17], bytes[18], bytes[19]),
                ttl: bytes[8],
                protocol: IpProtocol::from_u8(bytes[9]),
                payload: copy_range(bytes, 20, total as usize),
            },
        )
    }
}

proof fn lemma_header_words(h0: Seq<u8>, h1: Seq<u8>)
    requires
        h0.len() == 20,
        h1.len() == 20,
        h0[10] == 0,
        h0[11] == 0,
        forall|i: int| 0 <= i < 20 && i != 10 && i != 11 ==> h0[i] == h1[i],
    ensures
        words_sum(h1, 10) == words_sum(h0, 10) + h1[10] * 256 + h1[11],
        words_sum(h0, 10) <= 10 * 0xffff,
{
    reveal_with_fuel(words_sum, 11);
    assert(word_at(h0, 0) == word_at(h1, 0));
    assert(word_at(h0, 1) == word_at(h1, 1));
    assert(word_at(h0, 2) == word_at(h1, 2));
    assert(word_at(h0, 3) == word_at(h1, 3));
    assert(word_at(h0, 4) == word_at(h1, 4));
    assert(word_at(h0, 6) == word_at(h1, 6));
    assert(word_at(h0, 7) == word_at(h1, 7));
    assert(word_at(h0, 8) == word_at(h1, 8));
    assert(word_at(h0, 9) == word_at(h1, 9));
}

proof fn lemma_fold_below(x: nat)
    ensures
        fold_carries(x) <= x,
    decreases x,
{
    if x >= 0x1_0000 {
        let y = x % 0x1_0000 + x / 0x1_0000;
        assert(y < x) by (nonlinear_arith)
            requires
                x >= 0x1_0000,
                y == x % 0x1_0000 + x / 0x1_0000,
        ;
        lemma_fold_below(y);
    }
}

/// Adding the complement of a folded sum to that sum folds to all ones.
proof fn lemma_complement_folds_to_ones(s0: nat)
    ensures
        fold_carries((s0 + (0xffff - fold_carries(s0))) as nat) == 0xffff,
{
    lemma_fold_carries(s0);
    lemma_fold_below(s0);
    let f0 = fold_carries(s0);
    let s1: nat = (s0 + (0xffff - f0)) as nat;
    lemma_fold_carries(s1);
    let f1 = fold_carries(s1);
    let q = s0 - f0;
    assert(q % 0xffff == 0) by (nonlinear_arith)
        requires
            s0 % 0xffff == f0 % 0xffff,
            q == s0 - f0,
            q >= 0,
    ;
    assert(s1 % 0xffff == 0) by (nonlinear_arith)
        requires
            q % 0xffff == 0,
            s1 == q + 0xffff,
    ;
    assert(s1 > 0);
    assert(f1 == 0xffff) by (nonlinear_arith)
        requires
            f1 % 0xffff == 0,
            0 < f1 < 0x1_0000,
    ;
}

/// A header carrying the checksum of its zero-checksum form has checksum zero.
pub proof fn lemma_header_checksum_valid(p: &Ipv4Packet)
    ensures
        checksum_spec(header_bytes(p, checksum_spec(header_bytes(p, 0)))) == 0,
{
    let h0 = header_bytes(p, 0);
    let c = checksum_spec(h0);
    let h1 = header_bytes(p, c);
    assert(h0.len() == 20 && h1.len() == 20);
    assert(h1[10] * 256 + h1[11] == c);
    lemma_header_words(h0, h1);
    let s0 = words_sum(h0, 10);
    assert((h0.len() + 1) / 2 == 10);
    assert(s0 % 0x1_0000_0000 == s0);
    assert(c == 0xffff - fold_carries(s0)) by {
        lemma_fold_carries(s0);
    }
    lemma_complement_folds_to_ones(s0);
    assert(words_sum(h1, 10) % 0x1_0000_0000 == words_sum(h1, 10));
}

/// Words below `n` agree when the bytes that make them agree.
proof fn lemma_words_prefix(a: Seq<u8>, b: Seq<u8>, n: nat)
    requires
        2 * n <= a.len(),
        2 * n <= b.len(),
        forall|i: int| 0 <= i < 2 * n ==> a[i] == b[i],
    ensures
        words_sum(a, n) == words_sum(b, n),
    decreases n,
{
    if n > 0 {
        lemma_words_prefix(a, b, (n - 1) as nat);
        assert(word_at(a, n - 1) == word_at(b, n - 1));
    }
}

/// Each word is at most 0xffff, so `n` of them sum to at most `n * 0xffff`.
proof fn lemma_words_bound(a: Seq<u8>, n: nat)
    requires
        2 * n <= a.len() + 1,
    ensures
        words_sum(a, n) <= n * 0xffff,
    decreases n,
{
    if n > 0 {
        lemma_words_bound(a, (n - 1) as nat);
        let k = n - 1;
        assert(a[2 * k] <= 255);
        assert(word_at(a, k) <= 0xffff);
    }
}

/// Data of even length, with its checksum appended most significant byte first, has
/// checksum zero (for data short enough that the word sum cannot wrap).
pub proof fn lemma_appended_checksum_verifies(data: Seq<u8>)
    requires
        data.len() % 2 == 0,
        data.len() < 131072,
    ensures
        checksum_spec(data + seq![(checksum_spec(data) / 256) as u8, (checksum_spec(data) % 256) as u8]) == 0,
{
    let c = checksum_spec(data);
    let d2 = data + seq![(c / 256) as u8, (c % 256) as u8];
    let n: nat = (data.len() / 2) as nat;
    assert((data.len() + 1) / 2 == n);
    assert((d2.len() + 1) / 2 == n + 1);
    lemma_words_prefix(data, d2, n);
    lemma_words_bound(data, n);
    let s0 = words_sum(data, n);
    assert(s0 <= 65535 * 0xffff) by (nonlinear_arith)
        requires
            s0 <= n * 0xffff,
            n <= 65535,
    ;
    assert(s0 % 0x1_0000_0000 == s0);
    lemma_fold_carries(s0);
    assert(c == 0xffff - fold_carries(s0));
    assert(d2[2 * n as int] == (c / 256) as u8);
    assert(d2[2 * n as int + 1] == (c % 256) as u8);
    assert(word_at(d2, n as int) == c);
    assert(words_sum(d2, n + 1) == s0 + c);
    assert(words_sum(d2, n + 1) % 0x1_0000_0000 == words_sum(d2, n + 1));
    lemma_complement_folds_to_ones(s0);
}

/// Decoding the encoding of a packet yields the packet again, when its TTL is nonzero,
/// its length fits the 16-bit total-length field and its protocol number is canonical.
pub proof fn lemma_packet_round_trip(p: &Ipv4Packet)
    requires
        p.ttl != 0,
        20 + p.payload@.len() <= 0xffff,
        protocol_of(protocol_value(p.protocol)) == p.protocol,
    ensures
        packet_error(packet_bytes(p)) is None,
        be32_at(packet_bytes(p), 12) == p.source.0,
        be32_at(packet_bytes(p), 16) == p.destination.0,
        packet_bytes(p)[8] == p.ttl,
        protocol_of(packet_bytes(p)[9]) == p.protocol,
        packet_bytes(p).subrange(20, be16_at(packet_bytes(p), 2) as int) == p.payload@,
{
    let b = packet_bytes(p);
    let h = header_bytes(p, checksum_spec(header_bytes(p, 0)));
    lemma_header_checksum_valid(p);
    assert(b.subrange(0, 20) =~= h);
    assert(b[6] & 0x3f == 0) by {
        assert(b[6] == 0x40u8);
        assert(0x40u8 & 0x3fu8 == 0u8) by (bit_vector);
    }
    assert(be16_at(b, 2) == 20 + p.payload@.len());
    let s = p.source.0;
    let d = p.destination.0;
    assert(octets_value((s / 0x100_0000) as u8, ((s / 0x1_0000) % 0x100) as u8, ((s / 0x100)
        % 0x100) as u8, (s % 0x100) as u8) == s);
    assert(octets_value((d / 0x100_0000) as u8, ((d / 0x1_0000) % 0x100) as u8, ((d / 0x100)
        % 0x100) as u8, (d % 0x100) as u8) == d);
    assert(b.subrange(20, 20 + p.payload@.len() as int) =~= p.payload@);
}

} // verus!
