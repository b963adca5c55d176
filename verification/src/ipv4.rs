//! IPv4 addresses, validated interface addressing and normalized network prefixes.
use vstd::prelude::*;
use vstd::std_specs::bits::{axiom_u32_leading_ones, u32_leading_ones};

verus! {

/// A 32-bit IPv4 address, most significant octet first.
#[derive(Debug, Clone, Copy, PartialEq, Eq, PartialOrd, Ord, Hash, Structural)]
pub struct Ipv4Addr(pub u32);

/// The address value of four dotted-decimal octets.
pub open spec fn octets_value(a: u8, b: u8, c: u8, d: u8) -> u32 {
    (a * 0x100_0000 + b * 0x1_0000 + c * 0x100 + d) as u32
}

impl Ipv4Addr {
    /// Address from four dotted-decimal octets.
    pub fn new(a: u8, b: u8, c: u8, d: u8) -> (r: Ipv4Addr)
        ensures
            r.0 == octets_value(a, b, c, d),
    {
        Ipv4Addr((a as u32) * 0x100_0000 + (b as u32) * 0x1_0000 + (c as u32) * 0x100 + (d as u32))
    }

    /// The four octets, most significant first.
    pub fn octets(self) -> (r: [u8; 4])
        ensures
            r@[0] == self.0 / 0x100_0000,
            r@[1] == (self.0 / 0x1_0000) % 0x100,
            r@[2] == (self.0 / 0x100) % 0x100,
            r@[3] == self.0 % 0x100,
            octets_value(r@[0], r@[1], r@[2], r@[3]) == self.0,
    {
        let v = self.0;
        [(v / 0x100_0000) as u8, ((v / 0x1_0000) % 0x100) as u8, ((v / 0x100) % 0x100) as u8, (v
            % 0x100) as u8]
    }

    /// Address of a 32-bit value.
    pub fn from_bits(bits: u32) -> (r: Ipv4Addr)
        ensures
            r.0 == bits,
    {
        Ipv4Addr(bits)
    }

    /// 32-bit value of the address.
    pub fn to_bits(self) -> (r: u32)
        ensures
            r == self.0,
    {
        self.0
    }

    /// The loopback address 127.0.0.1.
    pub fn localhost() -> (r: Ipv4Addr)
        ensures
            r.0 == 0x7f00_0001,
    {
        Ipv4Addr(0x7f00_0001)
    }

    /// Whether this is 0.0.0.0.
    pub fn is_unspecified(self) -> (r: bool)
        ensures
            r == (self.0 == 0),
    {
        self.0 == 0
    }

    /// Whether this lies in 224.0.0.0/4.
    pub fn is_multicast(self) -> (r: bool)
        ensures
            r == (0xe000_0000 <= self.0 <= 0xefff_ffff),
    {
        0xe000_0000 <= self.0 && self.0 <= 0xefff_ffff
    }

    /// Whether this is the limited broadcast address 255.255.255.255.
    pub fn is_broadcast(self) -> (r: bool)
        ensures
            r == (self.0 == 0xffff_ffff),
    {
        self.0 == 0xffff_ffff
    }
}

/// Invalid prefix or noncontiguous dotted mask.
#[derive(Debug, Clone, Copy, PartialEq, Eq, Structural)]
pub enum AddressError {
    InvalidPrefix,
    InvalidMask,
}

/// The contiguous mask of a prefix length: `prefix_len` leading one bits.
pub open spec fn mask_bits(prefix_len: u8) -> u32 {
    if prefix_len == 0 {
        0
    } else {
        0xffff_ffffu32 << ((32 - prefix_len) as u32)
    }
}

/// Whether a 32-bit mask consists of leading ones followed by zeros.
pub open spec fn contiguous_mask(mask: u32) -> bool {
    exists|p: u8| p <= 32 && #[trigger] mask_bits(p) == mask
}

pub(crate) fn mask_of(prefix_len: u8) -> (m: u32)
    requires
        prefix_len <= 32,
    ensures
        m == mask_bits(prefix_len),
{
    if prefix_len == 0 {
        0
    } else {
        u32::MAX << (32 - prefix_len)
    }
}

proof fn lemma_leading_ones_of_mask(p: u8)
    requires
        p <= 32,
    ensures
        u32_leading_ones(mask_bits(p)) == p,
{
    let m = mask_bits(p);
    axiom_u32_leading_ones(m);
    let lo = u32_leading_ones(m);
    let pp = p as u32;
    if lo < pp {
        assert(0 < pp <= 32 && lo < pp ==> ((0xffff_ffffu32 << ((32 - pp) as u32)) >> ((31 - lo)
            as u32)) & 1u32 == 1u32) by (bit_vector);
        assert(m == 0xffff_ffffu32 << ((32 - pp) as u32));
    } else if lo > pp {
        if pp == 0 {
            assert((0u32 >> 31u32) & 1u32 == 0u32) by (bit_vector);
            assert(32 - lo <= 31 < 32);
        } else {
            assert(0 < pp < 32 ==> ((0xffff_ffffu32 << ((32 - pp) as u32)) >> ((31 - pp)
                as u32)) & 1u32 == 0u32) by (bit_vector);
            assert(m == 0xffff_ffffu32 << ((32 - pp) as u32));
            assert(32 - lo <= ((31 - pp) as u32) < 32);
        }
    }
}

/// Distinct prefix lengths have distinct masks.
pub proof fn lemma_mask_injective(p: u8, q: u8)
    requires
        p <= 32,
        q <= 32,
        mask_bits(p) == mask_bits(q),
    ensures
        p == q,
{
    lemma_leading_ones_of_mask(p);
    lemma_leading_ones_of_mask(q);
}

/// IPv4 address and a contiguous network prefix.
#[derive(Debug, Clone, Copy, PartialEq, Eq)]
pub struct Ipv4InterfaceConfig {
    address: Ipv4Addr,
    prefix_len: u8,
}

impl View for Ipv4InterfaceConfig {
    type V = (u32, u8);

    closed spec fn view(&self) -> (u32, u8) {
        (self.address.0, self.prefix_len)
    }
}

impl Ipv4InterfaceConfig {
    #[verifier::type_invariant]
    spec fn prefix_in_range(self) -> bool {
        self.prefix_len <= 32
    }

    /// Validate a prefix length before constructing an address.
    pub fn new(address: Ipv4Addr, prefix_len: u8) -> (r: Result<Ipv4InterfaceConfig, AddressError>)
        ensures
            r is Ok <==> prefix_len <= 32,
            r matches Ok(c) ==> c@ == (address.0, prefix_len),
            r matches Err(e) ==> e == AddressError::InvalidPrefix,
    {
        if prefix_len > 32 {
            return Err(AddressError::InvalidPrefix);
        }
        Ok(Ipv4InterfaceConfig { address, prefix_len })
    }

    /// Validate and convert a dotted decimal subnet mask.
    pub fn from_mask(address: Ipv4Addr, mask: Ipv4Addr) -> (r: Result<
        Ipv4InterfaceConfig,
        AddressError,
    >)
        ensures
            r is Ok <==> contiguous_mask(mask.0),
            r matches Ok(c) ==> c@.0 == address.0 && c@.1 <= 32 && mask_bits(c@.1) == mask.0,
            r matches Err(e) ==> e == AddressError::InvalidMask,
    {
        let bits = mask.to_bits();
        let len = bits.leading_ones() as u8;
        proof {
            axiom_u32_leading_ones(bits);
        }
        let result = match Self::new(address, len) {
            Ok(c) => c,
            Err(e) => return Err(e),
        };
        if result.mask().0 != mask.0 {
            proof {
                if contiguous_mask(mask.0) {
                    let p = choose|p: u8| p <= 32 && #[trigger] mask_bits(p) == mask.0;
                    lemma_leading_ones_of_mask(p);
                }
            }
            return Err(AddressError::InvalidMask);
        }
        Ok(result)
    }

    /// Configured host address.
    pub fn address(self) -> (r: Ipv4Addr)
        ensures
            r.0 == self@.0,
    {
        self.address
    }

    /// Network prefix length.
    pub fn prefix_len(self) -> (r: u8)
        ensures
            r == self@.1,
            r <= 32,
    {
        proof {
            use_type_invariant(&self);
        }
        self.prefix_len
    }

    /// Dotted decimal mask.
    pub fn mask(self) -> (r: Ipv4Addr)
        ensures
            r.0 == mask_bits(self@.1),
    {
        proof {
            use_type_invariant(&self);
        }
        Ipv4Addr(mask_of(self.prefix_len))
    }
}

/// The mask of a prefix length is contiguous and determines the prefix length: converting
/// an interface configuration to its dotted mask and back with `from_mask` gives the same
/// configuration.
pub proof fn lemma_mask_round_trip(prefix_len: u8)
    requires
        prefix_len <= 32,
    ensures
        contiguous_mask(mask_bits(prefix_len)),
        forall|q: u8| q <= 32 && mask_bits(q) == mask_bits(prefix_len) ==> q == prefix_len,
{
    assert(mask_bits(prefix_len) == mask_bits(prefix_len));
    assert forall|q: u8| q <= 32 && mask_bits(q) == mask_bits(prefix_len) implies q
        == prefix_len by {
        lemma_mask_injective(q, prefix_len);
    }
}

/// IPv4 prefix normalized to its network address.
#[derive(Debug, Clone, Copy, PartialEq, Eq, PartialOrd, Ord)]
pub struct Ipv4Network {
    address: Ipv4Addr,
    prefix_len: u8,
}

impl View for Ipv4Network {
    type V = (u32, u8);

    closed spec fn view(&self) -> (u32, u8) {
        (self.address.0, self.prefix_len)
    }
}

/// Whether an address lies inside the prefix `network/prefix_len`.
pub open spec fn in_prefix(network: (u32, u8), address: u32) -> bool {
    address & mask_bits(network.1) == network.0
}

impl Ipv4Network {
    #[verifier::type_invariant]
    spec fn normalized(self) -> bool {
        &&& self.prefix_len <= 32
        &&& self.address.0 & mask_bits(self.prefix_len) == self.address.0
    }

    /// Normalize an address to the requested prefix.
    pub fn new(address: Ipv4Addr, prefix_len: u8) -> (r: Result<Ipv4Network, AddressError>)
        ensures
            r is Ok <==> prefix_len <= 32,
            r matches Ok(n) ==> n@ == (address.0 & mask_bits(prefix_len), prefix_len),
            r matches Err(e) ==> e == AddressError::InvalidPrefix,
    {
        if prefix_len > 32 {
            return Err(AddressError::InvalidPrefix);
        }
        let mask = mask_of(prefix_len);
        let raw = address.0;
        let bits = raw & mask;
        assert(bits & mask == bits) by (bit_vector)
            requires
                bits == raw & mask,
        ;
        Ok(Ipv4Network { address: Ipv4Addr(bits), prefix_len })
    }

    /// Network address with host bits cleared.
    pub fn address(self) -> (r: Ipv4Addr)
        ensures
            r.0 == self@.0,
            r.0 & mask_bits(self@.1) == r.0,
    {
        proof {
            use_type_invariant(&self);
        }
        self.address
    }

    /// Prefix width in bits.
    pub fn prefix_len(self) -> (r: u8)
        ensures
            r == self@.1,
            r <= 32,
    {
        proof {
            use_type_invariant(&self);
        }
        self.prefix_len
    }

    /// Dotted-decimal subnet mask.
    pub fn mask(self) -> (r: Ipv4Addr)
        ensures
            r.0 == mask_bits(self@.1),
    {
        proof {
            use_type_invariant(&self);
        }
        Ipv4Addr(mask_of(self.prefix_len))
    }

    /// Last address in the prefix.
    pub fn broadcast(self) -> (r: Ipv4Addr)
        ensures
            r.0 == self@.0 | !mask_bits(self@.1),
    {
        Ipv4Addr(self.address.0 | !self.mask().0)
    }

    /// Whether an address belongs to this prefix.
    pub fn contains(self, address: Ipv4Addr) -> (r: bool)
        ensures
            r == in_prefix(self@, address.0),
    {
        proof {
            use_type_invariant(&self);
        }
        let mask = mask_of(self.prefix_len);
        address.0 & mask == self.address.0
    }
}

/// A network is determined by its address and prefix length.
pub proof fn lemma_network_view_injective(a: Ipv4Network, b: Ipv4Network)
    requires
        a@ == b@,
    ensures
        a == b,
{
}

/// A prefix contains its own network address and its broadcast address.
pub proof fn lemma_prefix_contains_bounds(network: u32, prefix_len: u8)
    requires
        prefix_len <= 32,
        network & mask_bits(prefix_len) == network,
    ensures
        in_prefix((network, prefix_len), network),
        in_prefix((network, prefix_len), network | !mask_bits(prefix_len)),
{
    let m = mask_bits(prefix_len);
    assert((network & m == network) ==> ((network | !m) & m == network)) by (bit_vector);
}

} // verus!
