//! Ethernet addressing: six-octet MAC addresses and IEEE 802.1Q VLAN identifiers.
use crate::text::{ascii_bytes, hex_byte_value, hex_char, hex_digit, hex_value, is_hex_byte, string_from_chars};
use vstd::string::StringSliceAdditionalSpecFns;
use vstd::prelude::*;

verus! {

/// A six-octet Ethernet address.
#[derive(Debug, Clone, Copy, PartialEq, Eq, PartialOrd, Ord, Hash)]
pub struct MacAddress(pub [u8; 6]);

/// Malformed Ethernet address.
#[derive(Debug, Clone, Copy, PartialEq, Eq)]
pub struct InvalidMacAddress;

/// VLAN identifier outside the usable IEEE 802.1Q range.
#[derive(Debug, Clone, Copy, PartialEq, Eq)]
pub struct InvalidVlanId;

/// Whether `bytes` spell six colon-separated two-digit hexadecimal octets.
pub open spec fn mac_text_valid(bytes: Seq<u8>) -> bool {
    &&& bytes.len() == 17
    &&& forall|i: int|
        0 <= i < 17 ==> if i % 3 == 2 {
            bytes[i] == 58
        } else {
            is_hex_byte(#[trigger] bytes[i])
        }
}

/// Octet `k` of a valid textual MAC address.
pub open spec fn mac_text_octet(bytes: Seq<u8>, k: int) -> u8 {
    (hex_byte_value(bytes[3 * k]) * 16 + hex_byte_value(bytes[3 * k + 1])) as u8
}

/// Canonical text of an address: lower-case `xx:xx:xx:xx:xx:xx`.
pub open spec fn mac_text(octets: Seq<u8>) -> Seq<char> {
    Seq::new(
        17,
        |i: int|
            if i % 3 == 2 {
                ':'
            } else if i % 3 == 0 {
                hex_char(octets[i / 3] / 16)
            } else {
                hex_char(octets[i / 3] % 16)
            },
    )
}

impl MacAddress {
    /// Ethernet broadcast destination.
    pub fn broadcast() -> (m: MacAddress)
        ensures
            forall|i: int| 0 <= i < 6 ==> #[trigger] m.0@[i] == 255,
    {
        MacAddress([255u8; 6])
    }

    /// Whether the address selects a multicast group (including broadcast).
    pub fn is_multicast(self) -> (r: bool)
        ensures
            r == (self.0@[0] % 2 == 1),
    {
        let first = self.0[0];
        assert(first & 1 == first % 2) by (bit_vector);
        first & 1 != 0
    }

    /// Parse six colon-separated hexadecimal octets.
    pub fn parse(s: &str) -> (r: Result<MacAddress, InvalidMacAddress>)
        ensures
            r is Ok <==> mac_text_valid(s.spec_bytes()),
            r matches Ok(m) ==> forall|k: int|
                0 <= k < 6 ==> #[trigger] m.0@[k] == mac_text_octet(s.spec_bytes(), k),
    {
        let bytes = s.as_bytes();
        if bytes.len() != 17 {
            return Err(InvalidMacAddress);
        }
        let mut out = [0u8; 6];
        let mut k: usize = 0;
        while k < 6
            invariant
                bytes@ == s.spec_bytes(),
                bytes@.len() == 17,
                k <= 6,
                forall|i: int| 0 <= i < 3 * k && i < 17 ==> if i % 3 == 2 {
                    bytes@[i] == 58
                } else {
                    is_hex_byte(#[trigger] bytes@[i])
                },
                forall|j: int| 0 <= j < k ==> #[trigger] out@[j] == mac_text_octet(bytes@, j),
            decreases 6 - k,
        {
            let high = hex_value(bytes[3 * k]);
            let low = hex_value(bytes[3 * k + 1]);
            let (h, l) = match (high, low) {
                (Some(h), Some(l)) => (h, l),
                _ => {
                    assert(!mac_text_valid(bytes@)) by {
                        if !is_hex_byte(bytes@[3 * k as int]) {
                            assert((3 * k as int) % 3 == 0);
                        } else {
                            assert((3 * k as int + 1) % 3 == 1);
                        }
                    }
                    return Err(InvalidMacAddress);
                },
            };
            if k < 5 && bytes[3 * k + 2] != 58 {
                assert(!mac_text_valid(bytes@)) by {
                    assert((3 * k as int + 2) % 3 == 2);
                }
                return Err(InvalidMacAddress);
            }
            out[k] = h * 16 + l;
            assert forall|i: int| 0 <= i < 3 * (k + 1) && i < 17 implies if i % 3 == 2 {
                bytes@[i] == 58
            } else {
                is_hex_byte(#[trigger] bytes@[i])
            } by {
                if i >= 3 * k {
                    assert(i == 3 * k || i == 3 * k + 1 || i == 3 * k + 2);
                }
            }
            k = k + 1;
        }
        Ok(MacAddress(out))
    }

    /// Lower-case colon-separated text of the address.
    pub fn to_string(&self) -> (s: String)
        ensures
            s@ == mac_text(self.0@),
    {
        let mut chars: Vec<char> = Vec::new();
        let mut k: usize = 0;
        while k < 6
            invariant
                k <= 6,
                chars@.len() == if k == 0 { 0 } else { 3 * k - 1 },
                forall|i: int| 0 <= i < chars@.len() ==> #[trigger] chars@[i] == mac_text(self.0@)[i],
            decreases 6 - k,
        {
            let octet = self.0[k];
            if k > 0 {
                chars.push(':');
            }
            chars.push(hex_digit(octet / 16));
            chars.push(hex_digit(octet % 16));
            k = k + 1;
        }
        assert(chars@ =~= mac_text(self.0@));
        string_from_chars(&chars)
    }
}

impl std::str::FromStr for MacAddress {
    type Err = InvalidMacAddress;

    fn from_str(s: &str) -> (r: Result<MacAddress, InvalidMacAddress>)
        ensures
            r is Ok <==> mac_text_valid(s.spec_bytes()),
            r matches Ok(m) ==> forall|k: int|
                0 <= k < 6 ==> #[trigger] m.0@[k] == mac_text_octet(s.spec_bytes(), k),
    {
        MacAddress::parse(s)
    }
}

/// The text of every address parses back to the same address.
pub proof fn lemma_mac_text_round_trip(m: MacAddress)
    ensures
        mac_text_valid(ascii_bytes(mac_text(m.0@))),
        forall|k: int|
            0 <= k < 6 ==> #[trigger] mac_text_octet(ascii_bytes(mac_text(m.0@)), k) == m.0@[k],
{
    let b = ascii_bytes(mac_text(m.0@));
    assert forall|i: int| 0 <= i < 17 implies if i % 3 == 2 {
        b[i] == 58
    } else {
        is_hex_byte(#[trigger] b[i])
    } by {
        let o = m.0@[i / 3];
        assert(o / 16 < 16 && o % 16 < 16);
    }
    assert forall|k: int| 0 <= k < 6 implies #[trigger] mac_text_octet(b, k) == m.0@[k] by {
        assert((3 * k) % 3 == 0 && (3 * k) / 3 == k);
        assert((3 * k + 1) % 3 == 1 && (3 * k + 1) / 3 == k);
        let o = m.0@[k];
        assert(o == (o / 16) * 16 + o % 16);
    }
}

/// Valid IEEE 802.1Q VLAN identifier (1-4094).
#[derive(Debug, Clone, Copy, PartialEq, Eq, PartialOrd, Ord, Hash)]
pub struct VlanId(u16);

impl View for VlanId {
    type V = u16;

    closed spec fn view(&self) -> u16 {
        self.0
    }
}

impl VlanId {
    #[verifier::type_invariant]
    spec fn in_range(self) -> bool {
        1 <= self.0 <= 4094
    }

    /// Validate and construct a VLAN identifier.
    pub fn new(value: u16) -> (r: Result<VlanId, InvalidVlanId>)
        ensures
            r is Ok <==> 1 <= value <= 4094,
            r matches Ok(v) ==> v@ == value,
    {
        if 1 <= value && value <= 4094 {
            Ok(VlanId(value))
        } else {
            Err(InvalidVlanId)
        }
    }

    /// Numeric VLAN identifier.
    pub fn get(self) -> (r: u16)
        ensures
            r == self@,
            1 <= r <= 4094,
    {
        proof {
            use_type_invariant(&self);
        }
        self.0
    }
}

} // verus!
