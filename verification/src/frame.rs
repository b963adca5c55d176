//! Ethernet II and IEEE 802.3 frame envelopes with single 802.1Q tags.
use crate::mac::{MacAddress, VlanId};
use crate::text::{append_bytes, copy_range};
use vstd::prelude::*;

verus! {

/// Ethernet II payload identifiers, including opaque protocols not yet implemented.
#[derive(Debug, Clone, Copy, PartialEq, Eq, Structural)]
pub enum EtherType {
    Ipv4,
    Ipv6,
    Arp,
    Dot1Q,
    Other(u16),
    /// IEEE 802.3 payload length, including LLC bytes.
    Length(u16),
}

/// Malformed Ethernet II envelope.
#[derive(Debug, Clone, Copy, PartialEq, Eq, Structural)]
pub enum FrameError {
    Truncated,
    LengthField,
    InvalidVlanTag,
}

/// A logical Ethernet II or IEEE 802.3 LLC frame. Payload ownership moves through virtual links.
/// Preamble, padding, inter-frame gap, and FCS are not simulated.
#[derive(Debug, Clone, PartialEq, Eq)]
pub struct EthernetFrame {
    pub destination: MacAddress,
    pub source: MacAddress,
    pub ethertype: EtherType,
    pub payload: Vec<u8>,
}

/// The EtherType that a 16-bit type/length field denotes.
pub open spec fn ethertype_of(value: u16) -> EtherType {
    if value == 0x0800 {
        EtherType::Ipv4
    } else if value == 0x86dd {
        EtherType::Ipv6
    } else if value == 0x0806 {
        EtherType::Arp
    } else if value == 0x8100 {
        EtherType::Dot1Q
    } else if 3 <= value <= 1500 {
        EtherType::Length(value)
    } else {
        EtherType::Other(value)
    }
}

/// The 16-bit type/length field that encodes an EtherType.
pub open spec fn ethertype_value(e: EtherType) -> u16 {
    match e {
        EtherType::Ipv4 => 0x0800,
        EtherType::Ipv6 => 0x86dd,
        EtherType::Arp => 0x0806,
        EtherType::Dot1Q => 0x8100,
        EtherType::Other(v) => v,
        EtherType::Length(v) => v,
    }
}

/// Whether an EtherType is the one its own field value decodes to.
pub open spec fn ethertype_canonical(e: EtherType) -> bool {
    ethertype_of(ethertype_value(e)) == e
}

/// Big-endian bytes of a 16-bit field.
pub open spec fn be16(v: u16) -> Seq<u8> {
    seq![(v / 256) as u8, (v % 256) as u8]
}

/// The 16-bit big-endian value at `bytes[i..i + 2]`.
pub open spec fn be16_at(bytes: Seq<u8>, i: int) -> u16 {
    (bytes[i] * 256 + bytes[i + 1]) as u16
}

/// A type or an exact IEEE 802.3 payload length.
pub open spec fn frame_valid(f: &EthernetFrame) -> bool {
    match f.ethertype {
        EtherType::Length(length) => 3 <= length <= 1500 && length == f.payload@.len(),
        _ => ethertype_value(f.ethertype) >= 1536,
    }
}

/// Wire bytes of a frame: destination, source, type/length, payload.
pub open spec fn frame_bytes(f: &EthernetFrame) -> Seq<u8> {
    f.destination.0@ + f.source.0@ + be16(ethertype_value(f.ethertype)) + f.payload@
}

/// The payload that decoding wire bytes yields, or the reason they are rejected.
pub open spec fn decoded_payload(bytes: Seq<u8>) -> Result<Seq<u8>, FrameError> {
    if bytes.len() < 14 {
        Err(FrameError::Truncated)
    } else {
        let e = be16_at(bytes, 12);
        if 3 <= e <= 1500 {
            if 14 + e > bytes.len() {
                Err(FrameError::Truncated)
            } else {
                Ok(bytes.subrange(14, 14 + e))
            }
        } else if e <= 1535 {
            Err(FrameError::LengthField)
        } else {
            Ok(bytes.subrange(14, bytes.len() as int))
        }
    }
}

/// The payload of a frame wrapped in one 802.1Q tag.
pub open spec fn tagged_payload(f: &EthernetFrame, vlan: u16) -> Seq<u8> {
    be16(vlan) + be16(ethertype_value(f.ethertype)) + f.payload@
}

/// The VLAN and inner frame fields that removing a tag from a frame with this type and
/// payload yields, or the rejection.
pub open spec fn untag_fields(ethertype: EtherType, p: Seq<u8>) -> Result<
    (u16, EtherType, Seq<u8>),
    FrameError,
> {
    if ethertype != EtherType::Dot1Q || p.len() < 4 {
        Err(FrameError::InvalidVlanTag)
    } else {
        let vlan = be16_at(p, 0) % 4096;
        let inner = be16_at(p, 2);
        if vlan < 1 || vlan > 4094 {
            Err(FrameError::InvalidVlanTag)
        } else if (inner < 0x0600 && (!(3 <= inner <= 1500) || inner != p.len() - 4)) || inner
            == 0x8100 {
            Err(FrameError::InvalidVlanTag)
        } else {
            Ok((vlan as u16, ethertype_of(inner), p.subrange(4, p.len() as int)))
        }
    }
}

impl EtherType {
    /// Classify a 16-bit type/length field.
    pub fn from_u16(value: u16) -> (e: EtherType)
        ensures
            e == ethertype_of(value),
    {
        match value {
            0x0800 => EtherType::Ipv4,
            0x86dd => EtherType::Ipv6,
            0x0806 => EtherType::Arp,
            0x8100 => EtherType::Dot1Q,
            3..=1500 => EtherType::Length(value),
            v => EtherType::Other(v),
        }
    }

    /// The 16-bit type/length field for this EtherType.
    pub fn to_u16(self) -> (v: u16)
        ensures
            v == ethertype_value(self),
    {
        match self {
            EtherType::Ipv4 => 0x0800,
            EtherType::Ipv6 => 0x86dd,
            EtherType::Arp => 0x0806,
            EtherType::Dot1Q => 0x8100,
            EtherType::Other(v) => v,
            EtherType::Length(v) => v,
        }
    }
}

impl From<u16> for EtherType {
    fn from(value: u16) -> (e: EtherType) {
        EtherType::from_u16(value)
    }
}

impl vstd::std_specs::convert::FromSpecImpl<u16> for EtherType {
    open spec fn obeys_from_spec() -> bool {
        true
    }

    open spec fn from_spec(v: u16) -> EtherType {
        ethertype_of(v)
    }
}

impl From<EtherType> for u16 {
    fn from(value: EtherType) -> (v: u16) {
        value.to_u16()
    }
}

impl vstd::std_specs::convert::FromSpecImpl<EtherType> for u16 {
    open spec fn obeys_from_spec() -> bool {
        true
    }

    open spec fn from_spec(v: EtherType) -> u16 {
        ethertype_value(v)
    }
}

fn be16_bytes(v: u16) -> (r: [u8; 2])
    ensures
        r@ == be16(v),
{
    let r = [(v / 256) as u8, (v % 256) as u8];
    assert(r@ =~= be16(v));
    r
}

fn read_be16(bytes: &[u8], i: usize) -> (v: u16)
    requires
        i + 2 <= bytes@.len(),
    ensures
        v == be16_at(bytes@, i as int),
{
    (bytes[i] as u16) * 256 + (bytes[i + 1] as u16)
}

impl EthernetFrame {
    /// Validate the Ethernet II type or an exact IEEE 802.3 payload length.
    pub fn valid_length_or_type(&self) -> (r: bool)
        ensures
            r == frame_valid(self),
    {
        match self.ethertype {
            EtherType::Length(length) => 3 <= length && length <= 1500 && (length as usize)
                == self.payload.len(),
            _ => self.ethertype.to_u16() >= 1536,
        }
    }

    /// Logical byte count used by counters (14-byte header plus payload, no FCS).
    pub fn len(&self) -> (n: usize)
        requires
            self.payload@.len() + 14 <= usize::MAX,
        ensures
            n == 14 + self.payload@.len(),
    {
        14 + self.payload.len()
    }

    /// Ethernet frames always contain a header.
    pub fn is_empty(&self) -> (r: bool)
        ensures
            !r,
    {
        false
    }

    /// Encode an Ethernet II envelope without padding or FCS.
    pub fn encode(&self) -> (r: Result<Vec<u8>, FrameError>)
        ensures
            !frame_valid(self) ==> r == Err::<Vec<u8>, FrameError>(FrameError::LengthField),
            frame_valid(self) ==> r is Ok && r->Ok_0@ == frame_bytes(self),
    {
        let ether = self.ethertype.to_u16();
        if !self.valid_length_or_type() {
            return Err(FrameError::LengthField);
        }
        let mut out: Vec<u8> = Vec::new();
        append_bytes(&mut out, &self.destination.0);
        append_bytes(&mut out, &self.source.0);
        append_bytes(&mut out, &be16_bytes(ether));
        append_bytes(&mut out, self.payload.as_slice());
        Ok(out)
    }

    /// Decode an Ethernet II envelope, retaining its payload bytes verbatim.
    pub fn decode(bytes: &[u8]) -> (r: Result<EthernetFrame, FrameError>)
        ensures
            match r {
                Ok(f) => {
                    &&& decoded_payload(bytes@) == Ok::<Seq<u8>, FrameError>(f.payload@)
                    &&& f.destination.0@ == bytes@.subrange(0, 6)
                    &&& f.source.0@ == bytes@.subrange(6, 12)
                    &&& f.ethertype == ethertype_of(be16_at(bytes@, 12))
                },
                Err(e) => decoded_payload(bytes@) == Err::<Seq<u8>, FrameError>(e),
            },
    {
        if bytes.len() < 14 {
            return Err(FrameError::Truncated);
        }
        let ether = read_be16(bytes, 12);
        let payload = if 3 <= ether && ether <= 1500 {
            if 14 + (ether as usize) > bytes.len() {
                return Err(FrameError::Truncated);
            }
            copy_range(bytes, 14, 14 + ether as usize)
        } else if ether <= 1535 {
            return Err(FrameError::LengthField);
        } else {
            copy_range(bytes, 14, bytes.len())
        };
        let destination = [bytes[0], bytes[1], bytes[2], bytes[3], bytes[4], bytes[5]];
        let source = [bytes[6], bytes[7], bytes[8], bytes[9], bytes[10], bytes[11]];
        assert(destination@ =~= bytes@.subrange(0, 6));
        assert(source@ =~= bytes@.subrange(6, 12));
        Ok(
            EthernetFrame {
                destination: MacAddress(destination),
                source: MacAddress(source),
                ethertype: EtherType::from_u16(ether),
                payload,
            },
        )
    }

    /// Wrap a frame payload in a single 802.1Q tag with priority zero.
    pub fn tagged(self, vlan: VlanId) -> (t: EthernetFrame)
        ensures
            t.destination == self.destination,
            t.source == self.source,
            t.ethertype == EtherType::Dot1Q,
            t.payload@ == tagged_payload(&self, vlan@),
    {
        let mut payload: Vec<u8> = Vec::new();
        append_bytes(&mut payload, &be16_bytes(vlan.get()));
        append_bytes(&mut payload, &be16_bytes(self.ethertype.to_u16()));
        append_bytes(&mut payload, self.payload.as_slice());
        EthernetFrame {
            destination: self.destination,
            source: self.source,
            ethertype: EtherType::Dot1Q,
            payload,
        }
    }

    /// Remove one 802.1Q tag and return its VLAN and inner Ethernet frame.
    pub fn untagged(&self) -> (r: Result<(VlanId, EthernetFrame), FrameError>)
        ensures
            match r {
                Ok((vlan, inner)) => {
                    &&& untag_fields(self.ethertype, self.payload@) == Ok::<(u16, EtherType, Seq<u8>), FrameError>(
                        (vlan@, inner.ethertype, inner.payload@),
                    )
                    &&& inner.destination == self.destination
                    &&& inner.source == self.source
                },
                Err(e) => untag_fields(self.ethertype, self.payload@) == Err::<(u16, EtherType, Seq<u8>), FrameError>(e),
            },
    {
        if !matches!(self.ethertype, EtherType::Dot1Q) || self.payload.len() < 4 {
            return Err(FrameError::InvalidVlanTag);
        }
        let tci = read_be16(self.payload.as_slice(), 0);
        let vlan = match VlanId::new(tci % 4096) {
            Ok(v) => v,
            Err(_) => return Err(FrameError::InvalidVlanTag),
        };
        let inner = read_be16(self.payload.as_slice(), 2);
        if inner < 0x0600 && (!(3 <= inner && inner <= 1500) || (inner as usize)
            != self.payload.len() - 4) || inner == 0x8100 {
            return Err(FrameError::InvalidVlanTag);
        }
        let payload = copy_range(self.payload.as_slice(), 4, self.payload.len());
        Ok(
            (
                vlan,
                EthernetFrame {
                    destination: self.destination,
                    source: self.source,
                    ethertype: EtherType::from_u16(inner),
                    payload,
                },
            ),
        )
    }
}

/// Converting a field value to an EtherType and back gives the same value.
pub proof fn lemma_ethertype_value_round_trip(v: u16)
    ensures
        ethertype_value(ethertype_of(v)) == v,
        ethertype_canonical(ethertype_of(v)),
{
}

/// Decoding the encoding of a valid frame with a canonical EtherType yields the frame again.
pub proof fn lemma_frame_round_trip(f: &EthernetFrame)
    requires
        frame_valid(f),
        ethertype_canonical(f.ethertype),
    ensures
        decoded_payload(frame_bytes(f)) == Ok::<Seq<u8>, FrameError>(f.payload@),
        frame_bytes(f).subrange(0, 6) == f.destination.0@,
        frame_bytes(f).subrange(6, 12) == f.source.0@,
        ethertype_of(be16_at(frame_bytes(f), 12)) == f.ethertype,
{
    let b = frame_bytes(f);
    let e = ethertype_value(f.ethertype);
    assert(b[12] == be16(e)[0] && b[13] == be16(e)[1]);
    assert(be16_at(b, 12) == e);
    assert(b.subrange(0, 6) =~= f.destination.0@);
    assert(b.subrange(6, 12) =~= f.source.0@);
    assert(b.subrange(14, b.len() as int) =~= f.payload@);
    if 3 <= e <= 1500 {
        assert(b.subrange(14, 14 + e) =~= f.payload@);
    }
}

/// A length-delimited frame decodes the same after trailing wire padding.
pub proof fn lemma_length_frame_ignores_padding(f: &EthernetFrame, padding: Seq<u8>)
    requires
        frame_valid(f),
        f.ethertype is Length,
    ensures
        decoded_payload(frame_bytes(f) + padding) == Ok::<Seq<u8>, FrameError>(f.payload@),
{
    let b = frame_bytes(f) + padding;
    let e = ethertype_value(f.ethertype);
    assert(b[12] == be16(e)[0] && b[13] == be16(e)[1]);
    assert(be16_at(b, 12) == e);
    assert(b.subrange(14, 14 + e) =~= f.payload@);
}

/// Removing the tag that `tagged` added gives back the VLAN and the untagged frame.
pub proof fn lemma_tag_round_trip(f: &EthernetFrame, vlan: u16)
    requires
        frame_valid(f),
        ethertype_canonical(f.ethertype),
        f.ethertype != EtherType::Dot1Q,
        1 <= vlan <= 4094,
    ensures
        untag_fields(EtherType::Dot1Q, tagged_payload(f, vlan)) == Ok::<
            (u16, EtherType, Seq<u8>),
            FrameError,
        >((vlan, f.ethertype, f.payload@)),
{
    let p = tagged_payload(f, vlan);
    let e = ethertype_value(f.ethertype);
    assert(p[0] == be16(vlan)[0] && p[1] == be16(vlan)[1]);
    assert(p[2] == be16(e)[0] && p[3] == be16(e)[1]);
    assert(be16_at(p, 0) == vlan);
    assert(be16_at(p, 2) == e);
    assert(p.subrange(4, p.len() as int) =~= f.payload@);
}

} // verus!
