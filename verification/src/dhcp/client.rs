//! The leases installed on a device's DHCP client interfaces.
use crate::device::DeviceError;
use crate::ipv4::Ipv4Addr;
use crate::keyed::{
    has_key, key_index, keys_unique, lemma_key_index, lemma_put_unique, lemma_without_unique, put,
    value_of, without,
};
use crate::routing::InterfaceId;
use vstd::prelude::*;

verus! {

/// Runtime IPv4 lease installed on a DHCP client interface. Times are in microseconds.
#[derive(Debug, Clone, PartialEq, Eq)]
pub struct DhcpLease {
    pub dns_servers: Vec<Ipv4Addr>,
    pub domain_name: Option<String>,
    pub renew_at: u64,
    pub rebind_at: u64,
    pub address: Ipv4Addr,
    pub prefix_len: u8,
    pub default_router: Option<Ipv4Addr>,
    pub server_id: Ipv4Addr,
    pub expires_at: u64,
}

/// The leases installed on a device's DHCP client interfaces, one per interface.
#[derive(Debug)]
pub struct DhcpLeases {
    leases: Vec<(InterfaceId, DhcpLease)>,
}

impl View for DhcpLeases {
    type V = Seq<(InterfaceId, DhcpLease)>;

    closed spec fn view(&self) -> Seq<(InterfaceId, DhcpLease)> {
        self.leases@
    }
}

fn find_interface<V>(s: &Vec<(InterfaceId, V)>, k: InterfaceId) -> (r: Option<usize>)
    requires
        keys_unique(s@),
    ensures
        match r {
            Some(i) => i < s@.len() && has_key(s@, k) && key_index(s@, k) == i && s@[i as int].0 == k,
            None => !has_key(s@, k),
        },
{
    let mut i: usize = 0;
    while i < s.len()
        invariant
            keys_unique(s@),
            i <= s@.len(),
            forall|j: int| 0 <= j < i ==> #[trigger] s@[j].0 != k,
        decreases s@.len() - i,
    {
        if s[i].0.0 == k.0 {
            proof {
                lemma_key_index(s@, i as int);
            }
            return Some(i);
        }
        i = i + 1;
    }
    None
}

impl DhcpLeases {
    /// No leases.
    pub fn new() -> (r: DhcpLeases)
        ensures
            r@ == Seq::<(InterfaceId, DhcpLease)>::empty(),
    {
        let r = DhcpLeases { leases: Vec::new() };
        assert(r@ =~= Seq::<(InterfaceId, DhcpLease)>::empty());
        r
    }

    /// Install an acknowledged lease on `interface`, replacing any it had. `dhcp_client`
    /// tells whether the interface is configured as a DHCP client.
    pub fn install_dhcp_lease(&mut self, interface: InterfaceId, dhcp_client: bool, lease: DhcpLease) -> (r: Result<
        (),
        DeviceError,
    >)
        requires
            keys_unique(old(self)@),
        ensures
            keys_unique(final(self)@),
            r is Ok <==> dhcp_client,
            r matches Err(e) ==> e == DeviceError::DhcpUnsupported && final(self)@ == old(self)@,
            r is Ok ==> final(self)@ == put(old(self)@, interface, lease),
    {
        if !dhcp_client {
            return Err(DeviceError::DhcpUnsupported);
        }
        proof {
            lemma_put_unique(old(self)@, interface, lease);
        }
        match find_interface(&self.leases, interface) {
            Some(i) => {
                self.leases.set(i, (interface, lease));
            },
            None => {
                self.leases.push((interface, lease));
            },
        }
        Ok(())
    }

    /// Remove the lease on `interface` if it is for `address` and expires by `deadline`;
    /// report whether it was removed.
    pub fn expire_dhcp_lease(&mut self, interface: InterfaceId, address: Ipv4Addr, deadline: u64) -> (r: bool)
        requires
            keys_unique(old(self)@),
        ensures
            keys_unique(final(self)@),
            r == (has_key(old(self)@, interface) && value_of(old(self)@, interface).address == address
                && value_of(old(self)@, interface).expires_at <= deadline),
            final(self)@ == if r {
                without(old(self)@, interface)
            } else {
                old(self)@
            },
    {
        proof {
            lemma_without_unique(old(self)@, interface);
        }
        match find_interface(&self.leases, interface) {
            Some(i) => {
                if self.leases[i].1.address.0 == address.0 && self.leases[i].1.expires_at <= deadline {
                    let _ = self.leases.remove(i);
                    true
                } else {
                    false
                }
            },
            None => false,
        }
    }

    /// Drop the lease of `interface`, if any.
    pub fn forget(&mut self, interface: InterfaceId)
        requires
            keys_unique(old(self)@),
        ensures
            keys_unique(final(self)@),
            final(self)@ == without(old(self)@, interface),
    {
        proof {
            lemma_without_unique(old(self)@, interface);
        }
        match find_interface(&self.leases, interface) {
            Some(i) => {
                let _ = self.leases.remove(i);
            },
            None => {},
        }
    }

    /// The current lease of `interface`, if any.
    pub fn dhcp_lease(&self, interface: InterfaceId) -> (r: Option<&DhcpLease>)
        requires
            keys_unique(self@),
        ensures
            match r {
                Some(l) => has_key(self@, interface) && *l == value_of(self@, interface),
                None => !has_key(self@, interface),
            },
    {
        match find_interface(&self.leases, interface) {
            Some(i) => Some(&self.leases[i].1),
            None => None,
        }
    }
}

} // verus!
