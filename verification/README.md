# rios

Verified building blocks of a deterministic network-device simulator, written in Verus.

`src/` is the library. Its functions carry contracts that Verus proves, except two trusted
wrappers around `std` (`String::push` and `str::from_utf8`), whose contracts Verus takes as
given:

- `mac`, `frame`: MAC addresses and VLAN IDs, Ethernet II / IEEE 802.3 frame encoding,
  decoding and 802.1Q tagging.
- `ipv4`, `packet`, `routing`: IPv4 addresses, interface addressing, normalized prefixes,
  the header checksum, packet encoding and decoding, and longest-prefix route selection.
- `ipv6`: IPv6 prefixes and route selection with link-local scope.
- `tcp`, `udp`: bounded, deterministic TCP and UDP endpoints on simulated time.
- `translation`: static and dynamic address and port translation with expiry.
- `dhcp`: DHCP server pools and exclusions, pool selection, address allocation, offers,
  bindings and quarantines, and client leases.
- `http`: the bounded HTTP/1.x service that answers one request per stream.
- `keyed`: association lists with unique keys, the model behind the tables above.
- `interface_name`, `device`, `observability`: interface-name canonicalization, hostname and
  policy-name validation, device and interface classes, debug topics and protocol counters.
- `inventory`, `addressing`, `network`: the device with its interfaces, switchports and VLANs,
  interface addressing, ARP and static routes.
- `switching`, `spanning_tree`, `lacp`: the learned address table, spanning-tree election and
  port roles, root guard and BPDU guard, and link aggregation.
- `qos`: class maps, policy maps with their default class, output service policies, and the
  classification of a frame by DSCP, precedence and access list.
- `acl`, `route_policy`, `bgp`: access lists, prefix lists and route maps, BGP configuration.
- `report`, `show`: aligned text columns and the show reports built from them.
- `ospf`: the link-state database: re-originating, refreshing, aging out and flushing
  self-originated LSAs within a database limit, and one origination round of a router.
- `ospf_config`, `ospf_external`: the OSPF process configuration (network statements,
  router identifier, passive interfaces, redistribution policies) and the interfaces it
  places in areas; the AS-external LSAs of redistributed static routes and of an originated
  default route, with their link-state identifiers.
- `bgp_routes`: the routes held from a BGP peer and how an UPDATE changes them, and the
  rules a best path is exported by (reflection, originator and cluster list, next hop).
- `neighbor`, `router_advertisement`, `nd`: the IPv6 neighbor cache and Neighbor
  Advertisement processing, default routers and on-link prefixes from Router
  Advertisements, the two-hour rule for autoconfigured addresses, answers to Neighbor and
  Router Solicitations (with duplicate-address detection), the destinations neighbor
  discovery accepts, and stateless address autoconfiguration.
- `bgp_peer`, `bgp_reconcile`, `bgp_advertise`: the transport of a BGP peer (stale and
  inbound connections, active opens and their local ports, collisions, the selected session
  and the routes taken from it), the peers following the configuration at the start of a
  maintenance round, and the withdrawals and announcements sent to a peer. The session
  machines themselves run outside the library: a step takes what they reported.
- `ospf_links`, `ospfv3`: the Router LSA links and Network LSA an OSPF interface
  contributes and the Router LSA they make up; for OSPFv3 the Router LSA links and network
  members of an interface, which packets are taken in, what a Hello does to the neighbors,
  and whether a Link State Update fits the database; in `ospfv3_prefixes` the prefixes an
  interface offers and those a designated router advertises for its network.
- `interface_laws`: the proof that a canonical interface name normalizes to itself.

Device operations that need learned state (address table, ARP cache, spanning-tree state,
DHCP leases) take that state as a separate argument.

Laws relating several operations (round trips, invariants kept by every operation,
uniqueness of selections) are public proof functions named `lemma_*` next to the functions
they speak of.

`app/` holds what the library deliberately leaves out: serialized forms of its value types,
error messages, and conversions to the address types of `std::net`.

`tests/` exercises the library on concrete values.
