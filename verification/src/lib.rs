//! Network simulator building blocks: Ethernet framing, IPv4 and IPv6 addressing, packets
//! and route selection, access lists and routing policy, BGP configuration, deterministic TCP and UDP endpoints, address translation, a DHCP
//! server, a bounded HTTP service, and the device-level validation rules.
pub mod acl;
pub mod addressing;
pub mod bgp;
pub mod bgp_advertise;
pub mod bgp_peer;
pub mod bgp_reconcile;
pub mod bgp_routes;
pub mod decimal;
pub mod device;
pub mod dhcp;
pub mod frame;
pub mod http;
pub mod interface_laws;
pub mod interface_name;
pub mod inventory;
pub mod ipv4;
pub mod ipv6;
pub mod keyed;
pub mod lacp;
pub mod mac;
pub mod nd;
pub mod neighbor;
pub mod network;
pub mod observability;
pub mod ospf;
pub mod ospf_config;
pub mod ospf_external;
pub mod ospf_links;
pub mod ospfv3;
pub mod ospfv3_prefixes;
pub mod packet;
pub mod qos;
pub mod report;
pub mod route_policy;
pub mod router_advertisement;
pub mod routing;
pub mod show;
pub mod spanning_tree;
pub mod switching;
pub mod tcp;
pub mod text;
pub mod translation;
pub mod udp;

pub use acl::{
    AccessList, AccessListAction, AccessListDirection, AccessListId, AclBinding, AclEntry, AclId,
    AclKind, AclProtocol, AclTable, AddressMatch, PortMatch, StandardAccessListEntry,
};
pub use bgp::{
    bgp_collision_winner, bgp_next_deadline, BgpConfig, BgpDefaultOriginate, BgpNeighborConfig, BgpPolicy, BgpRouter,
};
pub use device::{
    policy_name_valid, valid_address, validate_hostname, CountersView, DeviceError, DeviceType,
    DropReason, InterfaceCounters, InterfaceKind, InterfaceMedia,
};
pub use dhcp::{
    choose_dhcp_address, select_dhcp_pool, DhcpBinding, DhcpConfig, DhcpLease, DhcpLeases,
    DhcpOffer, DhcpPoolConfig, DhcpPoolId, DhcpServer,
};
pub use frame::{EtherType, EthernetFrame, FrameError};
pub use http::{response, HttpStatus};
pub use interface_name::{canonical_interface, interface_sequence};
pub use inventory::{
    AdminState, ChannelMembership, ChannelMode, Device, DeviceId, Dot1qEncapsulation, Interface, RunningConfig,
    InterfaceConfig, LinkState, SwitchportConfig, SwitchportMode,
};
pub use ipv4::{AddressError, Ipv4Addr, Ipv4InterfaceConfig, Ipv4Network};
pub use ipv6::{
    select_ipv6_route, Ipv6Addr, Ipv6Network, Ipv6Route, Ipv6RouteSource, ResolvedIpv6Route,
};
pub use lacp::{LacpNeighbor, LacpNeighbors, LacpPortInfo, Lacpdu};
pub use mac::{InvalidMacAddress, InvalidVlanId, MacAddress, VlanId};
pub use network::{
    build_routing_table, connected_source, resolve_route, ArpCache, ArpEntry, ResolvedRoute,
    StaticRoutes,
};
pub use observability::{DebugTopic, Observability, PacketProtocol, ProtocolCounters};
pub use bgp_advertise::{bgp_advertise_updates, BgpAdvertised};
pub use bgp_peer::{
    bgp_peer_sessions, bgp_peer_step, bgp_peer_transport, BgpPeerAction, BgpPeerState, BgpSessionEvent, BgpSessionState,
    BgpStreamState,
};
pub use bgp_reconcile::{bgp_reconcile, BgpPeer, BgpPeers};
pub use bgp_routes::{bgp_export, bgp_external_attributes, BgpAttributes, BgpError, BgpPath, BgpRoutes, BgpUpdate, ExportPeer};
pub use nd::{
    nd_destination_accepted, receive_router_solicitation, receive_solicitation, InterfaceAddresses, Ipv6AddressEntry,
    Ipv6AddressOrigin, Ipv6AddressState, NeighborAdvertisement,
};
pub use neighbor::{Ipv6Neighbor, Ipv6NeighborState, NeighborCache};
pub use router_advertisement::{slaac_valid_until, PrefixInformation, RaOption, RouterState};
pub use ospf_links::{ospf_interface_lsas, ospf_router_flags, ospf_router_lsa, OspfActiveInterface, OspfLinkNeighbor, OspfNetworkType, RouterLink, RouterLinkKind};
pub use ospfv3::{
    ospfv3_accept, ospfv3_hello, ospfv3_interface_links, ospfv3_update_fits, Ospfv3ActiveInterface, Ospfv3Header,
    Ospfv3LinkKind, Ospfv3LinkNeighbor, Ospfv3RouterLink, Ospfv3Hello, Ospfv3Neighbor, Ospfv3NeighborState, Ospfv3Neighbors,
    Ospfv3Port,
};
pub use ospf_config::{OspfConfig, OspfNetworkConfig, OspfSettings};
pub use ospf_external::{ospf_external_lsas, ospf_external_prefixes, OspfDefaultRoute, OspfRedistribute};
pub use ospfv3_prefixes::{ospfv3_network_prefixes, ospfv3_prefixes, Ospfv3Prefix};
pub use ospf::{ospf_originate_step, LsaDatabase, OspfLsa, StoredLsa};
pub use qos::{QosClassMap, QosConfig, QosPolicyClass, QosPolicyMap, QosRate};
pub use packet::{checksum, IpProtocol, Ipv4Packet, PacketError};
pub use route_policy::{
    PrefixListEntry, RouteMap, RouteMapEntry, RouteMapId, RoutingPolicy,
};
pub use routing::{InterfaceId, Route, RouteSource, RoutingTable};
pub use spanning_tree::{
    ConfigurationBpdu, SpanningTree, StpInstance, StpPortConfig, StpPortRole, StpPortState,
    StpReceived,
};
pub use switching::{MacEntry, MacTable};
pub use tcp::{TcpConnection, TcpError, TcpRuntime, TcpSegment, TcpSocket, TcpState};
pub use translation::{
    GlobalSource, NatConfig, NatFlow, NatOutcome, NatOverloadConfig, NatPool, NatPoolRule,
    NatProtocol, NatRole, NatStatistics, NatTable,
    NatTranslation, NatTransport, StaticNat,
};
pub use udp::{UdpDelivery, UdpError, UdpRuntime, UdpSocket};
