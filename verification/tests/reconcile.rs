use startos_net::binding::NetInfo;
use startos_net::filter::{AndFilter, InterfaceFilter, PublicFilter, SecureFilter};
use startos_net::forward::{AvailablePorts, ForwardEntry};
use startos_net::gateway::{GatewayId, Gateways, IpInfo, NetworkInterfaceInfo, dedup_subnets};
use startos_net::ip::{IpAddress, IpNet, SocketAddress};
use startos_net::listener::{ListenerAction, ListenerMap};

fn gw(id: &str, public: Option<bool>, subnets: Vec<IpNet>, wan_ip: Option<u32>) -> (
    GatewayId,
    NetworkInterfaceInfo,
) {
    (
        GatewayId::new(id),
        NetworkInterfaceInfo {
            public,
            secure: None,
            ip_info: Some(IpInfo {
                name: id.to_owned(),
                scope_id: 2,
                device_type: None,
                subnets,
                wan_ip,
                ntp_servers: Vec::new(),
            }),
        },
    )
}

fn v4(a: u32, prefix: u8) -> IpNet {
    IpNet { addr: IpAddress::V4(a), prefix }
}

fn sock(a: u32, port: u16) -> SocketAddress {
    SocketAddress { ip: IpAddress::V4(a), port, scope_id: 0 }
}

fn holds(map: &ListenerMap, addr: &SocketAddress) -> bool {
    map.listeners.iter().any(|(a, _)| a == addr)
}

/// A binding on port 80 over two gateways, one private and one public: only
/// the private one (plus loopback) is served until the public gateway is
/// enabled; when it disappears its listener closes, and it is rebound on
/// return.
#[test]
fn binding_follows_gateways_and_filter() {
    let eth0 = 0x0a000005u32; // 10.0.0.5
    let wan0 = 0x01020304u32; // 1.2.3.4
    let lo = 0x7f000001u32; // 127.0.0.1
    let mut gateways = Gateways::new();
    let (id, info) = gw("eth0", None, vec![v4(eth0, 24)], None);
    gateways.upsert(&id, info.ip_info);
    let (id, info) = gw("wan0", Some(true), vec![v4(wan0, 24)], Some(wan0));
    gateways.upsert(&id, info.ip_info);
    gateways
        .set_public(&GatewayId::new("wan0"), Some(true))
        .unwrap();

    let mut net = NetInfo {
        private_disabled: Vec::new(),
        public_enabled: Vec::new(),
        assigned_port: Some(80),
        assigned_ssl_port: None,
    };
    let mut map = ListenerMap::new(80);
    let actions = map.update(&gateways, &net.to_filter());
    assert!(holds(&map, &sock(eth0, 80)));
    assert!(holds(&map, &sock(lo, 80)));
    assert!(!holds(&map, &sock(wan0, 80)));
    assert_eq!(actions.len(), 2);
    assert!(actions.iter().all(|a| matches!(a, ListenerAction::Bind(_))));

    // enable the public gateway: its address is bound within one pass
    net.set_gateway_enabled(&GatewayId::new("wan0"), true, true);
    let actions = map.update(&gateways, &net.to_filter());
    assert!(holds(&map, &sock(wan0, 80)));
    assert!(holds(&map, &sock(eth0, 80)));
    assert!(holds(&map, &sock(lo, 80)));
    assert_eq!(actions.len(), 1);
    assert!(matches!(actions[0], ListenerAction::Bind(a) if a == sock(wan0, 80)));

    // a second reconciliation on unchanged inputs performs no socket work
    let actions = map.update(&gateways, &net.to_filter());
    assert_eq!(actions.len(), 0);

    // the gateway disappears: only its listener closes
    gateways.upsert(&GatewayId::new("wan0"), None);
    let actions = map.update(&gateways, &net.to_filter());
    assert!(!holds(&map, &sock(wan0, 80)));
    assert!(holds(&map, &sock(eth0, 80)));
    assert!(holds(&map, &sock(lo, 80)));
    assert_eq!(actions.len(), 1);
    assert!(matches!(actions[0], ListenerAction::Close(a) if a == sock(wan0, 80)));

    // it returns with the same address: the listener is rebound
    let (_, info) = gw("wan0", Some(true), vec![v4(wan0, 24)], Some(wan0));
    gateways.upsert(&GatewayId::new("wan0"), info.ip_info);
    let actions = map.update(&gateways, &net.to_filter());
    assert!(holds(&map, &sock(wan0, 80)));
    assert_eq!(actions.len(), 1);
    assert!(matches!(actions[0], ListenerAction::Bind(a) if a == sock(wan0, 80)));
}

/// NAT rules follow the same desired set as listeners, and reconciling an
/// unchanged snapshot invokes the platform script not at all.
#[test]
fn forward_rules_follow_gateways() {
    let eth0 = 0x0a000005u32;
    let lo = 0x7f000001u32;
    let mut gateways = Gateways::new();
    let (id, info) = gw("eth0", None, vec![v4(eth0, 24)], None);
    gateways.upsert(&id, info.ip_info);

    let target = sock(0x0a00002au32, 8080);
    let mut entry = ForwardEntry::new(443, target);
    let filter = InterfaceFilter::Public(PublicFilter { public: false });
    let actions = entry.update(&gateways, Some(&filter));
    assert_eq!(actions.len(), 2);
    assert!(actions.iter().all(|a| !a.remove && a.target == target));
    assert!(actions.iter().any(|a| a.source == sock(eth0, 443)));
    assert!(actions.iter().any(|a| a.source == sock(lo, 443)));

    // nothing changed: no script call
    let actions = entry.update(&gateways, None);
    assert_eq!(actions.len(), 0);

    // the gateway disconnects: its rule is removed exactly once
    gateways.upsert(&GatewayId::new("eth0"), None);
    let actions = entry.update(&gateways, None);
    assert_eq!(actions.len(), 1);
    assert!(actions[0].remove && actions[0].source == sock(eth0, 443));

    // tear down: one removal per remaining rule
    let actions = entry.destroy();
    assert_eq!(actions.len(), 1);
    assert!(actions[0].remove && actions[0].source == sock(lo, 443));
}

/// Switching between syntactically distinct but semantically equal filters
/// never churns: the cached filter compares equal, so the poll side skips
/// the recomputation, and even a forced recomputation performs no work.
#[test]
fn equivalent_filters_do_not_churn() {
    let eth0 = 0x0a000005u32;
    let mut gateways = Gateways::new();
    let (id, info) = gw("eth0", None, vec![v4(eth0, 24)], None);
    gateways.upsert(&id, info.ip_info);

    let f1 = InterfaceFilter::And(AndFilter(
        Box::new(InterfaceFilter::Public(PublicFilter { public: false })),
        Box::new(InterfaceFilter::Secure(SecureFilter { secure: true })),
    ));
    let f2 = InterfaceFilter::And(AndFilter(
        Box::new(InterfaceFilter::Secure(SecureFilter { secure: true })),
        Box::new(InterfaceFilter::Public(PublicFilter { public: false })),
    ));
    let mut map = ListenerMap::new(80);
    let actions = map.update(&gateways, &f1);
    assert!(!actions.is_empty());
    // the commuted filter compares equal: no recomputation is needed
    assert!(!map.needs_update(false, &f2));
    // and recomputing anyway performs no socket operation
    let actions = map.update(&gateways, &f2);
    assert!(actions.is_empty());
}

/// The watcher's re-enumeration clears absent interfaces but keeps their
/// entries and labels; deduplication keeps first occurrences.
#[test]
fn watcher_rules() {
    let mut gateways = Gateways::new();
    let (id, info) = gw("eth0", None, vec![v4(0x0a000005, 24)], None);
    gateways.upsert(&id, info.ip_info);
    gateways.set_public(&GatewayId::new("eth0"), Some(true)).unwrap();

    // eth0 vanished from the enumeration: state cleared, label kept
    let changed = gateways.clear_absent(&vec![GatewayId::new("wlan0")]);
    assert!(changed);
    assert_eq!(gateways.entries.len(), 1);
    assert!(gateways.entries[0].1.ip_info.is_none());
    assert_eq!(gateways.entries[0].1.public, Some(true));
    // clearing again changes nothing
    assert!(!gateways.clear_absent(&vec![]));

    // forgetting a disconnected gateway drops it; a connected one refuses
    assert_eq!(gateways.forget(&GatewayId::new("eth0")), Ok(true));
    assert_eq!(gateways.entries.len(), 0);
    let (id, info) = gw("eth0", None, vec![v4(0x0a000005, 24)], None);
    gateways.upsert(&id, info.ip_info);
    assert!(gateways.forget(&GatewayId::new("eth0")).is_err());

    let subnets = vec![v4(1, 24), v4(2, 24), v4(1, 24), v4(3, 16), v4(2, 24)];
    let unique = dedup_subnets(subnets);
    assert_eq!(unique, vec![v4(1, 24), v4(2, 24), v4(3, 16)]);
}

/// Exhausting the dynamic port pool fails with the configuration error;
/// freeing one port makes the next allocation succeed with that port.
#[test]
fn port_pool_exhaustion() {
    let mut pool = AvailablePorts::new();
    let mut count: u32 = 0;
    let mut first = 0u16;
    let mut last = 0u16;
    loop {
        match pool.allocate() {
            Ok(p) => {
                if count == 0 {
                    first = p;
                }
                last = p;
                count += 1;
            },
            Err(k) => {
                assert_eq!(k, startos_net::error::ErrorKind::InvalidConfig);
                break;
            },
        }
    }
    assert_eq!(count, 16384);
    assert_eq!(first, 49152);
    assert_eq!(last, 65535);
    pool.free(&[51000]);
    assert_eq!(pool.allocate(), Ok(51000));
    assert!(pool.allocate().is_err());
}

/// The NTP union lists each connected gateway's servers exactly once, in
/// order of first appearance; the timesyncd line renders `NTP=` with the
/// names space-joined.
#[test]
fn ntp_union_and_line() {
    let mut gateways = Gateways::new();
    let (id, mut info) = gw("eth0", None, vec![v4(0x0a000005, 24)], None);
    if let Some(ip) = info.ip_info.as_mut() {
        ip.ntp_servers = vec![b"0.pool.ntp.org".to_vec(), b"1.pool.ntp.org".to_vec()];
    }
    gateways.upsert(&id, info.ip_info);
    let (id, mut info) = gw("wg0", None, vec![v4(0x0a080001, 24)], None);
    if let Some(ip) = info.ip_info.as_mut() {
        ip.ntp_servers = vec![b"1.pool.ntp.org".to_vec(), b"2.pool.ntp.org".to_vec()];
    }
    gateways.upsert(&id, info.ip_info);
    // a disconnected gateway offers nothing
    gateways.upsert(&GatewayId::new("eth1"), None);

    let servers = startos_net::gateway::ntp_servers_union(&gateways);
    assert_eq!(
        servers,
        vec![
            b"0.pool.ntp.org".to_vec(),
            b"1.pool.ntp.org".to_vec(),
            b"2.pool.ntp.org".to_vec(),
        ]
    );
    let line = startos_net::gateway::timesyncd_ntp_line(&servers);
    assert_eq!(line, b"NTP=0.pool.ntp.org 1.pool.ntp.org 2.pool.ntp.org".to_vec());
    assert_eq!(
        startos_net::gateway::timesyncd_ntp_line(&Vec::new()),
        b"NTP=".to_vec()
    );
}

/// An accepted connection is admitted exactly when the gateway owning its
/// local address passes the filter.
#[test]
fn filter_by_local_address() {
    let mut gateways = Gateways::new();
    let (id, info) = gw("eth0", Some(true), vec![v4(0x0a000005, 24)], None);
    gateways.upsert(&id, info.ip_info);
    gateways.set_public(&id, Some(true)).unwrap();
    let eth0_addr = IpAddress::V4(0x0a000005);
    let loopback = IpAddress::V4(0x7f000001);
    let unknown = IpAddress::V4(0x08080808);
    // a private-only binding refuses a connection arriving on the public
    // gateway's address but admits one on loopback
    let private_only = InterfaceFilter::Public(PublicFilter { public: false });
    assert!(!startos_net::listener::addr_matches_filter(
        &gateways,
        &eth0_addr,
        &private_only
    ));
    assert!(startos_net::listener::addr_matches_filter(
        &gateways,
        &loopback,
        &private_only
    ));
    // an address no gateway holds is refused whatever the filter says
    let everywhere = InterfaceFilter::Public(PublicFilter { public: true });
    assert!(!startos_net::listener::addr_matches_filter(
        &gateways,
        &unknown,
        &everywhere
    ));
    assert!(startos_net::listener::addr_matches_filter(
        &gateways,
        &eth0_addr,
        &everywhere
    ));
}
