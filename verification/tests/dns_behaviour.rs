use startos_net::dns::{
    DnsReply, QueryType, ResolveMap, answers_for_qtype, hairpin_answers, upstream_pool,
};
use startos_net::gateway::{GatewayId, Gateways, IpInfo, NetworkInterfaceInfo};
use startos_net::ip::{IpAddress, IpNet};

fn connect(gateways: &mut Gateways, id: &str, subnets: Vec<IpNet>) {
    gateways.upsert(
        &GatewayId::new(id),
        Some(IpInfo {
            name: id.to_owned(),
            scope_id: 2,
            device_type: None,
            subnets,
            wan_ip: None,
            ntp_servers: Vec::new(),
        }),
    );
}

fn v4(a: u32, prefix: u8) -> IpNet {
    IpNet { addr: IpAddress::V4(a), prefix }
}

/// Hairpinning: a LAN client asking for a private domain gets the gateway
/// address of its own subnet first; a client on the other subnet gets that
/// subnet's address; once the registration is dropped and collected the
/// domain no longer answers and the query falls through to upstream.
#[test]
fn private_domain_hairpin() {
    let eth0_addr = 0x0a000005u32; // 10.0.0.5 in 10.0.0.0/24
    let wg0_addr = 0x0a080001u32; // 10.8.0.1 in 10.8.0.0/24
    let mut gateways = Gateways::new();
    connect(&mut gateways, "eth0", vec![v4(eth0_addr, 24)]);
    connect(&mut gateways, "wg0", vec![v4(wg0_addr, 24)]);

    let mut map = ResolveMap::new();
    let fqdn = b"home.example".to_vec();
    map.add_private_domain(&fqdn).unwrap();
    assert_eq!(map.private_domains.len(), 1);
    assert_eq!(map.private_domains[0].fqdn, fqdn);
    assert_eq!(map.private_domains[0].count, 1);

    // query from 10.0.0.7: the eth0 subnet answers, its address first
    let from_eth = IpAddress::V4(0x0a000007);
    let answers = hairpin_answers(&gateways, &from_eth).unwrap();
    assert_eq!(answers[0], IpAddress::V4(eth0_addr));

    // query from 10.8.0.9: the wg0 subnet answers
    let from_wg = IpAddress::V4(0x0a080009);
    let answers = hairpin_answers(&gateways, &from_wg).unwrap();
    assert_eq!(answers[0], IpAddress::V4(wg0_addr));

    // drop the handle and collect: the domain is gone
    map.release_private_domain(&fqdn);
    map.gc_private_domains(&vec![fqdn.clone()]);
    assert_eq!(map.private_domains.len(), 0);
}

/// Service registrations answer while a handle is held; register-drop-gc
/// leaves the answer set exactly at its baseline.
#[test]
fn service_lifecycle() {
    let mut map = ResolveMap::new();
    let pkg = b"nextcloud".to_vec();
    let ip = 0x0a00010au32;

    map.add_service(Some(&pkg), ip).unwrap();
    assert_eq!(map.services.len(), 1);
    assert_eq!(map.services[0].count, 1);

    // a second handle on the same entry
    map.add_service(Some(&pkg), ip).unwrap();
    assert_eq!(map.services.len(), 1);
    assert_eq!(map.services[0].count, 2);

    // dropping one handle keeps it alive; gc removes nothing
    map.release_service(Some(&pkg), ip);
    map.gc_service(Some(&pkg), ip);
    assert_eq!(map.services.len(), 1);
    assert_eq!(map.services[0].count, 1);

    // dropping the last handle and collecting restores the baseline
    map.release_service(Some(&pkg), ip);
    map.gc_service(Some(&pkg), ip);
    assert_eq!(map.services.len(), 0);
}

/// The composed resolver: live private domains hairpin, names under the
/// host zone answer from the registrations, everything else goes upstream.
#[test]
fn resolver_cases() {
    let eth0_addr = 0x0a000005u32;
    let mut gateways = Gateways::new();
    connect(&mut gateways, "eth0", vec![v4(eth0_addr, 24)]);
    let mut map = ResolveMap::new();
    let src = IpAddress::V4(0x0a000007);

    let labels = |parts: &[&str]| -> Vec<Vec<u8>> {
        parts.iter().map(|p| p.as_bytes().to_vec()).collect()
    };

    // an unregistered name goes upstream
    let name = labels(&["home", "example"]);
    assert!(matches!(map.resolve(&gateways, &name, &src), DnsReply::Upstream));

    // registered (mixed case in the question): hairpin answer
    map.add_private_domain(&b"home.example".to_vec()).unwrap();
    let mixed = labels(&["Home", "EXAMPLE"]);
    match map.resolve(&gateways, &mixed, &src) {
        DnsReply::Answers(ips) => assert_eq!(ips[0], IpAddress::V4(eth0_addr)),
        DnsReply::Upstream => panic!("live private domain must answer"),
    }

    // a query from an address no gateway contains falls through
    let far = IpAddress::V4(0xc0a80107);
    assert!(matches!(map.resolve(&gateways, &mixed, &far), DnsReply::Upstream));

    // names under the host zone answer from the service registrations
    let svc = 0x0a00010au32;
    map.add_service(Some(&b"nextcloud".to_vec()), svc).unwrap();
    let name = labels(&["nextcloud", "embassy"]);
    match map.resolve(&gateways, &name, &src) {
        DnsReply::Answers(ips) => assert_eq!(ips, vec![IpAddress::V4(svc)]),
        DnsReply::Upstream => panic!("registered package must answer"),
    }
    let name = labels(&["nextcloud", "startos"]);
    assert!(matches!(map.resolve(&gateways, &name, &src), DnsReply::Answers(_)));
    // an unknown package under the zone goes upstream
    let name = labels(&["other", "startos"]);
    assert!(matches!(map.resolve(&gateways, &name, &src), DnsReply::Upstream));
    // the bare zone name answers for the host itself
    map.add_service(None, eth0_addr).unwrap();
    let name = labels(&["startos"]);
    match map.resolve(&gateways, &name, &src) {
        DnsReply::Answers(ips) => assert_eq!(ips, vec![IpAddress::V4(eth0_addr)]),
        DnsReply::Upstream => panic!("host registration must answer"),
    }
}

/// The upstream pool comes from the resolver configuration's nameserver
/// lines with the first two (ourselves) skipped, unless static servers
/// override it.
#[test]
fn upstream_pool_rules() {
    let lines: Vec<Vec<u8>> = vec![
        b"# managed".to_vec(),
        b"nameserver 127.0.0.53".to_vec(),
        b"nameserver 127.0.0.54".to_vec(),
        b"nameserver 9.9.9.9".to_vec(),
        b"search lan".to_vec(),
        b"nameserver 1.1.1.1".to_vec(),
    ];
    let pool = upstream_pool(&lines, None);
    assert_eq!(pool, vec![b"9.9.9.9".to_vec(), b"1.1.1.1".to_vec()]);

    let pool = upstream_pool(&lines, Some(vec![b"8.8.8.8".to_vec()]));
    assert_eq!(pool, vec![b"8.8.8.8".to_vec()]);

    let short: Vec<Vec<u8>> = vec![b"nameserver 127.0.0.53".to_vec()];
    assert_eq!(upstream_pool(&short, None), Vec::<Vec<u8>>::new());
}

/// A/AAAA questions get only their family; other question types pass
/// through.
#[test]
fn qtype_families() {
    let answers = vec![
        IpAddress::V4(0x0a000001),
        IpAddress::V6(1),
        IpAddress::V4(0x0a000002),
    ];
    let a = answers_for_qtype(&answers, QueryType::A);
    assert_eq!(a.len(), 2);
    assert!(a.iter().all(|x| matches!(x, IpAddress::V4(_))));
    let aaaa = answers_for_qtype(&answers, QueryType::Aaaa);
    assert_eq!(aaaa.len(), 1);
    let other = answers_for_qtype(&answers, QueryType::Other);
    assert_eq!(other.len(), 0);
}
