use startos_net::eq_set::EqSet;
use startos_net::filter::{
    AllFilter, AndFilter, AnyFilter, InterfaceFilter, LoopbackFilter, OrFilter, PublicFilter,
    SecureFilter, filter_eq, struct_equal,
};
use startos_net::gateway::{GatewayId, IpInfo, NetworkInterfaceInfo};
use startos_net::ip::{IpAddress, IpNet};
use startos_net::onion::{HealthEvent, OnionBindings, Supervisor};
use startos_net::watch::Watch;

fn info(public: Option<bool>, subnets: Vec<IpNet>) -> NetworkInterfaceInfo {
    NetworkInterfaceInfo {
        public,
        secure: None,
        ip_info: Some(IpInfo {
            name: "x".to_owned(),
            scope_id: 3,
            device_type: None,
            subnets,
            wan_ip: None,
            ntp_servers: Vec::new(),
        }),
    }
}

fn pf(public: bool) -> InterfaceFilter {
    InterfaceFilter::Public(PublicFilter { public })
}

fn sf(secure: bool) -> InterfaceFilter {
    InterfaceFilter::Secure(SecureFilter { secure })
}

/// Commuted conjunctions, reordered lists and degenerate shapes compare
/// equal; filters of different meaning do not.
#[test]
fn filter_equality() {
    let ab = InterfaceFilter::And(AndFilter(Box::new(pf(true)), Box::new(sf(false))));
    let ba = InterfaceFilter::And(AndFilter(Box::new(sf(false)), Box::new(pf(true))));
    assert!(filter_eq(&ab, &ba));

    let any1 = InterfaceFilter::Any(AnyFilter(vec![pf(true), sf(true)]));
    let any2 = InterfaceFilter::Any(AnyFilter(vec![sf(true), pf(true)]));
    assert!(filter_eq(&any1, &any2));

    // And(x, x) simplifies to x; an empty All is always; an empty Any never
    let xx = InterfaceFilter::And(AndFilter(Box::new(pf(false)), Box::new(pf(false))));
    assert!(filter_eq(&xx, &pf(false)));
    let empty_all = InterfaceFilter::All(AllFilter(Vec::new()));
    assert!(filter_eq(&empty_all, &InterfaceFilter::Always(true)));
    let empty_any = InterfaceFilter::Any(AnyFilter(Vec::new()));
    assert!(filter_eq(&empty_any, &InterfaceFilter::Always(false)));
    let single = InterfaceFilter::Any(AnyFilter(vec![pf(true)]));
    assert!(filter_eq(&single, &pf(true)));

    // distinct shapes stay distinct
    assert!(!filter_eq(&pf(true), &sf(true)));
    assert!(!struct_equal(&pf(true), &pf(false)));
    let or = InterfaceFilter::Or(OrFilter(Box::new(pf(true)), Box::new(sf(false))));
    assert!(!filter_eq(&ab, &or));
}

/// The leaves select as documented.
#[test]
fn filter_semantics() {
    let id = GatewayId::new("eth0");
    let private = info(Some(false), vec![IpNet { addr: IpAddress::V4(0x0a000005), prefix: 24 }]);
    let public = info(Some(true), vec![IpNet { addr: IpAddress::V4(0x01020304), prefix: 24 }]);
    let lo = NetworkInterfaceInfo::loopback().1;

    assert!(pf(false).filter(&id, &private));
    assert!(!pf(false).filter(&id, &public));
    assert!(pf(true).filter(&id, &public));

    // unset `public` is inferred from the first IPv4 subnet
    let inferred_private = info(None, vec![IpNet { addr: IpAddress::V4(0x0a000005), prefix: 24 }]);
    assert!(pf(false).filter(&id, &inferred_private));
    let inferred_public = info(None, vec![IpNet { addr: IpAddress::V4(0x01020304), prefix: 24 }]);
    assert!(!pf(false).filter(&id, &inferred_public));

    let loopback = InterfaceFilter::Loopback(LoopbackFilter);
    assert!(loopback.filter(&GatewayId::new("lo"), &lo));
    assert!(!loopback.filter(&id, &public));
}

/// The duplicate-free set behaves like a set.
#[test]
fn eq_set_behaviour() {
    let mut set: EqSet<u64> = EqSet::new();
    assert!(set.is_empty());
    assert_eq!(set.insert(3), None);
    assert_eq!(set.insert(3), Some(3));
    assert!(set.try_insert(4));
    assert!(!set.try_insert(4));
    assert_eq!(set.len(), 2);
    assert!(set.contains(&3));
    assert_eq!(set.get(&4), Some(&4));
    assert_eq!(set.remove(&3), Some(3));
    assert_eq!(set.remove(&3), None);
    assert!(!set.contains(&3));

    let mut other: EqSet<u64> = EqSet::new();
    other.insert(4);
    other.insert(5);
    set.append(&mut other);
    assert!(other.is_empty());
    assert!(set.contains(&4) && set.contains(&5));
    assert_eq!(set.len(), 2);

    set.retain(|v: &u64| *v % 2 == 0);
    assert!(set.contains(&4) && !set.contains(&5));
    set.clear();
    assert!(set.is_empty());
}

/// Retaining keeps the survivors in their original relative order.
#[test]
fn eq_set_retain_order() {
    let mut set: EqSet<u64> = EqSet::new();
    for v in [9u64, 2, 7, 4, 5, 6] {
        set.try_insert(v);
    }
    set.retain(|v: &u64| *v % 2 == 0);
    assert_eq!(set.0, vec![2, 4, 6]);
}

/// The reactive cell wakes observers exactly when a writer changed it.
#[test]
fn watch_versioning() {
    let mut cell: Watch<u64> = Watch::new(1);
    assert!(cell.poll_changed());
    assert!(!cell.poll_changed());
    assert!(!cell.send_if_modified(1, false));
    assert!(!cell.poll_changed());
    assert!(cell.send_if_modified(2, true));
    assert!(cell.poll_changed());
    assert_eq!(*cell.peek(), 2);
    assert_eq!(cell.send_replace(5), 2);
    assert_eq!(cell.read(), 5);
    assert!(cell.poll_changed());
    cell.mark_changed();
    cell.mark_seen();
    assert!(!cell.poll_changed());
    cell.mark_unseen();
    assert!(cell.poll_changed());
    let fresh = cell.clone_unseen();
    assert_eq!(fresh.seen, 0);
    assert_eq!(fresh.version, cell.version);
}

/// The onion supervisor recycles the client exactly at the failure
/// allowance; registrations survive the recycle.
#[test]
fn onion_recycle() {
    let mut bindings = OnionBindings::new();
    let target = startos_net::ip::SocketAddress {
        ip: IpAddress::V4(0x7f000001),
        port: 8080,
        scope_id: 0,
    };
    bindings.register(80, target).unwrap();
    assert_eq!(bindings.begin_target(80), Some(target));
    assert_eq!(bindings.begin_target(81), None);

    let mut sup = Supervisor::new(3);
    let built = sup.epoch;
    assert!(!sup.step(HealthEvent::ProbeFailed));
    assert!(!sup.step(HealthEvent::ProbeFailed));
    assert!(sup.step(HealthEvent::ProbeFailed));
    assert_eq!(sup.epoch, built + 1);
    // the rendezvous built against the old epoch is rebuilt; bindings stay
    assert!(sup.needs_rebuild(built));
    assert_eq!(bindings.begin_target(80), Some(target));

    // a passed probe clears the streak
    assert!(!sup.step(HealthEvent::ProbeFailed));
    assert!(!sup.step(HealthEvent::ProbePassed));
    assert!(!sup.step(HealthEvent::ProbeFailed));
    assert!(!sup.step(HealthEvent::ProbeFailed));
    assert!(sup.step(HealthEvent::ProbeFailed));

    // a stalled bootstrap recycles at once
    assert!(sup.step(HealthEvent::BootstrapStalled));

    // dropping the only handle and collecting shuts the service down
    bindings.release(80, target);
    assert!(!bindings.gc());
    assert_eq!(bindings.begin_target(80), None);
}
