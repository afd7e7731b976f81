use startos_net::ip::{IpAddress, IpNet};
use startos_net::wireguard::{
    WgKernelState, WgServer, WgSubnetConfig, parse_config, render_config, sync_apply,
};

fn v4(a: u32, prefix: u8) -> IpNet {
    IpNet { addr: IpAddress::V4(a), prefix }
}

/// Serialise a server, parse the text, serialise again: the bytes are
/// identical.
#[test]
fn config_text_round_trip() {
    let mut server = WgServer::new(51820);
    let subnet = v4(0x0a080000, 24); // 10.8.0.0/24
    let mut config = WgSubnetConfig::new();
    config.add_client(&subnet).unwrap();
    config.add_client(&subnet).unwrap();
    server.subnets.push((subnet, config));

    let text = server.config_text();
    let parsed = parse_config(&text).expect("canonical text parses");
    let again = render_config(&parsed);
    assert_eq!(again, text);

    // and parsing the re-rendered text yields the same text a third time
    let parsed2 = parse_config(&again).expect("re-rendered text parses");
    assert_eq!(render_config(&parsed2), text);
}

/// The rendered text carries the declared values.
#[test]
fn config_text_content() {
    let mut server = WgServer::new(51820);
    server.subnets.push((v4(0x0a080000, 24), WgSubnetConfig::new()));
    let text = server.config_text();
    let s = String::from_utf8(text).unwrap();
    assert!(s.starts_with("[Interface]\nAddress = 10.8.0.0/24\nListenPort = 51820\nPrivateKey = "));
    assert!(!s.contains("[Peer]"));
}

/// Client allocation hands out the lowest free host address and fails when
/// the subnet is exhausted.
#[test]
fn client_allocation() {
    let subnet = v4(0xc0a80000, 30); // 192.168.0.0/30: hosts .1 and .2
    let mut config = WgSubnetConfig::new();
    let first = config.add_client(&subnet).unwrap();
    assert_eq!(first, 0xc0a80001);
    let second = config.add_client(&subnet).unwrap();
    assert_eq!(second, 0xc0a80002);
    assert!(config.add_client(&subnet).is_err());
}

/// Point-to-point and single-host subnets allocate their whole address
/// range: both addresses of a /31, the one address of a /32.
#[test]
fn client_allocation_small_prefixes() {
    let p2p = v4(0x0a000000, 31); // 10.0.0.0/31
    let mut config = WgSubnetConfig::new();
    assert_eq!(config.add_client(&p2p).unwrap(), 0x0a000000);
    assert_eq!(config.add_client(&p2p).unwrap(), 0x0a000001);
    assert!(config.add_client(&p2p).is_err());

    let host = v4(0x0a000007, 32); // 10.0.0.7/32
    let mut config = WgSubnetConfig::new();
    assert_eq!(config.add_client(&host).unwrap(), 0x0a000007);
    assert!(config.add_client(&host).is_err());
}

/// Syncing twice leaves the same file content and kernel state as syncing
/// once.
#[test]
fn sync_idempotent() {
    let mut server = WgServer::new(51820);
    server.subnets.push((v4(0x0a080000, 24), WgSubnetConfig::new()));
    let text = server.config_text();
    let mut state = WgKernelState { up: false, config: None };
    sync_apply(&mut state, &text);
    let first_up = state.up;
    let first_config = state.config.clone();
    sync_apply(&mut state, &text);
    assert_eq!(state.up, first_up);
    assert_eq!(state.config, first_config);
}

/// Parsing rejects text that does not re-render to itself.
#[test]
fn parse_rejects_noncanonical() {
    let text = b"[Interface]\nAddress = 10.8.0.0/24\nListenPort = 051820\nPrivateKey = x\n".to_vec();
    assert!(parse_config(&text).is_none());
    let text = b"nonsense".to_vec();
    assert!(parse_config(&text).is_none());
}
