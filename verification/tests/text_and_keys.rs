use startos_net::binding::{BindInfo, BindOptions};
use startos_net::forward::AvailablePorts;
use startos_net::hosts::check_duplicates;
use startos_net::iroh::{IrohAddress, IrohKeyStore, IrohSecretKey};
use startos_net::text::{ascii_lowercase, parse_dec, parse_hex, render_dec, render_hex};

/// Decimal and hex rendering parse back to what they rendered.
#[test]
fn text_round_trips() {
    for n in [0u64, 1, 9, 10, 255, 65535, u64::MAX] {
        let text = render_dec(n);
        assert_eq!(parse_dec(text.as_slice()), Some(n));
    }
    assert_eq!(parse_dec(b"007"), None);
    assert_eq!(parse_dec(b""), None);
    assert_eq!(parse_dec(b"1x"), None);
    assert_eq!(parse_dec(b"18446744073709551616"), None); // one past the maximum

    let bytes = vec![0u8, 15, 16, 255, 171];
    let hex = render_hex(bytes.as_slice());
    assert_eq!(hex, b"000f10ffab".to_vec());
    assert_eq!(parse_hex(hex.as_slice()), Some(bytes));
    assert_eq!(parse_hex(b"0F10FFAB"), parse_hex(b"0f10ffab"));
    assert_eq!(parse_hex(b"abc"), None);
    assert_eq!(parse_hex(b"zz"), None);

    assert_eq!(ascii_lowercase(b"Home.EXAMPLE"), b"home.example".to_vec());
}

/// An iroh address survives its textual form, which carries the public
/// domain suffix; the key store hands keys back under their address.
#[test]
fn iroh_addresses_and_store() {
    let key = IrohSecretKey::generate();
    let addr = key.iroh_address();
    let text = addr.to_display_bytes();
    let s = String::from_utf8(text.clone()).unwrap();
    assert!(s.starts_with("iroh1"));
    assert!(s.ends_with(".p2p.start9.to"));
    let back = IrohAddress::from_display_bytes(&text).unwrap();
    assert_eq!(back.0, addr.0);
    assert!(IrohAddress::from_display_bytes(&b"iroh1abc.example.com".to_vec()).is_err());

    let mut store = IrohKeyStore::new();
    let key = store.new_key();
    let addr = key.iroh_address();
    let held = store.get_key(&addr).unwrap();
    assert_eq!(held.0, key.0);
    let other = IrohSecretKey::generate();
    store.insert_key(&other);
    assert_eq!(store.rows.len(), 2);
    let missing = IrohAddress(vec![0u8; 32]);
    assert!(store.get_key(&missing).is_err());
}

/// A duplicated address across hosts is refused; distinct sets pass.
#[test]
fn host_address_uniqueness() {
    let onions = vec![b"abc.onion".to_vec(), b"def.onion".to_vec()];
    let domains = vec![b"a.example".to_vec(), b"b.example".to_vec()];
    assert!(check_duplicates(&onions, &domains).is_ok());
    let dup_domains = vec![b"a.example".to_vec(), b"a.example".to_vec()];
    assert!(check_duplicates(&onions, &dup_domains).is_err());
    let dup_onions = vec![b"abc.onion".to_vec(), b"abc.onion".to_vec()];
    assert!(check_duplicates(&dup_onions, &domains).is_err());
}

/// Binding creation draws ports per its options; at most one assigned port
/// elides SSL.
#[test]
fn bind_info_ports() {
    let mut pool = AvailablePorts::new();
    let options = BindOptions {
        preferred_external_port: 80,
        add_ssl: None,
        secure: None,
    };
    let bind = BindInfo::new(&mut pool, options).unwrap();
    assert!(bind.enabled);
    assert_eq!(bind.net.assigned_port, Some(49152));
    assert_eq!(bind.net.assigned_ssl_port, None);

    let options = BindOptions {
        preferred_external_port: 443,
        add_ssl: Some(startos_net::binding::AddSslOptions {
            preferred_external_port: 443,
            alpn: None,
        }),
        secure: Some(startos_net::binding::Security { ssl: true }),
    };
    let ssl_bind = BindInfo::new(&mut pool, options).unwrap();
    // secure-with-ssl plus the add-on: only the ssl port is assigned
    assert_eq!(ssl_bind.net.assigned_port, None);
    assert_eq!(ssl_bind.net.assigned_ssl_port, Some(49153));

    // updating to plain options assigns a plain port and keeps none stale
    let options = BindOptions {
        preferred_external_port: 443,
        add_ssl: None,
        secure: None,
    };
    let updated = ssl_bind.update(&mut pool, options).unwrap();
    assert!(updated.net.assigned_port.is_some());
    assert_eq!(updated.net.assigned_ssl_port, None);

    let mut disabled = updated;
    disabled.disable();
    assert!(!disabled.enabled);
}
