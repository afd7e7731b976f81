use startos_net::error::ErrorKind;
use startos_net::signature::{ReplayCache, SignatureHeader, blake3_hash, parse_auth_header, render_auth_header, verify_request};

fn contexts(names: &[&str]) -> Vec<Vec<u8>> {
    names.iter().map(|n| n.as_bytes().to_vec()).collect()
}

/// A signed request verifies shortly after signing; the identical bytes are
/// rejected as a replay; a fresh request reusing the nonce is rejected while
/// the nonce is cached and accepted once the cache window has passed.
#[test]
fn replay_window() {
    let secret = [7u8; 32];
    let body = b"{\"method\":\"echo\"}".to_vec();
    let ctxs = contexts(&["server.local"]);
    let header = SignatureHeader::sign(&secret, &body, b"server.local", 100, 42);
    let mut cache = ReplayCache::new();

    // t = 105: fresh and in time
    assert_eq!(verify_request(&header, &ctxs, 105, &mut cache, &body), Ok(()));
    // t = 110: identical bytes replayed
    assert_eq!(
        verify_request(&header, &ctxs, 110, &mut cache, &body),
        Err(ErrorKind::Auth)
    );
    // t = 150: a fresh request with the same nonce, still cached
    let header2 = SignatureHeader::sign(&secret, &body, b"server.local", 140, 42);
    assert_eq!(
        verify_request(&header2, &ctxs, 150, &mut cache, &body),
        Err(ErrorKind::Auth)
    );
    // t = 170: the cache swept the nonce; a fresh request with it passes
    let header3 = SignatureHeader::sign(&secret, &body, b"server.local", 165, 42);
    assert_eq!(verify_request(&header3, &ctxs, 170, &mut cache, &body), Ok(()));
}

/// Each of the other checks rejects on its own: skewed timestamp, wrong
/// context, tampered body, wrong size.
#[test]
fn verification_checks() {
    let secret = [9u8; 32];
    let body = b"payload".to_vec();
    let ctxs = contexts(&["a.example", "b.example"]);
    // signed for a hostname the verifier also accepts, via the second slot
    let header = SignatureHeader::sign(&secret, &body, b"b.example", 1000, 1);
    let mut cache = ReplayCache::new();
    assert_eq!(verify_request(&header, &ctxs, 1000, &mut cache, &body), Ok(()));

    // timestamp outside the thirty-second window
    let header = SignatureHeader::sign(&secret, &body, b"a.example", 1000, 2);
    let mut cache = ReplayCache::new();
    assert_eq!(
        verify_request(&header, &ctxs, 1031, &mut cache, &body),
        Err(ErrorKind::Auth)
    );
    assert_eq!(verify_request(&header, &ctxs, 1030, &mut cache, &body), Ok(()));

    // signed under a context the verifier does not accept
    let header = SignatureHeader::sign(&secret, &body, b"c.example", 1000, 3);
    let mut cache = ReplayCache::new();
    assert_eq!(
        verify_request(&header, &ctxs, 1000, &mut cache, &body),
        Err(ErrorKind::Auth)
    );

    // body tampered with after signing
    let header = SignatureHeader::sign(&secret, &body, b"a.example", 1000, 4);
    let mut cache = ReplayCache::new();
    assert_eq!(
        verify_request(&header, &ctxs, 1000, &mut cache, b"payloae"),
        Err(ErrorKind::Auth)
    );

    // size mismatch
    let header = SignatureHeader::sign(&secret, &body, b"a.example", 1000, 5);
    let mut cache = ReplayCache::new();
    assert_eq!(
        verify_request(&header, &ctxs, 1000, &mut cache, b"payload-longer"),
        Err(ErrorKind::Auth)
    );
}

/// The digest wrapper really hashes: two bodies differing in one byte carry
/// different commitments, and the commitment matches an independent hash of
/// the body.
#[test]
fn commitment_hashes_body() {
    let secret = [1u8; 32];
    let a = SignatureHeader::sign(&secret, b"aaaa", b"x", 0, 1);
    let b = SignatureHeader::sign(&secret, b"aaab", b"x", 0, 1);
    assert_ne!(a.commitment.blake3, b.commitment.blake3);
    assert_eq!(a.commitment.blake3, blake3_hash(b"aaaa"));
    assert_eq!(a.commitment.size, 4);
}

/// The signature header round-trips through its text form exactly; a second
/// spelling of the same fields is rejected.
#[test]
fn auth_header_codec() {
    let secret = [7u8; 32];
    let header = SignatureHeader::sign(&secret, b"body", b"host.example", 100, 42);
    let text = render_auth_header(&header);
    assert!(text.starts_with(b"timestamp=100&nonce=42&size=4&blake3="));

    let parsed = parse_auth_header(&text).expect("canonical header text must parse");
    assert_eq!(parsed.commitment.timestamp, 100);
    assert_eq!(parsed.commitment.nonce, 42);
    assert_eq!(parsed.commitment.size, 4);
    assert_eq!(parsed.commitment.blake3, header.commitment.blake3);
    assert_eq!(parsed.signer, header.signer);
    assert_eq!(parsed.signature, header.signature);
    assert_eq!(render_auth_header(&parsed), text);

    // a timestamp before the epoch renders with its sign and comes back
    let early = SignatureHeader::sign(&secret, b"body", b"host.example", -5, 1);
    let early_text = render_auth_header(&early);
    assert!(early_text.starts_with(b"timestamp=-5&nonce=1&"));
    let early_parsed = parse_auth_header(&early_text).expect("negative timestamp must parse");
    assert_eq!(early_parsed.commitment.timestamp, -5);

    // the same fields under a padded decimal are rejected
    let mut padded = b"timestamp=0".to_vec();
    padded.extend_from_slice(&text[b"timestamp=".len()..]);
    assert!(parse_auth_header(&padded).is_none());

    // trailing additions are rejected
    let mut trailing = text.clone();
    trailing.extend_from_slice(b"&extra=1");
    assert!(parse_auth_header(&trailing).is_none());

    // uppercase hex is the same fields in a second spelling: rejected
    let hex_start = text
        .windows(b"blake3=".len())
        .position(|w| w == b"blake3=")
        .expect("blake3 field present")
        + b"blake3=".len();
    let hex_letter = (hex_start..hex_start + 64)
        .find(|&i| text[i].is_ascii_lowercase())
        .expect("a hex digest carries a letter");
    let mut upper = text.clone();
    upper[hex_letter] = upper[hex_letter].to_ascii_uppercase();
    assert!(parse_auth_header(&upper).is_none());
}
