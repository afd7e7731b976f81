//! Detached-signature authentication for RPCs.
//!
//! A request is committed to by its timestamp, a nonce, its body size and
//! the BLAKE3 hash of its body; the commitment is signed with ed25519 under
//! a domain-separation context equal to the hostname the request targets.
//! The verifier accepts a request iff the signature verifies under one of
//! its candidate contexts, the timestamp is within thirty seconds of now,
//! the nonce was not seen in the last sixty seconds, and the body matches
//! the committed size and hash.

use vstd::prelude::*;
use ed25519_dalek::{Signer, Verifier};

use crate::error::ErrorKind;

verus! {

/// What BLAKE3 computes for a byte string.
pub uninterp spec fn blake3_of(data: Seq<u8>) -> Seq<u8>;

/// Relies on blake3::hash: the digest is a function of the bytes alone and
/// is 32 bytes long.
#[verifier::external_body]
pub fn blake3_hash(data: &[u8]) -> (r: Vec<u8>)
    ensures
        r@ == blake3_of(data@),
        r@.len() == 32,
{
    blake3::hash(data).as_bytes().to_vec()
}

/// The ed25519 public key derived from a 32-byte secret.
pub uninterp spec fn ed25519_public_of(secret: Seq<u8>) -> Seq<u8>;

/// The ed25519 signature of a message under a secret key; RFC 8032 signing
/// is deterministic, so it is a function of the two.
pub uninterp spec fn ed25519_signature_of(secret: Seq<u8>, message: Seq<u8>) -> Seq<u8>;

/// Whether a signature verifies for a public key and message.
pub uninterp spec fn ed25519_verifies(public: Seq<u8>, message: Seq<u8>, signature: Seq<u8>) -> bool;

/// Relies on ed25519_dalek::SigningKey::verifying_key: the public key is a
/// function of the secret bytes and is 32 bytes long.
#[verifier::external_body]
pub fn ed25519_public(secret: &[u8; 32]) -> (r: Vec<u8>)
    ensures
        r@ == ed25519_public_of(secret@),
        r@.len() == 32,
{
    let key = ed25519_dalek::SigningKey::from_bytes(secret);
    key.verifying_key().to_bytes().to_vec()
}

/// Relies on ed25519_dalek::SigningKey::sign (RFC 8032): signing is
/// deterministic, yields 64 bytes, and a signature made with a secret key
/// verifies under its public key.
#[verifier::external_body]
pub fn ed25519_sign(secret: &[u8; 32], message: &[u8]) -> (r: Vec<u8>)
    ensures
        r@ == ed25519_signature_of(secret@, message@),
        r@.len() == 64,
        ed25519_verifies(ed25519_public_of(secret@), message@, r@),
{
    let key = ed25519_dalek::SigningKey::from_bytes(secret);
    key.sign(message).to_bytes().to_vec()
}

/// Relies on ed25519_dalek::VerifyingKey::verify: verification is a
/// function of key, message and signature bytes; a byte string that is not
/// a valid public key verifies nothing.
#[verifier::external_body]
pub fn ed25519_verify(public: &[u8], message: &[u8], signature: &[u8]) -> (r: bool)
    ensures
        r == ed25519_verifies(public@, message@, signature@),
{
    if public.len() != 32 || signature.len() != 64 {
        return false;
    }
    let mut pk = [0u8; 32];
    pk.copy_from_slice(public);
    let mut sig = [0u8; 64];
    sig.copy_from_slice(signature);
    match ed25519_dalek::VerifyingKey::from_bytes(&pk) {
        Ok(key) => key.verify(message, &ed25519_dalek::Signature::from_bytes(&sig)).is_ok(),
        Err(_) => false,
    }
}

/// Mathematical image of a [`RequestCommitment`].
pub struct CommitmentView {
    pub timestamp: i64,
    pub nonce: u64,
    pub size: u64,
    pub blake3: Seq<u8>,
}

/// What a signer commits to: the request's timestamp, an anti-replay nonce,
/// the body size, and the BLAKE3 hash of the body.
#[derive(Debug)]
pub struct RequestCommitment {
    pub timestamp: i64,
    pub nonce: u64,
    pub size: u64,
    pub blake3: Vec<u8>,
}

impl View for RequestCommitment {
    type V = CommitmentView;

    open spec fn view(&self) -> CommitmentView {
        CommitmentView {
            timestamp: self.timestamp,
            nonce: self.nonce,
            size: self.size,
            blake3: self.blake3@,
        }
    }
}

impl CommitmentView {
    pub open spec fn wf(self) -> bool {
        self.blake3.len() == 32
    }
}

/// Little-endian bytes of a 64-bit value.
pub open spec fn spec_u64_le(n: u64) -> Seq<u8> {
    Seq::new(8, |i: int| ((n >> (8 * i)) & 0xff) as u8)
}

/// Little-endian rendering of a 64-bit value.
pub fn u64_le(n: u64) -> (r: Vec<u8>)
    ensures
        r@ == spec_u64_le(n),
{
    let mut r: Vec<u8> = Vec::new();
    let mut k: u64 = 0;
    while k < 8
        invariant
            k <= 8,
            r@.len() == k,
            forall|i: int| 0 <= i < k ==> #[trigger] r@[i] == ((n >> (8 * i)) & 0xff) as u8,
        decreases 8 - k,
    {
        proof {
            assert((n >> (8 * k)) & 0xff < 256) by (bit_vector);
        }
        r.push(((n >> (8 * k)) & 0xff) as u8);
        k = k + 1;
    }
    proof {
        assert(r@ =~= spec_u64_le(n));
    }
    r
}

/// The magnitude of a timestamp, with its sign split off so the encoding
/// never overflows.
pub open spec fn spec_ts_parts(ts: i64) -> (u8, u64) {
    if ts >= 0 {
        (0u8, ts as u64)
    } else {
        (1u8, (0 - ts as int) as u64)
    }
}

/// The canonical byte string a commitment is signed over, bound to a
/// domain-separation context: sign byte and magnitude of the timestamp, the
/// nonce, the size, the body hash, and the context, each field fixed-width
/// or length-prefixed so distinct inputs never collide.
pub open spec fn spec_commitment_message(context: Seq<u8>, c: CommitmentView) -> Seq<u8> {
    seq![spec_ts_parts(c.timestamp).0] + spec_u64_le(spec_ts_parts(c.timestamp).1) + spec_u64_le(
        c.nonce,
    ) + spec_u64_le(c.size) + c.blake3 + spec_u64_le(context.len() as u64) + context
}

impl RequestCommitment {
    /// The bytes to sign for this commitment under `context`.
    pub fn message(&self, context: &[u8]) -> (r: Vec<u8>)
        requires
            self@.wf(),
            context@.len() <= u64::MAX,
        ensures
            r@ == spec_commitment_message(context@, self@),
    {
        let mut r: Vec<u8> = Vec::new();
        let (sign, mag): (u8, u64) = if self.timestamp >= 0 {
            (0, self.timestamp as u64)
        } else {
            let mag = if self.timestamp == i64::MIN {
                9223372036854775808u64
            } else {
                (-self.timestamp) as u64
            };
            (1, mag)
        };
        proof {
            assert((sign, mag) == spec_ts_parts(self.timestamp));
        }
        r.push(sign);
        let mut part = u64_le(mag);
        r.append(&mut part);
        let mut part = u64_le(self.nonce);
        r.append(&mut part);
        let mut part = u64_le(self.size);
        r.append(&mut part);
        let mut hash = Vec::new();
        let n = self.blake3.len();
        let mut i: usize = 0;
        while i < n
            invariant
                i <= n,
                n == self.blake3@.len(),
                hash@ == self.blake3@.take(i as int),
            decreases n - i,
        {
            hash.push(self.blake3[i]);
            proof {
                assert(hash@ =~= self.blake3@.take(i as int + 1));
            }
            i = i + 1;
        }
        proof {
            assert(self.blake3@.take(n as int) =~= self.blake3@);
        }
        r.append(&mut hash);
        let mut part = u64_le(context.len() as u64);
        r.append(&mut part);
        let mut ctx = Vec::new();
        let m = context.len();
        let mut j: usize = 0;
        while j < m
            invariant
                j <= m,
                m == context@.len(),
                ctx@ == context@.take(j as int),
            decreases m - j,
        {
            ctx.push(context[j]);
            proof {
                assert(ctx@ =~= context@.take(j as int + 1));
            }
            j = j + 1;
        }
        proof {
            assert(context@.take(m as int) =~= context@);
        }
        r.append(&mut ctx);
        proof {
            assert(r@ =~= spec_commitment_message(context@, self@));
        }
        r
    }
}

/// The signed header a request carries: the commitment, the signer's public
/// key, and the signature.
#[derive(Debug)]
pub struct SignatureHeader {
    pub commitment: RequestCommitment,
    pub signer: Vec<u8>,
    pub signature: Vec<u8>,
}

/// Per-request metadata of the signature middleware: whether the handler
/// wants the verified signer passed through.
#[derive(Clone, Copy, Debug, PartialEq, Eq, Structural)]
pub struct Metadata {
    pub get_signer: bool,
}

impl SignatureHeader {
    pub open spec fn wf(self) -> bool {
        &&& self.commitment@.wf()
        &&& self.signer@.len() == 32
        &&& self.signature@.len() == 64
    }

    /// Sign a body under `context` at the given time with the given nonce.
    /// The produced header verifies under the signer's public key for the
    /// same context.
    pub fn sign(secret: &[u8; 32], body: &[u8], context: &[u8], timestamp: i64, nonce: u64) -> (r:
        SignatureHeader)
        requires
            body@.len() <= u64::MAX,
            context@.len() <= u64::MAX,
        ensures
            r.wf(),
            r.commitment@.timestamp == timestamp,
            r.commitment@.nonce == nonce,
            r.commitment@.size == body@.len(),
            r.commitment@.blake3 == blake3_of(body@),
            r.signer@ == ed25519_public_of(secret@),
            r.signature@ == ed25519_signature_of(
                secret@,
                spec_commitment_message(context@, r.commitment@),
            ),
            ed25519_verifies(
                r.signer@,
                spec_commitment_message(context@, r.commitment@),
                r.signature@,
            ),
    {
        let commitment = RequestCommitment {
            timestamp,
            nonce,
            size: body.len() as u64,
            blake3: blake3_hash(body),
        };
        let message = commitment.message(context);
        let signer = ed25519_public(secret);
        let signature = ed25519_sign(secret, message.as_slice());
        SignatureHeader { commitment, signer, signature }
    }
}

/// What one accepted nonce does to the cache: from `now` on, the nonce is
/// live for sixty seconds, every other liveness question is answered as
/// before, and stale entries are swept.
pub open spec fn nonce_burned(pre: Seq<(i64, u64)>, post: Seq<(i64, u64)>, now: i64, nonce: u64) -> bool {
    forall|n: u64, t: i64|
        #![trigger nonce_live(post, t, n)]
        t >= now ==> (nonce_live(post, t, n) == (nonce_live(pre, t, n) || (n == nonce && t - now
            <= 60)))
}

/// The replay cache: nonces seen recently, each with the time it was seen.
#[derive(Debug)]
pub struct ReplayCache {
    pub entries: Vec<(i64, u64)>,
}

/// A nonce is live in the cache at `now` when an entry carries it and is at
/// most sixty seconds old.
pub open spec fn nonce_live(entries: Seq<(i64, u64)>, now: i64, nonce: u64) -> bool {
    exists|k: int|
        0 <= k < entries.len() && (#[trigger] entries[k]).1 == nonce && now - entries[k].0 <= 60
}

impl ReplayCache {
    pub fn new() -> (r: ReplayCache)
        ensures
            r.entries@.len() == 0,
    {
        ReplayCache { entries: Vec::new() }
    }

    /// Sweep entries older than sixty seconds, then reject a nonce seen in
    /// the last sixty seconds and record a fresh one.
    pub fn handle_nonce(&mut self, now: i64, nonce: u64) -> (r: Result<(), ErrorKind>)
        requires
            now >= i64::MIN + 60,
        ensures
            match r {
                Ok(()) => {
                    &&& !nonce_live(old(self).entries@, now, nonce)
                    &&& nonce_burned(old(self).entries@, final(self).entries@, now, nonce)
                },
                Err(k) => {
                    &&& k == ErrorKind::Auth
                    &&& nonce_live(old(self).entries@, now, nonce)
                    &&& final(self).entries@ == old(self).entries@
                },
            },
    {
        let ghost pre = self.entries@;
        let n = self.entries.len();
        let mut k: usize = 0;
        while k < n
            invariant
                k <= n,
                n == pre.len(),
                self.entries@ == pre,
                now >= i64::MIN + 60,
                forall|t: int|
                    0 <= t < k ==> !((#[trigger] pre[t]).1 == nonce && now - pre[t].0 <= 60),
            decreases n - k,
        {
            let entry = self.entries[k];
            if entry.1 == nonce && entry.0 >= now - 60 {
                return Err(ErrorKind::Auth);
            }
            k = k + 1;
        }
        // not live: sweep stale entries, then record this nonce
        let mut kept: Vec<(i64, u64)> = Vec::new();
        let mut t: usize = 0;
        while t < n
            invariant
                t <= n,
                n == pre.len(),
                self.entries@ == pre,
                now >= i64::MIN + 60,
                forall|u: int| 0 <= u < kept@.len() ==> pre.contains(#[trigger] kept@[u])
                    && now - kept@[u].0 <= 60,
                forall|u: int|
                    0 <= u < t ==> (now - (#[trigger] pre[u]).0 > 60 || kept@.contains(pre[u])),
            decreases n - t,
        {
            let entry = self.entries[t];
            if entry.0 >= now - 60 {
                let ghost kpre = kept@;
                kept.push(entry);
                proof {
                    assert(kept@.last() == pre[t as int]);
                    assert forall|u: int|
                        0 <= u < t + 1 implies (now - (#[trigger] pre[u]).0 > 60 || kept@.contains(
                        pre[u],
                    )) by {
                        if u < t {
                            if now - pre[u].0 <= 60 {
                                let w = choose|w: int|
                                    0 <= w < kpre.len() && kpre[w] == pre[u];
                                assert(kept@[w] == pre[u]);
                            }
                        } else {
                            assert(kept@[kept@.len() - 1] == pre[u]);
                        }
                    }
                }
            }
            t = t + 1;
        }
        let ghost swept = kept@;
        kept.push((now, nonce));
        self.entries = kept;
        proof {
            let fin = self.entries@;
            assert(fin == swept.push((now, nonce)));
            assert(fin.last() == (now, nonce));
            assert forall|nn: u64, tt: i64|
                #![trigger nonce_live(fin, tt, nn)]
                tt >= now implies (nonce_live(fin, tt, nn) == (nonce_live(pre, tt, nn) || (nn
                == nonce && tt - now <= 60))) by {
                if nonce_live(fin, tt, nn) {
                    let w = choose|w: int|
                        0 <= w < fin.len() && (#[trigger] fin[w]).1 == nn && tt - fin[w].0 <= 60;
                    if w < fin.len() - 1 {
                        assert(fin[w] == swept[w]);
                        assert(pre.contains(swept[w]));
                        let u = choose|u: int| 0 <= u < pre.len() && pre[u] == swept[w];
                        assert(pre[u].1 == nn && tt - pre[u].0 <= 60);
                        assert(nonce_live(pre, tt, nn));
                    } else {
                        assert(fin[w] == (now, nonce));
                    }
                }
                if nonce_live(pre, tt, nn) {
                    let u = choose|u: int|
                        0 <= u < pre.len() && (#[trigger] pre[u]).1 == nn && tt - pre[u].0 <= 60;
                    assert(now - pre[u].0 <= 60) by {
                        assert(tt >= now && tt - pre[u].0 <= 60);
                    }
                    assert(swept.contains(pre[u]));
                    let w = choose|w: int| 0 <= w < swept.len() && swept[w] == pre[u];
                    assert(fin[w] == swept[w]);
                    assert(fin[w].1 == nn && tt - fin[w].0 <= 60);
                    assert(nonce_live(fin, tt, nn));
                }
                if nn == nonce && tt - now <= 60 {
                    assert(fin[fin.len() - 1].1 == nn && tt - fin[fin.len() - 1].0 <= 60);
                    assert(nonce_live(fin, tt, nn));
                }
            }
        }
        Ok(())
    }
}

/// Verify a signed request against the candidate contexts, the clock, the
/// replay cache and the body. Accepts iff the signature verifies under some
/// context, the timestamp is within thirty seconds of `now`, the nonce is
/// fresh, and the body has the committed size and hash. A fresh nonce is
/// burned for the next sixty seconds as soon as it passes — before the body
/// is checked — so even a request that then fails the body check cannot be
/// replayed.
pub fn verify_request(
    header: &SignatureHeader,
    contexts: &Vec<Vec<u8>>,
    now: i64,
    cache: &mut ReplayCache,
    body: &[u8],
) -> (r: Result<(), ErrorKind>)
    requires
        header.wf(),
        forall|k: int| 0 <= k < contexts@.len() ==> (#[trigger] contexts@[k])@.len() <= u64::MAX,
        i64::MIN + 60 <= now <= i64::MAX - 60,
        body@.len() <= u64::MAX,
    ensures
        match r {
            Ok(()) => {
                &&& exists|k: int|
                    0 <= k < contexts@.len() && ed25519_verifies(
                        header.signer@,
                        spec_commitment_message((#[trigger] contexts@[k])@, header.commitment@),
                        header.signature@,
                    )
                &&& -30 <= now - header.commitment@.timestamp <= 30
                &&& !nonce_live(old(cache).entries@, now, header.commitment@.nonce)
                &&& body@.len() == header.commitment@.size
                &&& blake3_of(body@) == header.commitment@.blake3
                &&& nonce_burned(old(cache).entries@, final(cache).entries@, now, header.commitment@.nonce)
            },
            Err(k) => {
                &&& k == ErrorKind::Auth
                &&& !(exists|k: int|
                    0 <= k < contexts@.len() && ed25519_verifies(
                        header.signer@,
                        spec_commitment_message((#[trigger] contexts@[k])@, header.commitment@),
                        header.signature@,
                    )) || !(-30 <= now - header.commitment@.timestamp <= 30) || nonce_live(
                    old(cache).entries@,
                    now,
                    header.commitment@.nonce,
                ) || body@.len() != header.commitment@.size || blake3_of(body@)
                    != header.commitment@.blake3
                &&& if (exists|k: int|
                    0 <= k < contexts@.len() && ed25519_verifies(
                        header.signer@,
                        spec_commitment_message((#[trigger] contexts@[k])@, header.commitment@),
                        header.signature@,
                    )) && -30 <= now - header.commitment@.timestamp <= 30 && !nonce_live(
                    old(cache).entries@,
                    now,
                    header.commitment@.nonce,
                ) {
                    // every check up to the nonce passed: the nonce was
                    // burned before the body was found wrong
                    nonce_burned(
                        old(cache).entries@,
                        final(cache).entries@,
                        now,
                        header.commitment@.nonce,
                    )
                } else {
                    final(cache).entries@ == old(cache).entries@
                }
            },
        },
{
    // 1. the signature must verify under some candidate context
    if !some_context_verifies(header, contexts) {
        return Err(ErrorKind::Auth);
    }
    // 2. the timestamp must be within thirty seconds of now
    let ts = header.commitment.timestamp;
    if ts > now {
        if ts > now + 30 {
            return Err(ErrorKind::Auth);
        }
    } else {
        if ts < now - 30 {
            return Err(ErrorKind::Auth);
        }
    }
    // 3. the nonce must be fresh; a fresh one is burned here
    match cache.handle_nonce(now, header.commitment.nonce) {
        Ok(()) => {},
        Err(k) => {
            return Err(k);
        },
    }
    // 4. the body must have the committed size and hash
    if body.len() as u64 != header.commitment.size {
        return Err(ErrorKind::Auth);
    }
    let digest = blake3_hash(body);
    if !bytes_eq(digest.as_slice(), header.commitment.blake3.as_slice()) {
        return Err(ErrorKind::Auth);
    }
    Ok(())
}

/// Whether the header's signature verifies under one of the candidate
/// contexts.
fn some_context_verifies(header: &SignatureHeader, contexts: &Vec<Vec<u8>>) -> (r: bool)
    requires
        header.wf(),
        forall|k: int| 0 <= k < contexts@.len() ==> (#[trigger] contexts@[k])@.len() <= u64::MAX,
    ensures
        r == exists|k: int|
            0 <= k < contexts@.len() && ed25519_verifies(
                header.signer@,
                spec_commitment_message((#[trigger] contexts@[k])@, header.commitment@),
                header.signature@,
            ),
{
    let n = contexts.len();
    let mut k: usize = 0;
    while k < n
        invariant
            k <= n,
            n == contexts@.len(),
            header.wf(),
            forall|t: int| 0 <= t < contexts@.len() ==> (#[trigger] contexts@[t])@.len()
                <= u64::MAX,
            forall|t: int|
                0 <= t < k ==> !ed25519_verifies(
                    header.signer@,
                    spec_commitment_message((#[trigger] contexts@[t])@, header.commitment@),
                    header.signature@,
                ),
        decreases n - k,
    {
        let message = header.commitment.message(contexts[k].as_slice());
        if ed25519_verify(
            header.signer.as_slice(),
            message.as_slice(),
            header.signature.as_slice(),
        ) {
            proof {
                assert(ed25519_verifies(
                    header.signer@,
                    spec_commitment_message((#[trigger] contexts@[k as int])@, header.commitment@),
                    header.signature@,
                ));
            }
            return true;
        }
        k = k + 1;
    }
    false
}

/// Byte-for-byte equality of two strings.
pub fn bytes_eq(a: &[u8], b: &[u8]) -> (r: bool)
    ensures
        r == (a@ == b@),
{
    if a.len() != b.len() {
        return false;
    }
    let n = a.len();
    let mut i: usize = 0;
    while i < n
        invariant
            i <= n,
            n == a@.len() && n == b@.len(),
            forall|k: int| 0 <= k < i ==> a@[k] == b@[k],
        decreases n - i,
    {
        if a[i] != b[i] {
            return false;
        }
        i = i + 1;
    }
    proof {
        assert(a@ =~= b@);
    }
    true
}

/// `timestamp=` in bytes.
pub open spec fn spec_seg_timestamp() -> Seq<u8> {
    seq![116u8, 105u8, 109u8, 101u8, 115u8, 116u8, 97u8, 109u8, 112u8, 61u8]
}

/// `&nonce=` in bytes.
pub open spec fn spec_seg_nonce() -> Seq<u8> {
    seq![38u8, 110u8, 111u8, 110u8, 99u8, 101u8, 61u8]
}

/// `&size=` in bytes.
pub open spec fn spec_seg_size() -> Seq<u8> {
    seq![38u8, 115u8, 105u8, 122u8, 101u8, 61u8]
}

/// `&blake3=` in bytes.
pub open spec fn spec_seg_blake3() -> Seq<u8> {
    seq![38u8, 98u8, 108u8, 97u8, 107u8, 101u8, 51u8, 61u8]
}

/// `&signer=` in bytes.
pub open spec fn spec_seg_signer() -> Seq<u8> {
    seq![38u8, 115u8, 105u8, 103u8, 110u8, 101u8, 114u8, 61u8]
}

/// `&signature=` in bytes.
pub open spec fn spec_seg_signature() -> Seq<u8> {
    seq![38u8, 115u8, 105u8, 103u8, 110u8, 97u8, 116u8, 117u8, 114u8, 101u8, 61u8]
}

fn seg_timestamp() -> (r: Vec<u8>)
    ensures
        r@ == spec_seg_timestamp(),
{
    let mut r: Vec<u8> = Vec::new();
    r.push(116);
    r.push(105);
    r.push(109);
    r.push(101);
    r.push(115);
    r.push(116);
    r.push(97);
    r.push(109);
    r.push(112);
    r.push(61);
    proof {
        assert(r@ =~= spec_seg_timestamp());
    }
    r
}

fn seg_nonce() -> (r: Vec<u8>)
    ensures
        r@ == spec_seg_nonce(),
{
    let mut r: Vec<u8> = Vec::new();
    r.push(38);
    r.push(110);
    r.push(111);
    r.push(110);
    r.push(99);
    r.push(101);
    r.push(61);
    proof {
        assert(r@ =~= spec_seg_nonce());
    }
    r
}

fn seg_size() -> (r: Vec<u8>)
    ensures
        r@ == spec_seg_size(),
{
    let mut r: Vec<u8> = Vec::new();
    r.push(38);
    r.push(115);
    r.push(105);
    r.push(122);
    r.push(101);
    r.push(61);
    proof {
        assert(r@ =~= spec_seg_size());
    }
    r
}

fn seg_blake3() -> (r: Vec<u8>)
    ensures
        r@ == spec_seg_blake3(),
{
    let mut r: Vec<u8> = Vec::new();
    r.push(38);
    r.push(98);
    r.push(108);
    r.push(97);
    r.push(107);
    r.push(101);
    r.push(51);
    r.push(61);
    proof {
        assert(r@ =~= spec_seg_blake3());
    }
    r
}

fn seg_signer() -> (r: Vec<u8>)
    ensures
        r@ == spec_seg_signer(),
{
    let mut r: Vec<u8> = Vec::new();
    r.push(38);
    r.push(115);
    r.push(105);
    r.push(103);
    r.push(110);
    r.push(101);
    r.push(114);
    r.push(61);
    proof {
        assert(r@ =~= spec_seg_signer());
    }
    r
}

fn seg_signature() -> (r: Vec<u8>)
    ensures
        r@ == spec_seg_signature(),
{
    let mut r: Vec<u8> = Vec::new();
    r.push(38);
    r.push(115);
    r.push(105);
    r.push(103);
    r.push(110);
    r.push(97);
    r.push(116);
    r.push(117);
    r.push(114);
    r.push(101);
    r.push(61);
    proof {
        assert(r@ =~= spec_seg_signature());
    }
    r
}

/// Decimal bytes of a signed 64-bit value: the magnitude behind a minus
/// sign when negative.
pub open spec fn spec_dec_i64(t: i64) -> Seq<u8> {
    if t >= 0 {
        crate::text::spec_dec(t as nat)
    } else {
        seq![45u8] + crate::text::spec_dec((0 - t as int) as nat)
    }
}

fn render_dec_i64(t: i64) -> (r: Vec<u8>)
    ensures
        r@ == spec_dec_i64(t),
{
    if t >= 0 {
        crate::text::render_dec(t as u64)
    } else {
        let mag: u64 = ((-1 - t) as u64) + 1;
        proof {
            assert(mag as int == 0 - t as int);
        }
        let mut r: Vec<u8> = Vec::new();
        r.push(45);
        let mut part = crate::text::render_dec(mag);
        r.append(&mut part);
        proof {
            assert(r@ =~= seq![45u8] + crate::text::spec_dec(mag as nat));
        }
        r
    }
}

/// The canonical text of a signature header: the commitment's fields, the
/// signer and the signature, query-encoded under their wire names, integers
/// in decimal and byte fields in lowercase hex.
pub open spec fn spec_auth_header(c: CommitmentView, signer: Seq<u8>, signature: Seq<u8>) -> Seq<
    u8,
> {
    spec_seg_timestamp() + spec_dec_i64(c.timestamp) + spec_seg_nonce() + crate::text::spec_dec(
        c.nonce as nat,
    ) + spec_seg_size() + crate::text::spec_dec(c.size as nat) + spec_seg_blake3()
        + crate::text::spec_hex(c.blake3) + spec_seg_signer() + crate::text::spec_hex(signer)
        + spec_seg_signature() + crate::text::spec_hex(signature)
}

/// Render the signature header text carried in the request's auth header.
pub fn render_auth_header(h: &SignatureHeader) -> (r: Vec<u8>)
    ensures
        r@ == spec_auth_header(h.commitment@, h.signer@, h.signature@),
{
    let mut r = seg_timestamp();
    let mut part = render_dec_i64(h.commitment.timestamp);
    r.append(&mut part);
    let mut part = seg_nonce();
    r.append(&mut part);
    let mut part = crate::text::render_dec(h.commitment.nonce);
    r.append(&mut part);
    let mut part = seg_size();
    r.append(&mut part);
    let mut part = crate::text::render_dec(h.commitment.size);
    r.append(&mut part);
    let mut part = seg_blake3();
    r.append(&mut part);
    let mut part = crate::text::render_hex(h.commitment.blake3.as_slice());
    r.append(&mut part);
    let mut part = seg_signer();
    r.append(&mut part);
    let mut part = crate::text::render_hex(h.signer.as_slice());
    r.append(&mut part);
    let mut part = seg_signature();
    r.append(&mut part);
    let mut part = crate::text::render_hex(h.signature.as_slice());
    r.append(&mut part);
    r
}

/// Index just past `label` when it stands at `start` in `text`.
fn match_label(text: &Vec<u8>, start: usize, label: &Vec<u8>) -> (r: Option<usize>)
    requires
        start <= text@.len(),
    ensures
        r matches Some(j) ==> start <= j <= text@.len(),
{
    let tn = text.len();
    if tn - start < label.len() {
        return None;
    }
    let n = label.len();
    let mut k: usize = 0;
    while k < n
        invariant
            k <= n,
            n == label@.len(),
            tn == text@.len(),
            start + n <= tn,
        decreases n - k,
    {
        if text[start + k] != label[k] {
            return None;
        }
        k = k + 1;
    }
    Some(start + n)
}

/// The bytes from `start` up to the next `&` or the end, and the index of
/// that boundary.
fn read_field(text: &Vec<u8>, start: usize) -> (r: (Vec<u8>, usize))
    requires
        start <= text@.len(),
    ensures
        start <= r.1 <= text@.len(),
{
    let mut v: Vec<u8> = Vec::new();
    let mut i = start;
    while i < text.len()
        invariant
            start <= i <= text@.len(),
        decreases text@.len() - i,
    {
        if text[i] == 38 {
            return (v, i);
        }
        v.push(text[i]);
        i = i + 1;
    }
    (v, i)
}

/// Best-effort parse of a signed decimal; `parse_auth_header` checks the
/// result by re-rendering, so nothing more is claimed of it.
fn parse_dec_i64(s: &Vec<u8>) -> Option<i64> {
    if s.len() == 0 {
        return None;
    }
    if s[0] == 45 {
        let mut mag_bytes: Vec<u8> = Vec::new();
        let mut i: usize = 1;
        while i < s.len()
            decreases s@.len() - i,
        {
            mag_bytes.push(s[i]);
            i = i + 1;
        }
        let mag = crate::text::parse_dec(mag_bytes.as_slice())?;
        if mag == 0 || mag > (i64::MAX as u64) {
            return None;
        }
        Some(0i64 - (mag as i64))
    } else {
        let v = crate::text::parse_dec(s.as_slice())?;
        if v > (i64::MAX as u64) {
            return None;
        }
        Some(v as i64)
    }
}

/// Best-effort structural parse; `parse_auth_header` checks its result by
/// re-rendering, so nothing more is claimed of it than well-formedness.
fn parse_auth_loose(text: &Vec<u8>) -> (r: Option<SignatureHeader>)
    ensures
        r matches Some(h) ==> h.wf(),
{
    let label = seg_timestamp();
    let i = match_label(text, 0, &label)?;
    let (field, i) = read_field(text, i);
    let timestamp = parse_dec_i64(&field)?;
    let label = seg_nonce();
    let i = match_label(text, i, &label)?;
    let (field, i) = read_field(text, i);
    let nonce = crate::text::parse_dec(field.as_slice())?;
    let label = seg_size();
    let i = match_label(text, i, &label)?;
    let (field, i) = read_field(text, i);
    let size = crate::text::parse_dec(field.as_slice())?;
    let label = seg_blake3();
    let i = match_label(text, i, &label)?;
    let (field, i) = read_field(text, i);
    let blake3 = crate::text::parse_hex(field.as_slice())?;
    if blake3.len() != 32 {
        return None;
    }
    let label = seg_signer();
    let i = match_label(text, i, &label)?;
    let (field, i) = read_field(text, i);
    let signer = crate::text::parse_hex(field.as_slice())?;
    if signer.len() != 32 {
        return None;
    }
    let label = seg_signature();
    let i = match_label(text, i, &label)?;
    let (field, i) = read_field(text, i);
    let signature = crate::text::parse_hex(field.as_slice())?;
    if signature.len() != 64 {
        return None;
    }
    if i != text.len() {
        return None;
    }
    Some(
        SignatureHeader {
            commitment: RequestCommitment { timestamp, nonce, size, blake3 },
            signer,
            signature,
        },
    )
}

/// Parse a signature header text. A successful parse is exact: rendering
/// the result reproduces the input byte for byte, so a header cannot be
/// smuggled in under a second spelling of the same fields.
pub fn parse_auth_header(text: &Vec<u8>) -> (r: Option<SignatureHeader>)
    ensures
        r matches Some(h) ==> (h.wf() && spec_auth_header(h.commitment@, h.signer@, h.signature@)
            == text@),
{
    let candidate = parse_auth_loose(text)?;
    let rendered = render_auth_header(&candidate);
    if bytes_eq(rendered.as_slice(), text.as_slice()) {
        proof {
            assert(rendered@ == text@);
        }
        Some(candidate)
    } else {
        None
    }
}

} // verus!
