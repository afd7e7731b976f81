//! Iroh services: self-describing public-key addresses and the persisted
//! key store that pairs each address with its secret key.

use vstd::prelude::*;
use bech32::Hrp;

use crate::error::ErrorKind;
use crate::signature::{ed25519_public, ed25519_public_of};
use crate::text::spec_ascii_lowercase;

verus! {

/// The textual form bech32m gives a 32-byte key under the `iroh` prefix.
pub uninterp spec fn bech32_iroh_of(key: Seq<u8>) -> Seq<u8>;

/// Relies on bech32::encode_lower with the Bech32m checksum: the text is a
/// function of the bytes alone.
#[verifier::external_body]
fn bech32_encode_iroh(key: &Vec<u8>) -> (r: Vec<u8>)
    requires
        key@.len() == 32,
    ensures
        r@ == bech32_iroh_of(key@),
{
    let hrp = Hrp::parse_unchecked("iroh");
    match bech32::encode_lower::<bech32::Bech32m>(hrp, key.as_slice()) {
        Ok(s) => s.into_bytes(),
        Err(_) => Vec::new(),
    }
}

/// Relies on bech32::decode: on the lowercase Bech32m encoding of any 32
/// bytes under the `iroh` prefix it succeeds and returns exactly those
/// bytes. Nothing is claimed of other inputs the call may also accept (the
/// older checksum, unchecked padding bits): the caller validates a result
/// by re-encoding it.
#[verifier::external_body]
fn bech32_decode_iroh(s: &Vec<u8>) -> (r: Option<Vec<u8>>)
    ensures
        r is None ==> !(exists|v: Seq<u8>| v.len() == 32 && s@ == bech32_iroh_of(v)),
        r matches Some(d) ==> ((exists|v: Seq<u8>| v.len() == 32 && s@ == bech32_iroh_of(v)) ==> (
        d@.len() == 32 && bech32_iroh_of(d@) == s@)),
{
    let text = std::str::from_utf8(s.as_slice()).ok()?;
    let (_hrp, data) = bech32::decode(text).ok()?;
    Some(data)
}

/// Relies on rand::random: 32 fresh secret bytes.
#[verifier::external_body]
fn random_key32() -> [u8; 32] {
    rand::random()
}

/// A service's public address: its 32 public-key bytes.
#[derive(Debug)]
pub struct IrohAddress(pub Vec<u8>);

impl IrohAddress {
    pub open spec fn wf(self) -> bool {
        self.0@.len() == 32
    }

    /// The textual form: the bech32m encoding under the `iroh` prefix, with
    /// the public domain suffix appended.
    pub fn to_display_bytes(&self) -> (r: Vec<u8>)
        requires
            self.wf(),
        ensures
            r@ == bech32_iroh_of(self.0@) + spec_display_suffix(),
    {
        let mut r = bech32_encode_iroh(&self.0);
        let mut suffix = display_suffix();
        r.append(&mut suffix);
        r
    }

    /// Parse the textual form back: strip the suffix, lowercase the rest,
    /// decode it, and accept only when re-encoding the bytes reproduces the
    /// lowercased text. Succeeds exactly on texts whose front (up to ASCII
    /// case) is the encoding of some 32-byte key.
    pub fn from_display_bytes(s: &Vec<u8>) -> (r: Result<IrohAddress, ErrorKind>)
        ensures
            match r {
                Ok(a) => {
                    &&& a.wf()
                    &&& s@.len() >= spec_display_suffix().len()
                    &&& bech32_iroh_of(a.0@) == spec_ascii_lowercase(
                        s@.take(s@.len() - spec_display_suffix().len()),
                    )
                },
                Err(k) => {
                    &&& k == ErrorKind::InvalidConfig
                    &&& !(s@.len() >= spec_display_suffix().len() && s@.skip(
                        s@.len() - spec_display_suffix().len(),
                    ) == spec_display_suffix() && (exists|v: Seq<u8>|
                        v.len() == 32 && spec_ascii_lowercase(
                            s@.take(s@.len() - spec_display_suffix().len()),
                        ) == bech32_iroh_of(v)))
                },
            },
    {
        let suffix = display_suffix();
        if s.len() < suffix.len() {
            return Err(ErrorKind::InvalidConfig);
        }
        let split = s.len() - suffix.len();
        let mut j: usize = split;
        while j < s.len()
            invariant
                split <= j <= s@.len(),
                suffix@.len() <= s@.len(),
                split == s@.len() - suffix@.len(),
                suffix@ == spec_display_suffix(),
                forall|t: int| split <= t < j ==> s@[t] == spec_display_suffix()[t - split],
            decreases s@.len() - j,
        {
            if s[j] != suffix[j - split] {
                proof {
                    assert(s@.skip(split as int)[j - split] != spec_display_suffix()[j - split]);
                }
                return Err(ErrorKind::InvalidConfig);
            }
            j = j + 1;
        }
        proof {
            assert(s@.skip(split as int) =~= spec_display_suffix());
        }
        let mut front: Vec<u8> = Vec::new();
        let mut k: usize = 0;
        while k < split
            invariant
                k <= split,
                split <= s@.len(),
                front@ == s@.take(split as int).take(k as int),
            decreases split - k,
        {
            front.push(s[k]);
            proof {
                assert(s@.take(split as int).take(k as int + 1) =~= s@.take(split as int).take(
                    k as int,
                ).push(s@[k as int]));
            }
            k = k + 1;
        }
        proof {
            assert(s@.take(split as int).take(split as int) =~= s@.take(split as int));
        }
        let lowered = crate::text::ascii_lowercase(front.as_slice());
        match bech32_decode_iroh(&lowered) {
            Some(key) => {
                if key.len() != 32 {
                    return Err(ErrorKind::InvalidConfig);
                }
                let again = bech32_encode_iroh(&key);
                if crate::signature::bytes_eq(again.as_slice(), lowered.as_slice()) {
                    proof {
                        assert(bech32_iroh_of(key@) == spec_ascii_lowercase(
                            s@.take(split as int),
                        ));
                    }
                    Ok(IrohAddress(key))
                } else {
                    proof {
                        if exists|v: Seq<u8>|
                            v.len() == 32 && lowered@ == bech32_iroh_of(v) {
                            assert(false);
                        }
                    }
                    Err(ErrorKind::InvalidConfig)
                }
            },
            None => {
                proof {
                    if exists|v: Seq<u8>| v.len() == 32 && lowered@ == bech32_iroh_of(v) {
                        assert(false);
                    }
                }
                Err(ErrorKind::InvalidConfig)
            },
        }
    }
}

/// The public domain suffix of an address's textual form.
pub open spec fn spec_display_suffix() -> Seq<u8> {
    seq![46u8, 112, 50, 112, 46, 115, 116, 97, 114, 116, 57, 46, 116, 111]
}

/// The fixed text `.p2p.start9.to`.
fn display_suffix() -> (r: Vec<u8>)
    ensures
        r@ == spec_display_suffix(),
{
    let mut r: Vec<u8> = Vec::new();
    r.push(46);
    r.push(112);
    r.push(50);
    r.push(112);
    r.push(46);
    r.push(115);
    r.push(116);
    r.push(97);
    r.push(114);
    r.push(116);
    r.push(57);
    r.push(46);
    r.push(116);
    r.push(111);
    proof {
        assert(r@ =~= spec_display_suffix());
    }
    r
}

/// A service's secret key.
#[derive(Debug)]
pub struct IrohSecretKey(pub [u8; 32]);

impl IrohSecretKey {
    /// The address the key answers for: its public key.
    pub fn iroh_address(&self) -> (r: IrohAddress)
        ensures
            r.wf(),
            r.0@ == ed25519_public_of(self.0@),
    {
        IrohAddress(ed25519_public(&self.0))
    }

    /// A fresh secret key.
    pub fn generate() -> IrohSecretKey {
        IrohSecretKey(random_key32())
    }
}

/// The persisted key store: each held secret under its address, addresses
/// unique.
#[derive(Debug)]
pub struct IrohKeyStore {
    pub rows: Vec<(Vec<u8>, [u8; 32])>,
}

/// The store holds a key whose address bytes are `addr`.
pub open spec fn store_has(rows: Seq<(Vec<u8>, [u8; 32])>, addr: Seq<u8>) -> bool {
    exists|i: int| 0 <= i < rows.len() && (#[trigger] rows[i]).0@ == addr
}

impl IrohKeyStore {
    pub open spec fn wf(self) -> bool {
        &&& forall|i: int, j: int|
            #![trigger self.rows@[i], self.rows@[j]]
            0 <= i < j < self.rows@.len() ==> self.rows@[i].0@ != self.rows@[j].0@
        &&& forall|i: int| 0 <= i < self.rows@.len() ==> (#[trigger] self.rows@[i]).0@
            == ed25519_public_of(self.rows@[i].1@)
    }

    pub fn new() -> (r: IrohKeyStore)
        ensures
            r.wf(),
            r.rows@.len() == 0,
    {
        IrohKeyStore { rows: Vec::new() }
    }

    /// Store a key under its address; a key already stored for that address
    /// is replaced.
    pub fn insert(&mut self, key: IrohSecretKey)
        requires
            old(self).wf(),
        ensures
            final(self).wf(),
            store_has(final(self).rows@, ed25519_public_of(key.0@)),
            forall|a: Seq<u8>|
                #![trigger store_has(final(self).rows@, a)]
                a != ed25519_public_of(key.0@) ==> store_has(final(self).rows@, a) == store_has(
                    old(self).rows@,
                    a,
                ),
    {
        let addr = key.iroh_address();
        let n = self.rows.len();
        let mut i: usize = 0;
        let ghost pre = self.rows@;
        while i < n
            invariant
                i <= n,
                n == pre.len(),
                pre == old(self).rows@,
                self.rows@ == pre,
                old(self).wf(),
                self.wf(),
                addr.0@ == ed25519_public_of(key.0@),
                forall|k: int| 0 <= k < i ==> (#[trigger] pre[k]).0@ != addr.0@,
            decreases n - i,
        {
            if crate::signature::bytes_eq(self.rows[i].0.as_slice(), addr.0.as_slice()) {
                self.rows.set(i, (addr.0, key.0));
                proof {
                    let fin = self.rows@;
                    assert(fin[i as int].0@ == ed25519_public_of(key.0@));
                    assert forall|a1: int, b1: int|
                        #![trigger fin[a1], fin[b1]]
                        0 <= a1 < b1 < fin.len() implies fin[a1].0@ != fin[b1].0@ by {
                        if a1 != i as int && b1 != i as int {
                            assert(fin[a1] == pre[a1] && fin[b1] == pre[b1]);
                        } else if a1 == i as int {
                            assert(fin[b1] == pre[b1]);
                            assert(pre[i as int].0@ != pre[b1].0@);
                        } else {
                            assert(fin[a1] == pre[a1]);
                            assert(pre[a1].0@ != pre[i as int].0@);
                        }
                    }
                    assert forall|a: Seq<u8>|
                        #![trigger store_has(fin, a)]
                        a != ed25519_public_of(key.0@) implies store_has(fin, a) == store_has(
                        pre,
                        a,
                    ) by {
                        if store_has(fin, a) {
                            let w = choose|w: int|
                                0 <= w < fin.len() && (#[trigger] fin[w]).0@ == a;
                            assert(w != i);
                            assert(fin[w] == pre[w]);
                        }
                        if store_has(pre, a) {
                            let w = choose|w: int|
                                0 <= w < pre.len() && (#[trigger] pre[w]).0@ == a;
                            assert(w != i);
                            assert(fin[w] == pre[w]);
                            assert(store_has(fin, a));
                        }
                    }
                }
                return ;
            }
            i = i + 1;
        }
        self.rows.push((addr.0, key.0));
        proof {
            let fin = self.rows@;
            assert(fin.last().0@ == ed25519_public_of(key.0@));
            assert(store_has(fin, ed25519_public_of(key.0@)));
            assert forall|a1: int, b1: int|
                #![trigger fin[a1], fin[b1]]
                0 <= a1 < b1 < fin.len() implies fin[a1].0@ != fin[b1].0@ by {
                if b1 == fin.len() - 1 {
                    assert(fin[a1] == pre[a1]);
                } else {
                    assert(fin[a1] == pre[a1] && fin[b1] == pre[b1]);
                }
            }
            assert forall|a: Seq<u8>|
                #![trigger store_has(fin, a)]
                a != ed25519_public_of(key.0@) implies store_has(fin, a) == store_has(pre, a) by {
                if store_has(fin, a) {
                    let w = choose|w: int| 0 <= w < fin.len() && (#[trigger] fin[w]).0@ == a;
                    assert(w < pre.len() && fin[w] == pre[w]);
                }
                if store_has(pre, a) {
                    let w = choose|w: int| 0 <= w < pre.len() && (#[trigger] pre[w]).0@ == a;
                    assert(fin[w] == pre[w]);
                }
            }
        }
    }

    /// Generate a fresh key, store it, and hand it back.
    pub fn new_key(&mut self) -> (r: IrohSecretKey)
        requires
            old(self).wf(),
        ensures
            final(self).wf(),
            store_has(final(self).rows@, ed25519_public_of(r.0@)),
            forall|a: Seq<u8>|
                #![trigger store_has(final(self).rows@, a)]
                a != ed25519_public_of(r.0@) ==> store_has(final(self).rows@, a) == store_has(
                    old(self).rows@,
                    a,
                ),
    {
        let key = IrohSecretKey::generate();
        let copy = IrohSecretKey(key.0);
        self.insert(copy);
        key
    }

    /// Store a caller-supplied key under its address.
    pub fn insert_key(&mut self, key: &IrohSecretKey)
        requires
            old(self).wf(),
        ensures
            final(self).wf(),
            store_has(final(self).rows@, ed25519_public_of(key.0@)),
            forall|a: Seq<u8>|
                #![trigger store_has(final(self).rows@, a)]
                a != ed25519_public_of(key.0@) ==> store_has(final(self).rows@, a) == store_has(
                    old(self).rows@,
                    a,
                ),
    {
        self.insert(IrohSecretKey(key.0));
    }

    /// The secret key stored for an address.
    pub fn get_key(&self, address: &IrohAddress) -> (r: Result<IrohSecretKey, ErrorKind>)
        requires
            self.wf(),
        ensures
            match r {
                Ok(key) => store_has(self.rows@, address.0@) && ed25519_public_of(key.0@)
                    == address.0@,
                Err(k) => k == ErrorKind::InvalidConfig && !store_has(self.rows@, address.0@),
            },
    {
        let n = self.rows.len();
        let mut i: usize = 0;
        while i < n
            invariant
                i <= n,
                n == self.rows@.len(),
                self.wf(),
                forall|k: int| 0 <= k < i ==> (#[trigger] self.rows@[k]).0@ != address.0@,
            decreases n - i,
        {
            if crate::signature::bytes_eq(self.rows[i].0.as_slice(), address.0.as_slice()) {
                return Ok(IrohSecretKey(self.rows[i].1));
            }
            i = i + 1;
        }
        Err(ErrorKind::InvalidConfig)
    }
}

} // verus!
