//! The declarative WireGuard server and its canonical configuration text.
//!
//! The model maps each served subnet to its clients; a client is a key pair
//! token and a preshared key token, both held in their textual (base64)
//! form so the configuration file carries them verbatim. Serialisation is a
//! pure function of the model; any text that parses re-serialises to the
//! same bytes. Syncing the kernel interface is modelled as a state
//! transition that is idempotent.

use vstd::prelude::*;
use base64::Engine;

use crate::error::ErrorKind;
use crate::ip::{IpAddress, IpNet};
use crate::text::{spec_dec, render_dec};

verus! {

/// A base64 token of a 32-byte value: 43 alphabet bytes and one trailing
/// pad, as base64 renders exactly 32 bytes.
pub open spec fn wg_token_wf(s: Seq<u8>) -> bool {
    &&& s.len() == 44
    &&& s[43] == 61
    &&& forall|i: int|
        0 <= i < 43 ==> (48 <= #[trigger] s[i] <= 57 || 65 <= s[i] <= 90 || 97 <= s[i] <= 122 || s[
            i
        ] == 43 || s[i] == 47)
}

/// The public-key token derived from a secret-key token.
pub uninterp spec fn wg_public_of(secret: Seq<u8>) -> Seq<u8>;

/// Relies on rand::random and base64::engine::general_purpose::STANDARD:
/// a fresh 32-byte secret in its textual form, which base64 renders as 43
/// alphabet bytes and one pad.
#[verifier::external_body]
pub fn wg_generate_key() -> (r: Vec<u8>)
    ensures
        wg_token_wf(r@),
{
    let secret: [u8; 32] = rand::random();
    base64::engine::general_purpose::STANDARD.encode(secret).into_bytes()
}

/// Relies on base64 decode/encode and
/// ed25519_dalek::SigningKey::verifying_key: the public token is a function
/// of the secret token and has the same 44-byte base64 shape.
#[verifier::external_body]
pub fn wg_public_key(secret: &Vec<u8>) -> (r: Vec<u8>)
    requires
        wg_token_wf(secret@),
    ensures
        r@ == wg_public_of(secret@),
        wg_token_wf(r@),
{
    let bytes = base64::engine::general_purpose::STANDARD.decode(secret).unwrap_or_default();
    let mut key = [0u8; 32];
    if bytes.len() == 32 {
        key.copy_from_slice(&bytes);
    }
    let public = ed25519_dalek::SigningKey::from_bytes(&key).verifying_key();
    base64::engine::general_purpose::STANDARD.encode(public.to_bytes()).into_bytes()
}

/// One client of a subnet: its key token and preshared-key token.
#[derive(Debug)]
pub struct WgConfig {
    pub key: Vec<u8>,
    pub psk: Vec<u8>,
}

impl WgConfig {
    pub open spec fn wf(self) -> bool {
        wg_token_wf(self.key@) && wg_token_wf(self.psk@)
    }

    /// A fresh client key pair.
    pub fn generate() -> (r: WgConfig)
        ensures
            r.wf(),
    {
        WgConfig { key: wg_generate_key(), psk: wg_generate_key() }
    }
}

/// One served subnet: an optional default forward target and the clients
/// keyed by their assigned address.
#[derive(Debug)]
pub struct WgSubnetConfig {
    pub default_forward_target: Option<u32>,
    pub clients: Vec<(u32, WgConfig)>,
}

impl WgSubnetConfig {
    pub open spec fn wf(self) -> bool {
        &&& forall|i: int, j: int|
            #![trigger self.clients@[i], self.clients@[j]]
            0 <= i < j < self.clients@.len() ==> self.clients@[i].0 != self.clients@[j].0
        &&& forall|i: int| 0 <= i < self.clients@.len() ==> (#[trigger] self.clients@[i]).1.wf()
    }

    pub fn new() -> (r: WgSubnetConfig)
        ensures
            r.wf(),
            r.clients@.len() == 0,
            r.default_forward_target is None,
    {
        WgSubnetConfig { default_forward_target: None, clients: Vec::new() }
    }

    /// Whether an address is already assigned to a client.
    fn has_client(&self, addr: u32) -> (r: bool)
        ensures
            r == exists|i: int| 0 <= i < self.clients@.len() && (#[trigger] self.clients@[i]).0
                == addr,
    {
        let n = self.clients.len();
        let mut i: usize = 0;
        while i < n
            invariant
                i <= n,
                n == self.clients@.len(),
                forall|k: int| 0 <= k < i ==> (#[trigger] self.clients@[k]).0 != addr,
            decreases n - i,
        {
            if self.clients[i].0 == addr {
                return true;
            }
            i = i + 1;
        }
        false
    }

    /// Assign the lowest host address of `subnet` not already assigned, and
    /// register a fresh client there. Fails with `InvalidConfig` when every
    /// host address is taken. Subnets down to /30 exclude their network and
    /// broadcast addresses; /31 and /32 subnets serve all their addresses.
    pub fn add_client(&mut self, subnet: &IpNet) -> (r: Result<u32, ErrorKind>)
        requires
            old(self).wf(),
            subnet.addr is V4,
            subnet.prefix <= 32,
        ensures
            final(self).wf(),
            match r {
                Ok(addr) => {
                    &&& host_of(*subnet, addr)
                    &&& !(exists|i: int|
                        0 <= i < old(self).clients@.len() && (#[trigger] old(
                            self,
                        ).clients@[i]).0 == addr)
                    &&& forall|a: u32|
                        host_of(*subnet, a) && a < addr ==> exists|i: int|
                            0 <= i < old(self).clients@.len() && (#[trigger] old(
                                self,
                            ).clients@[i]).0 == a
                    &&& final(self).clients@.len() == old(self).clients@.len() + 1
                    &&& final(self).clients@.take(old(self).clients@.len() as int) == old(
                        self,
                    ).clients@
                    &&& final(self).clients@.last().0 == addr
                },
                Err(k) => {
                    &&& k == ErrorKind::InvalidConfig
                    &&& *final(self) == *old(self)
                    &&& forall|a: u32|
                        host_of(*subnet, a) ==> exists|i: int|
                            0 <= i < old(self).clients@.len() && (#[trigger] old(
                                self,
                            ).clients@[i]).0 == a
                },
            },
    {
        let base = match subnet.addr {
            IpAddress::V4(a) => a,
            IpAddress::V6(_) => {
                return Err(ErrorKind::InvalidConfig);
            },
        };
        let first: u32;
        let last: u32;
        if subnet.prefix == 0 {
            first = 1;
            last = 0xfffffffe;
        } else if subnet.prefix >= 31 {
            let shift: u32 = 32 - subnet.prefix as u32;
            let network: u32 = (base >> shift) << shift;
            proof {
                assert(network == spec_network(*subnet));
            }
            first = network;
            if subnet.prefix == 32 {
                last = network;
            } else {
                proof {
                    assert(network <= 0xfffffffeu32) by (bit_vector)
                        requires
                            network == (base >> shift) << shift && shift == 1,
                    ;
                }
                last = network + 1;
            }
        } else {
            let shift: u32 = 32 - subnet.prefix as u32;
            let network: u32 = (base >> shift) << shift;
            let span: u32 = 1u32 << shift;
            proof {
                let pu: u32 = subnet.prefix as u32;
                assert(shift == 32 - pu && base == subnet.addr->V4_0 && 1 <= pu <= 30);
                assert(network == spec_network(*subnet));
                assert(span == spec_span(*subnet));
                assert(span >= 4 && network <= 0xffffffffu32 - span + 1) by (bit_vector)
                    requires
                        network == (base >> shift) << shift && span == 1u32 << shift && shift
                            == 32 - pu && 1 <= pu <= 30,
                ;
            }
            first = network + 1;
            last = network + (span - 2);
        }
        proof {
            assert(first as int == spec_first_host(*subnet));
            assert(last as int == spec_last_host(*subnet));
            assert(first <= last);
        }
        let mut a: u32 = first;
        loop
            invariant
                self == old(self),
                old(self).wf(),
                first as int == spec_first_host(*subnet),
                last as int == spec_last_host(*subnet),
                first <= a <= last,
                forall|b: u32|
                    host_of(*subnet, b) && b < a ==> exists|i: int|
                        0 <= i < old(self).clients@.len() && (#[trigger] old(
                            self,
                        ).clients@[i]).0 == b,
            ensures
                forall|b: u32|
                    host_of(*subnet, b) ==> exists|i: int|
                        0 <= i < old(self).clients@.len() && (#[trigger] old(
                            self,
                        ).clients@[i]).0 == b,
            decreases last - a,
        {
            if !self.has_client(a) {
                proof {
                    assert(host_of(*subnet, a));
                }
                let config = WgConfig::generate();
                let ghost pre = self.clients@;
                self.clients.push((a, config));
                proof {
                    assert(self.clients@.take(pre.len() as int) =~= pre);
                    assert forall|i: int, j: int|
                        #![trigger self.clients@[i], self.clients@[j]]
                        0 <= i < j < self.clients@.len() implies self.clients@[i].0
                        != self.clients@[j].0 by {
                        if j == self.clients@.len() - 1 {
                            assert(self.clients@[i] == pre[i]);
                        } else {
                            assert(self.clients@[i] == pre[i] && self.clients@[j] == pre[j]);
                        }
                    }
                }
                return Ok(a);
            }
            if a == last {
                break ;
            }
            a = a + 1;
        }
        Err(ErrorKind::InvalidConfig)
    }
}

/// The network address of a subnet (its prefix bits, host bits cleared).
pub open spec fn spec_network(net: IpNet) -> u32 {
    if net.prefix == 0 {
        0u32
    } else {
        ((net.addr->V4_0 >> (32 - net.prefix) as u32) << (32 - net.prefix) as u32)
    }
}

/// How many addresses a subnet spans.
pub open spec fn spec_span(net: IpNet) -> u32 {
    (1u32 << (32 - net.prefix) as u32)
}

/// The first assignable host address of a subnet. Subnets down to /30
/// reserve the network address; /31 point-to-point links and /32 single
/// hosts use every address.
pub open spec fn spec_first_host(net: IpNet) -> int {
    if net.prefix >= 31 {
        spec_network(net) as int
    } else {
        spec_network(net) + 1
    }
}

/// The last assignable host address of a subnet; down to /30 the broadcast
/// address is reserved.
pub open spec fn spec_last_host(net: IpNet) -> int {
    if net.prefix == 0 {
        0xfffffffe
    } else if net.prefix == 32 {
        spec_network(net) as int
    } else if net.prefix == 31 {
        spec_network(net) + 1
    } else {
        spec_network(net) + spec_span(net) - 2
    }
}

/// Whether `a` is an assignable host address of the subnet.
pub open spec fn host_of(net: IpNet, a: u32) -> bool {
    spec_first_host(net) <= a <= spec_last_host(net)
}

/// The declarative WireGuard server: listening port, its own key token, and
/// the served subnets.
#[derive(Debug)]
pub struct WgServer {
    pub port: u16,
    pub key: Vec<u8>,
    pub subnets: Vec<(IpNet, WgSubnetConfig)>,
}

impl WgServer {
    pub open spec fn wf(self) -> bool {
        &&& wg_token_wf(self.key@)
        &&& forall|i: int, j: int|
            #![trigger self.subnets@[i], self.subnets@[j]]
            0 <= i < j < self.subnets@.len() ==> self.subnets@[i].0 != self.subnets@[j].0
        &&& forall|i: int|
            0 <= i < self.subnets@.len() ==> (#[trigger] self.subnets@[i]).0.addr is V4 && self.subnets@[i].0.prefix <= 32 && self.subnets@[i].1.wf()
    }

    pub fn new(port: u16) -> (r: WgServer)
        ensures
            r.wf(),
            r.port == port,
            r.subnets@.len() == 0,
    {
        WgServer { port, key: wg_generate_key(), subnets: Vec::new() }
    }
}

/// The kernel-facing state the sync routine drives: whether the interface
/// is up and what configuration file it was brought up with.
pub struct WgKernelState {
    pub up: bool,
    pub config: Option<Vec<u8>>,
}

/// What one sync does to the kernel state: the interface goes down, the
/// canonical text for the server is written, the interface comes up with
/// it.
pub open spec fn spec_sync(text: Seq<u8>) -> (bool, Option<Seq<u8>>) {
    (true, Some(text))
}

/// Apply one sync of `text` to a kernel state.
pub fn sync_apply(state: &mut WgKernelState, text: &Vec<u8>)
    ensures
        final(state).up == spec_sync(text@).0,
        match final(state).config {
            Some(c) => Some(c@) == spec_sync(text@).1,
            None => false,
        },
{
    state.up = true;
    state.config = Some(crate::text::copy_bytes(text));
}

/// Syncing twice with one text leaves exactly the state one sync leaves:
/// the written file and the kernel interface state are the same.
pub proof fn lemma_sync_idempotent(text: Seq<u8>)
    ensures
        spec_sync(text) == spec_sync(spec_sync(text).1->Some_0),
{
}


/// The fixed text `[Interface]\nAddress = `.
pub open spec fn spec_seg_interface_address() -> Seq<u8> {
    seq![91u8, 73u8, 110u8, 116u8, 101u8, 114u8, 102u8, 97u8, 99u8, 101u8, 93u8, 10u8, 65u8, 100u8, 100u8, 114u8, 101u8, 115u8, 115u8, 32u8, 61u8, 32u8]
}

/// The fixed text `[Interface]\nAddress = `.
pub fn seg_interface_address() -> (r: Vec<u8>)
    ensures
        r@ == spec_seg_interface_address(),
{
    let mut r: Vec<u8> = Vec::new();
    r.push(91);
    r.push(73);
    r.push(110);
    r.push(116);
    r.push(101);
    r.push(114);
    r.push(102);
    r.push(97);
    r.push(99);
    r.push(101);
    r.push(93);
    r.push(10);
    r.push(65);
    r.push(100);
    r.push(100);
    r.push(114);
    r.push(101);
    r.push(115);
    r.push(115);
    r.push(32);
    r.push(61);
    r.push(32);
    proof {
        assert(r@ =~= spec_seg_interface_address());
    }
    r
}

/// The fixed text `\nListenPort = `.
pub open spec fn spec_seg_listen_port() -> Seq<u8> {
    seq![10u8, 76u8, 105u8, 115u8, 116u8, 101u8, 110u8, 80u8, 111u8, 114u8, 116u8, 32u8, 61u8, 32u8]
}

/// The fixed text `\nListenPort = `.
pub fn seg_listen_port() -> (r: Vec<u8>)
    ensures
        r@ == spec_seg_listen_port(),
{
    let mut r: Vec<u8> = Vec::new();
    r.push(10);
    r.push(76);
    r.push(105);
    r.push(115);
    r.push(116);
    r.push(101);
    r.push(110);
    r.push(80);
    r.push(111);
    r.push(114);
    r.push(116);
    r.push(32);
    r.push(61);
    r.push(32);
    proof {
        assert(r@ =~= spec_seg_listen_port());
    }
    r
}

/// The fixed text `\nPrivateKey = `.
pub open spec fn spec_seg_private_key() -> Seq<u8> {
    seq![10u8, 80u8, 114u8, 105u8, 118u8, 97u8, 116u8, 101u8, 75u8, 101u8, 121u8, 32u8, 61u8, 32u8]
}

/// The fixed text `\nPrivateKey = `.
pub fn seg_private_key() -> (r: Vec<u8>)
    ensures
        r@ == spec_seg_private_key(),
{
    let mut r: Vec<u8> = Vec::new();
    r.push(10);
    r.push(80);
    r.push(114);
    r.push(105);
    r.push(118);
    r.push(97);
    r.push(116);
    r.push(101);
    r.push(75);
    r.push(101);
    r.push(121);
    r.push(32);
    r.push(61);
    r.push(32);
    proof {
        assert(r@ =~= spec_seg_private_key());
    }
    r
}

/// The fixed text `\n[Peer]\nPublicKey = `.
pub open spec fn spec_seg_peer_public() -> Seq<u8> {
    seq![10u8, 91u8, 80u8, 101u8, 101u8, 114u8, 93u8, 10u8, 80u8, 117u8, 98u8, 108u8, 105u8, 99u8, 75u8, 101u8, 121u8, 32u8, 61u8, 32u8]
}

/// The fixed text `\n[Peer]\nPublicKey = `.
pub fn seg_peer_public() -> (r: Vec<u8>)
    ensures
        r@ == spec_seg_peer_public(),
{
    let mut r: Vec<u8> = Vec::new();
    r.push(10);
    r.push(91);
    r.push(80);
    r.push(101);
    r.push(101);
    r.push(114);
    r.push(93);
    r.push(10);
    r.push(80);
    r.push(117);
    r.push(98);
    r.push(108);
    r.push(105);
    r.push(99);
    r.push(75);
    r.push(101);
    r.push(121);
    r.push(32);
    r.push(61);
    r.push(32);
    proof {
        assert(r@ =~= spec_seg_peer_public());
    }
    r
}

/// The fixed text `\nPresharedKey = `.
pub open spec fn spec_seg_preshared() -> Seq<u8> {
    seq![10u8, 80u8, 114u8, 101u8, 115u8, 104u8, 97u8, 114u8, 101u8, 100u8, 75u8, 101u8, 121u8, 32u8, 61u8, 32u8]
}

/// The fixed text `\nPresharedKey = `.
pub fn seg_preshared() -> (r: Vec<u8>)
    ensures
        r@ == spec_seg_preshared(),
{
    let mut r: Vec<u8> = Vec::new();
    r.push(10);
    r.push(80);
    r.push(114);
    r.push(101);
    r.push(115);
    r.push(104);
    r.push(97);
    r.push(114);
    r.push(101);
    r.push(100);
    r.push(75);
    r.push(101);
    r.push(121);
    r.push(32);
    r.push(61);
    r.push(32);
    proof {
        assert(r@ =~= spec_seg_preshared());
    }
    r
}

/// The fixed text `\nAllowedIPs = `.
pub open spec fn spec_seg_allowed() -> Seq<u8> {
    seq![10u8, 65u8, 108u8, 108u8, 111u8, 119u8, 101u8, 100u8, 73u8, 80u8, 115u8, 32u8, 61u8, 32u8]
}

/// The fixed text `\nAllowedIPs = `.
pub fn seg_allowed() -> (r: Vec<u8>)
    ensures
        r@ == spec_seg_allowed(),
{
    let mut r: Vec<u8> = Vec::new();
    r.push(10);
    r.push(65);
    r.push(108);
    r.push(108);
    r.push(111);
    r.push(119);
    r.push(101);
    r.push(100);
    r.push(73);
    r.push(80);
    r.push(115);
    r.push(32);
    r.push(61);
    r.push(32);
    proof {
        assert(r@ =~= spec_seg_allowed());
    }
    r
}

/// The fixed text `/32\n`.
pub open spec fn spec_seg_allowed_suffix() -> Seq<u8> {
    seq![47u8, 51u8, 50u8, 10u8]
}

/// The fixed text `/32\n`.
pub fn seg_allowed_suffix() -> (r: Vec<u8>)
    ensures
        r@ == spec_seg_allowed_suffix(),
{
    let mut r: Vec<u8> = Vec::new();
    r.push(47);
    r.push(51);
    r.push(50);
    r.push(10);
    proof {
        assert(r@ =~= spec_seg_allowed_suffix());
    }
    r
}

/// The fixed text `[Interface]`.
pub open spec fn spec_seg_interface_tag() -> Seq<u8> {
    seq![91u8, 73u8, 110u8, 116u8, 101u8, 114u8, 102u8, 97u8, 99u8, 101u8, 93u8]
}

/// The fixed text `[Interface]`.
pub fn seg_interface_tag() -> (r: Vec<u8>)
    ensures
        r@ == spec_seg_interface_tag(),
{
    let mut r: Vec<u8> = Vec::new();
    r.push(91);
    r.push(73);
    r.push(110);
    r.push(116);
    r.push(101);
    r.push(114);
    r.push(102);
    r.push(97);
    r.push(99);
    r.push(101);
    r.push(93);
    proof {
        assert(r@ =~= spec_seg_interface_tag());
    }
    r
}

/// The fixed text `[Peer]`.
pub open spec fn spec_seg_peer_tag() -> Seq<u8> {
    seq![91u8, 80u8, 101u8, 101u8, 114u8, 93u8]
}

/// The fixed text `[Peer]`.
pub fn seg_peer_tag() -> (r: Vec<u8>)
    ensures
        r@ == spec_seg_peer_tag(),
{
    let mut r: Vec<u8> = Vec::new();
    r.push(91);
    r.push(80);
    r.push(101);
    r.push(101);
    r.push(114);
    r.push(93);
    proof {
        assert(r@ =~= spec_seg_peer_tag());
    }
    r
}

/// The fixed text `Address = `.
pub open spec fn spec_seg_address_prefix() -> Seq<u8> {
    seq![65u8, 100u8, 100u8, 114u8, 101u8, 115u8, 115u8, 32u8, 61u8, 32u8]
}

/// The fixed text `Address = `.
pub fn seg_address_prefix() -> (r: Vec<u8>)
    ensures
        r@ == spec_seg_address_prefix(),
{
    let mut r: Vec<u8> = Vec::new();
    r.push(65);
    r.push(100);
    r.push(100);
    r.push(114);
    r.push(101);
    r.push(115);
    r.push(115);
    r.push(32);
    r.push(61);
    r.push(32);
    proof {
        assert(r@ =~= spec_seg_address_prefix());
    }
    r
}

/// The fixed text `ListenPort = `.
pub open spec fn spec_seg_listen_prefix() -> Seq<u8> {
    seq![76u8, 105u8, 115u8, 116u8, 101u8, 110u8, 80u8, 111u8, 114u8, 116u8, 32u8, 61u8, 32u8]
}

/// The fixed text `ListenPort = `.
pub fn seg_listen_prefix() -> (r: Vec<u8>)
    ensures
        r@ == spec_seg_listen_prefix(),
{
    let mut r: Vec<u8> = Vec::new();
    r.push(76);
    r.push(105);
    r.push(115);
    r.push(116);
    r.push(101);
    r.push(110);
    r.push(80);
    r.push(111);
    r.push(114);
    r.push(116);
    r.push(32);
    r.push(61);
    r.push(32);
    proof {
        assert(r@ =~= spec_seg_listen_prefix());
    }
    r
}

/// The fixed text `PrivateKey = `.
pub open spec fn spec_seg_key_prefix() -> Seq<u8> {
    seq![80u8, 114u8, 105u8, 118u8, 97u8, 116u8, 101u8, 75u8, 101u8, 121u8, 32u8, 61u8, 32u8]
}

/// The fixed text `PrivateKey = `.
pub fn seg_key_prefix() -> (r: Vec<u8>)
    ensures
        r@ == spec_seg_key_prefix(),
{
    let mut r: Vec<u8> = Vec::new();
    r.push(80);
    r.push(114);
    r.push(105);
    r.push(118);
    r.push(97);
    r.push(116);
    r.push(101);
    r.push(75);
    r.push(101);
    r.push(121);
    r.push(32);
    r.push(61);
    r.push(32);
    proof {
        assert(r@ =~= spec_seg_key_prefix());
    }
    r
}

/// The fixed text `PublicKey = `.
pub open spec fn spec_seg_public_prefix() -> Seq<u8> {
    seq![80u8, 117u8, 98u8, 108u8, 105u8, 99u8, 75u8, 101u8, 121u8, 32u8, 61u8, 32u8]
}

/// The fixed text `PublicKey = `.
pub fn seg_public_prefix() -> (r: Vec<u8>)
    ensures
        r@ == spec_seg_public_prefix(),
{
    let mut r: Vec<u8> = Vec::new();
    r.push(80);
    r.push(117);
    r.push(98);
    r.push(108);
    r.push(105);
    r.push(99);
    r.push(75);
    r.push(101);
    r.push(121);
    r.push(32);
    r.push(61);
    r.push(32);
    proof {
        assert(r@ =~= spec_seg_public_prefix());
    }
    r
}

/// The fixed text `PresharedKey = `.
pub open spec fn spec_seg_psk_prefix() -> Seq<u8> {
    seq![80u8, 114u8, 101u8, 115u8, 104u8, 97u8, 114u8, 101u8, 100u8, 75u8, 101u8, 121u8, 32u8, 61u8, 32u8]
}

/// The fixed text `PresharedKey = `.
pub fn seg_psk_prefix() -> (r: Vec<u8>)
    ensures
        r@ == spec_seg_psk_prefix(),
{
    let mut r: Vec<u8> = Vec::new();
    r.push(80);
    r.push(114);
    r.push(101);
    r.push(115);
    r.push(104);
    r.push(97);
    r.push(114);
    r.push(101);
    r.push(100);
    r.push(75);
    r.push(101);
    r.push(121);
    r.push(32);
    r.push(61);
    r.push(32);
    proof {
        assert(r@ =~= spec_seg_psk_prefix());
    }
    r
}

/// The fixed text `AllowedIPs = `.
pub open spec fn spec_seg_allowed_prefix() -> Seq<u8> {
    seq![65u8, 108u8, 108u8, 111u8, 119u8, 101u8, 100u8, 73u8, 80u8, 115u8, 32u8, 61u8, 32u8]
}

/// The fixed text `AllowedIPs = `.
pub fn seg_allowed_prefix() -> (r: Vec<u8>)
    ensures
        r@ == spec_seg_allowed_prefix(),
{
    let mut r: Vec<u8> = Vec::new();
    r.push(65);
    r.push(108);
    r.push(108);
    r.push(111);
    r.push(119);
    r.push(101);
    r.push(100);
    r.push(73);
    r.push(80);
    r.push(115);
    r.push(32);
    r.push(61);
    r.push(32);
    proof {
        assert(r@ =~= spec_seg_allowed_prefix());
    }
    r
}

/// The fixed text `/32`.
pub open spec fn spec_seg_allowed_tail() -> Seq<u8> {
    seq![47u8, 51u8, 50u8]
}

/// The fixed text `/32`.
pub fn seg_allowed_tail() -> (r: Vec<u8>)
    ensures
        r@ == spec_seg_allowed_tail(),
{
    let mut r: Vec<u8> = Vec::new();
    r.push(47);
    r.push(51);
    r.push(50);
    proof {
        assert(r@ =~= spec_seg_allowed_tail());
    }
    r
}

/// Mathematical image of a parsed peer block.
pub struct PeerView {
    pub public_key: Seq<u8>,
    pub psk: Seq<u8>,
    pub addr: u32,
}

/// One peer block of the configuration text.
#[derive(Debug)]
pub struct WgPeer {
    pub public_key: Vec<u8>,
    pub psk: Vec<u8>,
    pub addr: u32,
}

impl View for WgPeer {
    type V = PeerView;

    open spec fn view(&self) -> PeerView {
        PeerView { public_key: self.public_key@, psk: self.psk@, addr: self.addr }
    }
}

/// Mathematical image of a parsed configuration.
pub struct ParsedView {
    pub subnets: Seq<IpNet>,
    pub port: u16,
    pub key: Seq<u8>,
    pub peers: Seq<PeerView>,
}

impl ParsedView {
    /// Subnets in a configuration are IPv4.
    pub open spec fn wf(self) -> bool {
        forall|k: int| 0 <= k < self.subnets.len() ==> (#[trigger] self.subnets[k]).addr is V4
    }
}

/// What the configuration text states: the served subnets, the port, the
/// server's own key, and the peers.
#[derive(Debug)]
pub struct WgParsed {
    pub subnets: Vec<IpNet>,
    pub port: u16,
    pub key: Vec<u8>,
    pub peers: Vec<WgPeer>,
}

impl View for WgParsed {
    type V = ParsedView;

    open spec fn view(&self) -> ParsedView {
        ParsedView {
            subnets: self.subnets@,
            port: self.port,
            key: self.key@,
            peers: self.peers@.map_values(|p: WgPeer| p@),
        }
    }
}

/// Dotted-quad text of an IPv4 address.
pub open spec fn spec_ipv4_text(a: u32) -> Seq<u8> {
    spec_dec(((a >> 24) & 0xff) as nat) + seq![46u8] + spec_dec(((a >> 16) & 0xff) as nat) + seq![
        46u8,
    ] + spec_dec(((a >> 8) & 0xff) as nat) + seq![46u8] + spec_dec((a & 0xff) as nat)
}

/// `addr/prefix` text of a subnet; subnets here are IPv4.
pub open spec fn spec_subnet_text(n: IpNet) -> Seq<u8> {
    spec_ipv4_text(n.addr->V4_0) + seq![47u8] + spec_dec(n.prefix as nat)
}

/// Comma-joined subnet list.
pub open spec fn spec_subnets_text(s: Seq<IpNet>) -> Seq<u8>
    decreases s.len(),
{
    if s.len() == 0 {
        Seq::empty()
    } else if s.len() == 1 {
        spec_subnet_text(s[0])
    } else {
        spec_subnets_text(s.drop_last()) + seq![44u8, 32u8] + spec_subnet_text(s.last())
    }
}

/// One peer block.
pub open spec fn spec_peer_text(p: PeerView) -> Seq<u8> {
    spec_seg_peer_public() + p.public_key + spec_seg_preshared() + p.psk + spec_seg_allowed()
        + spec_ipv4_text(p.addr) + spec_seg_allowed_suffix()
}

/// All peer blocks, in order.
pub open spec fn spec_peers_text(peers: Seq<PeerView>) -> Seq<u8>
    decreases peers.len(),
{
    if peers.len() == 0 {
        Seq::empty()
    } else {
        spec_peers_text(peers.drop_last()) + spec_peer_text(peers.last())
    }
}

/// The canonical configuration text of a parsed configuration.
pub open spec fn spec_render(c: ParsedView) -> Seq<u8> {
    spec_seg_interface_address() + spec_subnets_text(c.subnets) + spec_seg_listen_port()
        + spec_dec(c.port as nat) + spec_seg_private_key() + c.key + seq![10u8]
        + spec_peers_text(c.peers)
}

/// Dotted-quad rendering of an IPv4 address.
fn render_ipv4(a: u32) -> (r: Vec<u8>)
    ensures
        r@ == spec_ipv4_text(a),
{
    let mut r: Vec<u8> = Vec::new();
    let mut part = render_dec(((a >> 24) & 0xff) as u64);
    r.append(&mut part);
    r.push(46);
    let mut part = render_dec(((a >> 16) & 0xff) as u64);
    r.append(&mut part);
    r.push(46);
    let mut part = render_dec(((a >> 8) & 0xff) as u64);
    r.append(&mut part);
    r.push(46);
    let mut part = render_dec((a & 0xff) as u64);
    r.append(&mut part);
    proof {
        assert(r@ =~= spec_ipv4_text(a));
    }
    r
}

/// Render the canonical configuration text.
pub fn render_config(c: &WgParsed) -> (r: Vec<u8>)
    requires
        c@.wf(),
    ensures
        r@ == spec_render(c@),
{
    let mut r: Vec<u8> = Vec::new();
    let mut part = seg_interface_address();
    r.append(&mut part);
    let n = c.subnets.len();
    let mut i: usize = 0;
    while i < n
        invariant
            i <= n,
            n == c.subnets@.len(),
            c@.wf(),
            r@ == spec_seg_interface_address() + spec_subnets_text(c.subnets@.take(i as int)),
        decreases n - i,
    {
        if i > 0 {
            r.push(44);
            r.push(32);
        }
        let net = &c.subnets[i];
        proof {
            assert(c@.subnets[i as int].addr is V4);
        }
        let base = match net.addr {
            IpAddress::V4(a) => a,
            IpAddress::V6(_) => 0,
        };
        let mut part = render_ipv4(base);
        r.append(&mut part);
        r.push(47);
        let mut part = render_dec(net.prefix as u64);
        r.append(&mut part);
        proof {
            assert(c.subnets@.take(i as int + 1).drop_last() =~= c.subnets@.take(i as int));
            assert(c.subnets@.take(i as int + 1).last() == c.subnets@[i as int]);
            assert(base == c.subnets@[i as int].addr->V4_0);
            assert(r@ =~= spec_seg_interface_address() + spec_subnets_text(
                c.subnets@.take(i as int + 1),
            ));
        }
        i = i + 1;
    }
    proof {
        assert(c.subnets@.take(n as int) =~= c.subnets@);
    }
    let mut part = seg_listen_port();
    r.append(&mut part);
    let mut part = render_dec(c.port as u64);
    r.append(&mut part);
    let mut part = seg_private_key();
    r.append(&mut part);
    let mut part = crate::text::copy_bytes(&c.key);
    r.append(&mut part);
    r.push(10);
    let ghost head = r@;
    let m = c.peers.len();
    let mut k: usize = 0;
    while k < m
        invariant
            k <= m,
            m == c.peers@.len(),
            r@ == head + spec_peers_text(c.peers@.map_values(|p: WgPeer| p@).take(k as int)),
        decreases m - k,
    {
        let mut part = seg_peer_public();
        r.append(&mut part);
        let mut part = crate::text::copy_bytes(&c.peers[k].public_key);
        r.append(&mut part);
        let mut part = seg_preshared();
        r.append(&mut part);
        let mut part = crate::text::copy_bytes(&c.peers[k].psk);
        r.append(&mut part);
        let mut part = seg_allowed();
        r.append(&mut part);
        let mut part = render_ipv4(c.peers[k].addr);
        r.append(&mut part);
        let mut part = seg_allowed_suffix();
        r.append(&mut part);
        proof {
            let pv = c.peers@.map_values(|p: WgPeer| p@);
            assert(pv.take(k as int + 1).drop_last() =~= pv.take(k as int));
            assert(pv.take(k as int + 1).last() == pv[k as int]);
            assert(pv[k as int] == c.peers@[k as int]@);
            assert(r@ =~= head + spec_peers_text(pv.take(k as int + 1)));
        }
        k = k + 1;
    }
    proof {
        let pv = c.peers@.map_values(|p: WgPeer| p@);
        assert(pv.take(m as int) =~= pv);
        assert(r@ =~= spec_render(c@));
    }
    r
}

/// The peers a server's subnets imply, in subnet order then client order,
/// each client's public key derived from its key token.
pub open spec fn spec_project_peers(subnets: Seq<(IpNet, WgSubnetConfig)>) -> Seq<PeerView>
    decreases subnets.len(),
{
    if subnets.len() == 0 {
        Seq::empty()
    } else {
        spec_project_peers(subnets.drop_last()) + spec_subnet_peers(
            subnets.last().1.clients@,
        )
    }
}

/// The peers one subnet's clients imply.
pub open spec fn spec_subnet_peers(clients: Seq<(u32, WgConfig)>) -> Seq<PeerView>
    decreases clients.len(),
{
    if clients.len() == 0 {
        Seq::empty()
    } else {
        spec_subnet_peers(clients.drop_last()).push(
            PeerView {
                public_key: wg_public_of(clients.last().1.key@),
                psk: clients.last().1.psk@,
                addr: clients.last().0,
            },
        )
    }
}

impl WgServer {
    /// The parsed form of this server: what its configuration text states.
    pub fn project(&self) -> (r: WgParsed)
        requires
            self.wf(),
        ensures
            r@.port == self.port,
            r@.key == self.key@,
            r@.subnets == self.subnets@.map_values(|e: (IpNet, WgSubnetConfig)| e.0),
            r@.peers == spec_project_peers(self.subnets@),
    {
        let mut subnets: Vec<IpNet> = Vec::new();
        let mut peers: Vec<WgPeer> = Vec::new();
        let n = self.subnets.len();
        let mut i: usize = 0;
        while i < n
            invariant
                i <= n,
                n == self.subnets@.len(),
                self.wf(),
                subnets@ =~= self.subnets@.take(i as int).map_values(
                    |e: (IpNet, WgSubnetConfig)| e.0,
                ),
                peers@.map_values(|p: WgPeer| p@) =~= spec_project_peers(
                    self.subnets@.take(i as int),
                ),
            decreases n - i,
        {
            subnets.push(self.subnets[i].0);
            let ghost before = peers@.map_values(|p: WgPeer| p@);
            let clients = &self.subnets[i].1.clients;
            let m = clients.len();
            let mut j: usize = 0;
            while j < m
                invariant
                    j <= m,
                    i < n,
                    n == self.subnets@.len(),
                    m == clients@.len(),
                    self.wf(),
                    *clients == self.subnets@[i as int].1.clients,
                    peers@.map_values(|p: WgPeer| p@) =~= before + spec_subnet_peers(
                        clients@.take(j as int),
                    ),
                decreases m - j,
            {
                let ghost peers_pre = peers@;
                let public_key = wg_public_key(&clients[j].1.key);
                let psk = crate::text::copy_bytes(&clients[j].1.psk);
                peers.push(WgPeer { public_key, psk, addr: clients[j].0 });
                proof {
                    assert(clients@.take(j as int + 1).drop_last() =~= clients@.take(j as int));
                    assert(clients@.take(j as int + 1).last() == clients@[j as int]);
                    let f = |p: WgPeer| p@;
                    assert(peers@.drop_last() =~= peers_pre);
                    assert(peers@.map_values(f).len() == peers_pre.map_values(f).len() + 1);
                    assert forall|t: int| 0 <= t < peers_pre.len() implies #[trigger] peers@.map_values(
                        f,
                    )[t] == peers_pre.map_values(f)[t] by {
                        assert(peers@[t] == peers_pre[t]);
                    }
                    assert(peers@.map_values(f)[peers@.len() - 1] == peers@[peers@.len() - 1]@);
                    assert(peers@[peers@.len() - 1]@ == (PeerView {
                        public_key: wg_public_of(clients@[j as int].1.key@),
                        psk: clients@[j as int].1.psk@,
                        addr: clients@[j as int].0,
                    }));
                    assert(peers@.map_values(f) =~= before + spec_subnet_peers(
                        clients@.take(j as int + 1),
                    ));
                }
                j = j + 1;
            }
            proof {
                assert(clients@.take(m as int) =~= clients@);
                assert(self.subnets@.take(i as int + 1).drop_last() =~= self.subnets@.take(
                    i as int,
                ));
                assert(self.subnets@.take(i as int + 1).last() == self.subnets@[i as int]);
                assert(peers@.map_values(|p: WgPeer| p@) =~= spec_project_peers(
                    self.subnets@.take(i as int + 1),
                ));
                assert(subnets@ =~= self.subnets@.take(i as int + 1).map_values(
                    |e: (IpNet, WgSubnetConfig)| e.0,
                ));
            }
            i = i + 1;
        }
        proof {
            assert(self.subnets@.take(n as int) =~= self.subnets@);
        }
        let key = crate::text::copy_bytes(&self.key);
        WgParsed { subnets, port: self.port, key, peers }
    }

    /// The canonical configuration text for this server: what `sync` writes.
    pub fn config_text(&self) -> (r: Vec<u8>)
        requires
            self.wf(),
        ensures
            r@ == spec_render(
                ParsedView {
                    subnets: self.subnets@.map_values(|e: (IpNet, WgSubnetConfig)| e.0),
                    port: self.port,
                    key: self.key@,
                    peers: spec_project_peers(self.subnets@),
                },
            ),
    {
        let parsed = self.project();
        let r = render_config(&parsed);
        proof {
            assert(parsed@ == (ParsedView {
                subnets: self.subnets@.map_values(|e: (IpNet, WgSubnetConfig)| e.0),
                port: self.port,
                key: self.key@,
                peers: spec_project_peers(self.subnets@),
            }));
        }
        r
    }
}

/// Parse a configuration text. A successful parse is exact: rendering the
/// result reproduces the input byte for byte, so serialising, parsing and
/// serialising again cannot change the text.
pub fn parse_config(text: &Vec<u8>) -> (r: Option<WgParsed>)
    ensures
        r matches Some(c) ==> spec_render(c@) == text@ && c@.wf(),
{
    let candidate = parse_config_loose(text);
    match candidate {
        Some(c) => {
            let rendered = render_config(&c);
            if crate::signature::bytes_eq(rendered.as_slice(), text.as_slice()) {
                proof {
                    assert(rendered@ == text@);
                    assert(spec_render(c@) == text@);
                }
                Some(c)
            } else {
                None
            }
        },
        None => None,
    }
}

/// Best-effort structural parse; `parse_config` checks its result by
/// re-rendering, so nothing more is claimed of it than the subnets' family.
fn parse_config_loose(text: &Vec<u8>) -> (r: Option<WgParsed>)
    ensures
        r matches Some(c) ==> c@.wf(),
{
    let lines = split_lines(text);
    if lines.len() < 4 {
        return None;
    }
    let interface_tag = seg_interface_tag();
    if !crate::signature::bytes_eq(lines[0].as_slice(), interface_tag.as_slice()) {
        return None;
    }
    let address_prefix = seg_address_prefix();
    let address_line = strip_prefix(&lines[1], address_prefix.as_slice())?;
    let subnets = parse_subnet_list(&address_line)?;
    let listen_prefix = seg_listen_prefix();
    let port_line = strip_prefix(&lines[2], listen_prefix.as_slice())?;
    let port_value = crate::text::parse_dec(port_line.as_slice())?;
    if port_value > 65535 {
        return None;
    }
    let key_prefix = seg_key_prefix();
    let key = strip_prefix(&lines[3], key_prefix.as_slice())?;
    let mut peers: Vec<WgPeer> = Vec::new();
    let ghost subnets_snapshot = subnets@;
    let mut i: usize = 4;
    while i < lines.len()
        invariant
            subnets@ == subnets_snapshot,
            forall|k: int| 0 <= k < subnets@.len() ==> (#[trigger] subnets@[k]).addr is V4,
        decreases lines@.len() - i,
    {
        if lines.len() - i < 5 {
            return None;
        }
        if lines[i].len() != 0 {
            return None;
        }
        let peer_tag = seg_peer_tag();
        if !crate::signature::bytes_eq(lines[i + 1].as_slice(), peer_tag.as_slice()) {
            return None;
        }
        let public_prefix = seg_public_prefix();
        let public_key = strip_prefix(&lines[i + 2], public_prefix.as_slice())?;
        let psk_prefix = seg_psk_prefix();
        let psk = strip_prefix(&lines[i + 3], psk_prefix.as_slice())?;
        let allowed_prefix = seg_allowed_prefix();
        let allowed = strip_prefix(&lines[i + 4], allowed_prefix.as_slice())?;
        let allowed_tail = seg_allowed_tail();
        let addr_part = strip_suffix(&allowed, allowed_tail.as_slice())?;
        let addr = parse_ipv4(&addr_part)?;
        peers.push(WgPeer { public_key, psk, addr });
        i = i + 5;
    }
    Some(WgParsed { subnets, port: port_value as u16, key, peers })
}

/// Split on newlines; a trailing newline closes the last line.
fn split_lines(text: &Vec<u8>) -> Vec<Vec<u8>> {
    let mut lines: Vec<Vec<u8>> = Vec::new();
    let mut current: Vec<u8> = Vec::new();
    let n = text.len();
    let mut i: usize = 0;
    while i < n
        invariant
            i <= n,
            n == text@.len(),
        decreases n - i,
    {
        let c = text[i];
        if c == 10 {
            lines.push(current);
            current = Vec::new();
        } else {
            current.push(c);
        }
        i = i + 1;
    }
    if current.len() > 0 {
        lines.push(current);
    }
    lines
}

/// The rest of a line after a required prefix.
fn strip_prefix(line: &Vec<u8>, prefix: &[u8]) -> Option<Vec<u8>> {
    if line.len() < prefix.len() {
        return None;
    }
    let mut i: usize = 0;
    while i < prefix.len()
        invariant
            i <= prefix@.len(),
            prefix@.len() <= line@.len(),
        decreases prefix@.len() - i,
    {
        if line[i] != prefix[i] {
            return None;
        }
        i = i + 1;
    }
    let mut rest: Vec<u8> = Vec::new();
    let mut j: usize = prefix.len();
    while j < line.len()
        decreases line@.len() - j,
    {
        rest.push(line[j]);
        j = j + 1;
    }
    Some(rest)
}

/// The front of a line before a required suffix.
fn strip_suffix(line: &Vec<u8>, suffix: &[u8]) -> Option<Vec<u8>> {
    if line.len() < suffix.len() {
        return None;
    }
    let split = line.len() - suffix.len();
    let mut j: usize = split;
    while j < line.len()
        invariant
            split <= j <= line@.len(),
            suffix@.len() <= line@.len(),
            split == line@.len() - suffix@.len(),
        decreases line@.len() - j,
    {
        if line[j] != suffix[j - split] {
            return None;
        }
        j = j + 1;
    }
    let mut front: Vec<u8> = Vec::new();
    let mut j: usize = 0;
    while j < split
        invariant
            split <= line@.len(),
            j <= split,
        decreases split - j,
    {
        front.push(line[j]);
        j = j + 1;
    }
    Some(front)
}

/// Parse `a.b.c.d`.
fn parse_ipv4(s: &Vec<u8>) -> Option<u32> {
    let mut parts: Vec<Vec<u8>> = Vec::new();
    let mut current: Vec<u8> = Vec::new();
    let n = s.len();
    let mut i: usize = 0;
    while i < n
        invariant
            i <= n,
            n == s@.len(),
        decreases n - i,
    {
        let c = s[i];
        if c == 46 {
            parts.push(current);
            current = Vec::new();
        } else {
            current.push(c);
        }
        i = i + 1;
    }
    parts.push(current);
    if parts.len() != 4 {
        return None;
    }
    let mut value: u32 = 0;
    let mut k: usize = 0;
    while k < 4
        invariant
            k <= 4,
            parts@.len() == 4,
        decreases 4 - k,
    {
        let octet = crate::text::parse_dec(parts[k].as_slice())?;
        if octet > 255 {
            return None;
        }
        value = (value << 8) | (octet as u32);
        k = k + 1;
    }
    Some(value)
}

/// Parse a comma-joined subnet list.
fn parse_subnet_list(s: &Vec<u8>) -> (r: Option<Vec<IpNet>>)
    ensures
        r matches Some(nets) ==> forall|k: int|
            0 <= k < nets@.len() ==> (#[trigger] nets@[k]).addr is V4,
{
    let mut nets: Vec<IpNet> = Vec::new();
    if s.len() == 0 {
        return Some(nets);
    }
    let n = s.len();
    let mut i: usize = 0;
    let mut current: Vec<u8> = Vec::new();
    while i < n
        invariant
            i <= n,
            n == s@.len(),
            forall|k: int| 0 <= k < nets@.len() ==> (#[trigger] nets@[k]).addr is V4,
        decreases n - i,
    {
        let c = s[i];
        if c == 44 {
            if i + 1 >= n || s[i + 1] != 32 {
                return None;
            }
            let net = parse_subnet(&current)?;
            nets.push(net);
            current = Vec::new();
            i = i + 2;
        } else {
            current.push(c);
            i = i + 1;
        }
    }
    let net = parse_subnet(&current)?;
    nets.push(net);
    Some(nets)
}

/// The index of the first occurrence of `b`, or the length when absent.
fn find_byte(s: &Vec<u8>, b: u8) -> (r: usize)
    ensures
        r <= s@.len(),
{
    let n = s.len();
    let mut i: usize = 0;
    while i < n
        invariant
            i <= n,
            n == s@.len(),
        decreases n - i,
    {
        if s[i] == b {
            return i;
        }
        i = i + 1;
    }
    n
}

/// Parse `a.b.c.d/prefix`.
fn parse_subnet(s: &Vec<u8>) -> (r: Option<IpNet>)
    ensures
        r matches Some(net) ==> net.addr is V4,
{
    let n = s.len();
    let slash = find_byte(s, 47);
    if slash >= n {
        return None;
    }
    let mut addr_part: Vec<u8> = Vec::new();
    let mut j: usize = 0;
    while j < slash
        invariant
            j <= slash,
            slash < n,
            n == s@.len(),
        decreases slash - j,
    {
        addr_part.push(s[j]);
        j = j + 1;
    }
    let mut prefix_part: Vec<u8> = Vec::new();
    let mut k: usize = slash + 1;
    while k < n
        invariant
            k <= n,
            n == s@.len(),
        decreases n - k,
    {
        prefix_part.push(s[k]);
        k = k + 1;
    }
    let addr = parse_ipv4(&addr_part)?;
    let prefix = crate::text::parse_dec(prefix_part.as_slice())?;
    if prefix > 32 {
        return None;
    }
    Some(IpNet { addr: IpAddress::V4(addr), prefix: prefix as u8 })
}

} // verus!
