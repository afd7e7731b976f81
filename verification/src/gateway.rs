//! Gateways: network interfaces with addresses, as the control plane sees
//! them.
//!
//! A snapshot maps each gateway's stable id to what is currently known of
//! it: operator labels (`public`, `secure`) and, while the interface is
//! connected, its addresses. The snapshot keeps disconnected gateways (with
//! `ip_info` cleared) so operator labels survive transient disconnects.

use vstd::prelude::*;

use crate::error::ErrorKind;
use crate::ip::{IpAddress, IpNet, IPV4_LOCALHOST, spec_ipv4_is_loopback, spec_ipv4_is_rfc1918,
    ipv4_is_loopback, ipv4_is_rfc1918};

verus! {

/// Stable string identifier of a network interface (`eth0`, `wg0`, ...).
#[derive(Clone, Debug)]
pub struct GatewayId(pub String);

impl View for GatewayId {
    type V = Seq<char>;

    open spec fn view(&self) -> Seq<char> {
        self.0@
    }
}

impl GatewayId {
    pub fn as_str(&self) -> (r: &str)
        ensures
            r@ == self@,
    {
        self.0.as_str()
    }

    pub fn new(s: &str) -> (r: Self)
        ensures
            r@ == s@,
    {
        GatewayId(s.to_owned())
    }
}

impl PartialEq for GatewayId {
    fn eq(&self, other: &GatewayId) -> (r: bool) {
        self.0 == other.0
    }
}

impl vstd::std_specs::cmp::PartialEqSpecImpl for GatewayId {
    open spec fn obeys_eq_spec() -> bool {
        true
    }

    open spec fn eq_spec(&self, other: &GatewayId) -> bool {
        self@ == other@
    }
}

/// Kind of device backing an interface, from the platform daemon's fixed
/// integer table.
#[derive(Clone, Copy, Debug, PartialEq, Eq, Structural)]
pub enum NetworkInterfaceType {
    Ethernet,
    Wireless,
    Wireguard,
}

pub open spec fn spec_device_type_from_code(code: u32) -> Option<NetworkInterfaceType> {
    if code == 1 {
        Some(NetworkInterfaceType::Ethernet)
    } else if code == 2 {
        Some(NetworkInterfaceType::Wireless)
    } else if code == 29 {
        Some(NetworkInterfaceType::Wireguard)
    } else {
        None
    }
}

/// Translation of the platform daemon's numeric device type.
pub fn device_type_from_code(code: u32) -> (r: Option<NetworkInterfaceType>)
    ensures
        r == spec_device_type_from_code(code),
{
    match code {
        1 => Some(NetworkInterfaceType::Ethernet),
        2 => Some(NetworkInterfaceType::Wireless),
        29 => Some(NetworkInterfaceType::Wireguard),
        _ => None,
    }
}

/// Mathematical image of an [`IpInfo`].
pub struct IpInfoView {
    pub name: Seq<char>,
    pub scope_id: u32,
    pub device_type: Option<NetworkInterfaceType>,
    pub subnets: Seq<IpNet>,
    pub wan_ip: Option<u32>,
    pub ntp_servers: Seq<Seq<u8>>,
}

/// What is known of a connected interface.
#[derive(Clone, Debug)]
pub struct IpInfo {
    /// Display name of the active connection.
    pub name: String,
    /// Kernel interface index.
    pub scope_id: u32,
    pub device_type: Option<NetworkInterfaceType>,
    /// Deduplicated subnets of both families.
    pub subnets: Vec<IpNet>,
    /// WAN address observed through this interface, when the probe succeeded.
    pub wan_ip: Option<u32>,
    /// NTP servers offered by DHCP on this interface.
    pub ntp_servers: Vec<Vec<u8>>,
}

impl IpInfo {
    /// A deep copy whose view equals this one's.
    pub fn duplicate(&self) -> (r: IpInfo)
        ensures
            r@ == self@,
    {
        let mut subnets: Vec<IpNet> = Vec::new();
        let mut i: usize = 0;
        while i < self.subnets.len()
            invariant
                i <= self.subnets@.len(),
                subnets@ =~= self.subnets@.take(i as int),
            decreases self.subnets@.len() - i,
        {
            subnets.push(self.subnets[i]);
            i = i + 1;
        }
        let mut ntp_servers: Vec<Vec<u8>> = Vec::new();
        let mut j: usize = 0;
        while j < self.ntp_servers.len()
            invariant
                j <= self.ntp_servers@.len(),
                ntp_servers@.len() == j,
                forall|k: int| 0 <= k < j ==> #[trigger] ntp_servers@[k]@ == self.ntp_servers@[k]@,
            decreases self.ntp_servers@.len() - j,
        {
            ntp_servers.push(crate::text::copy_bytes(&self.ntp_servers[j]));
            j = j + 1;
        }
        let r = IpInfo {
            name: self.name.clone(),
            scope_id: self.scope_id,
            device_type: self.device_type,
            subnets,
            wan_ip: self.wan_ip,
            ntp_servers,
        };
        proof {
            assert(r.subnets@ =~= self.subnets@);
            assert(r.ntp_servers@.map_values(|s: Vec<u8>| s@) =~= self.ntp_servers@.map_values(
                |s: Vec<u8>| s@,
            ));
            assert(r@ =~= self@);
        }
        r
    }
}

/// A deep copy of optional connection state.
fn opt_ip_info_duplicate(a: &Option<IpInfo>) -> (r: Option<IpInfo>)
    ensures
        match (a, r) {
            (Some(x), Some(y)) => x@ == y@,
            (None, None) => true,
            _ => false,
        },
{
    match a {
        Some(x) => Some(x.duplicate()),
        None => None,
    }
}

impl View for IpInfo {
    type V = IpInfoView;

    open spec fn view(&self) -> IpInfoView {
        IpInfoView {
            name: self.name@,
            scope_id: self.scope_id,
            device_type: self.device_type,
            subnets: self.subnets@,
            wan_ip: self.wan_ip,
            ntp_servers: self.ntp_servers@.map_values(|s: Vec<u8>| s@),
        }
    }
}

impl IpInfoView {
    pub open spec fn wf(self) -> bool {
        &&& forall|i: int| 0 <= i < self.subnets.len() ==> (#[trigger] self.subnets[i]).wf()
        &&& forall|i: int, j: int|
            0 <= i < j < self.subnets.len() ==> self.subnets[i] != self.subnets[j]
    }
}

/// Mathematical image of a [`NetworkInterfaceInfo`].
pub struct GatewayInfoView {
    pub public: Option<bool>,
    pub secure: Option<bool>,
    pub ip_info: Option<IpInfoView>,
}

/// The interface address of the first IPv4 subnet in a list, if any.
pub open spec fn spec_first_v4(s: Seq<IpNet>) -> Option<u32>
    decreases s.len(),
{
    if s.len() == 0 {
        None
    } else {
        match s[0].addr {
            IpAddress::V4(ip) => Some(ip),
            IpAddress::V6(_) => spec_first_v4(s.drop_first()),
        }
    }
}

impl GatewayInfoView {
    pub open spec fn wf(self) -> bool {
        match self.ip_info {
            Some(info) => info.wf(),
            None => true,
        }
    }

    /// Inferred WAN reachability when the operator has not said: the first
    /// IPv4 subnet carries a routable (neither RFC 1918 nor loopback)
    /// address. A disconnected gateway, or one without an IPv4 address, is
    /// treated as private.
    pub open spec fn inferred_public(self) -> bool {
        match self.ip_info {
            Some(info) => match spec_first_v4(info.subnets) {
                Some(ip) => !spec_ipv4_is_rfc1918(ip) && !spec_ipv4_is_loopback(ip),
                None => false,
            },
            None => false,
        }
    }

    pub open spec fn is_public(self) -> bool {
        match self.public {
            Some(p) => p,
            None => self.inferred_public(),
        }
    }

    pub open spec fn is_secure(self) -> bool {
        match self.secure {
            Some(s) => s,
            None => !self.is_public(),
        }
    }

    /// The view of the synthetic loopback gateway's info.
    pub open spec fn loopback() -> GatewayInfoView {
        GatewayInfoView {
            public: Some(false),
            secure: Some(true),
            ip_info: Some(
                IpInfoView {
                    name: "lo"@,
                    scope_id: 1,
                    device_type: None,
                    subnets: seq![IpNet { addr: IpAddress::V4(0x7f000001u32), prefix: 8u8 }],
                    wan_ip: None,
                    ntp_servers: Seq::empty(),
                },
            ),
        }
    }
}

/// One gateway as the snapshot holds it: operator labels plus the current
/// connection state. `ip_info` is `None` while the interface is known but
/// disconnected.
#[derive(Clone, Debug)]
pub struct NetworkInterfaceInfo {
    /// Operator assertion of WAN reachability; inferred from the addresses
    /// when unset.
    pub public: Option<bool>,
    /// Operator assertion of link-layer trust; inferred as the opposite of
    /// `public` when unset.
    pub secure: Option<bool>,
    pub ip_info: Option<IpInfo>,
}

impl View for NetworkInterfaceInfo {
    type V = GatewayInfoView;

    open spec fn view(&self) -> GatewayInfoView {
        GatewayInfoView {
            public: self.public,
            secure: self.secure,
            ip_info: match self.ip_info {
                Some(info) => Some(info@),
                None => None,
            },
        }
    }
}

impl NetworkInterfaceInfo {
    /// Whether this gateway is reachable from the WAN.
    pub fn public(&self) -> (r: bool)
        ensures
            r == self@.is_public(),
    {
        match &self.public {
            Some(p) => *p,
            None => self.inferred_public(),
        }
    }

    /// Whether the link is trusted.
    pub fn secure(&self) -> (r: bool)
        ensures
            r == self@.is_secure(),
    {
        match &self.secure {
            Some(s) => *s,
            None => !self.public(),
        }
    }

    fn inferred_public(&self) -> (r: bool)
        ensures
            r == self@.inferred_public(),
    {
        match &self.ip_info {
            Some(info) => {
                let n = info.subnets.len();
                let mut i: usize = 0;
                proof {
                    assert(info.subnets@.skip(0) =~= info.subnets@);
                }
                loop
                    invariant
                        i <= n,
                        n == info.subnets@.len(),
                        self.ip_info == Some(*info),
                        spec_first_v4(info.subnets@) == spec_first_v4(
                            info.subnets@.skip(i as int),
                        ),
                    decreases n - i,
                {
                    if i == n {
                        proof {
                            assert(info.subnets@.skip(i as int) =~= Seq::<IpNet>::empty());
                            assert(spec_first_v4(Seq::<IpNet>::empty()) is None);
                        }
                        return false;
                    }
                    let net = &info.subnets[i];
                    proof {
                        assert(info.subnets@.skip(i as int)[0] == info.subnets@[i as int]);
                        assert(info.subnets@.skip(i as int).drop_first() =~= info.subnets@.skip(
                            i as int + 1,
                        ));
                    }
                    match &net.addr {
                        IpAddress::V4(ip) => {
                            return !ipv4_is_rfc1918(*ip) && !ipv4_is_loopback(*ip);
                        },
                        IpAddress::V6(_) => {},
                    }
                    i = i + 1;
                }
            },
            None => false,
        }
    }

    /// The synthetic loopback gateway, appended beside every snapshot when
    /// listeners and forwards are reconciled.
    pub fn loopback() -> (r: (GatewayId, NetworkInterfaceInfo))
        ensures
            r.0@ == "lo"@,
            r.1@ == GatewayInfoView::loopback(),
            r.1@.wf(),
    {
        let r = (
            GatewayId::new("lo"),
            NetworkInterfaceInfo {
                public: Some(false),
                secure: Some(true),
                ip_info: Some(IpInfo {
                    name: "lo".to_owned(),
                    scope_id: 1,
                    device_type: None,
                    subnets: vec![IpNet { addr: IpAddress::V4(IPV4_LOCALHOST), prefix: 8 }],
                    wan_ip: None,
                    ntp_servers: Vec::new(),
                }),
            },
        );
        proof {
            assert(r.1@.ip_info->Some_0.subnets =~= GatewayInfoView::loopback().ip_info->Some_0.subnets);
            assert(r.1@.ip_info->Some_0.ntp_servers =~= GatewayInfoView::loopback().ip_info->Some_0.ntp_servers);
            assert(r.1@.ip_info->Some_0 =~= GatewayInfoView::loopback().ip_info->Some_0);
            assert(r.1@ =~= GatewayInfoView::loopback());
        }
        r
    }
}

/// A gateway snapshot: each known interface under its id, ids unique.
#[derive(Clone, Debug)]
pub struct Gateways {
    pub entries: Vec<(GatewayId, NetworkInterfaceInfo)>,
}

impl View for Gateways {
    type V = Seq<(Seq<char>, GatewayInfoView)>;

    open spec fn view(&self) -> Seq<(Seq<char>, GatewayInfoView)> {
        self.entries@.map_values(|e: (GatewayId, NetworkInterfaceInfo)| (e.0@, e.1@))
    }
}

/// Ids are pairwise distinct.
pub open spec fn gateways_wf(g: Seq<(Seq<char>, GatewayInfoView)>) -> bool {
    forall|i: int, j: int| 0 <= i < j < g.len() ==> g[i].0 != g[j].0
}

/// Index of `id` in the snapshot, or `-1`.
pub open spec fn spec_find(g: Seq<(Seq<char>, GatewayInfoView)>, id: Seq<char>) -> int
    decreases g.len(),
{
    if g.len() == 0 {
        -1
    } else if g[0].0 == id {
        0
    } else {
        let r = spec_find(g.drop_first(), id);
        if r == -1 {
            -1
        } else {
            r + 1
        }
    }
}

pub proof fn lemma_spec_find(g: Seq<(Seq<char>, GatewayInfoView)>, id: Seq<char>)
    ensures
        spec_find(g, id) == -1 ==> forall|i: int| 0 <= i < g.len() ==> g[i].0 != id,
        spec_find(g, id) != -1 ==> {
            &&& 0 <= spec_find(g, id) < g.len()
            &&& g[spec_find(g, id)].0 == id
        },
    decreases g.len(),
{
    if g.len() > 0 && g[0].0 != id {
        lemma_spec_find(g.drop_first(), id);
        assert forall|i: int| 0 <= i < g.len() && spec_find(g, id) == -1 implies g[i].0 != id by {
            if i > 0 {
                assert(g.drop_first()[i - 1] == g[i]);
            }
        }
    }
}

/// When no entry carries `id`, `spec_find` misses.
pub proof fn lemma_spec_find_miss(g: Seq<(Seq<char>, GatewayInfoView)>, id: Seq<char>)
    requires
        forall|k: int| 0 <= k < g.len() ==> (#[trigger] g[k]).0 != id,
    ensures
        spec_find(g, id) == -1,
    decreases g.len(),
{
    if g.len() > 0 {
        assert(g[0].0 != id);
        assert forall|k: int| 0 <= k < g.drop_first().len() implies (#[trigger] g.drop_first()[k]).0
            != id by {
            assert(g.drop_first()[k] == g[k + 1]);
        }
        lemma_spec_find_miss(g.drop_first(), id);
    }
}

/// When `i` is the first entry carrying `id`, `spec_find` lands on it.
pub proof fn lemma_spec_find_hit(g: Seq<(Seq<char>, GatewayInfoView)>, id: Seq<char>, i: int)
    requires
        0 <= i < g.len(),
        g[i].0 == id,
        forall|k: int| 0 <= k < i ==> (#[trigger] g[k]).0 != id,
    ensures
        spec_find(g, id) == i,
    decreases g.len(),
{
    if i == 0 {
    } else {
        assert(g[0].0 != id);
        assert forall|k: int| 0 <= k < i - 1 implies (#[trigger] g.drop_first()[k]).0 != id by {
            assert(g.drop_first()[k] == g[k + 1]);
        }
        assert(g.drop_first()[i - 1] == g[i]);
        lemma_spec_find_hit(g.drop_first(), id, i - 1);
    }
}

impl Gateways {
    pub fn new() -> (r: Self)
        ensures
            r@ =~= Seq::<(Seq<char>, GatewayInfoView)>::empty(),
    {
        Gateways { entries: Vec::new() }
    }

    /// Position of `id`, as the callers' contracts speak of it.
    fn find(&self, id: &GatewayId) -> (r: Option<usize>)
        ensures
            match r {
                Some(i) => i < self@.len() && self@[i as int].0 == id@ && spec_find(self@, id@)
                    == i as int,
                None => spec_find(self@, id@) == -1,
            },
    {
        let n = self.entries.len();
        let mut i: usize = 0;
        loop
            invariant
                i <= n,
                n == self@.len(),
                self@.len() == self.entries@.len(),
                forall|k: int| 0 <= k < self@.len() ==> self@[k] == (
                    self.entries@[k].0@,
                    self.entries@[k].1@,
                ),
                forall|k: int| 0 <= k < i ==> (#[trigger] self@[k]).0 != id@,
            decreases n - i,
        {
            if i == n {
                proof {
                    lemma_spec_find_miss(self@, id@);
                }
                return None;
            }
            if self.entries[i].0.0 == id.0 {
                proof {
                    assert(self@[i as int].0 == id@);
                    lemma_spec_find_hit(self@, id@, i as int);
                }
                return Some(i);
            }
            proof {
                assert(self@[i as int].0 != id@);
            }
            i = i + 1;
        }
    }

    /// What the snapshot holds for `id`.
    pub fn get(&self, id: &GatewayId) -> (r: Option<&NetworkInterfaceInfo>)
        ensures
            match r {
                Some(info) => {
                    &&& spec_find(self@, id@) != -1
                    &&& info@ == self@[spec_find(self@, id@)].1
                },
                None => spec_find(self@, id@) == -1,
            },
    {
        match self.find(id) {
            Some(i) => Some(&self.entries[i].1),
            None => None,
        }
    }

    /// Record what the watcher computed for a connected (or newly
    /// disconnected) interface. The operator labels of an existing entry are
    /// preserved; a new entry starts unlabelled. Returns whether the
    /// snapshot changed, which is when observers are woken.
    pub fn upsert(&mut self, id: &GatewayId, ip_info: Option<IpInfo>) -> (changed: bool)
        ensures
            ({
                let found = spec_find(old(self)@, id@);
                let new_view = match ip_info {
                    Some(info) => Some(info@),
                    None => None,
                };
                if found == -1 {
                    &&& final(self)@ =~= old(self)@.push(
                        (id@, GatewayInfoView { public: None, secure: None, ip_info: new_view }),
                    )
                    &&& changed
                } else {
                    &&& final(self)@ =~= old(self)@.update(
                        found,
                        (
                            id@,
                            GatewayInfoView {
                                public: old(self)@[found].1.public,
                                secure: old(self)@[found].1.secure,
                                ip_info: new_view,
                            },
                        ),
                    )
                    &&& changed == (old(self)@[found].1.ip_info != new_view)
                }
            }),
    {
        match self.find(id) {
            Some(i) => {
                let entry = &self.entries[i];
                let changed = !opt_ip_info_eq(&entry.1.ip_info, &ip_info);
                let public = entry.1.public;
                let secure = entry.1.secure;
                self.entries.set(i, (GatewayId::new(id.as_str()), NetworkInterfaceInfo { public, secure, ip_info }));
                changed
            },
            None => {
                self.entries.push(
                    (GatewayId::new(id.as_str()), NetworkInterfaceInfo { public: None, secure: None, ip_info }),
                );
                true
            },
        }
    }


    /// The watcher's re-enumeration rule: interfaces absent from the present
    /// list have their connection state cleared but keep their entry, so
    /// operator labels survive transient disconnects. Returns whether
    /// anything changed, which is when observers are woken.
    pub fn clear_absent(&mut self, present: &Vec<GatewayId>) -> (changed: bool)
        ensures
            final(self)@.len() == old(self)@.len(),
            forall|k: int|
                #![trigger final(self)@[k]]
                0 <= k < old(self)@.len() ==> {
                    &&& final(self)@[k].0 == old(self)@[k].0
                    &&& final(self)@[k].1.public == old(self)@[k].1.public
                    &&& final(self)@[k].1.secure == old(self)@[k].1.secure
                    &&& (crate::filter::id_member(
                        crate::filter::ids_view(present@),
                        old(self)@[k].0,
                    ) ==> final(self)@[k].1.ip_info == old(self)@[k].1.ip_info)
                    &&& (!crate::filter::id_member(
                        crate::filter::ids_view(present@),
                        old(self)@[k].0,
                    ) ==> final(self)@[k].1.ip_info is None)
                },
            changed == exists|k: int|
                0 <= k < old(self)@.len() && !crate::filter::id_member(
                    crate::filter::ids_view(present@),
                    (#[trigger] old(self)@[k]).0,
                ) && old(self)@[k].1.ip_info is Some,
    {
        let mut changed = false;
        let n = self.entries.len();
        let mut i: usize = 0;
        proof {
            assert(self@.len() == self.entries@.len());
        }
        while i < n
            invariant
                i <= n,
                n == self.entries@.len(),
                self@.len() == n,
                old(self)@.len() == n,
                forall|k: int| 0 <= k < n ==> #[trigger] self@[k] == (
                    self.entries@[k].0@,
                    self.entries@[k].1@,
                ),
                forall|k: int|
                    #![trigger self@[k]]
                    i <= k < n ==> self@[k] == old(self)@[k],
                forall|k: int|
                    #![trigger self@[k]]
                    0 <= k < i ==> {
                        &&& self@[k].0 == old(self)@[k].0
                        &&& self@[k].1.public == old(self)@[k].1.public
                        &&& self@[k].1.secure == old(self)@[k].1.secure
                        &&& (crate::filter::id_member(
                            crate::filter::ids_view(present@),
                            old(self)@[k].0,
                        ) ==> self@[k].1.ip_info == old(self)@[k].1.ip_info)
                        &&& (!crate::filter::id_member(
                            crate::filter::ids_view(present@),
                            old(self)@[k].0,
                        ) ==> self@[k].1.ip_info is None)
                    },
                changed == exists|k: int|
                    0 <= k < i && !crate::filter::id_member(
                        crate::filter::ids_view(present@),
                        (#[trigger] old(self)@[k]).0,
                    ) && old(self)@[k].1.ip_info is Some,
            decreases n - i,
        {
            let ghost pre_view = self@;
            let id = GatewayId::new(self.entries[i].0.as_str());
            proof {
                assert(self@[i as int] == (self.entries@[i as int].0@, self.entries@[i as int].1@));
                assert(id@ == self.entries@[i as int].0@);
                assert(self@[i as int] == old(self)@[i as int]);
                assert(id@ == old(self)@[i as int].0);
                assert(pre_view[i as int] == old(self)@[i as int]);
            }
            let member = crate::filter::ids_contains(present, &id);
            if !member {
                let entry = &self.entries[i];
                let was_connected = entry.1.ip_info.is_some();
                let public = entry.1.public;
                let secure = entry.1.secure;
                self.entries.set(
                    i,
                    (id, NetworkInterfaceInfo { public, secure, ip_info: None }),
                );
                if was_connected {
                    changed = true;
                }
                proof {
                    assert(forall|k: int|
                        0 <= k < n && k != i ==> #[trigger] self@[k] == pre_view[k]);
                    assert(self@[i as int] == (
                        self.entries@[i as int].0@,
                        self.entries@[i as int].1@,
                    ));
                    assert(self@[i as int].0 == old(self)@[i as int].0);
                    assert(self@[i as int].1.ip_info is None);
                    assert(self@[i as int].1.public == old(self)@[i as int].1.public);
                    assert(self@[i as int].1.secure == old(self)@[i as int].1.secure);
                    assert(changed == exists|k: int|
                        0 <= k < i + 1 && !crate::filter::id_member(
                            crate::filter::ids_view(present@),
                            (#[trigger] old(self)@[k]).0,
                        ) && old(self)@[k].1.ip_info is Some) by {
                        if changed {
                            if was_connected {
                                assert(!crate::filter::id_member(
                                    crate::filter::ids_view(present@),
                                    old(self)@[i as int].0,
                                ) && old(self)@[i as int].1.ip_info is Some);
                            }
                        }
                    }
                }
            } else {
                proof {
                    assert(changed == exists|k: int|
                        0 <= k < i + 1 && !crate::filter::id_member(
                            crate::filter::ids_view(present@),
                            (#[trigger] old(self)@[k]).0,
                        ) && old(self)@[k].1.ip_info is Some) by {
                        assert(crate::filter::id_member(
                            crate::filter::ids_view(present@),
                            old(self)@[i as int].0,
                        ));
                    }
                }
            }
            i = i + 1;
        }
        changed
    }

    /// Operator verb: assert or clear the `public` label. Fails when the
    /// gateway is unknown; returns whether the label changed.
    pub fn set_public(&mut self, id: &GatewayId, public: Option<bool>) -> (r: Result<
        bool,
        ErrorKind,
    >)
        ensures
            match r {
                Ok(changed) => {
                    let found = spec_find(old(self)@, id@);
                    &&& found != -1
                    &&& changed == (old(self)@[found].1.public != public)
                    &&& final(self)@ =~= old(self)@.update(
                        found,
                        (
                            id@,
                            GatewayInfoView {
                                public,
                                secure: old(self)@[found].1.secure,
                                ip_info: old(self)@[found].1.ip_info,
                            },
                        ),
                    )
                },
                Err(k) => {
                    &&& k == ErrorKind::InvalidConfig
                    &&& spec_find(old(self)@, id@) == -1
                    &&& final(self)@ == old(self)@
                },
            },
    {
        match self.find(id) {
            Some(i) => {
                let entry = &self.entries[i];
                let changed = !opt_bool_eq(&entry.1.public, &public);
                let secure = entry.1.secure;
                let ip_info = opt_ip_info_duplicate(&entry.1.ip_info);
                let old_info_ghost: Ghost<GatewayInfoView> = Ghost(self@[i as int].1);
                self.entries.set(i, (GatewayId::new(id.as_str()), NetworkInterfaceInfo { public, secure, ip_info }));
                proof {
                    assert(self@[i as int].1.ip_info == old_info_ghost@.ip_info);
                }
                Ok(changed)
            },
            None => Err(ErrorKind::InvalidConfig),
        }
    }

    /// Operator verb: drop a gateway from the snapshot. Refused while the
    /// interface is still connected.
    pub fn forget(&mut self, id: &GatewayId) -> (r: Result<bool, ErrorKind>)
        ensures
            match r {
                Ok(changed) => {
                    let found = spec_find(old(self)@, id@);
                    &&& (changed <==> found != -1)
                    &&& (found != -1 ==> old(self)@[found].1.ip_info is None && final(self)@ =~= old(
                        self,
                    )@.remove(found))
                    &&& (found == -1 ==> final(self)@ == old(self)@)
                },
                Err(k) => {
                    &&& k == ErrorKind::InvalidConfig
                    &&& ({
                        let found = spec_find(old(self)@, id@);
                        found != -1 && old(self)@[found].1.ip_info is Some
                    })
                    &&& final(self)@ == old(self)@
                },
            },
    {
        match self.find(id) {
            Some(i) => {
                if self.entries[i].1.ip_info.is_some() {
                    return Err(ErrorKind::InvalidConfig);
                }
                self.entries.remove(i);
                Ok(true)
            },
            None => Ok(false),
        }
    }
}


/// Deduplicate an observed subnet list, keeping first occurrences in order:
/// what the watcher stores after unioning the IPv4 and IPv6 address data.
pub fn dedup_subnets(subnets: Vec<IpNet>) -> (r: Vec<IpNet>)
    ensures
        forall|i: int, j: int|
            #![trigger r@[i], r@[j]]
            0 <= i < j < r@.len() ==> r@[i] != r@[j],
        forall|n: IpNet| #[trigger] r@.contains(n) <==> subnets@.contains(n),
{
    let mut r: Vec<IpNet> = Vec::new();
    let total = subnets.len();
    let mut i: usize = 0;
    while i < total
        invariant
            i <= total,
            total == subnets@.len(),
            forall|a: int, b: int|
                #![trigger r@[a], r@[b]]
                0 <= a < b < r@.len() ==> r@[a] != r@[b],
            forall|n: IpNet| #[trigger] r@.contains(n) <==> subnets@.take(i as int).contains(n),
        decreases total - i,
    {
        let net = subnets[i];
        let mut seen = false;
        let m = r.len();
        let mut k: usize = 0;
        while k < m
            invariant
                k <= m,
                m == r@.len(),
                seen == exists|t: int| 0 <= t < k && #[trigger] r@[t] == net,
            decreases m - k,
        {
            if r[k] == net {
                seen = true;
            }
            k = k + 1;
        }
        let ghost pre = r@;
        if !seen {
            r.push(net);
        }
        proof {
            assert(subnets@.take(i as int + 1).drop_last() =~= subnets@.take(i as int));
            assert(subnets@.take(i as int + 1).last() == subnets@[i as int]);
            assert forall|n: IpNet| #[trigger] r@.contains(n) implies subnets@.take(
                i as int + 1,
            ).contains(n) by {
                let w = choose|w: int| 0 <= w < r@.len() && r@[w] == n;
                if w < pre.len() {
                    assert(pre.contains(n));
                    let t = choose|t: int|
                        0 <= t < subnets@.take(i as int).len() && (#[trigger] subnets@.take(
                            i as int,
                        )[t]) == n;
                    assert(subnets@.take(i as int + 1)[t] == n);
                } else {
                    assert(n == net);
                    assert(subnets@.take(i as int + 1)[i as int] == n);
                }
            }
            assert forall|n: IpNet| subnets@.take(i as int + 1).contains(n) implies
                #[trigger] r@.contains(n) by {
                let t = choose|t: int|
                    0 <= t < subnets@.take(i as int + 1).len() && (#[trigger] subnets@.take(
                        i as int + 1,
                    )[t]) == n;
                if t < i {
                    assert(subnets@.take(i as int)[t] == n);
                    assert(pre.contains(n));
                    let w = choose|w: int| 0 <= w < pre.len() && pre[w] == n;
                    assert(r@[w] == n);
                } else {
                    assert(n == net);
                    if seen {
                        let w = choose|w: int| 0 <= w < pre.len() && #[trigger] pre[w] == net;
                        assert(r@[w] == n);
                    } else {
                        assert(r@[r@.len() - 1] == n);
                    }
                }
            }
            if !seen {
                assert forall|a: int, b: int|
                    #![trigger r@[a], r@[b]]
                    0 <= a < b < r@.len() implies r@[a] != r@[b] by {
                    if b == r@.len() - 1 {
                        assert(r@[a] == pre[a]);
                        assert(!pre.contains(net)) by {
                            if pre.contains(net) {
                                let w = choose|w: int|
                                    0 <= w < pre.len() && #[trigger] pre[w] == net;
                            }
                        }
                    } else {
                        assert(r@[a] == pre[a] && r@[b] == pre[b]);
                    }
                }
            }
        }
        i = i + 1;
    }
    proof {
        assert(subnets@.take(total as int) =~= subnets@);
    }
    r
}

/// Deep equality test on optional connection state, used to decide whether
/// observers must be woken.
fn opt_ip_info_eq(a: &Option<IpInfo>, b: &Option<IpInfo>) -> (r: bool)
    ensures
        r == (match (a, b) {
            (Some(x), Some(y)) => x@ == y@,
            (None, None) => true,
            _ => false,
        }),
{
    match (a, b) {
        (Some(x), Some(y)) => ip_info_eq(x, y),
        (None, None) => true,
        _ => false,
    }
}

fn opt_bool_eq(a: &Option<bool>, b: &Option<bool>) -> (r: bool)
    ensures
        r == (*a == *b),
{
    match (a, b) {
        (Some(x), Some(y)) => *x == *y,
        (None, None) => true,
        _ => false,
    }
}

fn bytes_list_eq(a: &Vec<Vec<u8>>, b: &Vec<Vec<u8>>) -> (r: bool)
    ensures
        r == (a@.map_values(|s: Vec<u8>| s@) == b@.map_values(|s: Vec<u8>| s@)),
{
    if a.len() != b.len() {
        proof {
            assert(a@.map_values(|s: Vec<u8>| s@).len() == a@.len());
            assert(b@.map_values(|s: Vec<u8>| s@).len() == b@.len());
        }
        return false;
    }
    let n = a.len();
    let mut i: usize = 0;
    while i < n
        invariant
            i <= n,
            n == a@.len() && n == b@.len(),
            forall|k: int| 0 <= k < i ==> #[trigger] a@[k]@ == b@[k]@,
        decreases n - i,
    {
        if !crate::signature::bytes_eq(a[i].as_slice(), b[i].as_slice()) {
            proof {
                assert(a@.map_values(|s: Vec<u8>| s@)[i as int] == a@[i as int]@);
                assert(b@.map_values(|s: Vec<u8>| s@)[i as int] == b@[i as int]@);
            }
            return false;
        }
        i = i + 1;
    }
    proof {
        assert(a@.map_values(|s: Vec<u8>| s@) =~= b@.map_values(|s: Vec<u8>| s@));
    }
    true
}

fn net_seq_eq(a: &Vec<IpNet>, b: &Vec<IpNet>) -> (r: bool)
    ensures
        r == (a@ == b@),
{
    if a.len() != b.len() {
        return false;
    }
    let n = a.len();
    let mut i: usize = 0;
    while i < n
        invariant
            i <= n,
            n == a@.len() && n == b@.len(),
            forall|k: int| 0 <= k < i ==> a@[k] == b@[k],
        decreases n - i,
    {
        if !(a[i] == b[i]) {
            return false;
        }
        i = i + 1;
    }
    proof {
        assert(a@ =~= b@);
    }
    true
}

/// Deep equality test on connection state.
fn ip_info_eq(a: &IpInfo, b: &IpInfo) -> (r: bool)
    ensures
        r == (a@ == b@),
{
    let names = a.name == b.name;
    let scopes = a.scope_id == b.scope_id;
    let types = match (&a.device_type, &b.device_type) {
        (Some(x), Some(y)) => *x == *y,
        (None, None) => true,
        _ => false,
    };
    let subnets = net_seq_eq(&a.subnets, &b.subnets);
    let wans = match (&a.wan_ip, &b.wan_ip) {
        (Some(x), Some(y)) => *x == *y,
        (None, None) => true,
        _ => false,
    };
    let ntps = bytes_list_eq(&a.ntp_servers, &b.ntp_servers);
    let r = names && scopes && types && subnets && wans && ntps;
    proof {
        if r {
            assert(a@ =~= b@);
        }
    }
    r
}

/// No two entries of the list hold the same bytes.
pub open spec fn bytes_distinct(s: Seq<Seq<u8>>) -> bool {
    forall|k1: int, k2: int| 0 <= k1 < k2 < s.len() ==> s[k1] != s[k2]
}

/// `acc` extended with the members of `xs` it lacks, in their order.
pub open spec fn spec_dedup_append(acc: Seq<Seq<u8>>, xs: Seq<Seq<u8>>) -> Seq<Seq<u8>>
    decreases xs.len(),
{
    if xs.len() == 0 {
        acc
    } else if acc.contains(xs[0]) {
        spec_dedup_append(acc, xs.drop_first())
    } else {
        spec_dedup_append(acc.push(xs[0]), xs.drop_first())
    }
}

pub proof fn lemma_dedup_append(acc: Seq<Seq<u8>>, xs: Seq<Seq<u8>>)
    ensures
        forall|x: Seq<u8>|
            #[trigger] spec_dedup_append(acc, xs).contains(x) <==> (acc.contains(x)
                || xs.contains(x)),
        bytes_distinct(acc) ==> bytes_distinct(spec_dedup_append(acc, xs)),
    decreases xs.len(),
{
    if xs.len() == 0 {
        assert(forall|x: Seq<u8>| !xs.contains(x));
        assert(spec_dedup_append(acc, xs) == acc);
    } else {
        assert forall|x: Seq<u8>| #[trigger] xs.contains(x) implies (x == xs[0]
            || xs.drop_first().contains(x)) by {
            let i = choose|i: int| 0 <= i < xs.len() && xs[i] == x;
            if i > 0 {
                assert(xs.drop_first()[i - 1] == x);
            }
        }
        assert forall|x: Seq<u8>| xs.drop_first().contains(x) implies #[trigger] xs.contains(
            x,
        ) by {
            let i = choose|i: int| 0 <= i < xs.drop_first().len() && xs.drop_first()[i] == x;
            assert(xs[i + 1] == x);
        }
        assert(xs.contains(xs[0]));
        if acc.contains(xs[0]) {
            lemma_dedup_append(acc, xs.drop_first());
            assert(spec_dedup_append(acc, xs) == spec_dedup_append(acc, xs.drop_first()));
            assert forall|x: Seq<u8>|
                #[trigger] spec_dedup_append(acc, xs).contains(x) <==> (acc.contains(x)
                    || xs.contains(x)) by {
                assert(spec_dedup_append(acc, xs.drop_first()).contains(x) <==> (acc.contains(x)
                    || xs.drop_first().contains(x)));
            }
        } else {
            lemma_dedup_append(acc.push(xs[0]), xs.drop_first());
            assert forall|x: Seq<u8>| #[trigger] acc.push(xs[0]).contains(x) implies (acc.contains(
                x,
            ) || x == xs[0]) by {
                let i = choose|i: int| 0 <= i < acc.push(xs[0]).len() && acc.push(xs[0])[i] == x;
                if i < acc.len() {
                    assert(acc[i] == x);
                }
            }
            assert forall|x: Seq<u8>| acc.contains(x) || x == xs[0] implies #[trigger] acc.push(
                xs[0],
            ).contains(x) by {
                if acc.contains(x) {
                    let i = choose|i: int| 0 <= i < acc.len() && acc[i] == x;
                    assert(acc.push(xs[0])[i] == x);
                } else {
                    assert(acc.push(xs[0])[acc.len() as int] == x);
                }
            }
            if bytes_distinct(acc) {
                assert forall|k1: int, k2: int|
                    0 <= k1 < k2 < acc.push(xs[0]).len() implies acc.push(xs[0])[k1] != acc.push(
                    xs[0],
                )[k2] by {
                    if k2 == acc.len() {
                        assert(acc.push(xs[0])[k1] == acc[k1]);
                        assert(acc.contains(acc[k1]));
                    }
                }
                assert(bytes_distinct(acc.push(xs[0])));
            }
            assert(spec_dedup_append(acc, xs) == spec_dedup_append(acc.push(xs[0]), xs.drop_first()));
            assert forall|x: Seq<u8>|
                #[trigger] spec_dedup_append(acc, xs).contains(x) <==> (acc.contains(x)
                    || xs.contains(x)) by {
                assert(spec_dedup_append(acc.push(xs[0]), xs.drop_first()).contains(x) <==> (
                acc.push(xs[0]).contains(x) || xs.drop_first().contains(x)));
            }
        }
    }
}

/// `acc` extended, gateway by gateway, with each connected gateway's NTP
/// servers, each kept only at its first appearance.
pub open spec fn spec_ntp_union_from(
    g: Seq<(Seq<char>, GatewayInfoView)>,
    acc: Seq<Seq<u8>>,
) -> Seq<Seq<u8>>
    decreases g.len(),
{
    if g.len() == 0 {
        acc
    } else {
        let acc2 = if g[0].1.ip_info is Some {
            spec_dedup_append(acc, g[0].1.ip_info->Some_0.ntp_servers)
        } else {
            acc
        };
        spec_ntp_union_from(g.drop_first(), acc2)
    }
}

/// The NTP servers of the snapshot's connected gateways, each exactly once,
/// in order of first appearance (gateways in snapshot order, each gateway's
/// servers in its own order).
pub open spec fn spec_ntp_union(g: Seq<(Seq<char>, GatewayInfoView)>) -> Seq<Seq<u8>> {
    spec_ntp_union_from(g, Seq::<Seq<u8>>::empty())
}

/// The union holds a name exactly when some connected gateway lists it (over
/// what `acc` already held), and stays duplicate-free.
pub proof fn lemma_ntp_union_from(g: Seq<(Seq<char>, GatewayInfoView)>, acc: Seq<Seq<u8>>)
    ensures
        forall|x: Seq<u8>|
            #[trigger] spec_ntp_union_from(g, acc).contains(x) <==> (acc.contains(x) || exists|
                i: int,
            |
                0 <= i < g.len() && (#[trigger] g[i]).1.ip_info is Some
                    && g[i].1.ip_info->Some_0.ntp_servers.contains(x)),
        bytes_distinct(acc) ==> bytes_distinct(spec_ntp_union_from(g, acc)),
    decreases g.len(),
{
    if g.len() == 0 {
        assert forall|x: Seq<u8>| #[trigger] spec_ntp_union_from(g, acc).contains(x) implies (
        acc.contains(x) || exists|i: int|
            0 <= i < g.len() && (#[trigger] g[i]).1.ip_info is Some
                && g[i].1.ip_info->Some_0.ntp_servers.contains(x)) by {}
    } else {
        let acc2 = if g[0].1.ip_info is Some {
            spec_dedup_append(acc, g[0].1.ip_info->Some_0.ntp_servers)
        } else {
            acc
        };
        if g[0].1.ip_info is Some {
            lemma_dedup_append(acc, g[0].1.ip_info->Some_0.ntp_servers);
        }
        lemma_ntp_union_from(g.drop_first(), acc2);
        assert(spec_ntp_union_from(g, acc) == spec_ntp_union_from(g.drop_first(), acc2));
        assert forall|x: Seq<u8>| #[trigger] spec_ntp_union_from(g, acc).contains(x) implies (
        acc.contains(x) || exists|i: int|
            0 <= i < g.len() && (#[trigger] g[i]).1.ip_info is Some
                && g[i].1.ip_info->Some_0.ntp_servers.contains(x)) by {
            assert(spec_ntp_union_from(g.drop_first(), acc2).contains(x));
            if !acc.contains(x) {
                if acc2.contains(x) {
                    assert(g[0].1.ip_info is Some && g[0].1.ip_info->Some_0.ntp_servers.contains(
                        x,
                    ));
                } else {
                    assert(exists|i: int|
                        0 <= i < g.drop_first().len() && (#[trigger] g.drop_first()[
                            i
                        ]).1.ip_info is Some && g.drop_first()[
                            i
                        ].1.ip_info->Some_0.ntp_servers.contains(x));
                    let i = choose|i: int|
                        0 <= i < g.drop_first().len() && (#[trigger] g.drop_first()[
                            i
                        ]).1.ip_info is Some && g.drop_first()[
                            i
                        ].1.ip_info->Some_0.ntp_servers.contains(x);
                    assert(g.drop_first()[i] == g[i + 1]);
                    assert(0 <= i + 1 < g.len() && (#[trigger] g[i + 1]).1.ip_info is Some && g[i
                        + 1].1.ip_info->Some_0.ntp_servers.contains(x));
                }
            }
        }
        assert forall|x: Seq<u8>|
            (acc.contains(x) || exists|i: int|
                0 <= i < g.len() && (#[trigger] g[i]).1.ip_info is Some
                    && g[i].1.ip_info->Some_0.ntp_servers.contains(
                    x,
                )) implies #[trigger] spec_ntp_union_from(g, acc).contains(x) by {
            if acc.contains(x) {
                assert(acc2.contains(x));
                assert(spec_ntp_union_from(g.drop_first(), acc2).contains(x));
            } else {
                let i = choose|i: int|
                    0 <= i < g.len() && (#[trigger] g[i]).1.ip_info is Some
                        && g[i].1.ip_info->Some_0.ntp_servers.contains(x);
                if i == 0 {
                    assert(spec_dedup_append(acc, g[0].1.ip_info->Some_0.ntp_servers).contains(x));
                    assert(acc2.contains(x));
                } else {
                    assert(g.drop_first()[i - 1] == g[i]);
                    assert(0 <= i - 1 < g.drop_first().len() && (#[trigger] g.drop_first()[i
                        - 1]).1.ip_info is Some && g.drop_first()[
                        i - 1
                    ].1.ip_info->Some_0.ntp_servers.contains(x));
                }
                assert(spec_ntp_union_from(g.drop_first(), acc2).contains(x));
            }
        }
    }
}

/// Whether some entry of the list holds the bytes of `x`.
fn bytes_list_contains(v: &Vec<Vec<u8>>, x: &Vec<u8>) -> (r: bool)
    ensures
        r == v@.map_values(|s: Vec<u8>| s@).contains(x@),
{
    let n = v.len();
    let mut i: usize = 0;
    while i < n
        invariant
            i <= n,
            n == v@.len(),
            forall|k: int| 0 <= k < i ==> (#[trigger] v@[k])@ != x@,
        decreases n - i,
    {
        if crate::signature::bytes_eq(v[i].as_slice(), x.as_slice()) {
            proof {
                assert(v@.map_values(|s: Vec<u8>| s@)[i as int] == x@);
            }
            return true;
        }
        i = i + 1;
    }
    proof {
        let m = v@.map_values(|s: Vec<u8>| s@);
        assert forall|k: int| 0 <= k < m.len() implies #[trigger] m[k] != x@ by {
            assert(m[k] == v@[k]@);
        }
    }
    false
}

/// The NTP servers that the connected gateways offer, each exactly once, in
/// order of first appearance: what the host's time synchronisation
/// configuration is set to after a snapshot change.
pub fn ntp_servers_union(gateways: &Gateways) -> (r: Vec<Vec<u8>>)
    ensures
        r@.map_values(|s: Vec<u8>| s@) == spec_ntp_union(gateways@),
        bytes_distinct(r@.map_values(|s: Vec<u8>| s@)),
{
    let ghost goal = spec_ntp_union(gateways@);
    let mut out: Vec<Vec<u8>> = Vec::new();
    let n = gateways.entries.len();
    let mut i: usize = 0;
    proof {
        assert(gateways@.skip(0) =~= gateways@);
        assert(out@.map_values(|s: Vec<u8>| s@) =~= Seq::<Seq<u8>>::empty());
    }
    while i < n
        invariant
            i <= n,
            n == gateways.entries@.len(),
            gateways@.len() == n,
            goal == spec_ntp_union(gateways@),
            goal == spec_ntp_union_from(
                gateways@.skip(i as int),
                out@.map_values(|s: Vec<u8>| s@),
            ),
        decreases n - i,
    {
        let ghost gi = gateways@[i as int];
        match &gateways.entries[i].1.ip_info {
            Some(info) => {
                proof {
                    assert(gateways@.skip(i as int)[0] == gi);
                    assert(gateways@.skip(i as int).drop_first() =~= gateways@.skip(i as int + 1));
                    assert(info.ntp_servers@.map_values(|s: Vec<u8>| s@).skip(0)
                        =~= gi.1.ip_info->Some_0.ntp_servers);
                }
                let m = info.ntp_servers.len();
                let mut j: usize = 0;
                while j < m
                    invariant
                        j <= m,
                        m == info.ntp_servers@.len(),
                        goal == spec_ntp_union_from(
                            gateways@.skip(i as int + 1),
                            spec_dedup_append(
                                out@.map_values(|s: Vec<u8>| s@),
                                info.ntp_servers@.map_values(|s: Vec<u8>| s@).skip(j as int),
                            ),
                        ),
                    decreases m - j,
                {
                    let ghost rest = info.ntp_servers@.map_values(|s: Vec<u8>| s@).skip(j as int);
                    let ghost pre = out@.map_values(|s: Vec<u8>| s@);
                    proof {
                        assert(rest[0] == info.ntp_servers@[j as int]@);
                        assert(rest.drop_first() =~= info.ntp_servers@.map_values(
                            |s: Vec<u8>| s@,
                        ).skip(j as int + 1));
                    }
                    if !bytes_list_contains(&out, &info.ntp_servers[j]) {
                        out.push(crate::text::copy_bytes(&info.ntp_servers[j]));
                        proof {
                            assert(out@.map_values(|s: Vec<u8>| s@) =~= pre.push(rest[0]));
                        }
                    }
                    j = j + 1;
                }
                proof {
                    assert(info.ntp_servers@.map_values(|s: Vec<u8>| s@).skip(m as int)
                        =~= Seq::<Seq<u8>>::empty());
                }
            },
            None => {
                proof {
                    assert(gateways@.skip(i as int)[0] == gi);
                    assert(gateways@.skip(i as int).drop_first() =~= gateways@.skip(i as int + 1));
                }
            },
        }
        i = i + 1;
    }
    proof {
        assert(gateways@.skip(n as int) =~= Seq::<(Seq<char>, GatewayInfoView)>::empty());
        assert(out@.map_values(|s: Vec<u8>| s@) == goal);
        lemma_ntp_union(gateways@);
    }
    out
}

/// The union holds exactly the names that some connected gateway lists, and
/// no name twice.
pub proof fn lemma_ntp_union(g: Seq<(Seq<char>, GatewayInfoView)>)
    ensures
        forall|x: Seq<u8>|
            #[trigger] spec_ntp_union(g).contains(x) <==> exists|i: int|
                0 <= i < g.len() && (#[trigger] g[i]).1.ip_info is Some
                    && g[i].1.ip_info->Some_0.ntp_servers.contains(x),
        bytes_distinct(spec_ntp_union(g)),
{
    lemma_ntp_union_from(g, Seq::<Seq<u8>>::empty());
    assert(bytes_distinct(Seq::<Seq<u8>>::empty()));
    assert forall|x: Seq<u8>|
        #[trigger] spec_ntp_union(g).contains(x) <==> exists|i: int|
            0 <= i < g.len() && (#[trigger] g[i]).1.ip_info is Some
                && g[i].1.ip_info->Some_0.ntp_servers.contains(x) by {
        assert(!Seq::<Seq<u8>>::empty().contains(x));
        assert(spec_ntp_union_from(g, Seq::<Seq<u8>>::empty()).contains(x) <==> (Seq::<
            Seq<u8>,
        >::empty().contains(x) || exists|i: int|
            0 <= i < g.len() && (#[trigger] g[i]).1.ip_info is Some
                && g[i].1.ip_info->Some_0.ntp_servers.contains(x)));
    }
}

/// `xs` joined with single spaces.
pub open spec fn spec_join_space(xs: Seq<Seq<u8>>) -> Seq<u8>
    decreases xs.len(),
{
    if xs.len() == 0 {
        Seq::<u8>::empty()
    } else if xs.len() == 1 {
        xs[0]
    } else {
        xs[0] + seq![32u8] + spec_join_space(xs.drop_first())
    }
}

pub proof fn lemma_join_space_push(xs: Seq<Seq<u8>>, x: Seq<u8>)
    ensures
        spec_join_space(xs.push(x)) == if xs.len() == 0 {
            x
        } else {
            spec_join_space(xs) + seq![32u8] + x
        },
    decreases xs.len(),
{
    if xs.len() == 0 {
        assert(spec_join_space(xs.push(x)) == xs.push(x)[0]);
        assert(xs.push(x)[0] == x);
    } else if xs.len() == 1 {
        assert(xs.push(x)[0] == xs[0]);
        assert(xs.push(x).drop_first() =~= seq![x]);
        assert(spec_join_space(seq![x]) == x);
    } else {
        assert(xs.push(x).drop_first() =~= xs.drop_first().push(x));
        lemma_join_space_push(xs.drop_first(), x);
        assert(xs.push(x)[0] == xs[0]);
        assert(xs[0] + seq![32u8] + (spec_join_space(xs.drop_first()) + seq![32u8] + x) =~= (xs[0]
            + seq![32u8] + spec_join_space(xs.drop_first())) + seq![32u8] + x);
    }
}

/// The `NTP=` line of the time synchronisation configuration for a server
/// list: `NTP=` followed by the names joined with single spaces.
pub open spec fn spec_timesyncd_ntp_line(xs: Seq<Seq<u8>>) -> Seq<u8> {
    seq![78u8, 84u8, 80u8, 61u8] + spec_join_space(xs)
}

/// Renders the `NTP=` line that the host's time synchronisation
/// configuration is rewritten to when the offered servers change.
pub fn timesyncd_ntp_line(servers: &Vec<Vec<u8>>) -> (r: Vec<u8>)
    ensures
        r@ == spec_timesyncd_ntp_line(servers@.map_values(|s: Vec<u8>| s@)),
{
    let ghost xs = servers@.map_values(|s: Vec<u8>| s@);
    let mut r: Vec<u8> = Vec::new();
    r.push(78u8);
    r.push(84u8);
    r.push(80u8);
    r.push(61u8);
    proof {
        assert(r@ =~= seq![78u8, 84u8, 80u8, 61u8]);
        assert(xs.take(0) =~= Seq::<Seq<u8>>::empty());
        assert(r@ =~= seq![78u8, 84u8, 80u8, 61u8] + spec_join_space(xs.take(0)));
    }
    let n = servers.len();
    let mut i: usize = 0;
    while i < n
        invariant
            i <= n,
            n == servers@.len(),
            xs == servers@.map_values(|s: Vec<u8>| s@),
            r@ == seq![78u8, 84u8, 80u8, 61u8] + spec_join_space(xs.take(i as int)),
        decreases n - i,
    {
        let ghost pre = r@;
        if i > 0 {
            r.push(32u8);
        }
        let entry = &servers[i];
        let m = entry.len();
        let mut k: usize = 0;
        while k < m
            invariant
                k <= m,
                m == entry@.len(),
                i > 0 ==> r@ == pre + seq![32u8] + entry@.take(k as int),
                i == 0 ==> r@ == pre + entry@.take(k as int),
            decreases m - k,
        {
            let b = entry[k];
            r.push(b);
            proof {
                assert(entry@.take(k as int + 1) =~= entry@.take(k as int).push(entry@[k as int]));
                if i > 0 {
                    assert(pre + seq![32u8] + entry@.take(k as int + 1) =~= (pre + seq![32u8]
                        + entry@.take(k as int)).push(entry@[k as int]));
                } else {
                    assert(pre + entry@.take(k as int + 1) =~= (pre + entry@.take(
                        k as int,
                    )).push(entry@[k as int]));
                }
            }
            k = k + 1;
        }
        proof {
            assert(entry@.take(m as int) =~= entry@);
            assert(xs.take(i as int).push(xs[i as int]) =~= xs.take(i as int + 1));
            lemma_join_space_push(xs.take(i as int), xs[i as int]);
            assert(xs[i as int] == entry@);
            if i > 0 {
                assert(xs.take(i as int).len() != 0);
                assert(pre + seq![32u8] + entry@ =~= seq![78u8, 84u8, 80u8, 61u8] + (
                spec_join_space(xs.take(i as int)) + seq![32u8] + entry@));
            } else {
                assert(xs.take(0).len() == 0);
                assert(spec_join_space(xs.take(0)) =~= Seq::<u8>::empty());
                assert(pre + entry@ =~= seq![78u8, 84u8, 80u8, 61u8] + entry@);
            }
        }
        i = i + 1;
    }
    proof {
        assert(xs.take(n as int) =~= xs);
    }
    r
}

} // verus!
