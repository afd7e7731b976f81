//! Bindings: the declarative description of one listening endpoint of a
//! host, and the port assignments it draws from the dynamic pool.

use vstd::prelude::*;

use crate::error::ErrorKind;
use crate::filter::{BindingFilter, FilterView, InterfaceFilter, id_member, ids_view};
use crate::forward::AvailablePorts;
use crate::gateway::GatewayId;

verus! {

/// One listening endpoint within a host: the host's id and the service's
/// internal port.
#[derive(Clone, Debug)]
pub struct BindId {
    pub id: String,
    pub internal_port: u16,
}

/// Whether the binding elides SSL on trusted links.
#[derive(Clone, Copy, Debug, PartialEq, Eq, Structural)]
pub struct Security {
    pub ssl: bool,
}

/// The SSL add-on: its preferred external port and the protocols to
/// advertise.
#[derive(Clone, Debug)]
pub struct AddSslOptions {
    pub preferred_external_port: u16,
    pub alpn: Option<Vec<String>>,
}

/// What a service asks of a binding.
#[derive(Clone, Debug)]
pub struct BindOptions {
    pub preferred_external_port: u16,
    pub add_ssl: Option<AddSslOptions>,
    pub secure: Option<Security>,
}

impl BindOptions {
    /// Whether a plain (non-SSL) port is wanted: always, unless the binding
    /// is marked secure-with-SSL and the SSL add-on is present — two
    /// listening ports that both speak SSL would be pointless.
    pub open spec fn wants_plain_port(self) -> bool {
        match self.secure {
            Some(s) => !(s.ssl && self.add_ssl is Some),
            None => true,
        }
    }

    /// How many ports the options want in all.
    pub open spec fn wanted_ports(self) -> int {
        (if self.add_ssl is Some {
            1int
        } else {
            0int
        }) + (if self.wants_plain_port() {
            1int
        } else {
            0int
        })
    }

    fn plain_port_wanted(&self) -> (r: bool)
        ensures
            r == self.wants_plain_port(),
    {
        match &self.secure {
            Some(s) => !(s.ssl && self.add_ssl.is_some()),
            None => true,
        }
    }
}

/// The network state of a binding: which gateways the operator toggled and
/// the externally assigned ports.
#[derive(Debug)]
pub struct NetInfo {
    pub private_disabled: Vec<GatewayId>,
    pub public_enabled: Vec<GatewayId>,
    pub assigned_port: Option<u16>,
    pub assigned_ssl_port: Option<u16>,
}

impl NetInfo {
    /// The filter this binding applies to gateways.
    pub fn to_filter(&self) -> (r: InterfaceFilter)
        ensures
            r@ == (FilterView::Binding {
                private_disabled: ids_view(self.private_disabled@),
                public_enabled: ids_view(self.public_enabled@),
            }),
    {
        InterfaceFilter::Binding(
            BindingFilter {
                private_disabled: crate::filter::ids_duplicate(&self.private_disabled),
                public_enabled: crate::filter::ids_duplicate(&self.public_enabled),
            },
        )
    }

    /// Toggle one gateway for this binding. A public gateway must be
    /// enabled explicitly, so it lives in `public_enabled`; a private one is
    /// served unless listed in `private_disabled`.
    pub fn set_gateway_enabled(&mut self, gateway: &GatewayId, enabled: bool, gateway_public: bool)
        ensures
            final(self).assigned_port == old(self).assigned_port,
            final(self).assigned_ssl_port == old(self).assigned_ssl_port,
            gateway_public ==> {
                &&& final(self).private_disabled@ == old(self).private_disabled@
                &&& forall|g: Seq<char>| id_member(ids_view(final(self).public_enabled@), g) <==> (
                    (g == gateway@ && enabled) || (g != gateway@ && id_member(
                        ids_view(old(self).public_enabled@),
                        g,
                    )))
            },
            !gateway_public ==> {
                &&& final(self).public_enabled@ == old(self).public_enabled@
                &&& forall|g: Seq<char>| id_member(ids_view(final(self).private_disabled@), g)
                    <==> ((g == gateway@ && !enabled) || (g != gateway@ && id_member(
                    ids_view(old(self).private_disabled@),
                    g,
                )))
            },
    {
        if gateway_public {
            if enabled {
                ids_put(&mut self.public_enabled, gateway);
            } else {
                ids_drop(&mut self.public_enabled, gateway);
            }
        } else {
            if enabled {
                ids_drop(&mut self.private_disabled, gateway);
            } else {
                ids_put(&mut self.private_disabled, gateway);
            }
        }
    }
}

/// Add `id` to the list (exactly once) and drop any other copies of it.
fn ids_put(v: &mut Vec<GatewayId>, id: &GatewayId)
    ensures
        forall|g: Seq<char>| id_member(ids_view(final(v)@), g) <==> (g == id@ || (g != id@
            && id_member(ids_view(old(v)@), g))),
{
    ids_drop(v, id);
    let ghost mid = v@;
    v.push(GatewayId::new(id.as_str()));
    proof {
        assert(v@[v@.len() - 1]@ == id@);
        assert(ids_view(v@)[v@.len() - 1] == id@);
        assert forall|g: Seq<char>| id_member(ids_view(v@), g) implies (g == id@ || (g != id@
            && id_member(ids_view(mid), g))) by {
            let k = choose|k: int| 0 <= k < ids_view(v@).len() && ids_view(v@)[k] == g;
            if k < mid.len() {
                assert(ids_view(v@)[k] == v@[k]@ && v@[k] == mid[k]);
                assert(ids_view(mid)[k] == mid[k]@);
            } else {
                assert(ids_view(v@)[k] == id@);
            }
        }
        assert forall|g: Seq<char>| (g != id@ && id_member(ids_view(mid), g)) implies id_member(
            ids_view(v@),
            g,
        ) by {
            let k = choose|k: int| 0 <= k < ids_view(mid).len() && ids_view(mid)[k] == g;
            assert(ids_view(mid)[k] == mid[k]@);
            assert(v@[k] == mid[k]);
            assert(ids_view(v@)[k] == g);
        }
    }
}

/// Drop every copy of `id` from the list, keeping the others in order.
fn ids_drop(v: &mut Vec<GatewayId>, id: &GatewayId)
    ensures
        forall|g: Seq<char>| id_member(ids_view(final(v)@), g) <==> (g != id@ && id_member(
            ids_view(old(v)@),
            g,
        )),
{
    let ghost pre = v@;
    let mut kept: Vec<GatewayId> = Vec::new();
    let n = v.len();
    let mut i: usize = 0;
    while i < n
        invariant
            i <= n,
            n == pre.len(),
            v@ == pre,
            forall|k: int| 0 <= k < kept@.len() ==> (#[trigger] kept@[k])@ != id@,
            forall|k: int| 0 <= k < kept@.len() ==> exists|j: int|
                0 <= j < i && (#[trigger] kept@[k])@ == pre[j]@,
            forall|j: int|
                0 <= j < i ==> ((#[trigger] pre[j])@ == id@ || exists|k: int|
                    0 <= k < kept@.len() && (#[trigger] kept@[k])@ == pre[j]@),
        decreases n - i,
    {
        if !(v[i].0 == id.0) {
            let ghost kpre = kept@;
            kept.push(GatewayId::new(v[i].as_str()));
            proof {
                assert(kept@[kept@.len() - 1]@ == pre[i as int]@);
                assert forall|k: int| 0 <= k < kept@.len() implies exists|j: int|
                    0 <= j < i + 1 && (#[trigger] kept@[k])@ == pre[j]@ by {
                    if k < kpre.len() {
                        assert(kept@[k] == kpre[k]);
                        let j = choose|j: int| 0 <= j < i && (#[trigger] kpre[k])@ == pre[j]@;
                        assert(0 <= j < i + 1 && kept@[k]@ == pre[j]@);
                    } else {
                        assert(kept@[k]@ == pre[i as int]@);
                    }
                }
                assert forall|j: int| 0 <= j < i + 1 implies ((#[trigger] pre[j])@ == id@ || exists|
                    k: int,
                |
                    0 <= k < kept@.len() && (#[trigger] kept@[k])@ == pre[j]@) by {
                    if j < i {
                        if pre[j]@ != id@ {
                            let k = choose|k: int|
                                0 <= k < kpre.len() && (#[trigger] kpre[k])@ == pre[j]@;
                            assert(kept@[k] == kpre[k]);
                            assert(kept@[k]@ == pre[j]@);
                        }
                    } else {
                        assert(kept@[kept@.len() - 1]@ == pre[j]@);
                    }
                }
            }
        } else {
            proof {
                assert(pre[i as int]@ == id@);
            }
        }
        i = i + 1;
    }
    v.clear();
    v.append(&mut kept);
    proof {
        assert forall|g: Seq<char>| id_member(ids_view(v@), g) implies (g != id@ && id_member(
            ids_view(pre),
            g,
        )) by {
            let k = choose|k: int| 0 <= k < ids_view(v@).len() && ids_view(v@)[k] == g;
            assert(ids_view(v@)[k] == v@[k]@);
            let j = choose|j: int| 0 <= j < n && (#[trigger] v@[k])@ == pre[j]@;
            assert(ids_view(pre)[j] == pre[j]@);
        }
        assert forall|g: Seq<char>| g != id@ && id_member(ids_view(pre), g) implies id_member(
            ids_view(v@),
            g,
        ) by {
            let j = choose|j: int| 0 <= j < ids_view(pre).len() && ids_view(pre)[j] == g;
            assert(ids_view(pre)[j] == pre[j]@);
            let k = choose|k: int| 0 <= k < v@.len() && (#[trigger] v@[k])@ == pre[j]@;
            assert(ids_view(v@)[k] == g);
        }
    }
}

/// The declarative state of one binding.
#[derive(Debug)]
pub struct BindInfo {
    pub enabled: bool,
    pub options: BindOptions,
    pub net: NetInfo,
}

impl BindInfo {
    /// How many fresh ports a move to `options` must draw.
    pub open spec fn missing_ports(self, options: BindOptions) -> int {
        (if options.wants_plain_port() && self.net.assigned_port is None {
            1int
        } else {
            0int
        }) + (if options.add_ssl is Some && self.net.assigned_ssl_port is None {
            1int
        } else {
            0int
        })
    }
}

impl BindInfo {
    /// Create a binding for fresh options, drawing its external port (and,
    /// when the SSL add-on is present, its SSL port) from the pool. Fails
    /// with `InvalidConfig` exactly when the pool has fewer free ports than
    /// the options want; nothing is kept from the pool on failure.
    pub fn new(available_ports: &mut AvailablePorts, options: BindOptions) -> (r: Result<
        BindInfo,
        ErrorKind,
    >)
        requires
            old(available_ports).wf(),
        ensures
            final(available_ports).wf(),
            final(available_ports).free_ports().subset_of(old(available_ports).free_ports()),
            match r {
                Ok(b) => {
                    &&& b.enabled
                    &&& b.options == options
                    &&& b.net.private_disabled@.len() == 0
                    &&& b.net.public_enabled@.len() == 0
                    &&& (b.net.assigned_ssl_port is Some <==> options.add_ssl is Some)
                    &&& (b.net.assigned_port is Some <==> options.wants_plain_port())
                    &&& (b.net.assigned_port matches Some(p) ==> (old(available_ports).free_ports().contains(p as int) && !final(available_ports).free_ports().contains(p as int)))
                    &&& (b.net.assigned_ssl_port matches Some(p) ==> (old(available_ports).free_ports().contains(p as int) && !final(available_ports).free_ports().contains(p as int)))
                    &&& (b.net.assigned_port is Some && b.net.assigned_ssl_port is Some
                        ==> b.net.assigned_port != b.net.assigned_ssl_port)
                },
                Err(k) => {
                    &&& k == ErrorKind::InvalidConfig
                    &&& old(available_ports).free_ports().len() < options.wanted_ports()
                    &&& final(available_ports).free_ports() == old(available_ports).free_ports()
                },
            },
    {
        let mut assigned_ssl_port: Option<u16> = None;
        if options.add_ssl.is_some() {
            match available_ports.allocate() {
                Ok(p) => {
                    assigned_ssl_port = Some(p);
                },
                Err(_) => {
                    proof {
                        assert(old(available_ports).free_ports().len() == 0) by {
                            assert(old(available_ports).free_ports() =~= Set::<int>::empty());
                        }
                    }
                    return Err(ErrorKind::InvalidConfig);
                },
            }
        }
        let mut assigned_port: Option<u16> = None;
        if options.plain_port_wanted() {
            match available_ports.allocate() {
                Ok(p) => {
                    assigned_port = Some(p);
                },
                Err(_) => {
                    match assigned_ssl_port {
                        Some(ssl) => {
                            // hand the already-drawn SSL port back
                            let ports = [ssl];
                            proof {
                                assert(available_ports.free_ports() =~= Set::<int>::empty());
                                vstd::set_lib::lemma_int_range(49152, 65536);
                                assert(old(available_ports).free_ports() =~= Set::<
                                    int,
                                >::empty().insert(ssl as int));
                            }
                            available_ports.free(&ports);
                            proof {
                                assert(ports@ =~= Seq::<u16>::empty().push(ssl));
                                crate::forward::lemma_to_set_push(Seq::<u16>::empty(), ssl);
                                assert(Seq::<u16>::empty().map_values(
                                    |p: u16| p as int,
                                ).to_set() =~= Set::<int>::empty());
                                assert(available_ports.free_ports() =~= old(
                                    available_ports,
                                ).free_ports());
                            }
                        },
                        None => {},
                    }
                    return Err(ErrorKind::InvalidConfig);
                },
            }
        }
        Ok(
            BindInfo {
                enabled: true,
                options,
                net: NetInfo {
                    private_disabled: Vec::new(),
                    public_enabled: Vec::new(),
                    assigned_port,
                    assigned_ssl_port,
                },
            },
        )
    }

    /// Re-point an existing binding at new options: a port class that is now
    /// wanted keeps its port or draws a fresh one; one no longer wanted is
    /// returned to the pool. Fresh ports are drawn before surplus ones are
    /// returned, so a failure — exactly when the pool has fewer free ports
    /// than the newly wanted classes — leaves the pool as it was. The
    /// binding comes back enabled.
    pub fn update(self, available_ports: &mut AvailablePorts, options: BindOptions) -> (r: Result<
        BindInfo,
        ErrorKind,
    >)
        requires
            old(available_ports).wf(),
            self.net.assigned_port matches Some(p) ==> 49152 <= p <= 65535,
            self.net.assigned_ssl_port matches Some(p) ==> 49152 <= p <= 65535,
        ensures
            final(available_ports).wf(),
            match r {
                Ok(b) => {
                    &&& b.enabled
                    &&& b.options == options
                    &&& b.net.private_disabled@ == self.net.private_disabled@
                    &&& b.net.public_enabled@ == self.net.public_enabled@
                    &&& (b.net.assigned_port is Some <==> options.wants_plain_port())
                    &&& (b.net.assigned_ssl_port is Some <==> options.add_ssl is Some)
                    &&& (options.wants_plain_port() && self.net.assigned_port is Some
                        ==> b.net.assigned_port == self.net.assigned_port)
                    &&& (options.add_ssl is Some && self.net.assigned_ssl_port is Some
                        ==> b.net.assigned_ssl_port == self.net.assigned_ssl_port)
                },
                Err(k) => {
                    &&& k == ErrorKind::InvalidConfig
                    &&& old(available_ports).free_ports().len() < self.missing_ports(options)
                    &&& final(available_ports).free_ports() == old(available_ports).free_ports()
                },
            },
    {
        let BindInfo { net: mut lan, .. } = self;
        // draw what is newly wanted first, so nothing is lost on failure
        let fresh_plain: Option<u16> = if options.plain_port_wanted() && lan.assigned_port.is_none()
        {
            match available_ports.allocate() {
                Ok(p) => Some(p),
                Err(_) => {
                    proof {
                        assert(old(available_ports).free_ports().len() == 0) by {
                            assert(old(available_ports).free_ports() =~= Set::<int>::empty());
                        }
                    }
                    return Err(ErrorKind::InvalidConfig);
                },
            }
        } else {
            None
        };
        if options.add_ssl.is_some() && lan.assigned_ssl_port.is_none() {
            match available_ports.allocate() {
                Ok(p) => {
                    lan.assigned_ssl_port = Some(p);
                },
                Err(_) => {
                    match fresh_plain {
                        Some(p) => {
                            let ports = [p];
                            proof {
                                assert(available_ports.free_ports() =~= Set::<int>::empty());
                                assert(old(available_ports).free_ports() =~= Set::<
                                    int,
                                >::empty().insert(p as int));
                            }
                            available_ports.free(&ports);
                            proof {
                                assert(ports@ =~= Seq::<u16>::empty().push(p));
                                crate::forward::lemma_to_set_push(Seq::<u16>::empty(), p);
                                assert(Seq::<u16>::empty().map_values(
                                    |q: u16| q as int,
                                ).to_set() =~= Set::<int>::empty());
                                assert(available_ports.free_ports() =~= old(
                                    available_ports,
                                ).free_ports());
                            }
                        },
                        None => {},
                    }
                    return Err(ErrorKind::InvalidConfig);
                },
            }
        }
        // all draws succeeded: commit the plain port and return the surplus
        if options.plain_port_wanted() {
            match fresh_plain {
                Some(p) => {
                    lan.assigned_port = Some(p);
                },
                None => {},
            }
        } else {
            match lan.assigned_port {
                Some(p) => {
                    let ports = [p];
                    available_ports.free(&ports);
                    lan.assigned_port = None;
                },
                None => {},
            }
        }
        if !options.add_ssl.is_some() {
            match lan.assigned_ssl_port {
                Some(p) => {
                    let ports = [p];
                    available_ports.free(&ports);
                    lan.assigned_ssl_port = None;
                },
                None => {},
            }
        }
        Ok(BindInfo { enabled: true, options, net: lan })
    }

    /// Take the binding out of service without touching its assignments.
    pub fn disable(&mut self)
        ensures
            !final(self).enabled,
            final(self).options == old(self).options,
            final(self).net == old(self).net,
    {
        self.enabled = false;
    }
}

} // verus!
