//! The binding listener: which socket addresses a binding must occupy.
//!
//! For a port `p` and an interface filter, the desired address set is every
//! subnet address of every gateway that passes the filter (the loopback
//! gateway counts), bound at `p`, with the scope id attached for link-local
//! IPv6. Reconciliation diffs the desired set against the held one and
//! returns the binds and closes to perform; the caller owns the sockets.

use vstd::prelude::*;

use crate::error::ErrorKind;
use crate::filter::{spec_matches, spec_filter_eq, FilterView, InterfaceFilter, filter_eq};
use crate::gateway::{GatewayInfoView, Gateways, NetworkInterfaceInfo};
use crate::ip::{spec_bind_addr, bind_addr, SocketAddress};

verus! {

/// A gateway snapshot with the synthetic loopback gateway appended, the set
/// listeners and forwards reconcile against.
pub open spec fn with_loopback(g: Seq<(Seq<char>, GatewayInfoView)>) -> Seq<
    (Seq<char>, GatewayInfoView),
> {
    g.push(("lo"@, GatewayInfoView::loopback()))
}

/// Whether `addr` belongs to the desired listener set: some gateway in `g`
/// passes `f` and contributes `addr` through one of its subnets at `port`.
pub open spec fn addr_desired(
    g: Seq<(Seq<char>, GatewayInfoView)>,
    f: FilterView,
    port: u16,
    addr: SocketAddress,
) -> bool {
    exists|i: int, j: int|
        {
            &&& 0 <= i < g.len()
            &&& spec_matches(f, (#[trigger] g[i]).0, g[i].1)
            &&& g[i].1.ip_info is Some
            &&& 0 <= j < g[i].1.ip_info->Some_0.subnets.len()
            &&& addr == spec_bind_addr(
                #[trigger] g[i].1.ip_info->Some_0.subnets[j],
                port,
                g[i].1.ip_info->Some_0.scope_id,
            )
        }
}

/// One socket operation the caller must perform after a reconciliation.
#[derive(Clone, Copy, Debug, PartialEq, Eq, Structural)]
pub enum ListenerAction {
    Bind(SocketAddress),
    Close(SocketAddress),
}

/// The listeners one binding holds: its port, the filter it was last
/// reconciled against, and one entry per bound address carrying the WAN
/// address of the contributing gateway.
pub struct ListenerMap {
    pub port: u16,
    pub prev_filter: InterfaceFilter,
    pub listeners: Vec<(SocketAddress, Option<u32>)>,
}

/// The held address set contains `addr`.
pub open spec fn holds_addr(ls: Seq<(SocketAddress, Option<u32>)>, addr: SocketAddress) -> bool {
    exists|k: int| 0 <= k < ls.len() && (#[trigger] ls[k]).0 == addr
}

impl ListenerMap {
    pub open spec fn wf(self) -> bool {
        forall|k1: int, k2: int|
            0 <= k1 < k2 < self.listeners@.len() ==> (#[trigger] self.listeners@[k1]).0 != (
            #[trigger] self.listeners@[k2]).0
    }

    /// The poll-side decision: recompute the listener set only when the
    /// gateway cell changed or the filter in hand differs from the cached
    /// one. Filters that compare equal select the same gateways, so
    /// skipping the recomputation loses nothing.
    pub fn needs_update(&self, cell_changed: bool, filter: &InterfaceFilter) -> (r: bool)
        ensures
            r == (cell_changed || !spec_filter_eq(self.prev_filter@, filter@)),
    {
        cell_changed || !filter_eq(&self.prev_filter, filter)
    }

    /// A fresh map holding nothing, with a never-matching cached filter.
    pub fn new(port: u16) -> (r: ListenerMap)
        ensures
            r.port == port,
            r.listeners@.len() == 0,
            r.prev_filter@ == FilterView::Always(false),
            r.wf(),
    {
        ListenerMap {
            port,
            prev_filter: InterfaceFilter::Always(false),
            listeners: Vec::new(),
        }
    }
}

/// The desired listener entries for `gateways` (plus loopback) under
/// `filter` at `port`: deduplicated addresses, each carrying the WAN address
/// of a gateway that contributes it.
fn desired_entries(gateways: &Gateways, filter: &InterfaceFilter, port: u16) -> (r: Vec<
    (SocketAddress, Option<u32>),
>)
    requires
        gateways@.len() < usize::MAX,
    ensures
        forall|a: SocketAddress| holds_addr(r@, a) <==> addr_desired(
            with_loopback(gateways@),
            filter@,
            port,
            a,
        ),
        forall|k1: int, k2: int| 0 <= k1 < k2 < r@.len() ==> (#[trigger] r@[k1]).0 != (
        #[trigger] r@[k2]).0,
        forall|k: int|
            0 <= k < r@.len() ==> exists|i: int, j: int|
                {
                    &&& 0 <= i < with_loopback(gateways@).len()
                    &&& spec_matches(
                        filter@,
                        (#[trigger] with_loopback(gateways@)[i]).0,
                        with_loopback(gateways@)[i].1,
                    )
                    &&& with_loopback(gateways@)[i].1.ip_info is Some
                    &&& 0 <= j < with_loopback(gateways@)[i].1.ip_info->Some_0.subnets.len()
                    &&& (#[trigger] r@[k]).0 == spec_bind_addr(
                        #[trigger] with_loopback(gateways@)[i].1.ip_info->Some_0.subnets[j],
                        port,
                        with_loopback(gateways@)[i].1.ip_info->Some_0.scope_id,
                    )
                    &&& r@[k].1 == with_loopback(gateways@)[i].1.ip_info->Some_0.wan_ip
                },
{
    let ghost gw = with_loopback(gateways@);
    let n = gateways.entries.len();
    let mut r: Vec<(SocketAddress, Option<u32>)> = Vec::new();
    let mut i: usize = 0;
    proof {
        assert(gateways@.len() == gateways.entries@.len());
    }
    while i <= n
        invariant
            i <= n + 1,
            n < usize::MAX,
            n == gateways.entries@.len(),
            gw == with_loopback(gateways@),
            gw.len() == n + 1,
            forall|k: int| 0 <= k < n ==> #[trigger] gw[k] == (
                gateways.entries@[k].0@,
                gateways.entries@[k].1@,
            ),
            gw[n as int] == ("lo"@, GatewayInfoView::loopback()),
            // nothing held beyond what some processed gateway contributes
            forall|k: int|
                0 <= k < r@.len() ==> exists|gi: int, j: int|
                    {
                        &&& 0 <= gi < i
                        &&& spec_matches(filter@, (#[trigger] gw[gi]).0, gw[gi].1)
                        &&& gw[gi].1.ip_info is Some
                        &&& 0 <= j < gw[gi].1.ip_info->Some_0.subnets.len()
                        &&& (#[trigger] r@[k]).0 == spec_bind_addr(
                            #[trigger] gw[gi].1.ip_info->Some_0.subnets[j],
                            port,
                            gw[gi].1.ip_info->Some_0.scope_id,
                        )
                        &&& r@[k].1 == gw[gi].1.ip_info->Some_0.wan_ip
                    },
            // everything a processed gateway contributes is held
            forall|gi: int, j: int|
                {
                    &&& 0 <= gi < i
                    &&& spec_matches(filter@, (#[trigger] gw[gi]).0, gw[gi].1)
                    &&& gw[gi].1.ip_info is Some
                    &&& 0 <= j < gw[gi].1.ip_info->Some_0.subnets.len()
                } ==> holds_addr(
                    r@,
                    spec_bind_addr(
                        #[trigger] gw[gi].1.ip_info->Some_0.subnets[j],
                        port,
                        gw[gi].1.ip_info->Some_0.scope_id,
                    ),
                ),
            // no duplicates
            forall|k1: int, k2: int| 0 <= k1 < k2 < r@.len() ==> (#[trigger] r@[k1]).0 != (
            #[trigger] r@[k2]).0,
        decreases n + 1 - i,
    {
        let loopback_entry;
        let entry: &(crate::gateway::GatewayId, NetworkInterfaceInfo);
        if i < n {
            entry = &gateways.entries[i];
        } else {
            loopback_entry = NetworkInterfaceInfo::loopback();
            entry = &loopback_entry;
        }
        proof {
            assert(gw[i as int] == (entry.0@, entry.1@));
        }
        if filter.filter(&entry.0, &entry.1) {
            match &entry.1.ip_info {
                Some(info) => {
                    let m = info.subnets.len();
                    let mut j: usize = 0;
                    while j < m
                        invariant
                            j <= m,
                            i <= n,
                            gw.len() == n + 1,
                            m == info.subnets@.len(),
                            entry.1.ip_info == Some(*info),
                            gw[i as int] == (entry.0@, entry.1@),
                            spec_matches(filter@, gw[i as int].0, gw[i as int].1),
                            forall|k: int|
                                0 <= k < r@.len() ==> exists|gi: int, jj: int|
                                    {
                                        &&& 0 <= gi <= i
                                        &&& spec_matches(filter@, (#[trigger] gw[gi]).0, gw[gi].1)
                                        &&& gw[gi].1.ip_info is Some
                                        &&& 0 <= jj < gw[gi].1.ip_info->Some_0.subnets.len()
                                        &&& (#[trigger] r@[k]).0 == spec_bind_addr(
                                            #[trigger] gw[gi].1.ip_info->Some_0.subnets[jj],
                                            port,
                                            gw[gi].1.ip_info->Some_0.scope_id,
                                        )
                                        &&& r@[k].1 == gw[gi].1.ip_info->Some_0.wan_ip
                                    },
                            forall|gi: int, jj: int|
                                {
                                    &&& 0 <= gi < i
                                    &&& spec_matches(filter@, (#[trigger] gw[gi]).0, gw[gi].1)
                                    &&& gw[gi].1.ip_info is Some
                                    &&& 0 <= jj < gw[gi].1.ip_info->Some_0.subnets.len()
                                } ==> holds_addr(
                                    r@,
                                    spec_bind_addr(
                                        #[trigger] gw[gi].1.ip_info->Some_0.subnets[jj],
                                        port,
                                        gw[gi].1.ip_info->Some_0.scope_id,
                                    ),
                                ),
                            forall|jj: int|
                                0 <= jj < j ==> holds_addr(
                                    r@,
                                    spec_bind_addr(
                                        #[trigger] info.subnets@[jj],
                                        port,
                                        info.scope_id,
                                    ),
                                ),
                            forall|k1: int, k2: int|
                                0 <= k1 < k2 < r@.len() ==> (#[trigger] r@[k1]).0 != (
                                #[trigger] r@[k2]).0,
                        decreases m - j,
                    {
                        let addr = bind_addr(&info.subnets[j], port, info.scope_id);
                        let ghost old_r = r@;
                        if !holds(&r, &addr) {
                            r.push((addr, entry.1.ip_info_wan()));
                            proof {
                                assert(gw[i as int].1.ip_info->Some_0.subnets =~= info.subnets@);
                                assert(gw[i as int].1.ip_info->Some_0.scope_id == info.scope_id);
                                assert(r@[r@.len() - 1].0 == spec_bind_addr(
                                    gw[i as int].1.ip_info->Some_0.subnets[j as int],
                                    port,
                                    gw[i as int].1.ip_info->Some_0.scope_id,
                                ));
                                assert(r@[r@.len() - 1].1 == gw[
                                    i as int
                                ].1.ip_info->Some_0.wan_ip);
                                assert forall|a: SocketAddress| holds_addr(old_r, a) implies
                                    holds_addr(r@, a) by {
                                    let k = choose|k: int|
                                        0 <= k < old_r.len() && (#[trigger] old_r[k]).0 == a;
                                    assert(r@[k] == old_r[k]);
                                }
                                assert(forall|k: int|
                                    0 <= k < old_r.len() ==> #[trigger] r@[k] == old_r[k]);
                                assert(holds_addr(
                                    r@,
                                    spec_bind_addr(
                                        info.subnets@[j as int],
                                        port,
                                        info.scope_id,
                                    ),
                                )) by {
                                    assert(r@[r@.len() - 1].0 == spec_bind_addr(
                                        info.subnets@[j as int],
                                        port,
                                        info.scope_id,
                                    ));
                                }
                            }
                        } else {
                            proof {
                                assert(holds_addr(
                                    r@,
                                    spec_bind_addr(
                                        info.subnets@[j as int],
                                        port,
                                        info.scope_id,
                                    ),
                                ));
                            }
                        }
                        j = j + 1;
                    }
                },
                None => {},
            }
        }
        i = i + 1;
    }
    proof {
        assert forall|a: SocketAddress| holds_addr(r@, a) implies addr_desired(
            gw,
            filter@,
            port,
            a,
        ) by {
            let k = choose|k: int| 0 <= k < r@.len() && (#[trigger] r@[k]).0 == a;
            assert(0 <= k < r@.len());
        }
        assert forall|a: SocketAddress| addr_desired(gw, filter@, port, a) implies holds_addr(
            r@,
            a,
        ) by {
            let (gi, j) = choose|gi: int, j: int|
                {
                    &&& 0 <= gi < gw.len()
                    &&& spec_matches(filter@, (#[trigger] gw[gi]).0, gw[gi].1)
                    &&& gw[gi].1.ip_info is Some
                    &&& 0 <= j < gw[gi].1.ip_info->Some_0.subnets.len()
                    &&& a == spec_bind_addr(
                        #[trigger] gw[gi].1.ip_info->Some_0.subnets[j],
                        port,
                        gw[gi].1.ip_info->Some_0.scope_id,
                    )
                };
            assert(holds_addr(
                r@,
                spec_bind_addr(
                    gw[gi].1.ip_info->Some_0.subnets[j],
                    port,
                    gw[gi].1.ip_info->Some_0.scope_id,
                ),
            ));
        }
    }
    r
}

/// Whether `r` already holds `addr`.
fn holds(r: &Vec<(SocketAddress, Option<u32>)>, addr: &SocketAddress) -> (b: bool)
    ensures
        b == holds_addr(r@, *addr),
{
    let n = r.len();
    let mut k: usize = 0;
    while k < n
        invariant
            k <= n,
            n == r@.len(),
            forall|t: int| 0 <= t < k ==> (#[trigger] r@[t]).0 != *addr,
        decreases n - k,
    {
        if r[k].0 == *addr {
            return true;
        }
        k = k + 1;
    }
    false
}

impl NetworkInterfaceInfo {
    /// The WAN address of the connected interface, if one was observed.
    fn ip_info_wan(&self) -> (r: Option<u32>)
        ensures
            r == (match self@.ip_info {
                Some(info) => info.wan_ip,
                None => None::<u32>,
            }),
    {
        match &self.ip_info {
            Some(info) => info.wan_ip,
            None => None,
        }
    }
}


/// The action list asks for `addr` to be bound.
pub open spec fn has_bind(acts: Seq<ListenerAction>, addr: SocketAddress) -> bool {
    exists|k: int| 0 <= k < acts.len() && acts[k] == ListenerAction::Bind(addr)
}

/// The action list asks for `addr` to be closed.
pub open spec fn has_close(acts: Seq<ListenerAction>, addr: SocketAddress) -> bool {
    exists|k: int| 0 <= k < acts.len() && acts[k] == ListenerAction::Close(addr)
}

impl ListenerMap {
    /// Reconcile the held listeners against a gateway snapshot and a filter.
    ///
    /// Afterwards the held address set equals the desired set: every subnet
    /// address of every gateway (or loopback) passing the filter, at this
    /// map's port. The returned actions are exactly the difference — one
    /// bind per newly desired address, one close per address no longer
    /// desired — so a reconciliation that changes nothing performs no
    /// socket operation.
    pub fn update(&mut self, gateways: &Gateways, filter: &InterfaceFilter) -> (actions: Vec<
        ListenerAction,
    >)
        requires
            old(self).wf(),
            gateways@.len() < usize::MAX,
        ensures
            final(self).wf(),
            final(self).port == old(self).port,
            final(self).prev_filter@ == filter@,
            forall|a: SocketAddress| holds_addr(final(self).listeners@, a) <==> addr_desired(
                with_loopback(gateways@),
                filter@,
                old(self).port,
                a,
            ),
            forall|a: SocketAddress| has_bind(actions@, a) <==> (addr_desired(
                with_loopback(gateways@),
                filter@,
                old(self).port,
                a,
            ) && !holds_addr(old(self).listeners@, a)),
            forall|a: SocketAddress| has_close(actions@, a) <==> (holds_addr(
                old(self).listeners@,
                a,
            ) && !addr_desired(with_loopback(gateways@), filter@, old(self).port, a)),
            forall|k1: int, k2: int|
                0 <= k1 < k2 < actions@.len() ==> actions@[k1] != actions@[k2],
            (forall|a: SocketAddress|
                holds_addr(old(self).listeners@, a) <==> addr_desired(
                    with_loopback(gateways@),
                    filter@,
                    old(self).port,
                    a,
                )) ==> actions@.len() == 0,
    {
        let ghost gw = with_loopback(gateways@);
        let ghost port_g = self.port;
        let ghost old_ls = self.listeners@;
        let desired = desired_entries(gateways, filter, self.port);
        let mut actions: Vec<ListenerAction> = Vec::new();
        let n_old = self.listeners.len();
        let mut k: usize = 0;
        while k < n_old
            invariant
                k <= n_old,
                n_old == old_ls.len(),
                self.listeners@ == old_ls,
                self.wf(),
                forall|a: SocketAddress| holds_addr(desired@, a) <==> addr_desired(
                    gw,
                    filter@,
                    port_g,
                    a,
                ),
                forall|t: int|
                    0 <= t < actions@.len() ==> ((#[trigger] actions@[t]) is Close && holds_addr(
                        old_ls,
                        actions@[t]->Close_0,
                    ) && !holds_addr(desired@, actions@[t]->Close_0)),
                forall|t: int|
                    0 <= t < k ==> (!holds_addr(desired@, (#[trigger] old_ls[t]).0) ==> has_close(
                        actions@,
                        old_ls[t].0,
                    )),
                forall|a: SocketAddress| has_close(actions@, a) ==> exists|t: int|
                    0 <= t < k && (#[trigger] old_ls[t]).0 == a,
                forall|t1: int, t2: int|
                    0 <= t1 < t2 < actions@.len() ==> actions@[t1] != actions@[t2],
            decreases n_old - k,
        {
            let addr = self.listeners[k].0;
            if !holds(&desired, &addr) {
                let ghost old_actions = actions@;
                actions.push(ListenerAction::Close(addr));
                proof {
                    assert(actions@[actions@.len() - 1] == ListenerAction::Close(addr));
                    assert forall|a: SocketAddress| has_close(old_actions, a) implies has_close(
                        actions@,
                        a,
                    ) by {
                        let t = choose|t: int|
                            0 <= t < old_actions.len() && old_actions[t] == ListenerAction::Close(
                                a,
                            );
                        assert(actions@[t] == old_actions[t]);
                    }
                    assert forall|a: SocketAddress| has_close(actions@, a) implies exists|t: int|
                        0 <= t < k + 1 && (#[trigger] old_ls[t]).0 == a by {
                        let u = choose|u: int|
                            0 <= u < actions@.len() && actions@[u] == ListenerAction::Close(a);
                        if u < old_actions.len() {
                            assert(old_actions[u] == actions@[u]);
                            assert(has_close(old_actions, a));
                            let t = choose|t: int| 0 <= t < k && (#[trigger] old_ls[t]).0 == a;
                            assert(0 <= t < k + 1 && old_ls[t].0 == a);
                        } else {
                            assert(a == addr);
                            assert(old_ls[k as int].0 == a);
                        }
                    }
                    // the new close is distinct from every older one: its address
                    // is held at index k of a duplicate-free list scanned so far
                    assert forall|t1: int|
                        0 <= t1 < old_actions.len() implies #[trigger] actions@[t1] != actions@[actions@.len()
                        - 1] by {
                        if old_actions[t1] is Close {
                            let a1 = old_actions[t1]->Close_0;
                            if a1 == addr {
                                assert(has_close(old_actions, a1));
                                let t = choose|t: int|
                                    0 <= t < k && (#[trigger] old_ls[t]).0 == a1;
                                assert(old_ls[t].0 != old_ls[k as int].0);
                            }
                        }
                    }
                }
            }
            k = k + 1;
        }
        let n_new = desired.len();
        let ghost close_count = actions@.len();
        proof {
            assert(actions@.take(close_count as int) =~= actions@);
            assert forall|a: SocketAddress| has_close(actions@, a) implies (holds_addr(old_ls, a)
                && !holds_addr(desired@, a)) by {
                let u = choose|u: int|
                    0 <= u < actions@.len() && actions@[u] == ListenerAction::Close(a);
                assert(actions@[u] is Close && actions@[u]->Close_0 == a);
            }
            assert forall|a: SocketAddress| holds_addr(old_ls, a) && !holds_addr(
                desired@,
                a,
            ) implies has_close(actions@, a) by {
                let t0 = choose|t0: int| 0 <= t0 < old_ls.len() && (#[trigger] old_ls[t0]).0 == a;
            }
        }
        let mut t: usize = 0;
        while t < n_new
            invariant
                t <= n_new,
                n_new == desired@.len(),
                self.listeners@ == old_ls,
                self.wf(),
                forall|a: SocketAddress| holds_addr(desired@, a) <==> addr_desired(
                    gw,
                    filter@,
                    port_g,
                    a,
                ),
                forall|k1: int, k2: int| 0 <= k1 < k2 < desired@.len() ==> (
                #[trigger] desired@[k1]).0 != (#[trigger] desired@[k2]).0,
                close_count <= actions@.len(),
                actions@.take(close_count as int) == actions@.take(close_count as int),
                forall|u: int|
                    0 <= u < close_count ==> ((#[trigger] actions@[u]) is Close && holds_addr(
                        old_ls,
                        actions@[u]->Close_0,
                    ) && !holds_addr(desired@, actions@[u]->Close_0)),
                forall|a: SocketAddress| has_close(actions@.take(close_count as int), a) <==> (
                holds_addr(old_ls, a) && !holds_addr(desired@, a)),
                forall|u: int|
                    close_count <= u < actions@.len() ==> ((#[trigger] actions@[u]) is Bind
                        && holds_addr(desired@, actions@[u]->Bind_0) && !holds_addr(
                        old_ls,
                        actions@[u]->Bind_0,
                    )),
                forall|u: int|
                    0 <= u < t ==> (!holds_addr(old_ls, (#[trigger] desired@[u]).0) ==> has_bind(
                        actions@,
                        desired@[u].0,
                    )),
                forall|a: SocketAddress| has_bind(actions@, a) ==> exists|u: int|
                    0 <= u < t && (#[trigger] desired@[u]).0 == a,
                forall|t1: int, t2: int|
                    0 <= t1 < t2 < actions@.len() ==> actions@[t1] != actions@[t2],
            decreases n_new - t,
        {
            let addr = desired[t].0;
            if !holds(&self.listeners, &addr) {
                let ghost old_actions = actions@;
                actions.push(ListenerAction::Bind(addr));
                proof {
                    assert(actions@[actions@.len() - 1] == ListenerAction::Bind(addr));
                    assert(actions@.take(close_count as int) =~= old_actions.take(
                        close_count as int,
                    ));
                    assert forall|a: SocketAddress| has_bind(old_actions, a) implies has_bind(
                        actions@,
                        a,
                    ) by {
                        let u = choose|u: int|
                            0 <= u < old_actions.len() && old_actions[u] == ListenerAction::Bind(
                                a,
                            );
                        assert(actions@[u] == old_actions[u]);
                    }
                    assert forall|a: SocketAddress| has_bind(actions@, a) implies exists|u: int|
                        0 <= u < t + 1 && (#[trigger] desired@[u]).0 == a by {
                        let w = choose|w: int|
                            0 <= w < actions@.len() && actions@[w] == ListenerAction::Bind(a);
                        if w < old_actions.len() {
                            assert(old_actions[w] == actions@[w]);
                            assert(has_bind(old_actions, a));
                            let u = choose|u: int| 0 <= u < t && (#[trigger] desired@[u]).0 == a;
                            assert(0 <= u < t + 1 && desired@[u].0 == a);
                        } else {
                            assert(a == addr);
                            assert(desired@[t as int].0 == a);
                        }
                    }
                    assert forall|t1: int|
                        0 <= t1 < old_actions.len() implies #[trigger] actions@[t1] != actions@[actions@.len()
                        - 1] by {
                        if old_actions[t1] is Bind {
                            let a1 = old_actions[t1]->Bind_0;
                            if a1 == addr {
                                assert(has_bind(old_actions, a1));
                                let u = choose|u: int|
                                    0 <= u < t && (#[trigger] desired@[u]).0 == a1;
                                assert(desired@[u].0 != desired@[t as int].0);
                            }
                        }
                    }
                }
            }
            t = t + 1;
        }
        proof {
            assert forall|a: SocketAddress| has_bind(actions@, a) implies (holds_addr(desired@, a)
                && !holds_addr(old_ls, a)) by {
                let u = choose|u: int|
                    0 <= u < actions@.len() && actions@[u] == ListenerAction::Bind(a);
                if u < close_count {
                    assert(actions@[u] is Close);
                } else {
                    assert(actions@[u] is Bind && actions@[u]->Bind_0 == a);
                }
            }
            assert forall|a: SocketAddress| holds_addr(desired@, a) && !holds_addr(
                old_ls,
                a,
            ) implies has_bind(actions@, a) by {
                let u = choose|u: int| 0 <= u < desired@.len() && (#[trigger] desired@[u]).0 == a;
            }
            assert forall|a: SocketAddress| has_close(actions@, a) implies has_close(
                actions@.take(close_count as int),
                a,
            ) by {
                let u = choose|u: int|
                    0 <= u < actions@.len() && actions@[u] == ListenerAction::Close(a);
                if u >= close_count {
                    assert(actions@[u] is Bind);
                } else {
                    assert(actions@.take(close_count as int)[u] == actions@[u]);
                }
            }
            assert forall|a: SocketAddress| has_close(actions@.take(close_count as int), a)
                implies has_close(actions@, a) by {
                let u = choose|u: int|
                    0 <= u < close_count && actions@.take(close_count as int)[u]
                        == ListenerAction::Close(a);
                assert(actions@[u] == ListenerAction::Close(a));
            }
        }
        self.listeners = desired;
        self.prev_filter = filter.duplicate();
        proof {
            if forall|a: SocketAddress|
                holds_addr(old_ls, a) <==> addr_desired(gw, filter@, port_g, a) {
                assert(actions@.len() == 0) by {
                    if actions@.len() > 0 {
                        if actions@[0] is Close {
                            let a = actions@[0]->Close_0;
                            assert(actions@[0] == ListenerAction::Close(a));
                            assert(has_close(actions@, a));
                        } else {
                            let a = actions@[0]->Bind_0;
                            assert(actions@[0] == ListenerAction::Bind(a));
                            assert(has_bind(actions@, a));
                        }
                    }
                }
            }
        }
        actions
    }
}

/// A process-wide registry refusing two simultaneous bindings of one port.
pub struct PortRegistry {
    pub claimed: Vec<u16>,
}

/// The registry holds `port`.
pub open spec fn port_claimed(ps: Seq<u16>, port: u16) -> bool {
    exists|k: int| 0 <= k < ps.len() && ps[k] == port
}

impl PortRegistry {
    pub open spec fn wf(self) -> bool {
        forall|k1: int, k2: int|
            0 <= k1 < k2 < self.claimed@.len() ==> self.claimed@[k1] != self.claimed@[k2]
    }

    pub fn new() -> (r: PortRegistry)
        ensures
            r.wf(),
            r.claimed@.len() == 0,
    {
        PortRegistry { claimed: Vec::new() }
    }

    /// Claim a port for one listener. Fails, like a bind on an address in
    /// use, when the port is already claimed.
    pub fn claim(&mut self, port: u16) -> (r: Result<(), ErrorKind>)
        requires
            old(self).wf(),
        ensures
            final(self).wf(),
            match r {
                Ok(()) => !port_claimed(old(self).claimed@, port) && final(self).claimed@ == old(
                    self,
                ).claimed@.push(port),
                Err(k) => k == ErrorKind::Network && port_claimed(old(self).claimed@, port)
                    && final(self).claimed@ == old(self).claimed@,
            },
    {
        let n = self.claimed.len();
        let mut k: usize = 0;
        while k < n
            invariant
                k <= n,
                n == self.claimed@.len(),
                self.claimed@ == old(self).claimed@,
                self.wf(),
                forall|t: int| 0 <= t < k ==> self.claimed@[t] != port,
            decreases n - k,
        {
            if self.claimed[k] == port {
                return Err(ErrorKind::Network);
            }
            k = k + 1;
        }
        self.claimed.push(port);
        proof {
            assert(self.claimed@[self.claimed@.len() - 1] == port);
            assert forall|k1: int, k2: int|
                0 <= k1 < k2 < self.claimed@.len() implies self.claimed@[k1] != self.claimed@[k2] by {
                if k2 == self.claimed@.len() - 1 {
                    assert(old(self).claimed@[k1] != port);
                }
            }
        }
        Ok(())
    }

    /// Release a claimed port; releasing an unclaimed port is silent.
    pub fn release(&mut self, port: u16) -> (r: bool)
        requires
            old(self).wf(),
        ensures
            final(self).wf(),
            r == port_claimed(old(self).claimed@, port),
            forall|p: u16| port_claimed(final(self).claimed@, p) <==> (port_claimed(
                old(self).claimed@,
                p,
            ) && p != port),
    {
        let n = self.claimed.len();
        let mut k: usize = 0;
        while k < n
            invariant
                k <= n,
                n == self.claimed@.len(),
                self.wf(),
                self.claimed@ == old(self).claimed@,
                forall|t: int| 0 <= t < k ==> self.claimed@[t] != port,
            decreases n - k,
        {
            if self.claimed[k] == port {
                self.claimed.remove(k);
                proof {
                    assert forall|p: u16| port_claimed(self.claimed@, p) implies (port_claimed(
                        old(self).claimed@,
                        p,
                    ) && p != port) by {
                        let t = choose|t: int|
                            0 <= t < self.claimed@.len() && self.claimed@[t] == p;
                        if t < k {
                            assert(old(self).claimed@[t] == p);
                        } else {
                            assert(old(self).claimed@[t + 1] == p);
                        }
                    }
                    assert forall|p: u16|
                        port_claimed(old(self).claimed@, p) && p != port implies port_claimed(
                        self.claimed@,
                        p,
                    ) by {
                        let t = choose|t: int|
                            0 <= t < old(self).claimed@.len() && old(self).claimed@[t] == p;
                        if t < k {
                            assert(self.claimed@[t] == p);
                        } else {
                            assert(t > k);
                            assert(self.claimed@[t - 1] == p);
                        }
                    }
                }
                return true;
            }
            k = k + 1;
        }
        false
    }
}

/// Whether the gateway's connected subnets hold `addr` as an interface
/// address.
pub open spec fn owns_addr(v: GatewayInfoView, addr: crate::ip::IpAddress) -> bool {
    v.ip_info is Some && exists|j: int|
        0 <= j < v.ip_info->Some_0.subnets.len() && (#[trigger] v.ip_info->Some_0.subnets[j]).addr
            == addr
}

/// Index of the first gateway whose subnets hold `addr`, or `-1`.
pub open spec fn spec_find_owner(
    g: Seq<(Seq<char>, GatewayInfoView)>,
    addr: crate::ip::IpAddress,
) -> int
    decreases g.len(),
{
    if g.len() == 0 {
        -1
    } else if owns_addr(g[0].1, addr) {
        0
    } else {
        let r = spec_find_owner(g.drop_first(), addr);
        if r == -1 {
            -1
        } else {
            r + 1
        }
    }
}

proof fn lemma_find_owner_miss(g: Seq<(Seq<char>, GatewayInfoView)>, addr: crate::ip::IpAddress)
    requires
        forall|k: int| 0 <= k < g.len() ==> !owns_addr((#[trigger] g[k]).1, addr),
    ensures
        spec_find_owner(g, addr) == -1,
    decreases g.len(),
{
    if g.len() > 0 {
        assert(!owns_addr(g[0].1, addr));
        assert forall|k: int| 0 <= k < g.drop_first().len() implies !owns_addr(
            (#[trigger] g.drop_first()[k]).1,
            addr,
        ) by {
            assert(g.drop_first()[k] == g[k + 1]);
        }
        lemma_find_owner_miss(g.drop_first(), addr);
    }
}

proof fn lemma_find_owner_hit(
    g: Seq<(Seq<char>, GatewayInfoView)>,
    addr: crate::ip::IpAddress,
    i: int,
)
    requires
        0 <= i < g.len(),
        owns_addr(g[i].1, addr),
        forall|k: int| 0 <= k < i ==> !owns_addr((#[trigger] g[k]).1, addr),
    ensures
        spec_find_owner(g, addr) == i,
    decreases g.len(),
{
    if i == 0 {
    } else {
        assert(!owns_addr(g[0].1, addr));
        assert forall|k: int| 0 <= k < i - 1 implies !owns_addr(
            (#[trigger] g.drop_first()[k]).1,
            addr,
        ) by {
            assert(g.drop_first()[k] == g[k + 1]);
        }
        assert(g.drop_first()[i - 1] == g[i]);
        lemma_find_owner_hit(g.drop_first(), addr, i - 1);
    }
}

/// An accepted connection is admitted when the gateway its local address
/// belongs to passes the filter: the first gateway (the synthetic loopback
/// one last) with a connected subnet at exactly `addr` decides; an address
/// of no gateway is refused.
pub fn addr_matches_filter(
    gateways: &Gateways,
    addr: &crate::ip::IpAddress,
    filter: &InterfaceFilter,
) -> (r: bool)
    requires
        gateways@.len() < usize::MAX,
    ensures
        r == ({
            let g = with_loopback(gateways@);
            let i = spec_find_owner(g, *addr);
            i != -1 && spec_matches(filter@, g[i].0, g[i].1)
        }),
{
    let ghost gw = with_loopback(gateways@);
    let n = gateways.entries.len();
    proof {
        assert(gateways@.len() == gateways.entries@.len());
    }
    let mut i: usize = 0;
    while i <= n
        invariant
            i <= n + 1,
            n < usize::MAX,
            n == gateways.entries@.len(),
            gw == with_loopback(gateways@),
            gw.len() == n + 1,
            forall|k: int|
                0 <= k < n ==> #[trigger] gw[k] == (
                    gateways.entries@[k].0@,
                    gateways.entries@[k].1@,
                ),
            gw[n as int] == ("lo"@, GatewayInfoView::loopback()),
            forall|k: int| 0 <= k < i ==> !owns_addr((#[trigger] gw[k]).1, *addr),
        decreases n + 1 - i,
    {
        let loopback_entry;
        let entry: &(crate::gateway::GatewayId, NetworkInterfaceInfo);
        if i < n {
            entry = &gateways.entries[i];
        } else {
            loopback_entry = NetworkInterfaceInfo::loopback();
            entry = &loopback_entry;
        }
        proof {
            assert(gw[i as int] == (entry.0@, entry.1@));
        }
        let owns: bool = match &entry.1.ip_info {
            Some(info) => {
                let m = info.subnets.len();
                let mut j: usize = 0;
                let mut found = false;
                while j < m
                    invariant
                        j <= m,
                        m == info.subnets@.len(),
                        entry.1.ip_info == Some(*info),
                        found == exists|t: int|
                            0 <= t < j && (#[trigger] info.subnets@[t]).addr == *addr,
                    decreases m - j,
                {
                    if info.subnets[j].addr == *addr {
                        found = true;
                    }
                    j = j + 1;
                }
                proof {
                    assert(found == owns_addr(entry.1@, *addr));
                }
                found
            },
            None => false,
        };
        if owns {
            let r = filter.filter(&entry.0, &entry.1);
            proof {
                lemma_find_owner_hit(gw, *addr, i as int);
            }
            return r;
        }
        i = i + 1;
    }
    proof {
        lemma_find_owner_miss(gw, *addr);
    }
    false
}

} // verus!
