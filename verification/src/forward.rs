//! Port forwarding: the dynamic port pool and the NAT-rule reconciler.
//!
//! The pool hands out external ports from the dynamic range. The reconciler
//! keeps, for each external port, the set of installed NAT rules equal to
//! the source addresses its filter selects from the gateway snapshot, and
//! reports exactly the rule installs and removals the platform script must
//! perform.

use vstd::prelude::*;
use vstd::set_lib::set_int_range;

use crate::error::ErrorKind;
use crate::filter::{FilterView, InterfaceFilter, spec_matches};
use crate::gateway::{GatewayId, GatewayInfoView, Gateways, NetworkInterfaceInfo};
use crate::ip::{spec_bind_addr, bind_addr, SocketAddress};
use crate::listener::with_loopback;

verus! {

/// Lowest port of the dynamic range the pool draws from.
pub const FIRST_DYNAMIC_PRIVATE_PORT: u16 = 49152;

/// What the free-id set of a pool is. The pools this module builds start
/// from a non-empty contiguous range and change only through the wrapped
/// calls below, whose `requires` keep every stored range non-empty and
/// pairwise disjoint; the contracts are read against such pools.
pub uninterp spec fn pool_free_ids(p: id_pool::IdPool) -> Set<int>;

/// How many ids of a pool are handed out and not yet returned.
pub uninterp spec fn pool_used_count(p: id_pool::IdPool) -> int;

#[verifier::external_type_specification]
#[verifier::external_body]
pub struct ExIdPool(id_pool::IdPool);

/// Relies on id_pool::IdPool::new_ranged: a fresh pool whose free ids are
/// exactly the given half-open range, with nothing handed out. The range
/// must be non-empty: on an empty range the crate's `request_id` would
/// underflow the range length.
#[verifier::external_body]
fn pool_new_ranged(start: usize, end: usize) -> (r: id_pool::IdPool)
    requires
        start < end,
    ensures
        pool_free_ids(r) == set_int_range(start as int, end as int),
        pool_used_count(r) == 0,
{
    id_pool::IdPool::new_ranged(start..end)
}

/// Relies on id_pool::IdPool::request_id: hands out the lowest free id, or
/// `None` when the pool is exhausted.
#[verifier::external_body]
fn pool_request_id(p: &mut id_pool::IdPool) -> (r: Option<usize>)
    ensures
        match r {
            Some(id) => {
                &&& pool_free_ids(*old(p)).contains(id as int)
                &&& forall|j: int| pool_free_ids(*old(p)).contains(j) ==> id as int <= j
                &&& pool_free_ids(*final(p)) == pool_free_ids(*old(p)).remove(id as int)
                &&& pool_used_count(*final(p)) == pool_used_count(*old(p)) + 1
            },
            None => {
                &&& pool_free_ids(*old(p)) == Set::<int>::empty()
                &&& *final(p) == *old(p)
            },
        },
{
    p.request_id()
}

/// Relies on id_pool::IdPool::return_id: returns an id to the pool. The id
/// must not already be free: the crate merges a returned id only with the
/// range above it, so ranges can come to sit adjacent without merging, and
/// on such pools `return_id` may wrongly accept an id the free list already
/// covers. For an id that is not free, the crate either extends an adjacent
/// range or inserts a fresh one, so the call succeeds and moves exactly
/// that id. The positive used count rules out its counter underflowing.
#[verifier::external_body]
fn pool_return_id(p: &mut id_pool::IdPool, id: usize) -> (r: Result<(), usize>)
    requires
        id < usize::MAX,
        !pool_free_ids(*old(p)).contains(id as int),
        pool_used_count(*old(p)) > 0,
    ensures
        r is Ok,
        pool_free_ids(*final(p)) == pool_free_ids(*old(p)).insert(id as int),
        pool_used_count(*final(p)) == pool_used_count(*old(p)) - 1,
{
    p.return_id(id)
}

/// An integer pool over the dynamic port range 49152..=65535. Allocation
/// hands out the lowest free port; freeing a port that was not handed out
/// (or was handed back already) is silent. The pool records its outstanding
/// ports itself, so the underlying free list is never asked to take back a
/// port it already holds.
pub struct AvailablePorts {
    pub pool: id_pool::IdPool,
    pub allocated: Vec<u16>,
}

impl AvailablePorts {
    /// The ports currently free.
    pub open spec fn free_ports(self) -> Set<int> {
        pool_free_ids(self.pool)
    }

    /// The ports handed out and not yet returned.
    pub open spec fn outstanding(self) -> Set<int> {
        self.allocated@.map_values(|p: u16| p as int).to_set()
    }

    pub open spec fn wf(self) -> bool {
        &&& self.free_ports().finite()
        &&& forall|i: int, j: int|
            0 <= i < j < self.allocated@.len() ==> self.allocated@[i] != self.allocated@[j]
        &&& forall|k: int|
            0 <= k < self.allocated@.len() ==> !self.free_ports().contains(
                (#[trigger] self.allocated@[k]) as int,
            )
        &&& self.free_ports() + self.outstanding() == set_int_range(49152, 65536)
        &&& pool_used_count(self.pool) == 16384 - self.free_ports().len()
    }

    /// A pool with the whole dynamic range free.
    pub fn new() -> (r: AvailablePorts)
        ensures
            r.wf(),
            r.free_ports() == set_int_range(49152, 65536),
    {
        proof {
            vstd::set_lib::lemma_int_range(49152, 65536);
        }
        let r = AvailablePorts {
            pool: pool_new_ranged(FIRST_DYNAMIC_PRIVATE_PORT as usize, 65536),
            allocated: Vec::new(),
        };
        proof {
            assert(r.outstanding() =~= Set::<int>::empty());
            assert(r.free_ports() + r.outstanding() =~= set_int_range(49152, 65536));
        }
        r
    }

    /// Hand out the lowest free port, or fail with `InvalidConfig` when the
    /// range is exhausted. (Named for what it does; this environment refuses
    /// an item named like the standard allocation crate.)
    pub fn allocate(&mut self) -> (r: Result<u16, ErrorKind>)
        requires
            old(self).wf(),
        ensures
            final(self).wf(),
            match r {
                Ok(port) => {
                    &&& old(self).free_ports().contains(port as int)
                    &&& forall|j: int| old(self).free_ports().contains(j) ==> port as int <= j
                    &&& final(self).free_ports() == old(self).free_ports().remove(port as int)
                    &&& 49152 <= port <= 65535
                },
                Err(k) => {
                    &&& k == ErrorKind::InvalidConfig
                    &&& old(self).free_ports() == Set::<int>::empty()
                    &&& final(self).free_ports() == old(self).free_ports()
                },
            },
    {
        let ghost pre_alloc = self.allocated@;
        match pool_request_id(&mut self.pool) {
            Some(id) => {
                proof {
                    assert(old(self).free_ports().contains(id as int));
                    assert(set_int_range(49152, 65536).contains(id as int)) by {
                        assert(old(self).free_ports() + old(self).outstanding() == set_int_range(
                            49152,
                            65536,
                        ));
                    }
                }
                let port = id as u16;
                self.allocated.push(port);
                proof {
                    let fin = self.allocated@;
                    assert(forall|k: int| 0 <= k < pre_alloc.len() ==> #[trigger] fin[k]
                        == pre_alloc[k]);
                    assert(fin.last() == port);
                    // the fresh port was free, so no outstanding copy exists
                    assert forall|k: int| 0 <= k < pre_alloc.len() implies #[trigger] pre_alloc[k]
                        != port by {
                        assert(!old(self).free_ports().contains(pre_alloc[k] as int));
                    }
                    lemma_to_set_push(pre_alloc, port);
                    assert(self.outstanding() =~= old(self).outstanding().insert(port as int));
                    assert(self.free_ports() + self.outstanding() =~= set_int_range(
                        49152,
                        65536,
                    ));
                    vstd::set_lib::lemma_int_range(49152, 65536);
                }
                Ok(port)
            },
            None => Err(ErrorKind::InvalidConfig),
        }
    }

    /// Return ports to the pool. A port not outstanding — never handed out,
    /// or handed back already — stays as it is; a port is never counted
    /// twice.
    pub fn free(&mut self, ports: &[u16]) -> (r: ())
        requires
            old(self).wf(),
            forall|k: int| 0 <= k < ports@.len() ==> 49152 <= #[trigger] ports@[k] <= 65535,
        ensures
            final(self).wf(),
            final(self).free_ports() == old(self).free_ports() + ports@.map_values(
                |p: u16| p as int,
            ).to_set(),
    {
        let n = ports.len();
        let mut k: usize = 0;
        while k < n
            invariant
                k <= n,
                n == ports@.len(),
                self.wf(),
                forall|t: int| 0 <= t < n ==> 49152 <= #[trigger] ports@[t] <= 65535,
                self.free_ports() == old(self).free_ports() + ports@.take(k as int).map_values(
                    |p: u16| p as int,
                ).to_set(),
            decreases n - k,
        {
            let port = ports[k];
            let ghost pre = self.free_ports();
            let ghost pre_alloc = self.allocated@;
            match self.find_outstanding(port) {
                Some(idx) => {
                    self.allocated.swap_remove(idx);
                    proof {
                        lemma_to_set_swap_remove(pre_alloc, self.allocated@, idx as int, port);
                        vstd::set_lib::lemma_int_range(49152, 65536);
                        // the port is in range but not free, so the free set
                        // is a strict subset of the range
                        assert(pre.subset_of(set_int_range(49152, 65536).remove(port as int)))
                            by {
                            assert forall|x: int| pre.contains(x) implies set_int_range(
                                49152,
                                65536,
                            ).remove(port as int).contains(x) by {
                                assert((pre + old(self).outstanding()).contains(x));
                            }
                        }
                        assert(pre.len() <= 16383) by {
                            vstd::set_lib::lemma_len_subset(
                                pre,
                                set_int_range(49152, 65536).remove(port as int),
                            );
                        }
                    }
                    let res = pool_return_id(&mut self.pool, port as usize);
                    proof {
                        assert(self.free_ports() == pre.insert(port as int));
                        assert forall|t: int| 0 <= t < self.allocated@.len() implies !self
                            .free_ports().contains((#[trigger] self.allocated@[t]) as int) by {
                            assert(self.outstanding().contains(self.allocated@[t] as int)) by {
                                lemma_to_set_member(self.allocated@, t);
                            }
                            assert(self.allocated@[t] != port);
                        }
                        assert(self.free_ports() + self.outstanding() =~= set_int_range(
                            49152,
                            65536,
                        ));
                    }
                },
                None => {
                    proof {
                        // every in-range port is free or outstanding; this one
                        // is not outstanding, so it is already free
                        assert(set_int_range(49152, 65536).contains(port as int));
                        assert((pre + old_outstanding_helper(self)).contains(port as int)) by {
                            assert(pre + self.outstanding() == set_int_range(49152, 65536));
                        }
                        assert(pre.contains(port as int)) by {
                            if self.outstanding().contains(port as int) {
                                let sv = self.allocated@.map_values(|p: u16| p as int);
                                let w = choose|w: int|
                                    0 <= w < sv.len() && (#[trigger] sv[w]) == port as int;
                                assert(self.allocated@[w] == port);
                            }
                        }
                    }
                },
            }
            proof {
                let mapped = |p: u16| p as int;
                let s0 = ports@.take(k as int).map_values(mapped);
                let s1 = ports@.take(k as int + 1).map_values(mapped);
                assert(ports@.take(k as int + 1) =~= ports@.take(k as int).push(port));
                assert(s1 =~= s0.push(port as int));
                lemma_to_set_push(ports@.take(k as int), port);
                assert(s1.to_set() =~= s0.to_set().insert(port as int));
                assert(self.free_ports() =~= old(self).free_ports() + s1.to_set());
            }
            k = k + 1;
        }
        proof {
            assert(ports@.take(n as int) =~= ports@);
        }
    }

    /// The position of a port among the outstanding ones, if it is there.
    fn find_outstanding(&self, port: u16) -> (r: Option<usize>)
        ensures
            match r {
                Some(i) => i < self.allocated@.len() && self.allocated@[i as int] == port,
                None => forall|k: int| 0 <= k < self.allocated@.len() ==> self.allocated@[k]
                    != port,
            },
    {
        let n = self.allocated.len();
        let mut i: usize = 0;
        while i < n
            invariant
                i <= n,
                n == self.allocated@.len(),
                forall|k: int| 0 <= k < i ==> self.allocated@[k] != port,
            decreases n - i,
        {
            if self.allocated[i] == port {
                return Some(i);
            }
            i = i + 1;
        }
        None
    }
}

/// Helper naming the outstanding set in a proof context.
pub open spec fn old_outstanding_helper(p: &AvailablePorts) -> Set<int> {
    p.outstanding()
}

/// A member of a port list is in its integer set.
proof fn lemma_to_set_member(v: Seq<u16>, i: int)
    requires
        0 <= i < v.len(),
    ensures
        v.map_values(|p: u16| p as int).to_set().contains(v[i] as int),
{
    assert(v.map_values(|p: u16| p as int)[i] == v[i] as int);
}

/// Pushing a port inserts it into the list's integer set.
pub proof fn lemma_to_set_push(v: Seq<u16>, port: u16)
    ensures
        v.push(port).map_values(|p: u16| p as int).to_set() == v.map_values(
            |p: u16| p as int,
        ).to_set().insert(port as int),
{
    let mapped = |p: u16| p as int;
    let s0 = v.map_values(mapped);
    let s1 = v.push(port).map_values(mapped);
    assert(s1 =~= s0.push(port as int));
    assert forall|y: int| s1.to_set().contains(y) implies s0.to_set().contains(y) || y
        == port as int by {
        let idx = choose|idx: int| 0 <= idx < s1.len() && s1[idx] == y;
        if idx < s0.len() {
            assert(s0[idx] == y);
        }
    }
    assert forall|y: int| s0.to_set().contains(y) implies s1.to_set().contains(y) by {
        let idx = choose|idx: int| 0 <= idx < s0.len() && s0[idx] == y;
        assert(s1[idx] == y);
    }
    assert(s1[s1.len() - 1] == port as int);
    assert(s1.to_set().contains(port as int));
    assert(s1.to_set() =~= s0.to_set().insert(port as int));
}

/// Removing the only copy of a port removes it from the list's integer set.
proof fn lemma_to_set_swap_remove(pre: Seq<u16>, fin: Seq<u16>, idx: int, port: u16)
    requires
        0 <= idx < pre.len(),
        pre[idx] == port,
        forall|i: int, j: int| 0 <= i < j < pre.len() ==> pre[i] != pre[j],
        fin == pre.update(idx, pre[pre.len() - 1]).drop_last(),
    ensures
        fin.map_values(|p: u16| p as int).to_set() == pre.map_values(
            |p: u16| p as int,
        ).to_set().remove(port as int),
        forall|i: int, j: int| 0 <= i < j < fin.len() ==> fin[i] != fin[j],
{
    let mapped = |p: u16| p as int;
    let sp = pre.map_values(mapped);
    let sf = fin.map_values(mapped);
    assert(forall|i: int| 0 <= i < fin.len() ==> #[trigger] fin[i] == pre[i] || fin[i] == pre[
        pre.len() - 1
    ]);
    assert forall|i: int, j: int| 0 <= i < j < fin.len() implies fin[i] != fin[j] by {
        assert(fin[i] == pre[i] || fin[i] == pre[pre.len() - 1]);
        assert(fin[j] == pre[j] || fin[j] == pre[pre.len() - 1]);
    }
    assert forall|y: int| sf.to_set().contains(y) implies sp.to_set().contains(y) && y
        != port as int by {
        let w = choose|w: int| 0 <= w < sf.len() && sf[w] == y;
        assert(sf[w] == fin[w] as int);
        if fin[w] == pre[w] {
            assert(sp[w] == y);
            assert(w != idx || fin[w] == pre[pre.len() - 1]);
            if w == idx {
                assert(pre.len() - 1 > idx || pre.len() - 1 == idx);
                if pre.len() - 1 == idx {
                    assert(fin.len() == pre.len() - 1);
                    assert(false);
                }
                assert(pre[w] == pre[pre.len() - 1] && w < pre.len() - 1);
                assert(false);
            }
            assert(pre[w] != pre[idx]);
        } else {
            assert(fin[w] == pre[pre.len() - 1]);
            assert(sp[sp.len() - 1] == y);
            assert(w < fin.len());
            assert(pre.len() - 1 != idx ==> pre[pre.len() - 1] != pre[idx]);
            if pre.len() - 1 == idx {
                assert(w < pre.len() - 1);
                assert(false);
            }
        }
    }
    assert forall|y: int| sp.to_set().contains(y) && y != port as int implies sf.to_set().contains(
        y,
    ) by {
        let w = choose|w: int| 0 <= w < sp.len() && sp[w] == y;
        assert(pre[w] as int == y);
        assert(w != idx);
        if w < pre.len() - 1 {
            assert(fin[w] == pre[w] || w == idx);
            assert(sf[w] == y);
        } else {
            assert(w == pre.len() - 1);
            assert(fin[idx] == pre[pre.len() - 1]);
            assert(sf[idx] == y);
        }
    }
    assert(sf.to_set() =~= sp.to_set().remove(port as int));
}

/// Whether `addr` belongs to the desired rule-source set: some gateway in
/// `g` passes `f` and contributes `addr` through one of its subnets at the
/// external port.
pub open spec fn source_desired(
    g: Seq<(Seq<char>, GatewayInfoView)>,
    f: FilterView,
    external: u16,
    addr: SocketAddress,
) -> bool {
    crate::listener::addr_desired(g, f, external, addr)
}

/// A rule record `(addr, id)` is contributed by the snapshot: some gateway
/// named `id` passes the filter and owns a subnet yielding `addr` at the
/// external port.
pub open spec fn rule_contributed(
    g: Seq<(Seq<char>, GatewayInfoView)>,
    f: FilterView,
    external: u16,
    addr: SocketAddress,
    id: Seq<char>,
) -> bool {
    exists|i: int, j: int|
        {
            &&& 0 <= i < g.len()
            &&& spec_matches(f, (#[trigger] g[i]).0, g[i].1)
            &&& g[i].1.ip_info is Some
            &&& 0 <= j < g[i].1.ip_info->Some_0.subnets.len()
            &&& addr == spec_bind_addr(
                #[trigger] g[i].1.ip_info->Some_0.subnets[j],
                external,
                g[i].1.ip_info->Some_0.scope_id,
            )
            &&& id == g[i].0
        }
}

/// One platform-script invocation the caller must perform after a
/// reconciliation: install or remove a NAT rule republishing `target` on
/// `source` through interface `iface`.
pub struct ForwardAction {
    pub remove: bool,
    pub iface: GatewayId,
    pub source: SocketAddress,
    pub target: SocketAddress,
}

/// The action list installs a rule on `addr`.
pub open spec fn has_install(acts: Seq<ForwardAction>, addr: SocketAddress) -> bool {
    exists|k: int| 0 <= k < acts.len() && !(#[trigger] acts[k]).remove && acts[k].source == addr
}

/// The action list removes the rule on `addr`.
pub open spec fn has_remove(acts: Seq<ForwardAction>, addr: SocketAddress) -> bool {
    exists|k: int| 0 <= k < acts.len() && (#[trigger] acts[k]).remove && acts[k].source == addr
}

/// An installed rule on `addr` is recorded.
pub open spec fn rules_hold(rules: Seq<(SocketAddress, GatewayId)>, addr: SocketAddress) -> bool {
    exists|k: int| 0 <= k < rules.len() && (#[trigger] rules[k]).0 == addr
}

/// The NAT rules one forwarded port owns: the external port, the target the
/// rules point at, the filter last reconciled against, and one record per
/// installed rule with the interface it was installed on.
pub struct ForwardEntry {
    pub external: u16,
    pub target: SocketAddress,
    pub prev_filter: InterfaceFilter,
    pub forwards: Vec<(SocketAddress, GatewayId)>,
}

impl ForwardEntry {
    pub open spec fn wf(self) -> bool {
        forall|k1: int, k2: int|
            0 <= k1 < k2 < self.forwards@.len() ==> (#[trigger] self.forwards@[k1]).0 != (
            #[trigger] self.forwards@[k2]).0
    }

    /// A fresh entry with no rules installed and a never-matching cached
    /// filter.
    pub fn new(external: u16, target: SocketAddress) -> (r: ForwardEntry)
        ensures
            r.external == external,
            r.target == target,
            r.forwards@.len() == 0,
            r.prev_filter@ == FilterView::Always(false),
            r.wf(),
    {
        ForwardEntry {
            external,
            target,
            prev_filter: InterfaceFilter::Always(false),
            forwards: Vec::new(),
        }
    }

    /// Tear down every installed rule: one removal per record, in order.
    pub fn destroy(&mut self) -> (actions: Vec<ForwardAction>)
        ensures
            final(self).forwards@.len() == 0,
            final(self).external == old(self).external,
            final(self).target == old(self).target,
            final(self).prev_filter == old(self).prev_filter,
            actions@.len() == old(self).forwards@.len(),
            forall|k: int|
                0 <= k < actions@.len() ==> {
                    &&& (#[trigger] actions@[k]).remove
                    &&& actions@[k].source == old(self).forwards@[k].0
                    &&& actions@[k].iface@ == old(self).forwards@[k].1@
                    &&& actions@[k].target == old(self).target
                },
    {
        let mut actions: Vec<ForwardAction> = Vec::new();
        let n = self.forwards.len();
        let mut k: usize = 0;
        while k < n
            invariant
                k <= n,
                n == self.forwards@.len(),
                self.forwards@ == old(self).forwards@,
                self.target == old(self).target,
                actions@.len() == k,
                forall|t: int|
                    0 <= t < k ==> {
                        &&& (#[trigger] actions@[t]).remove
                        &&& actions@[t].source == old(self).forwards@[t].0
                        &&& actions@[t].iface@ == old(self).forwards@[t].1@
                        &&& actions@[t].target == old(self).target
                    },
            decreases n - k,
        {
            let source = self.forwards[k].0;
            let iface = GatewayId::new(self.forwards[k].1.as_str());
            actions.push(ForwardAction { remove: true, iface, source, target: self.target });
            k = k + 1;
        }
        self.forwards = Vec::new();
        actions
    }
}

/// The desired rule sources for `gateways` (plus loopback) under `filter`
/// at the external port: deduplicated addresses, each carrying the id of a
/// gateway that contributes it.
fn desired_sources(gateways: &Gateways, filter: &InterfaceFilter, external: u16) -> (r: Vec<
    (SocketAddress, GatewayId),
>)
    requires
        gateways@.len() < usize::MAX,
    ensures
        forall|a: SocketAddress| rules_hold(r@, a) <==> source_desired(
            with_loopback(gateways@),
            filter@,
            external,
            a,
        ),
        forall|k1: int, k2: int| 0 <= k1 < k2 < r@.len() ==> (#[trigger] r@[k1]).0 != (
        #[trigger] r@[k2]).0,
        forall|k: int|
            0 <= k < r@.len() ==> rule_contributed(
                with_loopback(gateways@),
                filter@,
                external,
                (#[trigger] r@[k]).0,
                r@[k].1@,
            ),
{
    let ghost gw = with_loopback(gateways@);
    let n = gateways.entries.len();
    let mut r: Vec<(SocketAddress, GatewayId)> = Vec::new();
    let mut i: usize = 0;
    proof {
        assert(gateways@.len() == gateways.entries@.len());
    }
    while i <= n
        invariant
            i <= n + 1,
            n < usize::MAX,
            n == gateways.entries@.len(),
            gw == with_loopback(gateways@),
            gw.len() == n + 1,
            forall|k: int| 0 <= k < n ==> #[trigger] gw[k] == (
                gateways.entries@[k].0@,
                gateways.entries@[k].1@,
            ),
            gw[n as int] == ("lo"@, GatewayInfoView::loopback()),
            forall|k: int|
                0 <= k < r@.len() ==> exists|gi: int, j: int|
                    {
                        &&& 0 <= gi < i
                        &&& spec_matches(filter@, (#[trigger] gw[gi]).0, gw[gi].1)
                        &&& gw[gi].1.ip_info is Some
                        &&& 0 <= j < gw[gi].1.ip_info->Some_0.subnets.len()
                        &&& (#[trigger] r@[k]).0 == spec_bind_addr(
                            #[trigger] gw[gi].1.ip_info->Some_0.subnets[j],
                            external,
                            gw[gi].1.ip_info->Some_0.scope_id,
                        )
                        &&& r@[k].1@ == gw[gi].0
                    },
            forall|gi: int, j: int|
                {
                    &&& 0 <= gi < i
                    &&& spec_matches(filter@, (#[trigger] gw[gi]).0, gw[gi].1)
                    &&& gw[gi].1.ip_info is Some
                    &&& 0 <= j < gw[gi].1.ip_info->Some_0.subnets.len()
                } ==> rules_hold(
                    r@,
                    spec_bind_addr(
                        #[trigger] gw[gi].1.ip_info->Some_0.subnets[j],
                        external,
                        gw[gi].1.ip_info->Some_0.scope_id,
                    ),
                ),
            forall|k1: int, k2: int| 0 <= k1 < k2 < r@.len() ==> (#[trigger] r@[k1]).0 != (
            #[trigger] r@[k2]).0,
        decreases n + 1 - i,
    {
        let loopback_entry;
        let entry: &(GatewayId, NetworkInterfaceInfo);
        if i < n {
            entry = &gateways.entries[i];
        } else {
            loopback_entry = NetworkInterfaceInfo::loopback();
            entry = &loopback_entry;
        }
        proof {
            assert(gw[i as int] == (entry.0@, entry.1@));
        }
        if filter.filter(&entry.0, &entry.1) {
            match &entry.1.ip_info {
                Some(info) => {
                    let m = info.subnets.len();
                    let mut j: usize = 0;
                    while j < m
                        invariant
                            j <= m,
                            i <= n,
                            gw.len() == n + 1,
                            m == info.subnets@.len(),
                            entry.1.ip_info == Some(*info),
                            gw[i as int] == (entry.0@, entry.1@),
                            spec_matches(filter@, gw[i as int].0, gw[i as int].1),
                            forall|k: int|
                                0 <= k < r@.len() ==> exists|gi: int, jj: int|
                                    {
                                        &&& 0 <= gi <= i
                                        &&& spec_matches(filter@, (#[trigger] gw[gi]).0, gw[gi].1)
                                        &&& gw[gi].1.ip_info is Some
                                        &&& 0 <= jj < gw[gi].1.ip_info->Some_0.subnets.len()
                                        &&& (#[trigger] r@[k]).0 == spec_bind_addr(
                                            #[trigger] gw[gi].1.ip_info->Some_0.subnets[jj],
                                            external,
                                            gw[gi].1.ip_info->Some_0.scope_id,
                                        )
                                        &&& r@[k].1@ == gw[gi].0
                                    },
                            forall|gi: int, jj: int|
                                {
                                    &&& 0 <= gi < i
                                    &&& spec_matches(filter@, (#[trigger] gw[gi]).0, gw[gi].1)
                                    &&& gw[gi].1.ip_info is Some
                                    &&& 0 <= jj < gw[gi].1.ip_info->Some_0.subnets.len()
                                } ==> rules_hold(
                                    r@,
                                    spec_bind_addr(
                                        #[trigger] gw[gi].1.ip_info->Some_0.subnets[jj],
                                        external,
                                        gw[gi].1.ip_info->Some_0.scope_id,
                                    ),
                                ),
                            forall|jj: int|
                                0 <= jj < j ==> rules_hold(
                                    r@,
                                    spec_bind_addr(
                                        #[trigger] info.subnets@[jj],
                                        external,
                                        info.scope_id,
                                    ),
                                ),
                            forall|k1: int, k2: int|
                                0 <= k1 < k2 < r@.len() ==> (#[trigger] r@[k1]).0 != (
                                #[trigger] r@[k2]).0,
                        decreases m - j,
                    {
                        let addr = bind_addr(&info.subnets[j], external, info.scope_id);
                        let ghost old_r = r@;
                        if !rule_held(&r, &addr) {
                            r.push((addr, GatewayId::new(entry.0.as_str())));
                            proof {
                                assert(gw[i as int].1.ip_info->Some_0.subnets =~= info.subnets@);
                                assert(gw[i as int].1.ip_info->Some_0.scope_id == info.scope_id);
                                assert(r@[r@.len() - 1].0 == spec_bind_addr(
                                    gw[i as int].1.ip_info->Some_0.subnets[j as int],
                                    external,
                                    gw[i as int].1.ip_info->Some_0.scope_id,
                                ));
                                assert(r@[r@.len() - 1].1@ == gw[i as int].0);
                                assert forall|a: SocketAddress| rules_hold(old_r, a) implies
                                    rules_hold(r@, a) by {
                                    let k = choose|k: int|
                                        0 <= k < old_r.len() && (#[trigger] old_r[k]).0 == a;
                                    assert(r@[k] == old_r[k]);
                                }
                                assert(forall|k: int|
                                    0 <= k < old_r.len() ==> #[trigger] r@[k] == old_r[k]);
                                assert(rules_hold(
                                    r@,
                                    spec_bind_addr(
                                        info.subnets@[j as int],
                                        external,
                                        info.scope_id,
                                    ),
                                )) by {
                                    assert(r@[r@.len() - 1].0 == spec_bind_addr(
                                        info.subnets@[j as int],
                                        external,
                                        info.scope_id,
                                    ));
                                }
                            }
                        } else {
                            proof {
                                assert(rules_hold(
                                    r@,
                                    spec_bind_addr(
                                        info.subnets@[j as int],
                                        external,
                                        info.scope_id,
                                    ),
                                ));
                            }
                        }
                        j = j + 1;
                    }
                },
                None => {},
            }
        }
        i = i + 1;
    }
    proof {
        assert forall|a: SocketAddress| rules_hold(r@, a) implies source_desired(
            gw,
            filter@,
            external,
            a,
        ) by {
            let k = choose|k: int| 0 <= k < r@.len() && (#[trigger] r@[k]).0 == a;
            assert(0 <= k < r@.len());
        }
        assert forall|k: int| 0 <= k < r@.len() implies rule_contributed(
            gw,
            filter@,
            external,
            (#[trigger] r@[k]).0,
            r@[k].1@,
        ) by {
            let (gi, j) = choose|gi: int, j: int|
                {
                    &&& 0 <= gi < n + 1
                    &&& spec_matches(filter@, (#[trigger] gw[gi]).0, gw[gi].1)
                    &&& gw[gi].1.ip_info is Some
                    &&& 0 <= j < gw[gi].1.ip_info->Some_0.subnets.len()
                    &&& r@[k].0 == spec_bind_addr(
                        #[trigger] gw[gi].1.ip_info->Some_0.subnets[j],
                        external,
                        gw[gi].1.ip_info->Some_0.scope_id,
                    )
                    &&& r@[k].1@ == gw[gi].0
                };
        }
        assert forall|a: SocketAddress| source_desired(gw, filter@, external, a) implies
            rules_hold(r@, a) by {
            let (gi, j) = choose|gi: int, j: int|
                {
                    &&& 0 <= gi < gw.len()
                    &&& spec_matches(filter@, (#[trigger] gw[gi]).0, gw[gi].1)
                    &&& gw[gi].1.ip_info is Some
                    &&& 0 <= j < gw[gi].1.ip_info->Some_0.subnets.len()
                    &&& a == spec_bind_addr(
                        #[trigger] gw[gi].1.ip_info->Some_0.subnets[j],
                        external,
                        gw[gi].1.ip_info->Some_0.scope_id,
                    )
                };
            assert(rules_hold(
                r@,
                spec_bind_addr(
                    gw[gi].1.ip_info->Some_0.subnets[j],
                    external,
                    gw[gi].1.ip_info->Some_0.scope_id,
                ),
            ));
        }
    }
    r
}

/// Whether a rule on `addr` is recorded in `r`.
fn rule_held(r: &Vec<(SocketAddress, GatewayId)>, addr: &SocketAddress) -> (b: bool)
    ensures
        b == rules_hold(r@, *addr),
{
    let n = r.len();
    let mut k: usize = 0;
    while k < n
        invariant
            k <= n,
            n == r@.len(),
            forall|t: int| 0 <= t < k ==> (#[trigger] r@[t]).0 != *addr,
        decreases n - k,
    {
        if r[k].0 == *addr {
            return true;
        }
        k = k + 1;
    }
    false
}

impl ForwardEntry {
    /// Reconcile the installed rules against a gateway snapshot, under a new
    /// filter or (when none is given) the cached one.
    ///
    /// Afterwards the installed rule set equals the desired source set:
    /// every subnet address of every gateway (or loopback) passing the
    /// filter, at the external port. The returned actions are exactly the
    /// difference — a rule is installed once for each newly desired source
    /// and removed once for each source no longer desired — so a
    /// reconciliation that changes nothing invokes the platform script not
    /// at all.
    #[verifier::rlimit(50)]
    pub fn update(&mut self, gateways: &Gateways, filter: Option<&InterfaceFilter>) -> (actions:
        Vec<ForwardAction>)
        requires
            old(self).wf(),
            gateways@.len() < usize::MAX,
        ensures
            final(self).wf(),
            final(self).external == old(self).external,
            final(self).target == old(self).target,
            final(self).prev_filter@ == (match filter {
                Some(f) => f@,
                None => old(self).prev_filter@,
            }),
            forall|a: SocketAddress| rules_hold(final(self).forwards@, a) <==> source_desired(
                with_loopback(gateways@),
                final(self).prev_filter@,
                old(self).external,
                a,
            ),
            forall|a: SocketAddress| has_install(actions@, a) <==> (source_desired(
                with_loopback(gateways@),
                final(self).prev_filter@,
                old(self).external,
                a,
            ) && !rules_hold(old(self).forwards@, a)),
            forall|a: SocketAddress| has_remove(actions@, a) <==> (rules_hold(
                old(self).forwards@,
                a,
            ) && !source_desired(
                with_loopback(gateways@),
                final(self).prev_filter@,
                old(self).external,
                a,
            )),
            forall|k: int| 0 <= k < actions@.len() ==> (#[trigger] actions@[k]).target == old(
                self,
            ).target,
            // one action per source: installed exactly once net of removals
            forall|k1: int, k2: int|
                0 <= k1 < k2 < actions@.len() ==> (#[trigger] actions@[k1]).source != (
                #[trigger] actions@[k2]).source,
            // each kept rule is recorded under a gateway that contributes it
            forall|k: int|
                0 <= k < final(self).forwards@.len() ==> rule_contributed(
                    with_loopback(gateways@),
                    final(self).prev_filter@,
                    old(self).external,
                    (#[trigger] final(self).forwards@[k]).0,
                    final(self).forwards@[k].1@,
                ),
            // each install goes through a gateway that contributes the source
            forall|k: int|
                0 <= k < actions@.len() && !(#[trigger] actions@[k]).remove ==> rule_contributed(
                    with_loopback(gateways@),
                    final(self).prev_filter@,
                    old(self).external,
                    actions@[k].source,
                    actions@[k].iface@,
                ),
            // each removal names the interface its rule was installed on
            forall|k: int|
                0 <= k < actions@.len() && (#[trigger] actions@[k]).remove ==> exists|u: int|
                    {
                        &&& 0 <= u < old(self).forwards@.len()
                        &&& (#[trigger] old(self).forwards@[u]).0 == actions@[k].source
                        &&& old(self).forwards@[u].1@ == actions@[k].iface@
                    },
            (forall|a: SocketAddress|
                rules_hold(old(self).forwards@, a) <==> source_desired(
                    with_loopback(gateways@),
                    (match filter {
                        Some(f) => f@,
                        None => old(self).prev_filter@,
                    }),
                    old(self).external,
                    a,
                )) ==> actions@.len() == 0,
    {
        let ghost gw = with_loopback(gateways@);
        let ghost old_rules = self.forwards@;
        let desired = match filter {
            Some(f) => desired_sources(gateways, f, self.external),
            None => desired_sources(gateways, &self.prev_filter, self.external),
        };
        let ghost fv = match filter {
            Some(f) => f@,
            None => old(self).prev_filter@,
        };
        let mut actions: Vec<ForwardAction> = Vec::new();
        // install rules for newly desired sources
        let n_new = desired.len();
        let mut t: usize = 0;
        while t < n_new
            invariant
                t <= n_new,
                n_new == desired@.len(),
                self.forwards@ == old_rules,
                self.target == old(self).target,
                self.external == old(self).external,
                self.prev_filter == old(self).prev_filter,
                self.wf(),
                forall|a: SocketAddress| rules_hold(desired@, a) <==> source_desired(
                    gw,
                    fv,
                    old(self).external,
                    a,
                ),
                forall|k1: int, k2: int| 0 <= k1 < k2 < desired@.len() ==> (
                #[trigger] desired@[k1]).0 != (#[trigger] desired@[k2]).0,
                forall|u: int|
                    0 <= u < actions@.len() ==> (!(#[trigger] actions@[u]).remove && rules_hold(
                        desired@,
                        actions@[u].source,
                    ) && !rules_hold(old_rules, actions@[u].source) && actions@[u].target == old(
                        self,
                    ).target),
                forall|u: int|
                    0 <= u < actions@.len() ==> exists|w: int|
                        0 <= w < desired@.len() && (#[trigger] desired@[w]).0 == (
                        #[trigger] actions@[u]).source && desired@[w].1@ == actions@[u].iface@,
                forall|u1: int, u2: int|
                    0 <= u1 < u2 < actions@.len() ==> (#[trigger] actions@[u1]).source != (
                    #[trigger] actions@[u2]).source,
                forall|u: int|
                    0 <= u < t ==> (!rules_hold(old_rules, (#[trigger] desired@[u]).0)
                        ==> has_install(actions@, desired@[u].0)),
                forall|a: SocketAddress| has_install(actions@, a) ==> exists|u: int|
                    0 <= u < t && (#[trigger] desired@[u]).0 == a,
            decreases n_new - t,
        {
            let addr = desired[t].0;
            if !rule_held(&self.forwards, &addr) {
                let ghost old_actions = actions@;
                let iface = GatewayId::new(desired[t].1.as_str());
                actions.push(
                    ForwardAction { remove: false, iface, source: addr, target: self.target },
                );
                proof {
                    assert(!actions@[actions@.len() - 1].remove && actions@[actions@.len()
                        - 1].source == addr);
                    assert(actions@[actions@.len() - 1].iface@ == desired@[t as int].1@);
                    assert forall|u1: int|
                        0 <= u1 < old_actions.len() implies #[trigger] actions@[u1].source
                        != addr by {
                        assert(has_install(old_actions, actions@[u1].source)) by {
                            assert(old_actions[u1] == actions@[u1]);
                        }
                        let u = choose|u: int|
                            0 <= u < t && (#[trigger] desired@[u]).0 == old_actions[u1].source;
                        assert(desired@[u].0 != desired@[t as int].0);
                    }
                    assert forall|a: SocketAddress| has_install(old_actions, a) implies
                        has_install(actions@, a) by {
                        let u = choose|u: int|
                            0 <= u < old_actions.len() && !(#[trigger] old_actions[u]).remove
                                && old_actions[u].source == a;
                        assert(actions@[u] == old_actions[u]);
                    }
                    assert forall|a: SocketAddress| has_install(actions@, a) implies exists|u: int|
                        0 <= u < t + 1 && (#[trigger] desired@[u]).0 == a by {
                        let w = choose|w: int|
                            0 <= w < actions@.len() && !(#[trigger] actions@[w]).remove
                                && actions@[w].source == a;
                        if w < old_actions.len() {
                            assert(old_actions[w] == actions@[w]);
                            assert(has_install(old_actions, a));
                            let u = choose|u: int| 0 <= u < t && (#[trigger] desired@[u]).0 == a;
                            assert(0 <= u < t + 1 && desired@[u].0 == a);
                        } else {
                            assert(a == addr);
                            assert(desired@[t as int].0 == a);
                        }
                    }
                }
            }
            t = t + 1;
        }
        // remove rules whose sources are no longer desired
        let ghost install_count = actions@.len();
        let ghost pre_remove = actions@;
        proof {
            assert(actions@.take(install_count as int) =~= actions@);
            assert forall|a: SocketAddress| has_install(actions@, a) implies (rules_hold(
                desired@,
                a,
            ) && !rules_hold(old_rules, a)) by {
                let u = choose|u: int|
                    0 <= u < actions@.len() && !(#[trigger] actions@[u]).remove && actions@[
                        u
                    ].source == a;
            }
            assert forall|a: SocketAddress| rules_hold(desired@, a) && !rules_hold(
                old_rules,
                a,
            ) implies has_install(actions@, a) by {
                let u = choose|u: int| 0 <= u < desired@.len() && (#[trigger] desired@[u]).0 == a;
            }
        }
        let n_old = self.forwards.len();
        let mut k: usize = 0;
        while k < n_old
            invariant
                k <= n_old,
                n_old == old_rules.len(),
                self.forwards@ == old_rules,
                self.target == old(self).target,
                self.external == old(self).external,
                self.prev_filter == old(self).prev_filter,
                self.wf(),
                forall|a: SocketAddress| rules_hold(desired@, a) <==> source_desired(
                    gw,
                    fv,
                    old(self).external,
                    a,
                ),
                install_count <= actions@.len(),
                forall|k1: int, k2: int| 0 <= k1 < k2 < desired@.len() ==> (
                #[trigger] desired@[k1]).0 != (#[trigger] desired@[k2]).0,
                pre_remove.len() == install_count,
                actions@.take(install_count as int) == pre_remove,
                forall|a: SocketAddress| has_install(pre_remove, a) <==> (rules_hold(desired@, a)
                    && !rules_hold(old_rules, a)),
                forall|u: int| 0 <= u < install_count ==> !(#[trigger] actions@[u]).remove,
                forall|u: int|
                    install_count <= u < actions@.len() ==> ((#[trigger] actions@[u]).remove
                        && rules_hold(old_rules, actions@[u].source) && !rules_hold(
                        desired@,
                        actions@[u].source,
                    )),
                forall|u: int|
                    install_count <= u < actions@.len() ==> exists|w: int|
                        0 <= w < old_rules.len() && (#[trigger] old_rules[w]).0 == (
                        #[trigger] actions@[u]).source && old_rules[w].1@ == actions@[u].iface@,
                forall|u: int|
                    0 <= u < install_count ==> exists|w: int|
                        0 <= w < desired@.len() && (#[trigger] desired@[w]).0 == (
                        #[trigger] actions@[u]).source && desired@[w].1@ == actions@[u].iface@,
                forall|u1: int, u2: int|
                    0 <= u1 < u2 < actions@.len() ==> (#[trigger] actions@[u1]).source != (
                    #[trigger] actions@[u2]).source,
                forall|u: int| 0 <= u < actions@.len() ==> (#[trigger] actions@[u]).target == old(
                    self,
                ).target,
                forall|u: int|
                    0 <= u < k ==> (!rules_hold(desired@, (#[trigger] old_rules[u]).0)
                        ==> has_remove(actions@, old_rules[u].0)),
                forall|a: SocketAddress| has_remove(actions@, a) ==> exists|u: int|
                    0 <= u < k && (#[trigger] old_rules[u]).0 == a,
            decreases n_old - k,
        {
            let addr = self.forwards[k].0;
            if !rule_held(&desired, &addr) {
                let ghost old_actions = actions@;
                let iface = GatewayId::new(self.forwards[k].1.as_str());
                actions.push(
                    ForwardAction { remove: true, iface, source: addr, target: self.target },
                );
                proof {
                    assert(actions@[actions@.len() - 1].remove && actions@[actions@.len()
                        - 1].source == addr);
                    assert(actions@[actions@.len() - 1].iface@ == old_rules[k as int].1@);
                    assert(old_rules[k as int].0 == addr);
                    assert forall|u1: int|
                        0 <= u1 < old_actions.len() implies #[trigger] actions@[u1].source
                        != addr by {
                        assert(actions@[u1] == old_actions[u1]);
                        if u1 < install_count {
                            // an install's source is desired; this one is not
                            assert(rules_hold(desired@, old_actions[u1].source));
                        } else {
                            // an earlier removal came from a distinct old rule
                            assert(has_remove(old_actions, old_actions[u1].source)) by {
                                assert((#[trigger] old_actions[u1]).remove);
                            }
                            let w = choose|w: int|
                                0 <= w < k && (#[trigger] old_rules[w]).0 == old_actions[
                                    u1
                                ].source;
                            assert(old_rules[w].0 != old_rules[k as int].0);
                        }
                    }
                    assert(actions@.take(install_count as int) =~= old_actions.take(
                        install_count as int,
                    ));
                    assert(actions@.take(install_count as int) == old_actions.take(
                        install_count as int,
                    ));
                    assert forall|a: SocketAddress| has_remove(old_actions, a) implies has_remove(
                        actions@,
                        a,
                    ) by {
                        let u = choose|u: int|
                            0 <= u < old_actions.len() && (#[trigger] old_actions[u]).remove
                                && old_actions[u].source == a;
                        assert(actions@[u] == old_actions[u]);
                    }
                    assert forall|a: SocketAddress| has_remove(actions@, a) implies exists|u: int|
                        0 <= u < k + 1 && (#[trigger] old_rules[u]).0 == a by {
                        let w = choose|w: int|
                            0 <= w < actions@.len() && (#[trigger] actions@[w]).remove && actions@[
                                w
                            ].source == a;
                        if w < old_actions.len() {
                            assert(old_actions[w] == actions@[w]);
                            assert(has_remove(old_actions, a));
                            let u = choose|u: int| 0 <= u < k && (#[trigger] old_rules[u]).0 == a;
                            assert(0 <= u < k + 1 && old_rules[u].0 == a);
                        } else {
                            assert(a == addr);
                            assert(old_rules[k as int].0 == a);
                        }
                    }
                }
            }
            k = k + 1;
        }
        proof {
            assert forall|a: SocketAddress| has_install(actions@, a) implies has_install(
                pre_remove,
                a,
            ) by {
                let u = choose|u: int|
                    0 <= u < actions@.len() && !(#[trigger] actions@[u]).remove && actions@[
                        u
                    ].source == a;
                if u >= install_count {
                    assert(actions@[u].remove);
                } else {
                    assert(actions@.take(install_count as int)[u] == actions@[u]);
                    assert(pre_remove[u] == actions@[u]);
                }
            }
            assert forall|a: SocketAddress| has_install(pre_remove, a) implies has_install(
                actions@,
                a,
            ) by {
                let u = choose|u: int|
                    0 <= u < pre_remove.len() && !(#[trigger] pre_remove[u]).remove && pre_remove[
                        u
                    ].source == a;
                assert(actions@.take(install_count as int)[u] == pre_remove[u]);
                assert(actions@[u] == pre_remove[u]);
            }
        }
        self.forwards = desired;
        match filter {
            Some(f) => {
                self.prev_filter = f.duplicate();
            },
            None => {},
        }
        proof {
            assert(self.forwards@ == desired@);
            assert(self.prev_filter@ == fv);
            assert(forall|a: SocketAddress| rules_hold(self.forwards@, a) <==> source_desired(
                gw,
                self.prev_filter@,
                old(self).external,
                a,
            ));
            assert(old_rules == old(self).forwards@);
            assert(gw == with_loopback(gateways@));
            assert forall|a: SocketAddress| has_install(actions@, a) <==> (source_desired(
                with_loopback(gateways@),
                self.prev_filter@,
                old(self).external,
                a,
            ) && !rules_hold(old(self).forwards@, a)) by {
                if has_install(actions@, a) {
                    assert(has_install(pre_remove, a));
                    assert(rules_hold(desired@, a));
                }
                if source_desired(with_loopback(gateways@), self.prev_filter@, old(self).external, a)
                    && !rules_hold(old(self).forwards@, a) {
                    assert(rules_hold(desired@, a));
                    assert(has_install(pre_remove, a));
                    assert(has_install(actions@, a));
                }
            }
            assert forall|a: SocketAddress| has_remove(actions@, a) <==> (rules_hold(
                old(self).forwards@,
                a,
            ) && !source_desired(
                with_loopback(gateways@),
                self.prev_filter@,
                old(self).external,
                a,
            )) by {
                if has_remove(actions@, a) {
                    let u = choose|u: int|
                        0 <= u < actions@.len() && (#[trigger] actions@[u]).remove && actions@[
                            u
                        ].source == a;
                    assert(rules_hold(old_rules, a) && !rules_hold(desired@, a));
                }
                if rules_hold(old(self).forwards@, a) && !source_desired(
                    with_loopback(gateways@),
                    self.prev_filter@,
                    old(self).external,
                    a,
                ) {
                    assert(!rules_hold(desired@, a));
                    let u = choose|u: int|
                        0 <= u < old_rules.len() && (#[trigger] old_rules[u]).0 == a;
                    assert(has_remove(actions@, a));
                }
            }
            if forall|a: SocketAddress|
                rules_hold(old_rules, a) <==> source_desired(gw, fv, old(self).external, a) {
                assert(actions@.len() == 0) by {
                    if actions@.len() > 0 {
                        let act = actions@[0];
                        if 0 < install_count {
                            assert(actions@.take(install_count as int)[0] == act);
                            assert(pre_remove[0] == act);
                            assert(!act.remove);
                            assert(has_install(pre_remove, act.source));
                            assert(rules_hold(desired@, act.source) && !rules_hold(
                                old_rules,
                                act.source,
                            ));
                            assert(false);
                        } else {
                            assert(act.remove && rules_hold(old_rules, act.source) && !rules_hold(
                                desired@,
                                act.source,
                            ));
                            assert(false);
                        }
                    }
                }
            }
        }
        actions
    }
}


impl ForwardEntry {
    /// Point this external port at a (possibly new) target under a new
    /// filter. A change of target tears down every installed rule first and
    /// starts over; otherwise the rules are reconciled in place. Afterwards
    /// the installed set equals the desired set for the new filter and
    /// target.
    pub fn update_request(
        &mut self,
        gateways: &Gateways,
        target: SocketAddress,
        filter: &InterfaceFilter,
    ) -> (actions: Vec<ForwardAction>)
        requires
            old(self).wf(),
            gateways@.len() < usize::MAX,
        ensures
            final(self).wf(),
            final(self).external == old(self).external,
            final(self).target == target,
            final(self).prev_filter@ == filter@,
            forall|a: SocketAddress| rules_hold(final(self).forwards@, a) <==> source_desired(
                with_loopback(gateways@),
                filter@,
                old(self).external,
                a,
            ),
    {
        if !(self.target == target) {
            let mut actions = self.destroy();
            self.target = target;
            let mut more = self.update(gateways, Some(filter));
            actions.append(&mut more);
            actions
        } else {
            self.update(gateways, Some(filter))
        }
    }
}
} // verus!
