//! Onion (rendezvous) services: reference-counted bindings from rendezvous
//! ports to local targets, and the supervisor discipline that recycles the
//! anonymity client when its health probes keep failing.

use vstd::prelude::*;

use crate::ip::SocketAddress;

verus! {

/// What a running service reports of itself.
#[derive(Clone, Copy, Debug, PartialEq, Eq, Structural)]
pub enum OnionServiceState {
    Shutdown,
    Bootstrapping,
    DegradedReachable,
    DegradedUnreachable,
    Running,
    Recovering,
    Broken,
}

/// One reference-counted binding: requests to `port` are piped to `target`
/// while at least one strong handle is held.
pub struct BindingRow {
    pub port: u16,
    pub target: SocketAddress,
    pub count: u64,
}

/// A binding is live: a row carries it with a positive count.
pub open spec fn binding_live(rows: Seq<BindingRow>, port: u16, target: SocketAddress) -> bool {
    exists|i: int|
        0 <= i < rows.len() && (#[trigger] rows[i]).port == port && rows[i].target == target
            && rows[i].count > 0
}

/// The handle count a binding row holds, zero when absent (pairs are
/// unique).
pub open spec fn binding_count(rows: Seq<BindingRow>, port: u16, target: SocketAddress) -> int
    decreases rows.len(),
{
    if rows.len() == 0 {
        0
    } else if rows.last().port == port && rows.last().target == target {
        rows.last().count as int
    } else {
        binding_count(rows.drop_last(), port, target)
    }
}

/// The count of a pair no row carries is zero.
proof fn lemma_binding_count_absent(rows: Seq<BindingRow>, port: u16, target: SocketAddress)
    requires
        forall|k: int| 0 <= k < rows.len() ==> ((#[trigger] rows[k]).port, rows[k].target) != (
            port,
            target,
        ),
    ensures
        binding_count(rows, port, target) == 0,
        !binding_live(rows, port, target),
    decreases rows.len(),
{
    if rows.len() > 0 {
        assert forall|k: int| 0 <= k < rows.drop_last().len() implies ((
        #[trigger] rows.drop_last()[k]).port, rows.drop_last()[k].target) != (port, target) by {
            assert(rows.drop_last()[k] == rows[k]);
        }
        lemma_binding_count_absent(rows.drop_last(), port, target);
    }
}

/// The count of a pair is the count of its unique row.
proof fn lemma_binding_count_here(rows: Seq<BindingRow>, i: int, port: u16, target: SocketAddress)
    requires
        0 <= i < rows.len(),
        rows[i].port == port && rows[i].target == target,
        forall|a: int, b: int|
            #![trigger rows[a], rows[b]]
            0 <= a < b < rows.len() ==> (rows[a].port, rows[a].target) != (
                rows[b].port,
                rows[b].target,
            ),
    ensures
        binding_count(rows, port, target) == rows[i].count,
        binding_live(rows, port, target) == (rows[i].count > 0),
    decreases rows.len(),
{
    if i == rows.len() - 1 {
        assert(rows.last() == rows[rows.len() - 1]);
        assert forall|k: int| 0 <= k < rows.drop_last().len() implies ((
        #[trigger] rows.drop_last()[k]).port, rows.drop_last()[k].target) != (port, target) by {
            assert(rows.drop_last()[k] == rows[k]);
            assert((rows[k].port, rows[k].target) != (rows[i].port, rows[i].target));
        }
        if binding_live(rows, port, target) {
            let w = choose|w: int|
                0 <= w < rows.len() && (#[trigger] rows[w]).port == port && rows[w].target
                    == target && rows[w].count > 0;
            assert(w == i);
        }
        if rows[i].count > 0 {
            assert(binding_live(rows, port, target));
        }
    } else {
        assert(rows.drop_last()[i] == rows[i]);
        assert forall|a: int, b: int|
            #![trigger rows.drop_last()[a], rows.drop_last()[b]]
            0 <= a < b < rows.drop_last().len() implies (rows.drop_last()[a].port,
        rows.drop_last()[a].target) != (rows.drop_last()[b].port, rows.drop_last()[b].target) by {
            assert(rows.drop_last()[a] == rows[a] && rows.drop_last()[b] == rows[b]);
        }
        lemma_binding_count_here(rows.drop_last(), i, port, target);
        assert(rows.last() == rows[rows.len() - 1]);
        assert((rows.last().port, rows.last().target) != (port, target));
        if binding_live(rows, port, target) {
            let w = choose|w: int|
                0 <= w < rows.len() && (#[trigger] rows[w]).port == port && rows[w].target
                    == target && rows[w].count > 0;
            assert(w == i);
        }
        if rows[i].count > 0 {
            assert(binding_live(rows, port, target));
        }
    }
}

/// Some target is live for a port.
pub open spec fn port_live(rows: Seq<BindingRow>, port: u16) -> bool {
    exists|i: int| 0 <= i < rows.len() && (#[trigger] rows[i]).port == port && rows[i].count > 0
}

/// The binding table of one onion service.
pub struct OnionBindings {
    pub rows: Vec<BindingRow>,
}

impl OnionBindings {
    pub open spec fn wf(self) -> bool {
        forall|i: int, j: int|
            #![trigger self.rows@[i], self.rows@[j]]
            0 <= i < j < self.rows@.len() ==> (self.rows@[i].port, self.rows@[i].target) != (
                self.rows@[j].port,
                self.rows@[j].target,
            )
    }

    pub fn new() -> (r: OnionBindings)
        ensures
            r.wf(),
            r.rows@.len() == 0,
    {
        OnionBindings { rows: Vec::new() }
    }

    /// Register one more handle on a binding; requests to its port reach the
    /// target from now on. Fails only when the count would overflow.
    pub fn register(&mut self, port: u16, target: SocketAddress) -> (r: Result<
        (),
        crate::error::ErrorKind,
    >)
        requires
            old(self).wf(),
        ensures
            final(self).wf(),
            match r {
                Ok(()) => {
                    &&& binding_live(final(self).rows@, port, target)
                    &&& binding_count(final(self).rows@, port, target) == binding_count(
                        old(self).rows@,
                        port,
                        target,
                    ) + 1
                    &&& forall|p: u16, t: SocketAddress|
                        #![trigger binding_live(final(self).rows@, p, t)]
                        (p, t) != (port, target) ==> binding_live(final(self).rows@, p, t)
                            == binding_live(old(self).rows@, p, t)
                },
                Err(k) => {
                    &&& k == crate::error::ErrorKind::Fatal
                    &&& final(self).rows@ == old(self).rows@
                    &&& binding_count(old(self).rows@, port, target) == u64::MAX
                },
            },
    {
        let n = self.rows.len();
        let mut i: usize = 0;
        let ghost pre = self.rows@;
        while i < n
            invariant
                i <= n,
                n == pre.len(),
                pre == old(self).rows@,
                self.rows@ == pre,
                old(self).wf(),
                self.wf(),
                forall|k: int|
                    0 <= k < i ==> ((#[trigger] pre[k]).port, pre[k].target) != (port, target),
            decreases n - i,
        {
            if self.rows[i].port == port && self.rows[i].target == target {
                let count = self.rows[i].count;
                if count == u64::MAX {
                    proof {
                        lemma_binding_count_here(pre, i as int, port, target);
                    }
                    return Err(crate::error::ErrorKind::Fatal);
                }
                self.rows.set(i, BindingRow { port, target, count: count + 1 });
                proof {
                    let fin = self.rows@;
                    assert(fin[i as int].count > 0);
                    assert(binding_live(fin, port, target));
                    lemma_binding_count_here(pre, i as int, port, target);
                    lemma_binding_count_here(fin, i as int, port, target);
                    assert forall|a: int, b: int|
                        #![trigger fin[a], fin[b]]
                        0 <= a < b < fin.len() implies (fin[a].port, fin[a].target) != (
                        fin[b].port,
                        fin[b].target,
                    ) by {
                        if a != i as int && b != i as int {
                            assert(fin[a] == pre[a] && fin[b] == pre[b]);
                        } else if a == i as int {
                            assert(fin[b] == pre[b]);
                            assert((pre[i as int].port, pre[i as int].target) != (
                                pre[b].port,
                                pre[b].target,
                            ));
                        } else {
                            assert(fin[a] == pre[a]);
                            assert((pre[a].port, pre[a].target) != (
                                pre[i as int].port,
                                pre[i as int].target,
                            ));
                        }
                    }
                    assert forall|p: u16, t: SocketAddress|
                        #![trigger binding_live(fin, p, t)]
                        (p, t) != (port, target) implies binding_live(fin, p, t) == binding_live(
                        pre,
                        p,
                        t,
                    ) by {
                        if binding_live(fin, p, t) {
                            let w = choose|w: int|
                                0 <= w < fin.len() && (#[trigger] fin[w]).port == p && fin[
                                    w
                                ].target == t && fin[w].count > 0;
                            assert(w != i);
                            assert(fin[w] == pre[w]);
                            assert(binding_live(pre, p, t));
                        }
                        if binding_live(pre, p, t) {
                            let w = choose|w: int|
                                0 <= w < pre.len() && (#[trigger] pre[w]).port == p && pre[
                                    w
                                ].target == t && pre[w].count > 0;
                            assert(w != i);
                            assert(fin[w] == pre[w]);
                            assert(binding_live(fin, p, t));
                        }
                    }
                }
                return Ok(());
            }
            i = i + 1;
        }
        self.rows.push(BindingRow { port, target, count: 1 });
        proof {
            let fin = self.rows@;
            assert(fin.last().count > 0 && fin.last().port == port && fin.last().target == target);
            assert(binding_live(fin, port, target));
            lemma_binding_count_absent(pre, port, target);
            assert(binding_count(fin, port, target) == 1);
            assert forall|a: int, b: int|
                #![trigger fin[a], fin[b]]
                0 <= a < b < fin.len() implies (fin[a].port, fin[a].target) != (
                fin[b].port,
                fin[b].target,
            ) by {
                if b == fin.len() - 1 {
                    assert(fin[a] == pre[a]);
                    assert((pre[a].port, pre[a].target) != (port, target));
                } else {
                    assert(fin[a] == pre[a] && fin[b] == pre[b]);
                }
            }
            assert forall|p: u16, t: SocketAddress|
                #![trigger binding_live(fin, p, t)]
                (p, t) != (port, target) implies binding_live(fin, p, t) == binding_live(
                pre,
                p,
                t,
            ) by {
                if binding_live(fin, p, t) {
                    let w = choose|w: int|
                        0 <= w < fin.len() && (#[trigger] fin[w]).port == p && fin[w].target == t
                            && fin[w].count > 0;
                    assert(w < pre.len() && fin[w] == pre[w]);
                }
                if binding_live(pre, p, t) {
                    let w = choose|w: int|
                        0 <= w < pre.len() && (#[trigger] pre[w]).port == p && pre[w].target == t
                            && pre[w].count > 0;
                    assert(fin[w] == pre[w]);
                }
            }
        }
        Ok(())
    }

    /// Drop one handle on a binding; silent when none is held.
    pub fn release(&mut self, port: u16, target: SocketAddress)
        requires
            old(self).wf(),
        ensures
            final(self).wf(),
            binding_count(final(self).rows@, port, target) == (if binding_count(
                old(self).rows@,
                port,
                target,
            ) > 0 {
                binding_count(old(self).rows@, port, target) - 1
            } else {
                0int
            }),
            forall|p: u16, t: SocketAddress|
                #![trigger binding_live(final(self).rows@, p, t)]
                (p, t) != (port, target) ==> binding_live(final(self).rows@, p, t) == binding_live(
                    old(self).rows@,
                    p,
                    t,
                ),
    {
        let n = self.rows.len();
        let mut i: usize = 0;
        let ghost pre = self.rows@;
        while i < n
            invariant
                i <= n,
                n == pre.len(),
                pre == old(self).rows@,
                self.rows@ == pre,
                old(self).wf(),
                self.wf(),
                forall|k: int|
                    0 <= k < i ==> ((#[trigger] pre[k]).port, pre[k].target) != (port, target),
            decreases n - i,
        {
            if self.rows[i].port == port && self.rows[i].target == target {
                let count = self.rows[i].count;
                proof {
                    lemma_binding_count_here(pre, i as int, port, target);
                }
                if count > 0 {
                    self.rows.set(i, BindingRow { port, target, count: count - 1 });
                    proof {
                        let fin = self.rows@;
                        assert forall|a: int, b: int|
                            #![trigger fin[a], fin[b]]
                            0 <= a < b < fin.len() implies (fin[a].port, fin[a].target) != (
                            fin[b].port,
                            fin[b].target,
                        ) by {
                            if a != i as int && b != i as int {
                                assert(fin[a] == pre[a] && fin[b] == pre[b]);
                            } else if a == i as int {
                                assert(fin[b] == pre[b]);
                                assert((pre[i as int].port, pre[i as int].target) != (
                                    pre[b].port,
                                    pre[b].target,
                                ));
                            } else {
                                assert(fin[a] == pre[a]);
                                assert((pre[a].port, pre[a].target) != (
                                    pre[i as int].port,
                                    pre[i as int].target,
                                ));
                            }
                        }
                        assert forall|p: u16, t: SocketAddress|
                            #![trigger binding_live(fin, p, t)]
                            (p, t) != (port, target) implies binding_live(fin, p, t)
                            == binding_live(pre, p, t) by {
                            if binding_live(fin, p, t) {
                                let w = choose|w: int|
                                    0 <= w < fin.len() && (#[trigger] fin[w]).port == p && fin[
                                        w
                                    ].target == t && fin[w].count > 0;
                                assert(w != i);
                                assert(fin[w] == pre[w]);
                            }
                            if binding_live(pre, p, t) {
                                let w = choose|w: int|
                                    0 <= w < pre.len() && (#[trigger] pre[w]).port == p && pre[
                                        w
                                    ].target == t && pre[w].count > 0;
                                assert(w != i);
                                assert(fin[w] == pre[w]);
                                assert(binding_live(fin, p, t));
                            }
                        }
                        lemma_binding_count_here(fin, i as int, port, target);
                    }
                }
                return ;
            }
            i = i + 1;
        }
        proof {
            lemma_binding_count_absent(pre, port, target);
        }
    }

    /// Drop the rows whose handles are all gone. Returns whether any binding
    /// remains; a service with none left is shut down by its controller.
    pub fn gc(&mut self) -> (r: bool)
        requires
            old(self).wf(),
        ensures
            final(self).wf(),
            r == (final(self).rows@.len() > 0),
            forall|k: int|
                0 <= k < final(self).rows@.len() ==> (#[trigger] final(self).rows@[k]).count > 0,
            forall|p: u16, t: SocketAddress|
                #![trigger binding_live(final(self).rows@, p, t)]
                binding_live(final(self).rows@, p, t) == binding_live(old(self).rows@, p, t),
    {
        let ghost pre = self.rows@;
        let mut kept: Vec<BindingRow> = Vec::new();
        let n = self.rows.len();
        let mut i: usize = 0;
        while i < n
            invariant
                i <= n,
                n == pre.len(),
                pre == old(self).rows@,
                self.rows@ == pre,
                old(self).wf(),
                forall|k: int| 0 <= k < kept@.len() ==> (#[trigger] kept@[k]).count > 0,
                forall|k: int| 0 <= k < kept@.len() ==> exists|j: int|
                    0 <= j < i && #[trigger] kept@[k] == pre[j],
                forall|j: int|
                    0 <= j < i ==> ((#[trigger] pre[j]).count == 0 || kept@.contains(pre[j])),
                forall|a: int, b: int|
                    #![trigger kept@[a], kept@[b]]
                    0 <= a < b < kept@.len() ==> (kept@[a].port, kept@[a].target) != (
                        kept@[b].port,
                        kept@[b].target,
                    ),
            decreases n - i,
        {
            let row = &self.rows[i];
            if row.count > 0 {
                let ghost kpre = kept@;
                kept.push(BindingRow { port: row.port, target: row.target, count: row.count });
                proof {
                    assert(kept@.last() == pre[i as int]);
                    assert forall|k: int| 0 <= k < kept@.len() implies exists|j: int|
                        0 <= j < i + 1 && #[trigger] kept@[k] == pre[j] by {
                        if k < kept@.len() - 1 {
                            assert(kept@[k] == kpre[k]);
                            let j = choose|j: int| 0 <= j < i && #[trigger] kpre[k] == pre[j];
                            assert(0 <= j < i + 1 && kept@[k] == pre[j]);
                        } else {
                            assert(kept@[k] == pre[i as int]);
                        }
                    }
                    assert forall|j: int|
                        0 <= j < i + 1 implies ((#[trigger] pre[j]).count == 0 || kept@.contains(
                        pre[j],
                    )) by {
                        if j < i {
                            if pre[j].count != 0 {
                                let k = choose|k: int| 0 <= k < kpre.len() && kpre[k] == pre[j];
                                assert(kept@[k] == pre[j]);
                            }
                        } else {
                            assert(kept@[kept@.len() - 1] == pre[j]);
                        }
                    }
                    assert forall|a: int, b: int|
                        #![trigger kept@[a], kept@[b]]
                        0 <= a < b < kept@.len() implies (kept@[a].port, kept@[a].target) != (
                        kept@[b].port,
                        kept@[b].target,
                    ) by {
                        if b == kept@.len() - 1 {
                            let j = choose|j: int| 0 <= j < i && #[trigger] kpre[a] == pre[j];
                            assert(kept@[a] == pre[j] && kept@[b] == pre[i as int]);
                            assert((pre[j].port, pre[j].target) != (
                                pre[i as int].port,
                                pre[i as int].target,
                            ));
                        } else {
                            assert(kept@[a] == kpre[a] && kept@[b] == kpre[b]);
                        }
                    }
                }
            }
            i = i + 1;
        }
        self.rows = kept;
        proof {
            let fin = self.rows@;
            assert forall|p: u16, t: SocketAddress|
                #![trigger binding_live(fin, p, t)]
                true implies binding_live(fin, p, t) == binding_live(pre, p, t) by {
                if binding_live(fin, p, t) {
                    let w = choose|w: int|
                        0 <= w < fin.len() && (#[trigger] fin[w]).port == p && fin[w].target == t
                            && fin[w].count > 0;
                    let j = choose|j: int| 0 <= j < n && #[trigger] fin[w] == pre[j];
                    assert(binding_live(pre, p, t));
                }
                if binding_live(pre, p, t) {
                    let w = choose|w: int|
                        0 <= w < pre.len() && (#[trigger] pre[w]).port == p && pre[w].target == t
                            && pre[w].count > 0;
                    assert(fin.contains(pre[w]));
                    let k = choose|k: int| 0 <= k < fin.len() && fin[k] == pre[w];
                    assert(binding_live(fin, p, t));
                }
            }
        }
        self.rows.len() > 0
    }

    /// The target an inbound rendezvous request for `port` is piped to: the
    /// first live binding, or `None` (the request is rejected).
    pub fn begin_target(&self, port: u16) -> (r: Option<SocketAddress>)
        ensures
            match r {
                Some(t) => binding_live(self.rows@, port, t),
                None => !port_live(self.rows@, port),
            },
    {
        let n = self.rows.len();
        let mut i: usize = 0;
        while i < n
            invariant
                i <= n,
                n == self.rows@.len(),
                forall|k: int|
                    0 <= k < i ==> !((#[trigger] self.rows@[k]).port == port && self.rows@[k].count
                        > 0),
            decreases n - i,
        {
            let row = &self.rows[i];
            if row.port == port && row.count > 0 {
                return Some(row.target);
            }
            i = i + 1;
        }
        None
    }
}

/// What the supervisor observes about one bootstrap/health cycle.
#[derive(Clone, Copy, Debug, PartialEq, Eq, Structural)]
pub enum HealthEvent {
    ProbePassed,
    ProbeFailed,
    BootstrapStalled,
}

/// The supervisor's decision state: the client epoch every live rendezvous
/// is bound to, the consecutive health failures seen, and how many are
/// tolerated before the client is recycled.
#[derive(Clone, Copy, Debug, PartialEq, Eq, Structural)]
pub struct Supervisor {
    pub epoch: u64,
    pub failures: u64,
    pub allowance: u64,
}

/// Whether one observation recycles the client.
pub open spec fn spec_recycles(s: Supervisor, event: HealthEvent) -> bool {
    event == HealthEvent::BootstrapStalled || (event == HealthEvent::ProbeFailed && s.failures + 1
        == s.allowance)
}

/// The supervisor state after one observation.
pub open spec fn spec_step(s: Supervisor, event: HealthEvent) -> Supervisor {
    match event {
        HealthEvent::ProbePassed => Supervisor { failures: 0, ..s },
        HealthEvent::ProbeFailed => if s.failures + 1 == s.allowance {
            Supervisor { failures: 0, epoch: (s.epoch + 1) as u64, ..s }
        } else {
            Supervisor { failures: (s.failures + 1) as u64, ..s }
        },
        HealthEvent::BootstrapStalled => Supervisor {
            failures: 0,
            epoch: (s.epoch + 1) as u64,
            ..s
        },
    }
}

/// The supervisor state after a sequence of observations.
pub open spec fn spec_run(s: Supervisor, events: Seq<HealthEvent>) -> Supervisor
    decreases events.len(),
{
    if events.len() == 0 {
        s
    } else {
        spec_step(spec_run(s, events.drop_last()), events.last())
    }
}

impl Supervisor {
    pub open spec fn wf(self) -> bool {
        self.allowance >= 1 && self.failures < self.allowance
    }

    pub fn new(allowance: u64) -> (r: Supervisor)
        requires
            allowance >= 1,
        ensures
            r.wf(),
            r.epoch == 0,
            r.failures == 0,
            r.allowance == allowance,
    {
        Supervisor { epoch: 0, failures: 0, allowance }
    }

    /// Drive the supervisor by one observation. The epoch counts up exactly
    /// when the client is recycled: on stalled bootstrap, or when the
    /// consecutive failures reach the allowance. A passed probe clears the
    /// failure streak. Every live rendezvous observes an epoch change and
    /// rebuilds against the new client.
    pub fn step(&mut self, event: HealthEvent) -> (recycled: bool)
        requires
            old(self).wf(),
            old(self).epoch < u64::MAX,
        ensures
            final(self).wf(),
            final(self).allowance == old(self).allowance,
            *final(self) == spec_step(*old(self), event),
            recycled == spec_recycles(*old(self), event),
            recycled == (event == HealthEvent::BootstrapStalled || (event
                == HealthEvent::ProbeFailed && old(self).failures + 1 == old(self).allowance)),
            recycled ==> final(self).epoch == old(self).epoch + 1 && final(self).failures == 0,
            !recycled ==> final(self).epoch == old(self).epoch,
            event == HealthEvent::ProbePassed ==> final(self).failures == 0,
            (event == HealthEvent::ProbeFailed && !recycled) ==> final(self).failures == old(
                self,
            ).failures + 1,
    {
        match event {
            HealthEvent::ProbePassed => {
                self.failures = 0;
                false
            },
            HealthEvent::ProbeFailed => {
                if self.failures + 1 == self.allowance {
                    self.failures = 0;
                    self.epoch = self.epoch + 1;
                    true
                } else {
                    self.failures = self.failures + 1;
                    false
                }
            },
            HealthEvent::BootstrapStalled => {
                self.failures = 0;
                self.epoch = self.epoch + 1;
                true
            },
        }
    }

    /// Whether a rendezvous built against `epoch` must be rebuilt.
    pub fn needs_rebuild(&self, built_epoch: u64) -> (r: bool)
        ensures
            r == (built_epoch != self.epoch),
    {
        built_epoch != self.epoch
    }
}

/// From a clean streak, fewer failed probes than the allowance recycle
/// nothing: the epoch stands and the streak counts them.
proof fn lemma_streak_prefix(s: Supervisor, events: Seq<HealthEvent>, k: int)
    requires
        s.wf(),
        s.failures == 0,
        0 <= k < s.allowance,
        k <= events.len(),
        forall|i: int| 0 <= i < events.len() ==> events[i] == HealthEvent::ProbeFailed,
    ensures
        spec_run(s, events.take(k)) == (Supervisor { failures: k as u64, ..s }),
    decreases k,
{
    if k == 0 {
        assert(events.take(0) =~= Seq::<HealthEvent>::empty());
        assert(spec_run(s, events.take(0)) == s);
        assert(s == Supervisor { failures: 0u64, ..s });
    } else {
        lemma_streak_prefix(s, events, k - 1);
        assert(events.take(k).drop_last() =~= events.take(k - 1));
        assert(events.take(k).last() == events[k - 1]);
        assert(spec_run(s, events.take(k)) == spec_step(
            spec_run(s, events.take(k - 1)),
            HealthEvent::ProbeFailed,
        ));
    }
}

/// A failure streak recycles the client exactly once. From a clean streak,
/// `allowance` consecutive failed probes leave the epoch exactly one higher
/// and the streak cleared, and every proper prefix of the streak keeps the
/// old epoch: rendezvous built against the old client stay valid until the
/// last probe of the streak, and outside observers see at most the one
/// reconnection of that single epoch change. The supervisor holds no binding
/// rows, so the bindings table and the registration handles it counts are
/// the same before and after the recycle, and the rebuilt rendezvous serves
/// the same targets.
pub proof fn lemma_failure_streak_recycles_once(s: Supervisor, events: Seq<HealthEvent>)
    requires
        s.wf(),
        s.failures == 0,
        s.epoch < u64::MAX,
        events.len() == s.allowance,
        forall|i: int| 0 <= i < events.len() ==> events[i] == HealthEvent::ProbeFailed,
    ensures
        spec_run(s, events).epoch == s.epoch + 1,
        spec_run(s, events).failures == 0,
        spec_run(s, events).allowance == s.allowance,
        spec_run(s, events).wf(),
        forall|k: int| 0 <= k < events.len() ==> spec_run(s, events.take(k)).epoch == s.epoch,
{
    let n = events.len() as int;
    lemma_streak_prefix(s, events, n - 1);
    assert(events.take(n) =~= events);
    assert(events.take(n).drop_last() =~= events.take(n - 1));
    assert(events.take(n).last() == events[n - 1]);
    assert(spec_run(s, events) == spec_step(
        spec_run(s, events.take(n - 1)),
        HealthEvent::ProbeFailed,
    ));
    assert forall|k: int| 0 <= k < events.len() implies spec_run(s, events.take(k)).epoch
        == s.epoch by {
        lemma_streak_prefix(s, events, k);
    }
}

} // verus!
