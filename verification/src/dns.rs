//! The DNS resolver's authoritative state: reference-counted registrations
//! of private domains and service addresses, and the answer computation.
//!
//! Callers hold registrations as strong handles; the resolver records one
//! count per handle. An entry answers queries iff its count is positive;
//! `gc_service` and `gc_private_domains` prune entries whose count reached
//! zero. Questions the tables do not answer fall through to the caller's
//! upstream pool.

use vstd::prelude::*;

use crate::error::ErrorKind;
use crate::gateway::Gateways;
use crate::ip::{IpAddress, net_contains, spec_net_contains, IpNet};
use crate::text::{ascii_lowercase, spec_ascii_lowercase};

verus! {

/// One reference-counted private-domain row: the lowercased name and the
/// number of live handles.
pub struct DomainRow {
    pub fqdn: Vec<u8>,
    pub count: u64,
}

/// One reference-counted service row: the owning package (`None` for the
/// host itself), one IPv4 address, and the number of live handles.
pub struct ServiceRow {
    pub pkg: Option<Vec<u8>>,
    pub ip: u32,
    pub count: u64,
}

/// Spec image of a service key.
pub open spec fn row_key(r: ServiceRow) -> (Option<Seq<u8>>, u32) {
    (
        match r.pkg {
            Some(p) => Some(p@),
            None => None,
        },
        r.ip,
    )
}

/// A private domain is live: some row carries it with a positive count.
pub open spec fn domain_live(rows: Seq<DomainRow>, fqdn: Seq<u8>) -> bool {
    exists|i: int| 0 <= i < rows.len() && (#[trigger] rows[i]).fqdn@ == fqdn && rows[i].count > 0
}

/// The handle count a domain row holds, zero when absent (names are
/// unique).
pub open spec fn domain_count(rows: Seq<DomainRow>, fqdn: Seq<u8>) -> int
    decreases rows.len(),
{
    if rows.len() == 0 {
        0
    } else if rows.last().fqdn@ == fqdn {
        rows.last().count as int
    } else {
        domain_count(rows.drop_last(), fqdn)
    }
}

/// A dead row for the domain is still in the table.
pub open spec fn domain_present_dead(rows: Seq<DomainRow>, fqdn: Seq<u8>) -> bool {
    exists|i: int| 0 <= i < rows.len() && (#[trigger] rows[i]).fqdn@ == fqdn && rows[i].count == 0
}

/// The count of a domain no row carries is zero.
proof fn lemma_domain_count_absent(rows: Seq<DomainRow>, fqdn: Seq<u8>)
    requires
        forall|k: int| 0 <= k < rows.len() ==> (#[trigger] rows[k]).fqdn@ != fqdn,
    ensures
        domain_count(rows, fqdn) == 0,
        !domain_live(rows, fqdn),
    decreases rows.len(),
{
    if rows.len() > 0 {
        assert forall|k: int| 0 <= k < rows.drop_last().len() implies (
        #[trigger] rows.drop_last()[k]).fqdn@ != fqdn by {
            assert(rows.drop_last()[k] == rows[k]);
        }
        lemma_domain_count_absent(rows.drop_last(), fqdn);
    }
}

/// The count of a domain is the count of its unique row.
proof fn lemma_domain_count_here(rows: Seq<DomainRow>, i: int, fqdn: Seq<u8>)
    requires
        0 <= i < rows.len(),
        rows[i].fqdn@ == fqdn,
        forall|a: int, b: int|
            #![trigger rows[a], rows[b]]
            0 <= a < b < rows.len() ==> rows[a].fqdn@ != rows[b].fqdn@,
    ensures
        domain_count(rows, fqdn) == rows[i].count,
        domain_live(rows, fqdn) == (rows[i].count > 0),
    decreases rows.len(),
{
    if i == rows.len() - 1 {
        assert(rows.last() == rows[rows.len() - 1]);
        assert forall|k: int| 0 <= k < rows.drop_last().len() implies (
        #[trigger] rows.drop_last()[k]).fqdn@ != fqdn by {
            assert(rows.drop_last()[k] == rows[k]);
            assert(rows[k].fqdn@ != rows[i].fqdn@);
        }
        if domain_live(rows, fqdn) {
            let w = choose|w: int|
                0 <= w < rows.len() && (#[trigger] rows[w]).fqdn@ == fqdn && rows[w].count > 0;
            assert(w == i);
        }
        if rows[i].count > 0 {
            assert(domain_live(rows, fqdn));
        }
    } else {
        assert(rows.drop_last()[i] == rows[i]);
        assert forall|a: int, b: int|
            #![trigger rows.drop_last()[a], rows.drop_last()[b]]
            0 <= a < b < rows.drop_last().len() implies rows.drop_last()[a].fqdn@
            != rows.drop_last()[b].fqdn@ by {
            assert(rows.drop_last()[a] == rows[a] && rows.drop_last()[b] == rows[b]);
        }
        lemma_domain_count_here(rows.drop_last(), i, fqdn);
        assert(rows.last() == rows[rows.len() - 1]);
        assert(rows.last().fqdn@ != fqdn);
        if domain_live(rows, fqdn) {
            let w = choose|w: int|
                0 <= w < rows.len() && (#[trigger] rows[w]).fqdn@ == fqdn && rows[w].count > 0;
            assert(w == i);
        }
        if rows[i].count > 0 {
            assert(domain_live(rows, fqdn));
        }
    }
}

/// A service address is live for a package.
pub open spec fn service_live(rows: Seq<ServiceRow>, pkg: Option<Seq<u8>>, ip: u32) -> bool {
    exists|i: int|
        0 <= i < rows.len() && row_key(#[trigger] rows[i]) == (pkg, ip) && rows[i].count > 0
}

/// The resolver's registration tables.
pub struct ResolveMap {
    pub private_domains: Vec<DomainRow>,
    pub services: Vec<ServiceRow>,
}

impl ResolveMap {
    /// Keys are unique in both tables.
    pub open spec fn wf(self) -> bool {
        &&& forall|i: int, j: int|
            #![trigger self.private_domains@[i], self.private_domains@[j]]
            0 <= i < j < self.private_domains@.len() ==> self.private_domains@[i].fqdn@
                != self.private_domains@[j].fqdn@
        &&& forall|i: int, j: int|
            #![trigger self.services@[i], self.services@[j]]
            0 <= i < j < self.services@.len() ==> row_key(self.services@[i]) != row_key(
                self.services@[j],
            )
    }

    pub fn new() -> (r: ResolveMap)
        ensures
            r.wf(),
            r.private_domains@.len() == 0,
            r.services@.len() == 0,
    {
        ResolveMap { private_domains: Vec::new(), services: Vec::new() }
    }

    /// Register one more handle on a service address; the entry answers
    /// queries from now on. Fails only when the count would overflow.
    pub fn add_service(&mut self, pkg: Option<&Vec<u8>>, ip: u32) -> (r: Result<(), ErrorKind>)
        requires
            old(self).wf(),
        ensures
            final(self).wf(),
            final(self).private_domains@ == old(self).private_domains@,
            match r {
                Ok(()) => {
                    &&& service_live(final(self).services@, pkg_view(pkg), ip)
                    &&& forall|p: Option<Seq<u8>>, q: u32|
                        #![trigger service_live(final(self).services@, p, q)]
                        (p, q) != (pkg_view(pkg), ip) ==> service_live(final(self).services@, p, q)
                            == service_live(old(self).services@, p, q)
                    &&& service_count(final(self).services@, pkg_view(pkg), ip) == service_count(
                        old(self).services@,
                        pkg_view(pkg),
                        ip,
                    ) + 1
                },
                Err(k) => {
                    &&& k == ErrorKind::Fatal
                    &&& final(self).services@ == old(self).services@
                    &&& service_count(old(self).services@, pkg_view(pkg), ip) == u64::MAX
                },
            },
    {
        let n = self.services.len();
        let mut i: usize = 0;
        let ghost pre = self.services@;
        while i < n
            invariant
                i <= n,
                n == pre.len(),
                pre == old(self).services@,
                self.services@ == pre,
                self.private_domains@ == old(self).private_domains@,
                old(self).wf(),
                self.wf(),
                forall|k: int| 0 <= k < i ==> row_key(#[trigger] pre[k]) != (pkg_view(pkg), ip),
            decreases n - i,
        {
            if service_key_matches(&self.services[i], pkg, ip) {
                let count = self.services[i].count;
                if count == u64::MAX {
                    proof {
                        lemma_service_count_here(pre, i as int, pkg_view(pkg), ip);
                    }
                    return Err(ErrorKind::Fatal);
                }
                let row = ServiceRow {
                    pkg: copy_opt_bytes(pkg),
                    ip,
                    count: count + 1,
                };
                proof {
                    assert(row_key(row) == row_key(pre[i as int]));
                }
                self.services.set(i, row);
                proof {
                    lemma_service_tables(pre, self.services@, i as int, pkg_view(pkg), ip);
                }
                return Ok(());
            }
            i = i + 1;
        }
        let row = ServiceRow { pkg: copy_opt_bytes(pkg), ip, count: 1 };
        self.services.push(row);
        proof {
            let fin = self.services@;
            assert(fin.last().count > 0 && row_key(fin.last()) == (pkg_view(pkg), ip));
            assert(service_live(fin, pkg_view(pkg), ip));
            assert forall|p: Option<Seq<u8>>, q: u32|
                #![trigger service_live(fin, p, q)]
                (p, q) != (pkg_view(pkg), ip) implies service_live(fin, p, q) == service_live(
                pre,
                p,
                q,
            ) by {
                if service_live(fin, p, q) {
                    let w = choose|w: int|
                        0 <= w < fin.len() && row_key(#[trigger] fin[w]) == (p, q) && fin[w].count
                            > 0;
                    assert(w < pre.len() && fin[w] == pre[w]);
                }
                if service_live(pre, p, q) {
                    let w = choose|w: int|
                        0 <= w < pre.len() && row_key(#[trigger] pre[w]) == (p, q) && pre[w].count
                            > 0;
                    assert(fin[w] == pre[w]);
                }
            }
            lemma_service_count_absent(pre, pkg_view(pkg), ip);
            lemma_service_count_pushed(pre, fin, pkg_view(pkg), ip);
            assert forall|i1: int, j1: int|
                #![trigger fin[i1], fin[j1]]
                0 <= i1 < j1 < fin.len() implies row_key(fin[i1]) != row_key(fin[j1]) by {
                if j1 == fin.len() - 1 {
                    assert(row_key(pre[i1]) != (pkg_view(pkg), ip));
                }
            }
        }
        Ok(())
    }

    /// Drop one handle on a service address; silent when none is held.
    pub fn release_service(&mut self, pkg: Option<&Vec<u8>>, ip: u32)
        requires
            old(self).wf(),
        ensures
            final(self).wf(),
            final(self).private_domains@ == old(self).private_domains@,
            service_count(final(self).services@, pkg_view(pkg), ip) == (if service_count(
                old(self).services@,
                pkg_view(pkg),
                ip,
            ) > 0 {
                service_count(old(self).services@, pkg_view(pkg), ip) - 1
            } else {
                0int
            }),
            forall|p: Option<Seq<u8>>, q: u32|
                #![trigger service_live(final(self).services@, p, q)]
                (p, q) != (pkg_view(pkg), ip) ==> service_live(final(self).services@, p, q)
                    == service_live(old(self).services@, p, q),
    {
        let n = self.services.len();
        let mut i: usize = 0;
        let ghost pre = self.services@;
        while i < n
            invariant
                i <= n,
                n == pre.len(),
                pre == old(self).services@,
                self.services@ == pre,
                self.private_domains@ == old(self).private_domains@,
                old(self).wf(),
                self.wf(),
                forall|k: int| 0 <= k < i ==> row_key(#[trigger] pre[k]) != (pkg_view(pkg), ip),
            decreases n - i,
        {
            if service_key_matches(&self.services[i], pkg, ip) {
                let count = self.services[i].count;
                if count > 0 {
                    let row = ServiceRow {
                        pkg: copy_opt_bytes(pkg),
                        ip,
                        count: count - 1,
                    };
                    proof {
                        assert(row_key(row) == row_key(pre[i as int]));
                    }
                    self.services.set(i, row);
                    proof {
                        lemma_service_tables(pre, self.services@, i as int, pkg_view(pkg), ip);
                    }
                }
                proof {
                    lemma_service_count_here(pre, i as int, pkg_view(pkg), ip);
                    if count > 0 {
                        lemma_service_count_here(
                            self.services@,
                            i as int,
                            pkg_view(pkg),
                            ip,
                        );
                    }
                }
                return ;
            }
            i = i + 1;
        }
        proof {
            lemma_service_count_absent(pre, pkg_view(pkg), ip);
        }
    }

    /// Drop a service entry whose handles are all gone; an entry still held
    /// stays. The answer set is unchanged either way.
    pub fn gc_service(&mut self, pkg: Option<&Vec<u8>>, ip: u32)
        requires
            old(self).wf(),
        ensures
            final(self).wf(),
            final(self).private_domains@ == old(self).private_domains@,
            !service_present_dead(final(self).services@, pkg_view(pkg), ip),
            forall|p: Option<Seq<u8>>, q: u32|
                #![trigger service_live(final(self).services@, p, q)]
                service_live(final(self).services@, p, q) == service_live(
                    old(self).services@,
                    p,
                    q,
                ),
    {
        let n = self.services.len();
        let mut i: usize = 0;
        let ghost pre = self.services@;
        while i < n
            invariant
                i <= n,
                n == pre.len(),
                pre == old(self).services@,
                self.services@ == pre,
                self.private_domains@ == old(self).private_domains@,
                old(self).wf(),
                self.wf(),
                forall|k: int| 0 <= k < i ==> row_key(#[trigger] pre[k]) != (pkg_view(pkg), ip),
            decreases n - i,
        {
            if service_key_matches(&self.services[i], pkg, ip) {
                if self.services[i].count == 0 {
                    self.services.remove(i);
                    proof {
                        let fin = self.services@;
                        assert forall|i1: int, j1: int|
                            #![trigger fin[i1], fin[j1]]
                            0 <= i1 < j1 < fin.len() implies row_key(fin[i1]) != row_key(
                            fin[j1],
                        ) by {
                            let oi: int = if i1 < i { i1 } else { i1 + 1 };
                            let oj: int = if j1 < i { j1 } else { j1 + 1 };
                            assert(fin[i1] == pre[oi] && fin[j1] == pre[oj]);
                        }
                        assert forall|p: Option<Seq<u8>>, q: u32|
                            #![trigger service_live(fin, p, q)]
                            true implies service_live(fin, p, q) == service_live(pre, p, q) by {
                            if service_live(fin, p, q) {
                                let w = choose|w: int|
                                    0 <= w < fin.len() && row_key(#[trigger] fin[w]) == (p, q)
                                        && fin[w].count > 0;
                                let ow: int = if w < i { w } else { w + 1 };
                                assert(fin[w] == pre[ow]);
                                assert(service_live(pre, p, q));
                            }
                            if service_live(pre, p, q) {
                                let w = choose|w: int|
                                    0 <= w < pre.len() && row_key(#[trigger] pre[w]) == (p, q)
                                        && pre[w].count > 0;
                                assert(w != i);
                                let nw: int = if w < i { w } else { w - 1 };
                                assert(fin[nw] == pre[w]);
                                assert(service_live(fin, p, q));
                            }
                        }
                        assert forall|w: int|
                            0 <= w < fin.len() implies !(row_key(#[trigger] fin[w]) == (
                        pkg_view(pkg), ip) && fin[w].count == 0) by {
                            let ow: int = if w < i { w } else { w + 1 };
                            assert(fin[w] == pre[ow]);
                        }
                    }
                }
                return ;
            }
            i = i + 1;
        }
    }
}

/// A dead row for the key is still in the table.
pub open spec fn service_present_dead(rows: Seq<ServiceRow>, pkg: Option<Seq<u8>>, ip: u32) -> bool {
    exists|i: int|
        0 <= i < rows.len() && row_key(#[trigger] rows[i]) == (pkg, ip) && rows[i].count == 0
}

/// The count held for a key, zero when absent (keys are unique).
pub open spec fn service_count(rows: Seq<ServiceRow>, pkg: Option<Seq<u8>>, ip: u32) -> int
    decreases rows.len(),
{
    if rows.len() == 0 {
        0
    } else if row_key(rows.last()) == (pkg, ip) {
        rows.last().count as int
    } else {
        service_count(rows.drop_last(), pkg, ip)
    }
}

/// Spec image of an optional package name.
pub open spec fn pkg_view(pkg: Option<&Vec<u8>>) -> Option<Seq<u8>> {
    match pkg {
        Some(p) => Some(p@),
        None => None,
    }
}

/// The count of a key no row carries is zero.
proof fn lemma_service_count_absent(rows: Seq<ServiceRow>, pkg: Option<Seq<u8>>, ip: u32)
    requires
        forall|k: int| 0 <= k < rows.len() ==> row_key(#[trigger] rows[k]) != (pkg, ip),
    ensures
        service_count(rows, pkg, ip) == 0,
        !service_live(rows, pkg, ip),
    decreases rows.len(),
{
    if rows.len() > 0 {
        assert forall|k: int| 0 <= k < rows.drop_last().len() implies row_key(
            #[trigger] rows.drop_last()[k],
        ) != (pkg, ip) by {
            assert(rows.drop_last()[k] == rows[k]);
        }
        lemma_service_count_absent(rows.drop_last(), pkg, ip);
    }
}

/// The count of a key is the count of its unique row.
proof fn lemma_service_count_here(rows: Seq<ServiceRow>, i: int, pkg: Option<Seq<u8>>, ip: u32)
    requires
        0 <= i < rows.len(),
        row_key(rows[i]) == (pkg, ip),
        forall|a: int, b: int|
            #![trigger rows[a], rows[b]]
            0 <= a < b < rows.len() ==> row_key(rows[a]) != row_key(rows[b]),
    ensures
        service_count(rows, pkg, ip) == rows[i].count,
        service_live(rows, pkg, ip) == (rows[i].count > 0),
    decreases rows.len(),
{
    if i == rows.len() - 1 {
        lemma_count_prefix_absent(rows, pkg, ip);
    } else {
        assert(rows.drop_last()[i] == rows[i]);
        assert forall|a: int, b: int|
            #![trigger rows.drop_last()[a], rows.drop_last()[b]]
            0 <= a < b < rows.drop_last().len() implies row_key(rows.drop_last()[a]) != row_key(
            rows.drop_last()[b],
        ) by {
            assert(rows.drop_last()[a] == rows[a] && rows.drop_last()[b] == rows[b]);
        }
        lemma_service_count_here(rows.drop_last(), i, pkg, ip);
        assert(row_key(rows.last()) != (pkg, ip)) by {
            assert(rows.last() == rows[rows.len() - 1]);
        }
        if service_live(rows, pkg, ip) {
            let w = choose|w: int|
                0 <= w < rows.len() && row_key(#[trigger] rows[w]) == (pkg, ip) && rows[w].count
                    > 0;
            assert(w == i);
        }
        if rows[i].count > 0 {
            assert(service_live(rows, pkg, ip));
        }
    }
}

/// When the last row carries the key, no earlier row does.
proof fn lemma_count_prefix_absent(rows: Seq<ServiceRow>, pkg: Option<Seq<u8>>, ip: u32)
    requires
        rows.len() > 0,
        row_key(rows[rows.len() - 1]) == (pkg, ip),
        forall|a: int, b: int|
            #![trigger rows[a], rows[b]]
            0 <= a < b < rows.len() ==> row_key(rows[a]) != row_key(rows[b]),
    ensures
        service_count(rows, pkg, ip) == rows[rows.len() - 1].count,
        service_live(rows, pkg, ip) == (rows[rows.len() - 1].count > 0),
{
    assert(rows.last() == rows[rows.len() - 1]);
    if service_live(rows, pkg, ip) {
        let w = choose|w: int|
            0 <= w < rows.len() && row_key(#[trigger] rows[w]) == (pkg, ip) && rows[w].count > 0;
        assert(w == rows.len() - 1);
    }
    if rows[rows.len() - 1].count > 0 {
        assert(service_live(rows, pkg, ip));
    }
}

/// After a row's count changes in place, only that key's count and liveness
/// change.
proof fn lemma_service_tables(
    pre: Seq<ServiceRow>,
    fin: Seq<ServiceRow>,
    i: int,
    pkg: Option<Seq<u8>>,
    ip: u32,
)
    requires
        0 <= i < pre.len(),
        fin.len() == pre.len(),
        row_key(pre[i]) == (pkg, ip),
        row_key(fin[i]) == (pkg, ip),
        forall|k: int| 0 <= k < pre.len() && k != i ==> #[trigger] fin[k] == pre[k],
        forall|a: int, b: int|
            #![trigger pre[a], pre[b]]
            0 <= a < b < pre.len() ==> row_key(pre[a]) != row_key(pre[b]),
    ensures
        forall|a: int, b: int|
            #![trigger fin[a], fin[b]]
            0 <= a < b < fin.len() ==> row_key(fin[a]) != row_key(fin[b]),
        service_count(fin, pkg, ip) == fin[i].count,
        service_live(fin, pkg, ip) == (fin[i].count > 0),
        service_count(pre, pkg, ip) == pre[i].count,
        forall|p: Option<Seq<u8>>, q: u32|
            #![trigger service_live(fin, p, q)]
            (p, q) != (pkg, ip) ==> service_live(fin, p, q) == service_live(pre, p, q),
{
    assert forall|a: int, b: int|
        #![trigger fin[a], fin[b]]
        0 <= a < b < fin.len() implies row_key(fin[a]) != row_key(fin[b]) by {
        if a != i && b != i {
            assert(fin[a] == pre[a] && fin[b] == pre[b]);
        } else if a == i {
            assert(fin[b] == pre[b]);
            assert(row_key(pre[i]) != row_key(pre[b]));
        } else {
            assert(fin[a] == pre[a]);
            assert(row_key(pre[a]) != row_key(pre[i]));
        }
    }
    lemma_service_count_here(fin, i, pkg, ip);
    lemma_service_count_here(pre, i, pkg, ip);
    assert forall|p: Option<Seq<u8>>, q: u32|
        #![trigger service_live(fin, p, q)]
        (p, q) != (pkg, ip) implies service_live(fin, p, q) == service_live(pre, p, q) by {
        if service_live(fin, p, q) {
            let w = choose|w: int|
                0 <= w < fin.len() && row_key(#[trigger] fin[w]) == (p, q) && fin[w].count > 0;
            assert(w != i);
            assert(fin[w] == pre[w]);
            assert(service_live(pre, p, q));
        }
        if service_live(pre, p, q) {
            let w = choose|w: int|
                0 <= w < pre.len() && row_key(#[trigger] pre[w]) == (p, q) && pre[w].count > 0;
            assert(w != i);
            assert(fin[w] == pre[w]);
            assert(service_live(fin, p, q));
        }
    }
}

/// A pushed fresh row leaves every other key's count unchanged.
proof fn lemma_service_count_pushed(
    pre: Seq<ServiceRow>,
    fin: Seq<ServiceRow>,
    pkg: Option<Seq<u8>>,
    ip: u32,
)
    requires
        fin == pre.push(fin.last()),
        fin.len() == pre.len() + 1,
        row_key(fin.last()) == (pkg, ip),
    ensures
        service_count(fin, pkg, ip) == fin.last().count,
{
    assert(fin.drop_last() =~= pre);
}

/// Whether a row carries the given key.
fn service_key_matches(row: &ServiceRow, pkg: Option<&Vec<u8>>, ip: u32) -> (r: bool)
    ensures
        r == (row_key(*row) == (pkg_view(pkg), ip)),
{
    if row.ip != ip {
        return false;
    }
    match (&row.pkg, pkg) {
        (Some(a), Some(b)) => crate::signature::bytes_eq(a.as_slice(), b.as_slice()),
        (None, None) => true,
        _ => false,
    }
}

/// A copy of an optional package name.
fn copy_opt_bytes(pkg: Option<&Vec<u8>>) -> (r: Option<Vec<u8>>)
    ensures
        match (r, pkg) {
            (Some(a), Some(b)) => a@ == b@,
            (None, None) => true,
            _ => false,
        },
{
    match pkg {
        Some(p) => {
            let mut v: Vec<u8> = Vec::new();
            let n = p.len();
            let mut i: usize = 0;
            while i < n
                invariant
                    i <= n,
                    n == p@.len(),
                    v@ == p@.take(i as int),
                decreases n - i,
            {
                v.push(p[i]);
                proof {
                    assert(v@ =~= p@.take(i as int + 1));
                }
                i = i + 1;
            }
            proof {
                assert(p@.take(n as int) =~= p@);
            }
            Some(v)
        },
        None => None,
    }
}

/// Registering a handle, dropping it, and collecting leaves the live answer
/// set exactly as it was: the lifecycle of a registration is invisible once
/// its last strong handle is gone.
pub proof fn lemma_register_drop_gc(
    s0: Seq<ServiceRow>,
    s1: Seq<ServiceRow>,
    s2: Seq<ServiceRow>,
    s3: Seq<ServiceRow>,
    pkg: Option<Seq<u8>>,
    ip: u32,
)
    requires
        // registration: the key gains one count, nothing else moves
        service_count(s1, pkg, ip) == service_count(s0, pkg, ip) + 1,
        service_live(s1, pkg, ip),
        forall|p: Option<Seq<u8>>, q: u32|
            #![trigger service_live(s1, p, q)]
            (p, q) != (pkg, ip) ==> service_live(s1, p, q) == service_live(s0, p, q),
        // drop: the count returns
        service_count(s2, pkg, ip) == (if service_count(s1, pkg, ip) > 0 {
            service_count(s1, pkg, ip) - 1
        } else {
            0int
        }),
        forall|p: Option<Seq<u8>>, q: u32|
            #![trigger service_live(s2, p, q)]
            (p, q) != (pkg, ip) ==> service_live(s2, p, q) == service_live(s1, p, q),
        // collection drops nothing live
        forall|p: Option<Seq<u8>>, q: u32|
            #![trigger service_live(s3, p, q)]
            service_live(s3, p, q) == service_live(s2, p, q),
        // liveness is count positivity in each state
        service_live(s0, pkg, ip) == (service_count(s0, pkg, ip) > 0),
        service_live(s1, pkg, ip) == (service_count(s1, pkg, ip) > 0),
        service_live(s2, pkg, ip) == (service_count(s2, pkg, ip) > 0),
        service_live(s3, pkg, ip) == (service_count(s3, pkg, ip) > 0),
    ensures
        forall|p: Option<Seq<u8>>, q: u32|
            #![trigger service_live(s3, p, q)]
            service_live(s3, p, q) == service_live(s0, p, q),
{
    assert(service_count(s2, pkg, ip) == service_count(s0, pkg, ip));
    assert forall|p: Option<Seq<u8>>, q: u32|
        #![trigger service_live(s3, p, q)]
        true implies service_live(s3, p, q) == service_live(s0, p, q) by {
        if (p, q) != (pkg, ip) {
            assert(service_live(s2, p, q) == service_live(s1, p, q));
            assert(service_live(s1, p, q) == service_live(s0, p, q));
        }
    }
}


impl ResolveMap {
    /// Register one more handle on a private domain (given lowercased).
    /// Fails only when the count would overflow.
    pub fn add_private_domain(&mut self, fqdn: &Vec<u8>) -> (r: Result<(), ErrorKind>)
        requires
            old(self).wf(),
        ensures
            final(self).wf(),
            final(self).services@ == old(self).services@,
            match r {
                Ok(()) => {
                    &&& domain_live(final(self).private_domains@, fqdn@)
                    &&& domain_count(final(self).private_domains@, fqdn@) == domain_count(
                        old(self).private_domains@,
                        fqdn@,
                    ) + 1
                    &&& forall|d: Seq<u8>|
                        #![trigger domain_live(final(self).private_domains@, d)]
                        d != fqdn@ ==> domain_live(final(self).private_domains@, d) == domain_live(
                            old(self).private_domains@,
                            d,
                        )
                },
                Err(k) => {
                    &&& k == ErrorKind::Fatal
                    &&& final(self).private_domains@ == old(self).private_domains@
                    &&& domain_count(old(self).private_domains@, fqdn@) == u64::MAX
                },
            },
    {
        let n = self.private_domains.len();
        let mut i: usize = 0;
        let ghost pre = self.private_domains@;
        while i < n
            invariant
                i <= n,
                n == pre.len(),
                pre == old(self).private_domains@,
                self.private_domains@ == pre,
                self.services@ == old(self).services@,
                old(self).wf(),
                self.wf(),
                forall|k: int| 0 <= k < i ==> (#[trigger] pre[k]).fqdn@ != fqdn@,
            decreases n - i,
        {
            if crate::signature::bytes_eq(
                self.private_domains[i].fqdn.as_slice(),
                fqdn.as_slice(),
            ) {
                let count = self.private_domains[i].count;
                if count == u64::MAX {
                    proof {
                        lemma_domain_count_here(pre, i as int, fqdn@);
                    }
                    return Err(ErrorKind::Fatal);
                }
                let row = DomainRow { fqdn: crate::text::copy_bytes(fqdn), count: count + 1 };
                self.private_domains.set(i, row);
                proof {
                    let fin = self.private_domains@;
                    assert(fin[i as int].fqdn@ == fqdn@ && fin[i as int].count > 0);
                    assert(domain_live(fin, fqdn@));
                    lemma_domain_tables(pre, fin, i as int, fqdn@);
                    lemma_domain_count_here(pre, i as int, fqdn@);
                    lemma_domain_count_here(fin, i as int, fqdn@);
                }
                return Ok(());
            }
            i = i + 1;
        }
        let row = DomainRow { fqdn: crate::text::copy_bytes(fqdn), count: 1 };
        self.private_domains.push(row);
        proof {
            let fin = self.private_domains@;
            assert(fin.last().fqdn@ == fqdn@ && fin.last().count > 0);
            assert(domain_live(fin, fqdn@));
            lemma_domain_count_absent(pre, fqdn@);
            assert(domain_count(fin, fqdn@) == 1);
            assert forall|d: Seq<u8>|
                #![trigger domain_live(fin, d)]
                d != fqdn@ implies domain_live(fin, d) == domain_live(pre, d) by {
                if domain_live(fin, d) {
                    let w = choose|w: int|
                        0 <= w < fin.len() && (#[trigger] fin[w]).fqdn@ == d && fin[w].count > 0;
                    assert(w < pre.len() && fin[w] == pre[w]);
                }
                if domain_live(pre, d) {
                    let w = choose|w: int|
                        0 <= w < pre.len() && (#[trigger] pre[w]).fqdn@ == d && pre[w].count > 0;
                    assert(fin[w] == pre[w]);
                }
            }
            assert forall|i1: int, j1: int|
                #![trigger fin[i1], fin[j1]]
                0 <= i1 < j1 < fin.len() implies fin[i1].fqdn@ != fin[j1].fqdn@ by {
                if j1 == fin.len() - 1 {
                    assert(pre[i1].fqdn@ != fqdn@);
                }
            }
        }
        Ok(())
    }

    /// Drop one handle on a private domain; silent when none is held.
    pub fn release_private_domain(&mut self, fqdn: &Vec<u8>)
        requires
            old(self).wf(),
        ensures
            final(self).wf(),
            final(self).services@ == old(self).services@,
            domain_count(final(self).private_domains@, fqdn@) == (if domain_count(
                old(self).private_domains@,
                fqdn@,
            ) > 0 {
                domain_count(old(self).private_domains@, fqdn@) - 1
            } else {
                0int
            }),
            forall|d: Seq<u8>|
                #![trigger domain_live(final(self).private_domains@, d)]
                d != fqdn@ ==> domain_live(final(self).private_domains@, d) == domain_live(
                    old(self).private_domains@,
                    d,
                ),
    {
        let n = self.private_domains.len();
        let mut i: usize = 0;
        let ghost pre = self.private_domains@;
        while i < n
            invariant
                i <= n,
                n == pre.len(),
                pre == old(self).private_domains@,
                self.private_domains@ == pre,
                self.services@ == old(self).services@,
                old(self).wf(),
                self.wf(),
                forall|k: int| 0 <= k < i ==> (#[trigger] pre[k]).fqdn@ != fqdn@,
            decreases n - i,
        {
            if crate::signature::bytes_eq(
                self.private_domains[i].fqdn.as_slice(),
                fqdn.as_slice(),
            ) {
                let count = self.private_domains[i].count;
                proof {
                    lemma_domain_count_here(pre, i as int, fqdn@);
                }
                if count > 0 {
                    let row = DomainRow { fqdn: crate::text::copy_bytes(fqdn), count: count - 1 };
                    self.private_domains.set(i, row);
                    proof {
                        lemma_domain_tables(pre, self.private_domains@, i as int, fqdn@);
                        lemma_domain_count_here(self.private_domains@, i as int, fqdn@);
                    }
                }
                return ;
            }
            i = i + 1;
        }
        proof {
            lemma_domain_count_absent(pre, fqdn@);
        }
    }

    /// Prune the listed private domains whose handles are all gone; live
    /// answers are untouched.
    pub fn gc_private_domains(&mut self, domains: &Vec<Vec<u8>>)
        requires
            old(self).wf(),
        ensures
            final(self).wf(),
            final(self).services@ == old(self).services@,
            forall|k: int|
                0 <= k < domains@.len() ==> !domain_present_dead(
                    final(self).private_domains@,
                    (#[trigger] domains@[k])@,
                ),
            forall|d: Seq<u8>|
                #![trigger domain_live(final(self).private_domains@, d)]
                domain_live(final(self).private_domains@, d) == domain_live(
                    old(self).private_domains@,
                    d,
                ),
    {
        let n = domains.len();
        let mut i: usize = 0;
        while i < n
            invariant
                i <= n,
                n == domains@.len(),
                self.services@ == old(self).services@,
                self.wf(),
                forall|k: int|
                    0 <= k < i ==> !domain_present_dead(
                        self.private_domains@,
                        (#[trigger] domains@[k])@,
                    ),
                forall|d: Seq<u8>|
                    #![trigger domain_live(self.private_domains@, d)]
                    domain_live(self.private_domains@, d) == domain_live(
                        old(self).private_domains@,
                        d,
                    ),
            decreases n - i,
        {
            self.gc_private_domain(&domains[i]);
            i = i + 1;
        }
    }

    /// Prune one private domain when its handles are all gone.
    fn gc_private_domain(&mut self, fqdn: &Vec<u8>)
        requires
            old(self).wf(),
        ensures
            final(self).wf(),
            final(self).services@ == old(self).services@,
            !domain_present_dead(final(self).private_domains@, fqdn@),
            forall|d: Seq<u8>|
                #![trigger domain_present_dead(final(self).private_domains@, d)]
                domain_present_dead(final(self).private_domains@, d) ==> domain_present_dead(
                    old(self).private_domains@,
                    d,
                ),
            forall|d: Seq<u8>|
                #![trigger domain_live(final(self).private_domains@, d)]
                domain_live(final(self).private_domains@, d) == domain_live(
                    old(self).private_domains@,
                    d,
                ),
    {
        let n = self.private_domains.len();
        let mut i: usize = 0;
        let ghost pre = self.private_domains@;
        while i < n
            invariant
                i <= n,
                n == pre.len(),
                pre == old(self).private_domains@,
                self.private_domains@ == pre,
                self.services@ == old(self).services@,
                old(self).wf(),
                self.wf(),
                forall|k: int| 0 <= k < i ==> (#[trigger] pre[k]).fqdn@ != fqdn@,
            decreases n - i,
        {
            if crate::signature::bytes_eq(
                self.private_domains[i].fqdn.as_slice(),
                fqdn.as_slice(),
            ) {
                if self.private_domains[i].count == 0 {
                    self.private_domains.remove(i);
                    proof {
                        let fin = self.private_domains@;
                        assert forall|i1: int, j1: int|
                            #![trigger fin[i1], fin[j1]]
                            0 <= i1 < j1 < fin.len() implies fin[i1].fqdn@ != fin[j1].fqdn@ by {
                            let oi: int = if i1 < i { i1 } else { i1 + 1 };
                            let oj: int = if j1 < i { j1 } else { j1 + 1 };
                            assert(fin[i1] == pre[oi] && fin[j1] == pre[oj]);
                        }
                        assert forall|d: Seq<u8>|
                            #![trigger domain_live(fin, d)]
                            true implies domain_live(fin, d) == domain_live(pre, d) by {
                            if domain_live(fin, d) {
                                let w = choose|w: int|
                                    0 <= w < fin.len() && (#[trigger] fin[w]).fqdn@ == d && fin[
                                        w
                                    ].count > 0;
                                let ow: int = if w < i { w } else { w + 1 };
                                assert(fin[w] == pre[ow]);
                                assert(domain_live(pre, d));
                            }
                            if domain_live(pre, d) {
                                let w = choose|w: int|
                                    0 <= w < pre.len() && (#[trigger] pre[w]).fqdn@ == d && pre[
                                        w
                                    ].count > 0;
                                assert(w != i);
                                let nw: int = if w < i { w } else { w - 1 };
                                assert(fin[nw] == pre[w]);
                                assert(domain_live(fin, d));
                            }
                        }
                    }
                }
                return ;
            }
            i = i + 1;
        }
    }
}

/// After a domain row's count changes in place, other domains' liveness is
/// untouched.
proof fn lemma_domain_tables(pre: Seq<DomainRow>, fin: Seq<DomainRow>, i: int, fqdn: Seq<u8>)
    requires
        0 <= i < pre.len(),
        fin.len() == pre.len(),
        pre[i].fqdn@ == fqdn,
        fin[i].fqdn@ == fqdn,
        forall|k: int| 0 <= k < pre.len() && k != i ==> #[trigger] fin[k] == pre[k],
        forall|a: int, b: int|
            #![trigger pre[a], pre[b]]
            0 <= a < b < pre.len() ==> pre[a].fqdn@ != pre[b].fqdn@,
    ensures
        forall|a: int, b: int|
            #![trigger fin[a], fin[b]]
            0 <= a < b < fin.len() ==> fin[a].fqdn@ != fin[b].fqdn@,
        forall|d: Seq<u8>|
            #![trigger domain_live(fin, d)]
            d != fqdn ==> domain_live(fin, d) == domain_live(pre, d),
{
    assert forall|a: int, b: int|
        #![trigger fin[a], fin[b]]
        0 <= a < b < fin.len() implies fin[a].fqdn@ != fin[b].fqdn@ by {
        if a != i && b != i {
            assert(fin[a] == pre[a] && fin[b] == pre[b]);
        } else if a == i {
            assert(fin[b] == pre[b]);
            assert(pre[i].fqdn@ != pre[b].fqdn@);
        } else {
            assert(fin[a] == pre[a]);
            assert(pre[a].fqdn@ != pre[i].fqdn@);
        }
    }
    assert forall|d: Seq<u8>|
        #![trigger domain_live(fin, d)]
        d != fqdn implies domain_live(fin, d) == domain_live(pre, d) by {
        if domain_live(fin, d) {
            let w = choose|w: int|
                0 <= w < fin.len() && (#[trigger] fin[w]).fqdn@ == d && fin[w].count > 0;
            assert(w != i);
            assert(fin[w] == pre[w]);
            assert(domain_live(pre, d));
        }
        if domain_live(pre, d) {
            let w = choose|w: int|
                0 <= w < pre.len() && (#[trigger] pre[w]).fqdn@ == d && pre[w].count > 0;
            assert(w != i);
            assert(fin[w] == pre[w]);
            assert(domain_live(fin, d));
        }
    }
}

/// The addresses of the subnets containing `src`, in order.
pub open spec fn addrs_containing(subnets: Seq<IpNet>, src: IpAddress) -> Seq<IpAddress>
    decreases subnets.len(),
{
    if subnets.len() == 0 {
        Seq::empty()
    } else if spec_net_contains(subnets.last(), src) {
        addrs_containing(subnets.drop_last(), src).push(subnets.last().addr)
    } else {
        addrs_containing(subnets.drop_last(), src)
    }
}

/// The addresses of the subnets not containing `src`, in order.
pub open spec fn addrs_not_containing(subnets: Seq<IpNet>, src: IpAddress) -> Seq<IpAddress>
    decreases subnets.len(),
{
    if subnets.len() == 0 {
        Seq::empty()
    } else if !spec_net_contains(subnets.last(), src) {
        addrs_not_containing(subnets.drop_last(), src).push(subnets.last().addr)
    } else {
        addrs_not_containing(subnets.drop_last(), src)
    }
}

/// Some connected gateway owns a subnet containing `src`.
pub open spec fn src_in_some_gateway(
    g: Seq<(Seq<char>, crate::gateway::GatewayInfoView)>,
    src: IpAddress,
) -> bool {
    exists|i: int|
        {
            &&& 0 <= i < g.len()
            &&& (#[trigger] g[i]).1.ip_info is Some
            &&& exists|j: int|
                0 <= j < g[i].1.ip_info->Some_0.subnets.len() && spec_net_contains(
                    #[trigger] g[i].1.ip_info->Some_0.subnets[j],
                    src,
                )
        }
}

/// `addrs` is a hairpin answer: the addresses of one gateway containing
/// `src`, those of subnets containing `src` first.
pub open spec fn hairpin_reply(
    g: Seq<(Seq<char>, crate::gateway::GatewayInfoView)>,
    src: IpAddress,
    addrs: Seq<IpAddress>,
) -> bool {
    exists|i: int|
        {
            &&& 0 <= i < g.len()
            &&& (#[trigger] g[i]).1.ip_info is Some
            &&& exists|j: int|
                0 <= j < g[i].1.ip_info->Some_0.subnets.len() && spec_net_contains(
                    #[trigger] g[i].1.ip_info->Some_0.subnets[j],
                    src,
                )
            &&& addrs == addrs_containing(g[i].1.ip_info->Some_0.subnets, src)
                + addrs_not_containing(g[i].1.ip_info->Some_0.subnets, src)
        }
}

/// The hairpin answer for a LAN client: the addresses of the first
/// connected gateway owning a subnet that contains `src`, those containing
/// `src` first. `None` when no gateway contains the source.
pub fn hairpin_answers(gateways: &Gateways, src: &IpAddress) -> (r: Option<Vec<IpAddress>>)
    ensures
        match r {
            Some(addrs) => hairpin_reply(gateways@, *src, addrs@) && src_in_some_gateway(
                gateways@,
                *src,
            ),
            None => !src_in_some_gateway(gateways@, *src),
        },
{
    let n = gateways.entries.len();
    let mut i: usize = 0;
    while i < n
        invariant
            i <= n,
            n == gateways.entries@.len(),
            gateways@.len() == n,
            forall|k: int| 0 <= k < n ==> #[trigger] gateways@[k] == (
                gateways.entries@[k].0@,
                gateways.entries@[k].1@,
            ),
            forall|k: int|
                0 <= k < i ==> ((#[trigger] gateways@[k]).1.ip_info is Some ==> forall|j: int|
                    0 <= j < gateways@[k].1.ip_info->Some_0.subnets.len() ==> !spec_net_contains(
                        #[trigger] gateways@[k].1.ip_info->Some_0.subnets[j],
                        *src,
                    )),
        decreases n - i,
    {
        match &gateways.entries[i].1.ip_info {
            Some(info) => {
                let ghost subs = info.subnets@;
                proof {
                    assert(gateways@[i as int].1.ip_info == Some(info@));
                    assert(gateways@[i as int].1.ip_info->Some_0.subnets == subs);
                }
                let m = info.subnets.len();
                let mut found = false;
                let mut first: Vec<IpAddress> = Vec::new();
                let mut second: Vec<IpAddress> = Vec::new();
                let mut j: usize = 0;
                while j < m
                    invariant
                        j <= m,
                        m == subs.len(),
                        info.subnets@ == subs,
                        first@ == addrs_containing(subs.take(j as int), *src),
                        second@ == addrs_not_containing(subs.take(j as int), *src),
                        found == exists|t: int|
                            0 <= t < j && spec_net_contains(#[trigger] subs[t], *src),
                    decreases m - j,
                {
                    let net = &info.subnets[j];
                    proof {
                        assert(subs.take(j as int + 1).drop_last() =~= subs.take(j as int));
                        assert(subs.take(j as int + 1).last() == subs[j as int]);
                    }
                    if net_contains(net, src) {
                        first.push(net.addr);
                        found = true;
                        proof {
                            assert(spec_net_contains(subs[j as int], *src));
                        }
                    } else {
                        second.push(net.addr);
                        proof {
                            if found {
                                let t = choose|t: int|
                                    0 <= t < j && spec_net_contains(#[trigger] subs[t], *src);
                                assert(0 <= t < j + 1);
                            }
                        }
                    }
                    j = j + 1;
                }
                proof {
                    assert(subs.take(m as int) =~= subs);
                }
                if found {
                    let mut answers = first;
                    answers.append(&mut second);
                    proof {
                        assert(answers@ == addrs_containing(subs, *src) + addrs_not_containing(
                            subs,
                            *src,
                        ));
                    }
                    return Some(answers);
                }
                proof {
                    assert forall|t: int|
                        0 <= t < subs.len() implies !spec_net_contains(
                        #[trigger] subs[t],
                        *src,
                    ) by {
                    }
                }
            },
            None => {},
        }
        i = i + 1;
    }
    proof {
        if src_in_some_gateway(gateways@, *src) {
            let i = choose|i: int|
                {
                    &&& 0 <= i < gateways@.len()
                    &&& (#[trigger] gateways@[i]).1.ip_info is Some
                    &&& exists|j: int|
                        0 <= j < gateways@[i].1.ip_info->Some_0.subnets.len() && spec_net_contains(
                            #[trigger] gateways@[i].1.ip_info->Some_0.subnets[j],
                            *src,
                        )
                };
            assert(false);
        }
    }
    None
}

/// The question class the resolver answers directly.
#[derive(Clone, Copy, Debug, PartialEq, Eq, Structural)]
pub enum QueryType {
    A,
    Aaaa,
    Other,
}

/// Restrict an answer list to the family a question asks for; other
/// question types keep nothing (they pass through verbatim upstream).
pub fn answers_for_qtype(answers: &Vec<IpAddress>, qtype: QueryType) -> (r: Vec<IpAddress>)
    ensures
        qtype == QueryType::A ==> r@ == answers@.filter(|a: IpAddress| a is V4),
        qtype == QueryType::Aaaa ==> r@ == answers@.filter(|a: IpAddress| a is V6),
        qtype == QueryType::Other ==> r@.len() == 0,
{
    let mut r: Vec<IpAddress> = Vec::new();
    if matches!(qtype, QueryType::Other) {
        return r;
    }
    let n = answers.len();
    let mut i: usize = 0;
    while i < n
        invariant
            i <= n,
            n == answers@.len(),
            qtype == QueryType::A || qtype == QueryType::Aaaa,
            qtype == QueryType::A ==> r@ == answers@.take(i as int).filter(
                |a: IpAddress| a is V4,
            ),
            qtype == QueryType::Aaaa ==> r@ == answers@.take(i as int).filter(
                |a: IpAddress| a is V6,
            ),
        decreases n - i,
    {
        let keep = match (&answers[i], qtype) {
            (IpAddress::V4(_), QueryType::A) => true,
            (IpAddress::V6(_), QueryType::Aaaa) => true,
            _ => false,
        };
        proof {
            assert(answers@.take(i as int + 1).drop_last() =~= answers@.take(i as int));
            assert(answers@.take(i as int + 1).last() == answers@[i as int]);
            reveal(Seq::filter);
        }
        if keep {
            r.push(answers[i]);
        }
        i = i + 1;
    }
    proof {
        assert(answers@.take(n as int) =~= answers@);
    }
    r
}


/// A row for the package is in the table, live or not. A known service
/// with no live addresses answers with an empty set; an unknown name is
/// passed upstream instead.
pub open spec fn service_present(rows: Seq<ServiceRow>, pkg: Option<Seq<u8>>) -> bool {
    exists|i: int| 0 <= i < rows.len() && row_key(#[trigger] rows[i]).0 == pkg
}

impl ResolveMap {
    /// The live IPv4 answers registered for a package, or `None` when no
    /// registration for the package exists at all.
    pub fn service_answers(&self, pkg: Option<&Vec<u8>>) -> (r: Option<Vec<IpAddress>>)
        requires
            self.wf(),
        ensures
            match r {
                Some(ips) => {
                    &&& service_present(self.services@, pkg_view(pkg))
                    &&& forall|q: u32| #[trigger] ips@.contains(IpAddress::V4(q)) <==> service_live(
                        self.services@,
                        pkg_view(pkg),
                        q,
                    )
                    &&& forall|k: int| 0 <= k < ips@.len() ==> (#[trigger] ips@[k]) is V4
                },
                None => !service_present(self.services@, pkg_view(pkg)),
            },
    {
        let mut ips: Vec<IpAddress> = Vec::new();
        let mut present = false;
        let n = self.services.len();
        let mut i: usize = 0;
        while i < n
            invariant
                i <= n,
                n == self.services@.len(),
                self.wf(),
                present == exists|k: int|
                    0 <= k < i && row_key(#[trigger] self.services@[k]).0 == pkg_view(pkg),
                forall|k: int| 0 <= k < ips@.len() ==> (#[trigger] ips@[k]) is V4,
                forall|q: u32| #[trigger] ips@.contains(IpAddress::V4(q)) <==> (exists|k: int|
                    0 <= k < i && row_key(#[trigger] self.services@[k]) == (pkg_view(pkg), q)
                        && self.services@[k].count > 0),
            decreases n - i,
        {
            let row = &self.services[i];
            let key_matches = match (&row.pkg, pkg) {
                (Some(a), Some(b)) => crate::signature::bytes_eq(a.as_slice(), b.as_slice()),
                (None, None) => true,
                _ => false,
            };
            let ghost pre = ips@;
            if key_matches {
                present = true;
                if row.count > 0 {
                    ips.push(IpAddress::V4(row.ip));
                    proof {
                        assert(row_key(self.services@[i as int]) == (pkg_view(pkg), row.ip));
                        assert(ips@[ips@.len() - 1] == IpAddress::V4(row.ip));
                        assert forall|q: u32| #[trigger] ips@.contains(IpAddress::V4(q))
                            implies (exists|k: int|
                            0 <= k < i + 1 && row_key(#[trigger] self.services@[k]) == (
                                pkg_view(pkg),
                                q,
                            ) && self.services@[k].count > 0) by {
                            let w = choose|w: int|
                                0 <= w < ips@.len() && ips@[w] == IpAddress::V4(q);
                            if w < pre.len() {
                                assert(pre[w] == IpAddress::V4(q));
                                assert(pre.contains(IpAddress::V4(q)));
                            } else {
                                assert(q == row.ip);
                                assert(row_key(self.services@[i as int]) == (pkg_view(pkg), q)
                                    && self.services@[i as int].count > 0);
                            }
                        }
                        assert forall|q: u32| (exists|k: int|
                            0 <= k < i + 1 && row_key(#[trigger] self.services@[k]) == (
                                pkg_view(pkg),
                                q,
                            ) && self.services@[k].count > 0) implies #[trigger] ips@.contains(
                            IpAddress::V4(q),
                        ) by {
                            let k = choose|k: int|
                                0 <= k < i + 1 && row_key(#[trigger] self.services@[k]) == (
                                    pkg_view(pkg),
                                    q,
                                ) && self.services@[k].count > 0;
                            if k < i {
                                assert(pre.contains(IpAddress::V4(q)));
                                let w = choose|w: int|
                                    0 <= w < pre.len() && pre[w] == IpAddress::V4(q);
                                assert(ips@[w] == IpAddress::V4(q));
                            } else {
                                assert(ips@[ips@.len() - 1] == IpAddress::V4(q));
                            }
                        }
                    }
                } else {
                    proof {
                        assert forall|q: u32| #[trigger] ips@.contains(IpAddress::V4(q))
                            implies (exists|k: int|
                            0 <= k < i + 1 && row_key(#[trigger] self.services@[k]) == (
                                pkg_view(pkg),
                                q,
                            ) && self.services@[k].count > 0) by {
                        }
                        assert forall|q: u32| (exists|k: int|
                            0 <= k < i + 1 && row_key(#[trigger] self.services@[k]) == (
                                pkg_view(pkg),
                                q,
                            ) && self.services@[k].count > 0) implies #[trigger] ips@.contains(
                            IpAddress::V4(q),
                        ) by {
                            let k = choose|k: int|
                                0 <= k < i + 1 && row_key(#[trigger] self.services@[k]) == (
                                    pkg_view(pkg),
                                    q,
                                ) && self.services@[k].count > 0;
                            assert(k != i);
                        }
                    }
                }
            } else {
                proof {
                    assert forall|q: u32| (exists|k: int|
                        0 <= k < i + 1 && row_key(#[trigger] self.services@[k]) == (
                            pkg_view(pkg),
                            q,
                        ) && self.services@[k].count > 0) implies #[trigger] ips@.contains(
                        IpAddress::V4(q),
                    ) by {
                        let k = choose|k: int|
                            0 <= k < i + 1 && row_key(#[trigger] self.services@[k]) == (
                                pkg_view(pkg),
                                q,
                            ) && self.services@[k].count > 0;
                        assert(k != i);
                    }
                }
            }
            i = i + 1;
        }
        if present {
            Some(ips)
        } else {
            None
        }
    }

    /// Whether the lowercased name is a live private domain.
    pub fn private_domain_live(&self, lname: &Vec<u8>) -> (r: bool)
        ensures
            r == domain_live(self.private_domains@, lname@),
    {
        let n = self.private_domains.len();
        let mut i: usize = 0;
        while i < n
            invariant
                i <= n,
                n == self.private_domains@.len(),
                forall|k: int|
                    0 <= k < i ==> !((#[trigger] self.private_domains@[k]).fqdn@ == lname@
                        && self.private_domains@[k].count > 0),
            decreases n - i,
        {
            let row = &self.private_domains[i];
            if row.count > 0 && crate::signature::bytes_eq(row.fqdn.as_slice(), lname.as_slice()) {
                return true;
            }
            i = i + 1;
        }
        false
    }
}

/// The lowercased name a label list denotes, labels joined with dots.
pub open spec fn spec_fqdn(labels: Seq<Seq<u8>>) -> Seq<u8>
    decreases labels.len(),
{
    if labels.len() == 0 {
        Seq::empty()
    } else if labels.len() == 1 {
        spec_ascii_lowercase(labels[0])
    } else {
        spec_fqdn(labels.drop_last()) + seq![46u8] + spec_ascii_lowercase(labels.last())
    }
}

/// Join a name's labels, lowercased, with dots.
pub fn join_lowercase(labels: &Vec<Vec<u8>>) -> (r: Vec<u8>)
    ensures
        r@ == spec_fqdn(labels@.map_values(|l: Vec<u8>| l@)),
{
    let ghost lv = labels@.map_values(|l: Vec<u8>| l@);
    let mut r: Vec<u8> = Vec::new();
    let n = labels.len();
    let mut i: usize = 0;
    while i < n
        invariant
            i <= n,
            n == labels@.len(),
            lv == labels@.map_values(|l: Vec<u8>| l@),
            lv.len() == n,
            r@ == spec_fqdn(lv.take(i as int)),
        decreases n - i,
    {
        if i > 0 {
            r.push(46);
        }
        let mut lowered = ascii_lowercase(labels[i].as_slice());
        r.append(&mut lowered);
        proof {
            assert(lv.take(i as int + 1).drop_last() =~= lv.take(i as int));
            assert(lv.take(i as int + 1).last() == lv[i as int]);
            assert(lv[i as int] == labels@[i as int]@);
            assert(r@ =~= spec_fqdn(lv.take(i as int + 1)));
        }
        i = i + 1;
    }
    proof {
        assert(lv.take(n as int) =~= lv);
    }
    r
}

/// The text `embassy`.
pub open spec fn spec_label_embassy() -> Seq<u8> {
    seq![101u8, 109, 98, 97, 115, 115, 121]
}

/// The text `startos`.
pub open spec fn spec_label_startos() -> Seq<u8> {
    seq![115u8, 116, 97, 114, 116, 111, 115]
}

/// Whether a lowercased last label names this host's own zone.
pub open spec fn is_host_zone(label: Seq<u8>) -> bool {
    label == spec_label_embassy() || label == spec_label_startos()
}

/// How the resolver answers one question.
#[derive(Debug)]
pub enum DnsReply {
    /// Authoritative addresses; the caller filters by question type.
    Answers(Vec<IpAddress>),
    /// Not ours: the caller races its upstream pool.
    Upstream,
}

impl ResolveMap {
    /// What the authoritative resolver says for a name asked from `src`:
    /// a live private domain is answered with the asking client's own
    /// gateway addresses (hairpinning); a name under the host zone is
    /// answered with the live addresses registered for the named package
    /// (or for the host when no package label is present); everything else
    /// goes upstream, including private domains whose source no gateway
    /// contains and zone packages with no registration at all.
    pub fn resolve(&self, gateways: &Gateways, labels: &Vec<Vec<u8>>, src: &IpAddress) -> (r:
        DnsReply)
        requires
            self.wf(),
        ensures
            ({
                let lv = labels@.map_values(|l: Vec<u8>| l@);
                let fqdn = spec_fqdn(lv);
                let private_applies = domain_live(self.private_domains@, fqdn)
                    && src_in_some_gateway(gateways@, *src);
                let zone = lv.len() >= 1 && is_host_zone(spec_ascii_lowercase(lv.last()));
                let pkg = if lv.len() >= 2 {
                    Some(spec_ascii_lowercase(lv[lv.len() - 2]))
                } else {
                    None::<Seq<u8>>
                };
                let zone_applies = zone && service_present(self.services@, pkg);
                match r {
                    DnsReply::Answers(ips) => (private_applies && hairpin_reply(
                        gateways@,
                        *src,
                        ips@,
                    )) || (!private_applies && zone_applies && (forall|q: u32|
                        #[trigger] ips@.contains(IpAddress::V4(q)) <==> service_live(
                            self.services@,
                            pkg,
                            q,
                        ))),
                    DnsReply::Upstream => !private_applies && !zone_applies,
                }
            }),
    {
        let ghost lv = labels@.map_values(|l: Vec<u8>| l@);
        let lname = join_lowercase(labels);
        if self.private_domain_live(&lname) {
            match hairpin_answers(gateways, src) {
                Some(answers) => {
                    return DnsReply::Answers(answers);
                },
                None => {},
            }
        }
        if labels.len() >= 1 {
            let last = ascii_lowercase(labels[labels.len() - 1].as_slice());
            proof {
                assert(lv.last() == labels@[labels@.len() - 1]@);
                assert(last@ == spec_ascii_lowercase(lv.last()));
            }
            let embassy: [u8; 7] = [101, 109, 98, 97, 115, 115, 121];
            let startos: [u8; 7] = [115, 116, 97, 114, 116, 111, 115];
            proof {
                assert(embassy@ =~= spec_label_embassy());
                assert(startos@ =~= spec_label_startos());
            }
            let is_zone = crate::signature::bytes_eq(last.as_slice(), embassy.as_slice())
                || crate::signature::bytes_eq(last.as_slice(), startos.as_slice());
            if is_zone {
                if labels.len() >= 2 {
                    let pkg = ascii_lowercase(labels[labels.len() - 2].as_slice());
                    proof {
                        assert(lv[lv.len() - 2] == labels@[labels@.len() - 2]@);
                        assert(pkg@ == spec_ascii_lowercase(lv[lv.len() - 2]));
                    }
                    match self.service_answers(Some(&pkg)) {
                        Some(ips) => {
                            return DnsReply::Answers(ips);
                        },
                        None => {},
                    }
                } else {
                    match self.service_answers(None) {
                        Some(ips) => {
                            return DnsReply::Answers(ips);
                        },
                        None => {},
                    }
                }
            }
        }
        DnsReply::Upstream
    }
}


/// The fixed token `nameserver ` that introduces an upstream entry.
pub open spec fn spec_nameserver_prefix() -> Seq<u8> {
    seq![110u8, 97, 109, 101, 115, 101, 114, 118, 101, 114, 32]
}

/// The upstream entries the configuration lines declare: for each line
/// beginning `nameserver `, the rest of the line, in order.
pub open spec fn spec_nameserver_entries(lines: Seq<Seq<u8>>) -> Seq<Seq<u8>>
    decreases lines.len(),
{
    if lines.len() == 0 {
        Seq::empty()
    } else {
        let rest = spec_nameserver_entries(lines.drop_last());
        let last = lines.last();
        if last.len() >= spec_nameserver_prefix().len() && last.take(
            spec_nameserver_prefix().len() as int,
        ) == spec_nameserver_prefix() {
            rest.push(last.skip(spec_nameserver_prefix().len() as int))
        } else {
            rest
        }
    }
}

/// The upstream pool the resolver queries: the `nameserver` entries of the
/// given configuration lines, minus the first two (which name this resolver
/// itself); operator-configured static servers override the discovered list
/// entirely.
pub fn upstream_pool(lines: &Vec<Vec<u8>>, static_servers: Option<Vec<Vec<u8>>>) -> (r: Vec<
    Vec<u8>,
>)
    ensures
        ({
            let lv = lines@.map_values(|l: Vec<u8>| l@);
            let rv = r@.map_values(|l: Vec<u8>| l@);
            match static_servers {
                Some(s) => rv == s@.map_values(|l: Vec<u8>| l@),
                None => rv =~= spec_nameserver_entries(lv).skip(
                    if spec_nameserver_entries(lv).len() >= 2 {
                        2int
                    } else {
                        spec_nameserver_entries(lv).len() as int
                    },
                ),
            }
        }),
{
    match static_servers {
        Some(s) => s,
        None => {
            let ghost lv = lines@.map_values(|l: Vec<u8>| l@);
            let mut entries: Vec<Vec<u8>> = Vec::new();
            let n = lines.len();
            let mut i: usize = 0;
            let prefix: [u8; 11] = [110, 97, 109, 101, 115, 101, 114, 118, 101, 114, 32];
            proof {
                assert(prefix@ =~= spec_nameserver_prefix());
            }
            while i < n
                invariant
                    i <= n,
                    n == lines@.len(),
                    lv == lines@.map_values(|l: Vec<u8>| l@),
                    lv.len() == n,
                    prefix@ == spec_nameserver_prefix(),
                    entries@.map_values(|l: Vec<u8>| l@) =~= spec_nameserver_entries(
                        lv.take(i as int),
                    ),
                decreases n - i,
            {
                let line = &lines[i];
                let ghost pre = entries@.map_values(|l: Vec<u8>| l@);
                proof {
                    assert(lv.take(i as int + 1).drop_last() =~= lv.take(i as int));
                    assert(lv.take(i as int + 1).last() == lv[i as int]);
                    assert(lv[i as int] == lines@[i as int]@);
                }
                if line.len() >= 11 {
                    let mut matches_prefix = true;
                    let mut k: usize = 0;
                    while k < 11
                        invariant
                            k <= 11,
                            line@.len() >= 11,
                            prefix@ == spec_nameserver_prefix(),
                            matches_prefix == (forall|t: int|
                                0 <= t < k ==> line@[t] == prefix@[t]),
                        decreases 11 - k,
                    {
                        if line[k] != prefix[k] {
                            matches_prefix = false;
                        }
                        k = k + 1;
                    }
                    if matches_prefix {
                        proof {
                            assert(line@.take(11) =~= spec_nameserver_prefix());
                        }
                        let mut entry: Vec<u8> = Vec::new();
                        let mut t: usize = 11;
                        while t < line.len()
                            invariant
                                11 <= t <= line@.len(),
                                entry@ =~= line@.skip(11).take(t - 11),
                            decreases line@.len() - t,
                        {
                            entry.push(line[t]);
                            proof {
                                assert(line@.skip(11).take(t - 11 + 1) =~= line@.skip(11).take(
                                    t - 11,
                                ).push(line@[t as int]));
                            }
                            t = t + 1;
                        }
                        proof {
                            assert(line@.skip(11).take(line@.len() - 11) =~= line@.skip(11));
                        }
                        entries.push(entry);
                        proof {
                            let now = entries@.map_values(|l: Vec<u8>| l@);
                            assert(now.drop_last() =~= pre);
                            assert(now.last() == lv[i as int].skip(11));
                            assert(now =~= spec_nameserver_entries(lv.take(i as int + 1)));
                        }
                    } else {
                        proof {
                            assert(lv[i as int].take(11) != spec_nameserver_prefix()) by {
                                let t = choose|t: int| 0 <= t < 11 && line@[t] != prefix@[t];
                                assert(lv[i as int].take(11)[t] == line@[t]);
                            }
                        }
                    }
                } else {
                    proof {
                        assert(lv[i as int].len() < 11);
                    }
                }
                i = i + 1;
            }
            proof {
                assert(lv.take(n as int) =~= lv);
            }
            // the first two entries are this resolver itself
            let keep_from: usize = if entries.len() >= 2 {
                2
            } else {
                entries.len()
            };
            let mut r: Vec<Vec<u8>> = Vec::new();
            let mut j: usize = keep_from;
            let ghost ev = entries@.map_values(|l: Vec<u8>| l@);
            while j < entries.len()
                invariant
                    keep_from <= j <= entries@.len(),
                    ev == entries@.map_values(|l: Vec<u8>| l@),
                    ev.len() == entries@.len(),
                    r@.map_values(|l: Vec<u8>| l@) =~= ev.skip(keep_from as int).take(
                        j - keep_from,
                    ),
                decreases entries@.len() - j,
            {
                r.push(crate::text::copy_bytes(&entries[j]));
                proof {
                    let now = r@.map_values(|l: Vec<u8>| l@);
                    assert(now.drop_last() =~= ev.skip(keep_from as int).take(j - keep_from));
                    assert(now.last() == ev[j as int]);
                    assert(ev.skip(keep_from as int).take(j - keep_from + 1) =~= ev.skip(
                        keep_from as int,
                    ).take(j - keep_from).push(ev[j as int]));
                    assert(now =~= ev.skip(keep_from as int).take(j - keep_from + 1));
                }
                j = j + 1;
            }
            proof {
                assert(ev.skip(keep_from as int).take(ev.len() - keep_from) =~= ev.skip(
                    keep_from as int,
                ));
            }
            r
        },
    }
}

} // verus!
