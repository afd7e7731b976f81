//! The interface-filter algebra.
//!
//! A filter is a predicate over one gateway (its id and info). Leaves select
//! on loopback reachability, the `public` label or the `secure` label;
//! `And`/`Or` combine two filters and `All`/`Any` a list. Reconcilers cache
//! the filter they last applied, so the algebra carries a structural
//! equality that is commutative for `And`/`Or` and set-like for `All`/`Any`,
//! and that only equates filters with the same meaning; `simplify` collapses
//! the degenerate shapes (`And(x, x)` to `x`, an empty `All` to always, an
//! empty `Any` to never) without changing what a filter selects.

use vstd::prelude::*;

use crate::gateway::{GatewayId, GatewayInfoView, NetworkInterfaceInfo};
use crate::ip::{IpAddress, IPV4_LOCALHOST, spec_net_contains, net_contains};

verus! {

/// Passes gateways whose subnets contain 127.0.0.1.
#[derive(Clone, Copy, Debug, PartialEq, Eq, Structural)]
pub struct LoopbackFilter;

/// With `public: true` passes every gateway; with `public: false` only
/// private ones.
#[derive(Clone, Copy, Debug, PartialEq, Eq, Structural)]
pub struct PublicFilter {
    pub public: bool,
}

/// With `secure: true` passes every gateway; with `secure: false` only
/// trusted links.
#[derive(Clone, Copy, Debug, PartialEq, Eq, Structural)]
pub struct SecureFilter {
    pub secure: bool,
}

/// Per-gateway selection a binding carries: a public gateway passes only
/// when listed in `public_enabled`; a private gateway passes unless listed
/// in `private_disabled`.
#[derive(Debug)]
pub struct BindingFilter {
    pub private_disabled: Vec<GatewayId>,
    pub public_enabled: Vec<GatewayId>,
}

/// Conjunction of two filters.
#[derive(Debug)]
pub struct AndFilter(pub Box<InterfaceFilter>, pub Box<InterfaceFilter>);

/// Disjunction of two filters.
#[derive(Debug)]
pub struct OrFilter(pub Box<InterfaceFilter>, pub Box<InterfaceFilter>);

/// Passes when at least one member passes; empty means never.
#[derive(Debug)]
pub struct AnyFilter(pub Vec<InterfaceFilter>);

/// Passes when every member passes; empty means always.
#[derive(Debug)]
pub struct AllFilter(pub Vec<InterfaceFilter>);

/// A filter over `(GatewayId, NetworkInterfaceInfo)`.
#[derive(Debug)]
pub enum InterfaceFilter {
    Always(bool),
    Loopback(LoopbackFilter),
    Public(PublicFilter),
    Secure(SecureFilter),
    Binding(BindingFilter),
    And(AndFilter),
    Or(OrFilter),
    Any(AnyFilter),
    All(AllFilter),
}

/// Mathematical image of an [`InterfaceFilter`]. The `And` and `Or` payloads
/// always have exactly two members.
pub enum FilterView {
    Always(bool),
    Loopback,
    Public(bool),
    Secure(bool),
    Binding { private_disabled: Seq<Seq<char>>, public_enabled: Seq<Seq<char>> },
    And(Seq<FilterView>),
    Or(Seq<FilterView>),
    Any(Seq<FilterView>),
    All(Seq<FilterView>),
}

/// Whether `id` appears in a list of gateway ids.
pub open spec fn id_member(ids: Seq<Seq<char>>, id: Seq<char>) -> bool {
    exists|i: int| 0 <= i < ids.len() && ids[i] == id
}

/// Every id of `a` appears in `b`.
pub open spec fn ids_contained(a: Seq<Seq<char>>, b: Seq<Seq<char>>) -> bool {
    forall|i: int| 0 <= i < a.len() ==> id_member(b, #[trigger] a[i])
}

/// The two lists name the same set of gateways.
pub open spec fn ids_set_eq(a: Seq<Seq<char>>, b: Seq<Seq<char>>) -> bool {
    ids_contained(a, b) && ids_contained(b, a)
}

/// Lists naming the same set agree on every membership question.
pub proof fn lemma_ids_set_eq_member(a: Seq<Seq<char>>, b: Seq<Seq<char>>, id: Seq<char>)
    requires
        ids_set_eq(a, b),
    ensures
        id_member(a, id) == id_member(b, id),
{
    if id_member(a, id) {
        let i = choose|i: int| 0 <= i < a.len() && a[i] == id;
        assert(id_member(b, a[i]));
    }
    if id_member(b, id) {
        let i = choose|i: int| 0 <= i < b.len() && b[i] == id;
        assert(id_member(a, b[i]));
    }
}

/// The image of a gateway-id list.
pub open spec fn ids_view(v: Seq<GatewayId>) -> Seq<Seq<char>> {
    v.map_values(|g: GatewayId| g@)
}

/// Whether the list holds `id`.
pub fn ids_contains(ids: &Vec<GatewayId>, id: &GatewayId) -> (r: bool)
    ensures
        r == id_member(ids_view(ids@), id@),
{
    let n = ids.len();
    let mut i: usize = 0;
    while i < n
        invariant
            i <= n,
            n == ids@.len(),
            forall|k: int| 0 <= k < i ==> (#[trigger] ids@[k])@ != id@,
        decreases n - i,
    {
        if ids[i].0 == id.0 {
            proof {
                assert(ids_view(ids@)[i as int] == ids@[i as int]@);
            }
            return true;
        }
        i = i + 1;
    }
    proof {
        assert forall|k: int| 0 <= k < ids_view(ids@).len() implies #[trigger] ids_view(ids@)[k]
            != id@ by {
            assert(ids_view(ids@)[k] == ids@[k]@);
        }
    }
    false
}

/// Whether every id of `a` appears in `b`.
fn ids_all_in(a: &Vec<GatewayId>, b: &Vec<GatewayId>) -> (r: bool)
    ensures
        r == ids_contained(ids_view(a@), ids_view(b@)),
{
    let n = a.len();
    let mut i: usize = 0;
    while i < n
        invariant
            i <= n,
            n == a@.len(),
            forall|k: int| 0 <= k < i ==> id_member(ids_view(b@), (#[trigger] a@[k])@),
        decreases n - i,
    {
        if !ids_contains(b, &a[i]) {
            proof {
                assert(ids_view(a@)[i as int] == a@[i as int]@);
            }
            return false;
        }
        i = i + 1;
    }
    proof {
        assert forall|k: int| 0 <= k < ids_view(a@).len() implies id_member(
            ids_view(b@),
            #[trigger] ids_view(a@)[k],
        ) by {
            assert(ids_view(a@)[k] == a@[k]@);
        }
    }
    true
}

/// A duplicate of a gateway-id list with the same image.
pub fn ids_duplicate(v: &Vec<GatewayId>) -> (r: Vec<GatewayId>)
    ensures
        ids_view(r@) =~= ids_view(v@),
{
    let n = v.len();
    let mut r: Vec<GatewayId> = Vec::new();
    let mut i: usize = 0;
    while i < n
        invariant
            i <= n,
            n == v@.len(),
            r@.len() == i,
            forall|k: int| 0 <= k < i ==> (#[trigger] r@[k])@ == v@[k]@,
        decreases n - i,
    {
        r.push(GatewayId::new(v[i].as_str()));
        i = i + 1;
    }
    proof {
        assert forall|k: int| 0 <= k < n implies ids_view(r@)[k] == ids_view(v@)[k] by {
            assert(ids_view(r@)[k] == r@[k]@ && ids_view(v@)[k] == v@[k]@);
        }
        assert(ids_view(r@) =~= ids_view(v@));
    }
    r
}

/// The views of the filters in a list, in order.
pub open spec fn views_of(s: Seq<InterfaceFilter>) -> Seq<FilterView>
    decreases s,
{
    if s.len() == 0 {
        Seq::empty()
    } else {
        seq![s[0]@] + views_of(s.drop_first())
    }
}

pub proof fn lemma_views_of(s: Seq<InterfaceFilter>)
    ensures
        views_of(s).len() == s.len(),
        forall|i: int| 0 <= i < s.len() ==> views_of(s)[i] == (#[trigger] s[i])@,
    decreases s,
{
    if s.len() > 0 {
        lemma_views_of(s.drop_first());
        assert(views_of(s) == seq![s[0]@] + views_of(s.drop_first()));
        assert forall|i: int| 0 <= i < s.len() implies views_of(s)[i] == (#[trigger] s[i])@ by {
            if i > 0 {
                assert(s.drop_first()[i - 1] == s[i]);
                assert(views_of(s)[i] == views_of(s.drop_first())[i - 1]);
            }
        }
    }
}

impl View for InterfaceFilter {
    type V = FilterView;

    open spec fn view(&self) -> FilterView
        decreases self,
    {
        match self {
            InterfaceFilter::Always(b) => FilterView::Always(*b),
            InterfaceFilter::Loopback(_) => FilterView::Loopback,
            InterfaceFilter::Public(p) => FilterView::Public(p.public),
            InterfaceFilter::Secure(s) => FilterView::Secure(s.secure),
            InterfaceFilter::Binding(b) => FilterView::Binding {
                private_disabled: ids_view(b.private_disabled@),
                public_enabled: ids_view(b.public_enabled@),
            },
            InterfaceFilter::And(a) => FilterView::And(seq![(*a.0)@, (*a.1)@]),
            InterfaceFilter::Or(o) => FilterView::Or(seq![(*o.0)@, (*o.1)@]),
            InterfaceFilter::Any(v) => FilterView::Any(views_of(v.0@)),
            InterfaceFilter::All(v) => FilterView::All(views_of(v.0@)),
        }
    }
}

/// What a filter means: whether the gateway `(id, info)` passes.
pub open spec fn spec_matches(f: FilterView, id: Seq<char>, info: GatewayInfoView) -> bool
    decreases f, 0int,
{
    match f {
        FilterView::Always(b) => b,
        FilterView::Loopback => match info.ip_info {
            Some(ip) => exists|i: int|
                0 <= i < ip.subnets.len() && spec_net_contains(
                    #[trigger] ip.subnets[i],
                    IpAddress::V4(0x7f000001u32),
                ),
            None => false,
        },
        FilterView::Public(public) => public || !info.is_public(),
        FilterView::Secure(secure) => secure || info.is_secure(),
        FilterView::Binding { private_disabled, public_enabled } => if info.is_public() {
            id_member(public_enabled, id)
        } else {
            !id_member(private_disabled, id)
        },
        FilterView::And(v) => seq_all_match(v, id, info),
        FilterView::All(v) => seq_all_match(v, id, info),
        FilterView::Or(v) => seq_any_match(v, id, info),
        FilterView::Any(v) => seq_any_match(v, id, info),
    }
}

/// At least one filter in the list passes the gateway.
pub open spec fn seq_any_match(v: Seq<FilterView>, id: Seq<char>, info: GatewayInfoView) -> bool
    decreases v, 1int,
{
    if v.len() == 0 {
        false
    } else {
        spec_matches(v[0], id, info) || seq_any_match(v.drop_first(), id, info)
    }
}

/// Every filter in the list passes the gateway.
pub open spec fn seq_all_match(v: Seq<FilterView>, id: Seq<char>, info: GatewayInfoView) -> bool
    decreases v, 1int,
{
    if v.len() == 0 {
        true
    } else {
        spec_matches(v[0], id, info) && seq_all_match(v.drop_first(), id, info)
    }
}

pub proof fn lemma_seq_any_match(v: Seq<FilterView>, id: Seq<char>, info: GatewayInfoView)
    ensures
        seq_any_match(v, id, info) <==> exists|i: int|
            0 <= i < v.len() && spec_matches(#[trigger] v[i], id, info),
    decreases v,
{
    if v.len() > 0 {
        lemma_seq_any_match(v.drop_first(), id, info);
        if spec_matches(v[0], id, info) {
            assert(seq_any_match(v, id, info));
        }
        if seq_any_match(v.drop_first(), id, info) {
            let j = choose|j: int|
                0 <= j < v.drop_first().len() && spec_matches(
                    #[trigger] v.drop_first()[j],
                    id,
                    info,
                );
            assert(v[j + 1] == v.drop_first()[j]);
        }
        if exists|i: int| 0 <= i < v.len() && spec_matches(#[trigger] v[i], id, info) {
            let i = choose|i: int| 0 <= i < v.len() && spec_matches(#[trigger] v[i], id, info);
            if i > 0 {
                assert(v.drop_first()[i - 1] == v[i]);
                assert(seq_any_match(v.drop_first(), id, info));
            }
        }
    }
}

pub proof fn lemma_seq_all_match(v: Seq<FilterView>, id: Seq<char>, info: GatewayInfoView)
    ensures
        seq_all_match(v, id, info) <==> forall|i: int|
            0 <= i < v.len() ==> spec_matches(#[trigger] v[i], id, info),
    decreases v,
{
    if v.len() > 0 {
        lemma_seq_all_match(v.drop_first(), id, info);
        if seq_all_match(v, id, info) {
            assert forall|i: int| 0 <= i < v.len() implies spec_matches(
                #[trigger] v[i],
                id,
                info,
            ) by {
                if i > 0 {
                    assert(v.drop_first()[i - 1] == v[i]);
                }
            }
        }
        if forall|i: int| 0 <= i < v.len() ==> spec_matches(#[trigger] v[i], id, info) {
            assert forall|j: int| 0 <= j < v.drop_first().len() implies spec_matches(
                #[trigger] v.drop_first()[j],
                id,
                info,
            ) by {
                assert(v.drop_first()[j] == v[j + 1]);
            }
            assert(spec_matches(v[0], id, info));
            assert(seq_all_match(v, id, info));
        }
    }
}


/// Structural equality of filters: commutative for `And`/`Or`, mutual
/// containment for `Any`/`All`, payload equality at the leaves. Different
/// shapes are never equal.
pub open spec fn spec_struct_eq(a: FilterView, b: FilterView) -> bool
    decreases a, b, 0int,
{
    match (a, b) {
        (FilterView::Always(x), FilterView::Always(y)) => x == y,
        (FilterView::Loopback, FilterView::Loopback) => true,
        (FilterView::Public(x), FilterView::Public(y)) => x == y,
        (FilterView::Secure(x), FilterView::Secure(y)) => x == y,
        (
            FilterView::Binding { private_disabled: pd1, public_enabled: pe1 },
            FilterView::Binding { private_disabled: pd2, public_enabled: pe2 },
        ) => ids_set_eq(pd1, pd2) && ids_set_eq(pe1, pe2),
        (FilterView::And(x), FilterView::And(y)) => x.len() == 2 && y.len() == 2 && (
        (spec_struct_eq(x[0], y[0]) && spec_struct_eq(x[1], y[1])) || (spec_struct_eq(x[0], y[1])
            && spec_struct_eq(x[1], y[0]))),
        (FilterView::Or(x), FilterView::Or(y)) => x.len() == 2 && y.len() == 2 && ((spec_struct_eq(
            x[0],
            y[0],
        ) && spec_struct_eq(x[1], y[1])) || (spec_struct_eq(x[0], y[1]) && spec_struct_eq(
            x[1],
            y[0],
        ))),
        (FilterView::Any(x), FilterView::Any(y)) => contained_in(x, y) && contained_rev(x, y),
        (FilterView::All(x), FilterView::All(y)) => contained_in(x, y) && contained_rev(x, y),
        _ => false,
    }
}

/// Some member of `ys` is structurally equal to `e`.
pub open spec fn elem_in(e: FilterView, ys: Seq<FilterView>) -> bool
    decreases e, ys, 2int,
{
    ys.len() > 0 && (spec_struct_eq(e, ys[0]) || elem_in(e, ys.drop_first()))
}

/// Every member of `x` has a structurally equal member in `y`.
pub open spec fn contained_in(x: Seq<FilterView>, y: Seq<FilterView>) -> bool
    decreases x, y, 1int,
{
    x.len() == 0 || (elem_in(x[0], y) && contained_in(x.drop_first(), y))
}

/// Some member of `xs` is structurally equal to `e`.
pub open spec fn elem_in_rev(xs: Seq<FilterView>, e: FilterView) -> bool
    decreases xs, e, 2int,
{
    xs.len() > 0 && (spec_struct_eq(xs[0], e) || elem_in_rev(xs.drop_first(), e))
}

/// Every member of `y` has a structurally equal member in `x`.
pub open spec fn contained_rev(x: Seq<FilterView>, y: Seq<FilterView>) -> bool
    decreases x, y, 1int,
{
    y.len() == 0 || (elem_in_rev(x, y[0]) && contained_rev(x, y.drop_first()))
}

pub proof fn lemma_elem_in(e: FilterView, ys: Seq<FilterView>)
    ensures
        elem_in(e, ys) <==> exists|j: int| 0 <= j < ys.len() && spec_struct_eq(e, #[trigger] ys[j]),
    decreases ys,
{
    if ys.len() > 0 {
        lemma_elem_in(e, ys.drop_first());
        if spec_struct_eq(e, ys[0]) {
            assert(exists|j: int| 0 <= j < ys.len() && spec_struct_eq(e, #[trigger] ys[j]));
        } else if elem_in(e, ys.drop_first()) {
            let j = choose|j: int|
                0 <= j < ys.drop_first().len() && spec_struct_eq(e, #[trigger] ys.drop_first()[j]);
            assert(ys[j + 1] == ys.drop_first()[j]);
        }
        if exists|j: int| 0 <= j < ys.len() && spec_struct_eq(e, #[trigger] ys[j]) {
            let j = choose|j: int| 0 <= j < ys.len() && spec_struct_eq(e, #[trigger] ys[j]);
            if j > 0 {
                assert(ys.drop_first()[j - 1] == ys[j]);
            }
        }
    }
}

pub proof fn lemma_contained_in(x: Seq<FilterView>, y: Seq<FilterView>)
    ensures
        contained_in(x, y) <==> forall|i: int| 0 <= i < x.len() ==> elem_in(#[trigger] x[i], y),
    decreases x,
{
    if x.len() > 0 {
        lemma_contained_in(x.drop_first(), y);
        if contained_in(x, y) {
            assert forall|i: int| 0 <= i < x.len() implies elem_in(#[trigger] x[i], y) by {
                if i > 0 {
                    assert(x.drop_first()[i - 1] == x[i]);
                }
            }
        }
        if forall|i: int| 0 <= i < x.len() ==> elem_in(#[trigger] x[i], y) {
            assert forall|k: int| 0 <= k < x.drop_first().len() implies elem_in(
                #[trigger] x.drop_first()[k],
                y,
            ) by {
                assert(x.drop_first()[k] == x[k + 1]);
            }
            assert(elem_in(x[0], y));
        }
    }
}

pub proof fn lemma_elem_in_rev(xs: Seq<FilterView>, e: FilterView)
    ensures
        elem_in_rev(xs, e) <==> exists|i: int|
            0 <= i < xs.len() && spec_struct_eq(#[trigger] xs[i], e),
    decreases xs,
{
    if xs.len() > 0 {
        lemma_elem_in_rev(xs.drop_first(), e);
        if spec_struct_eq(xs[0], e) {
            assert(exists|i: int| 0 <= i < xs.len() && spec_struct_eq(#[trigger] xs[i], e));
        } else if elem_in_rev(xs.drop_first(), e) {
            let i = choose|i: int|
                0 <= i < xs.drop_first().len() && spec_struct_eq(#[trigger] xs.drop_first()[i], e);
            assert(xs[i + 1] == xs.drop_first()[i]);
        }
        if exists|i: int| 0 <= i < xs.len() && spec_struct_eq(#[trigger] xs[i], e) {
            let i = choose|i: int| 0 <= i < xs.len() && spec_struct_eq(#[trigger] xs[i], e);
            if i > 0 {
                assert(xs.drop_first()[i - 1] == xs[i]);
            }
        }
    }
}

pub proof fn lemma_contained_rev(x: Seq<FilterView>, y: Seq<FilterView>)
    ensures
        contained_rev(x, y) <==> forall|j: int| 0 <= j < y.len() ==> elem_in_rev(x, #[trigger] y[j]),
    decreases y,
{
    if y.len() > 0 {
        lemma_contained_rev(x, y.drop_first());
        if contained_rev(x, y) {
            assert forall|j: int| 0 <= j < y.len() implies elem_in_rev(x, #[trigger] y[j]) by {
                if j > 0 {
                    assert(y.drop_first()[j - 1] == y[j]);
                }
            }
        }
        if forall|j: int| 0 <= j < y.len() ==> elem_in_rev(x, #[trigger] y[j]) {
            assert forall|k: int| 0 <= k < y.drop_first().len() implies elem_in_rev(
                x,
                #[trigger] y.drop_first()[k],
            ) by {
                assert(y.drop_first()[k] == y[k + 1]);
            }
            assert(elem_in_rev(x, y[0]));
        }
    }
}

/// Structurally equal filters select the same gateways. This is the
/// guarantee that lets a reconciler skip work when the cached filter
/// compares equal to the new one: the two filters cannot disagree on any
/// gateway.
pub proof fn lemma_struct_eq_sound(
    a: FilterView,
    b: FilterView,
    id: Seq<char>,
    info: GatewayInfoView,
)
    requires
        spec_struct_eq(a, b),
    ensures
        spec_matches(a, id, info) == spec_matches(b, id, info),
    decreases a, b, 1int,
{
    match (a, b) {
        (
            FilterView::Binding { private_disabled: pd1, public_enabled: pe1 },
            FilterView::Binding { private_disabled: pd2, public_enabled: pe2 },
        ) => {
            lemma_ids_set_eq_member(pd1, pd2, id);
            lemma_ids_set_eq_member(pe1, pe2, id);
        },
        (FilterView::And(x), FilterView::And(y)) => {
            lemma_pair_eq_sound(a, b, x, y, id, info);
        },
        (FilterView::Or(x), FilterView::Or(y)) => {
            lemma_pair_eq_sound(a, b, x, y, id, info);
        },
        (FilterView::Any(x), FilterView::Any(y)) => {
            lemma_seq_any_match(x, id, info);
            lemma_seq_any_match(y, id, info);
            lemma_contained_in(x, y);
            lemma_contained_rev(x, y);
            if seq_any_match(x, id, info) {
                let i = choose|i: int| 0 <= i < x.len() && spec_matches(#[trigger] x[i], id, info);
                lemma_elem_in(x[i], y);
                let j = choose|j: int|
                    0 <= j < y.len() && spec_struct_eq(x[i], #[trigger] y[j]);
                lemma_struct_eq_sound(x[i], y[j], id, info);
            }
            if seq_any_match(y, id, info) {
                let j = choose|j: int| 0 <= j < y.len() && spec_matches(#[trigger] y[j], id, info);
                lemma_elem_in_rev(x, y[j]);
                let i = choose|i: int|
                    0 <= i < x.len() && spec_struct_eq(#[trigger] x[i], y[j]);
                lemma_struct_eq_sound(x[i], y[j], id, info);
            }
        },
        (FilterView::All(x), FilterView::All(y)) => {
            lemma_seq_all_match(x, id, info);
            lemma_seq_all_match(y, id, info);
            lemma_contained_in(x, y);
            lemma_contained_rev(x, y);
            if seq_all_match(x, id, info) {
                assert forall|j: int| 0 <= j < y.len() implies spec_matches(
                    #[trigger] y[j],
                    id,
                    info,
                ) by {
                    lemma_elem_in_rev(x, y[j]);
                    let i = choose|i: int|
                        0 <= i < x.len() && spec_struct_eq(#[trigger] x[i], y[j]);
                    lemma_struct_eq_sound(x[i], y[j], id, info);
                }
            }
            if seq_all_match(y, id, info) {
                assert forall|i: int| 0 <= i < x.len() implies spec_matches(
                    #[trigger] x[i],
                    id,
                    info,
                ) by {
                    lemma_elem_in(x[i], y);
                    let j = choose|j: int|
                        0 <= j < y.len() && spec_struct_eq(x[i], #[trigger] y[j]);
                    lemma_struct_eq_sound(x[i], y[j], id, info);
                }
            }
        },
        _ => {},
    }
}

/// Shared step for the commutative pair cases of [`lemma_struct_eq_sound`].
proof fn lemma_pair_eq_sound(
    a: FilterView,
    b: FilterView,
    x: Seq<FilterView>,
    y: Seq<FilterView>,
    id: Seq<char>,
    info: GatewayInfoView,
)
    requires
        spec_struct_eq(a, b),
        a == FilterView::And(x) && b == FilterView::And(y) || a == FilterView::Or(x) && b
            == FilterView::Or(y),
    ensures
        spec_matches(a, id, info) == spec_matches(b, id, info),
    decreases a, b, 0int,
{
    if spec_struct_eq(x[0], y[0]) && spec_struct_eq(x[1], y[1]) {
        lemma_struct_eq_sound(x[0], y[0], id, info);
        lemma_struct_eq_sound(x[1], y[1], id, info);
    } else {
        lemma_struct_eq_sound(x[0], y[1], id, info);
        lemma_struct_eq_sound(x[1], y[0], id, info);
    }
    lemma_seq_any_match(x, id, info);
    lemma_seq_any_match(y, id, info);
    lemma_seq_all_match(x, id, info);
    lemma_seq_all_match(y, id, info);
    assert(x.len() == 2 && y.len() == 2);
    if seq_any_match(x, id, info) {
        let i = choose|i: int| 0 <= i < x.len() && spec_matches(#[trigger] x[i], id, info);
        assert(i == 0 || i == 1);
        assert(spec_matches(y[0], id, info) || spec_matches(y[1], id, info));
    }
    if seq_any_match(y, id, info) {
        let j = choose|j: int| 0 <= j < y.len() && spec_matches(#[trigger] y[j], id, info);
        assert(j == 0 || j == 1);
        assert(spec_matches(x[0], id, info) || spec_matches(x[1], id, info));
    }
    if seq_all_match(x, id, info) {
        assert forall|j: int| 0 <= j < y.len() implies spec_matches(#[trigger] y[j], id, info) by {
            assert(spec_matches(x[0], id, info) && spec_matches(x[1], id, info));
            assert(j == 0 || j == 1);
        }
    }
    if seq_all_match(y, id, info) {
        assert forall|i: int| 0 <= i < x.len() implies spec_matches(#[trigger] x[i], id, info) by {
            assert(spec_matches(y[0], id, info) && spec_matches(y[1], id, info));
            assert(i == 0 || i == 1);
        }
    }
}


/// The simplified members of a list, in order.
pub open spec fn simplify_seq(v: Seq<FilterView>) -> Seq<FilterView>
    decreases v, 1int,
{
    if v.len() == 0 {
        Seq::empty()
    } else {
        seq![spec_simplify(v[0])] + simplify_seq(v.drop_first())
    }
}

/// Collapse degenerate shapes: `And`/`Or` of two structurally equal filters
/// becomes one of them, an empty `Any` becomes never, an empty `All` always,
/// and a one-member `Any`/`All` becomes its member. Children are simplified
/// first.
pub open spec fn spec_simplify(f: FilterView) -> FilterView
    decreases f, 0int,
{
    match f {
        FilterView::And(v) => if v.len() == 2 {
            let sa = spec_simplify(v[0]);
            let sb = spec_simplify(v[1]);
            if spec_struct_eq(sa, sb) {
                sa
            } else {
                FilterView::And(seq![sa, sb])
            }
        } else {
            f
        },
        FilterView::Or(v) => if v.len() == 2 {
            let sa = spec_simplify(v[0]);
            let sb = spec_simplify(v[1]);
            if spec_struct_eq(sa, sb) {
                sa
            } else {
                FilterView::Or(seq![sa, sb])
            }
        } else {
            f
        },
        FilterView::Any(v) => {
            let sv = simplify_seq(v);
            if sv.len() == 0 {
                FilterView::Always(false)
            } else if sv.len() == 1 {
                sv[0]
            } else {
                FilterView::Any(sv)
            }
        },
        FilterView::All(v) => {
            let sv = simplify_seq(v);
            if sv.len() == 0 {
                FilterView::Always(true)
            } else if sv.len() == 1 {
                sv[0]
            } else {
                FilterView::All(sv)
            }
        },
        _ => f,
    }
}

pub proof fn lemma_simplify_seq(v: Seq<FilterView>)
    ensures
        simplify_seq(v).len() == v.len(),
        forall|i: int| 0 <= i < v.len() ==> simplify_seq(v)[i] == spec_simplify(#[trigger] v[i]),
    decreases v,
{
    if v.len() > 0 {
        lemma_simplify_seq(v.drop_first());
        assert(simplify_seq(v) == seq![spec_simplify(v[0])] + simplify_seq(v.drop_first()));
        assert forall|i: int| 0 <= i < v.len() implies simplify_seq(v)[i] == spec_simplify(
            #[trigger] v[i],
        ) by {
            if i > 0 {
                assert(v.drop_first()[i - 1] == v[i]);
                assert(simplify_seq(v)[i] == simplify_seq(v.drop_first())[i - 1]);
            }
        }
    }
}

/// Simplifying never changes which gateways a filter selects.
pub proof fn lemma_simplify_sound(f: FilterView, id: Seq<char>, info: GatewayInfoView)
    ensures
        spec_matches(spec_simplify(f), id, info) == spec_matches(f, id, info),
    decreases f,
{
    match f {
        FilterView::And(v) => {
            if v.len() == 2 {
                lemma_simplify_sound(v[0], id, info);
                lemma_simplify_sound(v[1], id, info);
                let sa = spec_simplify(v[0]);
                let sb = spec_simplify(v[1]);
                lemma_seq_all_match(v, id, info);
                assert(spec_matches(f, id, info) == (spec_matches(v[0], id, info) && spec_matches(
                    v[1],
                    id,
                    info,
                )));
                if spec_struct_eq(sa, sb) {
                    lemma_struct_eq_sound(sa, sb, id, info);
                } else {
                    let sv = seq![sa, sb];
                    lemma_seq_all_match(sv, id, info);
                    assert(sv[0] == sa && sv[1] == sb);
                    assert(spec_matches(FilterView::And(sv), id, info) == (spec_matches(
                        sa,
                        id,
                        info,
                    ) && spec_matches(sb, id, info)));
                }
            }
        },
        FilterView::Or(v) => {
            if v.len() == 2 {
                lemma_simplify_sound(v[0], id, info);
                lemma_simplify_sound(v[1], id, info);
                let sa = spec_simplify(v[0]);
                let sb = spec_simplify(v[1]);
                lemma_seq_any_match(v, id, info);
                assert(spec_matches(f, id, info) == (spec_matches(v[0], id, info) || spec_matches(
                    v[1],
                    id,
                    info,
                ))) by {
                    if spec_matches(v[0], id, info) || spec_matches(v[1], id, info) {
                        assert(exists|i: int|
                            0 <= i < v.len() && spec_matches(#[trigger] v[i], id, info));
                    } else {
                        assert forall|i: int| 0 <= i < v.len() implies !spec_matches(
                            #[trigger] v[i],
                            id,
                            info,
                        ) by {
                            assert(i == 0 || i == 1);
                        }
                    }
                }
                if spec_struct_eq(sa, sb) {
                    lemma_struct_eq_sound(sa, sb, id, info);
                } else {
                    let sv = seq![sa, sb];
                    lemma_seq_any_match(sv, id, info);
                    assert(sv[0] == sa && sv[1] == sb);
                    assert(spec_matches(FilterView::Or(sv), id, info) == (spec_matches(
                        sa,
                        id,
                        info,
                    ) || spec_matches(sb, id, info))) by {
                        if spec_matches(sa, id, info) || spec_matches(sb, id, info) {
                            assert(exists|i: int|
                                0 <= i < sv.len() && spec_matches(#[trigger] sv[i], id, info));
                        } else {
                            assert forall|i: int| 0 <= i < sv.len() implies !spec_matches(
                                #[trigger] sv[i],
                                id,
                                info,
                            ) by {
                                assert(i == 0 || i == 1);
                            }
                        }
                    }
                }
            }
        },
        FilterView::Any(v) => {
            let sv = simplify_seq(v);
            lemma_simplify_seq(v);
            lemma_seq_any_match(v, id, info);
            lemma_seq_any_match(sv, id, info);
            assert forall|i: int| 0 <= i < v.len() implies spec_matches(
                #[trigger] sv[i],
                id,
                info,
            ) == spec_matches(v[i], id, info) by {
                lemma_simplify_sound(v[i], id, info);
            }
            assert(seq_any_match(sv, id, info) == seq_any_match(v, id, info)) by {
                if seq_any_match(sv, id, info) {
                    let i = choose|i: int|
                        0 <= i < sv.len() && spec_matches(#[trigger] sv[i], id, info);
                    assert(spec_matches(v[i], id, info));
                }
                if seq_any_match(v, id, info) {
                    let i = choose|i: int|
                        0 <= i < v.len() && spec_matches(#[trigger] v[i], id, info);
                    assert(spec_matches(sv[i], id, info));
                }
            }
            if sv.len() == 1 {
                assert(spec_matches(sv[0], id, info) == seq_any_match(sv, id, info));
            }
        },
        FilterView::All(v) => {
            let sv = simplify_seq(v);
            lemma_simplify_seq(v);
            lemma_seq_all_match(v, id, info);
            lemma_seq_all_match(sv, id, info);
            assert forall|i: int| 0 <= i < v.len() implies spec_matches(
                #[trigger] sv[i],
                id,
                info,
            ) == spec_matches(v[i], id, info) by {
                lemma_simplify_sound(v[i], id, info);
            }
            assert(seq_all_match(sv, id, info) == seq_all_match(v, id, info));
            if sv.len() == 1 {
                assert(spec_matches(sv[0], id, info) == seq_all_match(sv, id, info));
            }
        },
        _ => {},
    }
}

/// The equality reconcilers use: structural equality of the simplified
/// forms.
pub open spec fn spec_filter_eq(a: FilterView, b: FilterView) -> bool {
    spec_struct_eq(spec_simplify(a), spec_simplify(b))
}

/// Filters that compare equal select the same gateways, whatever their
/// surface form.
pub proof fn lemma_filter_eq_semantics(
    a: FilterView,
    b: FilterView,
    id: Seq<char>,
    info: GatewayInfoView,
)
    requires
        spec_filter_eq(a, b),
    ensures
        spec_matches(a, id, info) == spec_matches(b, id, info),
{
    lemma_simplify_sound(a, id, info);
    lemma_simplify_sound(b, id, info);
    lemma_struct_eq_sound(spec_simplify(a), spec_simplify(b), id, info);
}

impl InterfaceFilter {
    /// Whether the gateway `(id, info)` passes this filter.
    pub fn filter(&self, id: &GatewayId, info: &NetworkInterfaceInfo) -> (r: bool)
        ensures
            r == spec_matches(self@, id@, info@),
        decreases *self,
    {
        match self {
            InterfaceFilter::Always(b) => *b,
            InterfaceFilter::Loopback(_) => match &info.ip_info {
                Some(ip) => {
                    let n = ip.subnets.len();
                    let mut i: usize = 0;
                    loop
                        invariant
                            i <= n,
                            n == ip.subnets@.len(),
                            info.ip_info == Some(*ip),
                            self@ == FilterView::Loopback,
                            forall|k: int|
                                0 <= k < i ==> !spec_net_contains(
                                    #[trigger] ip.subnets@[k],
                                    IpAddress::V4(0x7f000001u32),
                                ),
                        decreases n - i,
                    {
                        if i == n {
                            return false;
                        }
                        if net_contains(&ip.subnets[i], &IpAddress::V4(IPV4_LOCALHOST)) {
                            proof {
                                assert(info@.ip_info matches Some(ipv) && spec_net_contains(
                                    ipv.subnets[i as int],
                                    IpAddress::V4(0x7f000001u32),
                                ));
                            }
                            return true;
                        }
                        i = i + 1;
                    }
                },
                None => false,
            },
            InterfaceFilter::Public(p) => p.public || !info.public(),
            InterfaceFilter::Secure(s) => s.secure || info.secure(),
            InterfaceFilter::Binding(b) => {
                if info.public() {
                    ids_contains(&b.public_enabled, id)
                } else {
                    !ids_contains(&b.private_disabled, id)
                }
            },
            InterfaceFilter::And(a) => {
                let ra = a.0.filter(id, info);
                let rb = a.1.filter(id, info);
                proof {
                    let v = seq![(*a.0)@, (*a.1)@];
                    assert(self@ == FilterView::And(v));
                    assert(v[0] == (*a.0)@ && v[1] == (*a.1)@);
                    lemma_seq_all_match(v, id@, info@);
                    if ra && rb {
                        assert forall|i: int| 0 <= i < v.len() implies spec_matches(
                            #[trigger] v[i],
                            id@,
                            info@,
                        ) by {
                            assert(i == 0 || i == 1);
                        }
                    } else {
                        if !ra {
                            assert(!spec_matches(v[0], id@, info@));
                        } else {
                            assert(!spec_matches(v[1], id@, info@));
                        }
                    }
                }
                ra && rb
            },
            InterfaceFilter::Or(o) => {
                let ra = o.0.filter(id, info);
                let rb = o.1.filter(id, info);
                proof {
                    let v = seq![(*o.0)@, (*o.1)@];
                    assert(self@ == FilterView::Or(v));
                    assert(v[0] == (*o.0)@ && v[1] == (*o.1)@);
                    lemma_seq_any_match(v, id@, info@);
                    if ra {
                        assert(spec_matches(v[0], id@, info@));
                    } else if rb {
                        assert(spec_matches(v[1], id@, info@));
                    } else {
                        assert forall|i: int| 0 <= i < v.len() implies !spec_matches(
                            #[trigger] v[i],
                            id@,
                            info@,
                        ) by {
                            assert(i == 0 || i == 1);
                        }
                    }
                }
                ra || rb
            },
            InterfaceFilter::Any(v) => {
                let ghost s = views_of(v.0@);
                proof {
                    lemma_views_of(v.0@);
                }
                let n = v.0.len();
                let mut i: usize = 0;
                loop
                    invariant
                        i <= n,
                        n == v.0@.len(),
                        s == views_of(v.0@),
                        s.len() == n,
                        forall|k: int| 0 <= k < n ==> s[k] == (#[trigger] v.0@[k])@,
                        self == InterfaceFilter::Any(*v),
                        self@ == FilterView::Any(s),
                        forall|k: int| 0 <= k < i ==> !spec_matches(#[trigger] s[k], id@, info@),
                    decreases n - i,
                {
                    if i == n {
                        proof {
                            lemma_seq_any_match(s, id@, info@);
                        }
                        return false;
                    }
                    proof {
                        assert(decreases_to!(*self => *v));
                        assert(decreases_to!(*v => v.0));
                        assert(decreases_to!(v.0 => v.0@));
                        assert(decreases_to!(v.0@ => v.0@[i as int]));
                    }
                    if v.0[i].filter(id, info) {
                        proof {
                            assert(spec_matches(s[i as int], id@, info@));
                            lemma_any_intro(s, id@, info@, i as int);
                            assert(spec_matches(self@, id@, info@));
                        }
                        return true;
                    }
                    i = i + 1;
                }
            },
            InterfaceFilter::All(v) => {
                let ghost s = views_of(v.0@);
                proof {
                    lemma_views_of(v.0@);
                }
                let n = v.0.len();
                let mut i: usize = 0;
                loop
                    invariant
                        i <= n,
                        n == v.0@.len(),
                        s == views_of(v.0@),
                        s.len() == n,
                        forall|k: int| 0 <= k < n ==> s[k] == (#[trigger] v.0@[k])@,
                        self == InterfaceFilter::All(*v),
                        self@ == FilterView::All(s),
                        forall|k: int| 0 <= k < i ==> spec_matches(#[trigger] s[k], id@, info@),
                    decreases n - i,
                {
                    if i == n {
                        proof {
                            lemma_seq_all_match(s, id@, info@);
                        }
                        return true;
                    }
                    proof {
                        assert(decreases_to!(*self => *v));
                        assert(decreases_to!(*v => v.0));
                        assert(decreases_to!(v.0 => v.0@));
                        assert(decreases_to!(v.0@ => v.0@[i as int]));
                    }
                    if !v.0[i].filter(id, info) {
                        proof {
                            assert(!spec_matches(s[i as int], id@, info@));
                            lemma_all_elim(s, id@, info@, i as int);
                            assert(!spec_matches(self@, id@, info@));
                        }
                        return false;
                    }
                    i = i + 1;
                }
            },
        }
    }
}

/// One passing member makes `Any` pass.
pub proof fn lemma_any_intro(v: Seq<FilterView>, id: Seq<char>, info: GatewayInfoView, i: int)
    requires
        0 <= i < v.len(),
        spec_matches(v[i], id, info),
    ensures
        spec_matches(FilterView::Any(v), id, info),
{
    lemma_seq_any_match(v, id, info);
    assert(exists|k: int| 0 <= k < v.len() && spec_matches(#[trigger] v[k], id, info));
}

/// One failing member makes `All` fail.
pub proof fn lemma_all_elim(v: Seq<FilterView>, id: Seq<char>, info: GatewayInfoView, i: int)
    requires
        0 <= i < v.len(),
        !spec_matches(v[i], id, info),
    ensures
        !spec_matches(FilterView::All(v), id, info),
{
    lemma_seq_all_match(v, id, info);
}


/// Whether some member of `ys` is structurally equal to `e`.
fn elem_equal(e: &InterfaceFilter, ys: &Vec<InterfaceFilter>) -> (r: bool)
    ensures
        r == elem_in(e@, views_of(ys@)),
    decreases *e, 4int,
{
    proof {
        lemma_views_of(ys@);
        lemma_elem_in(e@, views_of(ys@));
    }
    let n = ys.len();
    let mut j: usize = 0;
    while j < n
        invariant
            j <= n,
            n == ys@.len(),
            views_of(ys@).len() == n,
            forall|k: int| 0 <= k < n ==> views_of(ys@)[k] == (#[trigger] ys@[k])@,
            elem_in(e@, views_of(ys@)) <==> exists|k: int|
                0 <= k < n && spec_struct_eq(e@, #[trigger] views_of(ys@)[k]),
            forall|k: int| 0 <= k < j ==> !spec_struct_eq(e@, #[trigger] views_of(ys@)[k]),
        decreases n - j,
    {
        if struct_equal(e, &ys[j]) {
            proof {
                assert(spec_struct_eq(e@, views_of(ys@)[j as int]));
            }
            return true;
        }
        j = j + 1;
    }
    false
}

/// Whether some member of `xs` is structurally equal to `e`.
fn elem_equal_rev(xs: &Vec<InterfaceFilter>, e: &InterfaceFilter) -> (r: bool)
    ensures
        r == elem_in_rev(views_of(xs@), e@),
    decreases xs@, 1int,
{
    proof {
        lemma_views_of(xs@);
        lemma_elem_in_rev(views_of(xs@), e@);
    }
    let n = xs.len();
    let mut i: usize = 0;
    while i < n
        invariant
            i <= n,
            n == xs@.len(),
            views_of(xs@).len() == n,
            forall|k: int| 0 <= k < n ==> views_of(xs@)[k] == (#[trigger] xs@[k])@,
            elem_in_rev(views_of(xs@), e@) <==> exists|k: int|
                0 <= k < n && spec_struct_eq(#[trigger] views_of(xs@)[k], e@),
            forall|k: int| 0 <= k < i ==> !spec_struct_eq(#[trigger] views_of(xs@)[k], e@),
        decreases n - i,
    {
        proof {
            assert(decreases_to!(xs@ => xs@[i as int]));
        }
        if struct_equal(&xs[i], e) {
            proof {
                assert(spec_struct_eq(views_of(xs@)[i as int], e@));
            }
            return true;
        }
        i = i + 1;
    }
    false
}

/// Mutual containment of two filter lists under structural equality.
fn contain_each_other(x: &Vec<InterfaceFilter>, y: &Vec<InterfaceFilter>) -> (r: bool)
    ensures
        r == (contained_in(views_of(x@), views_of(y@)) && contained_rev(
            views_of(x@),
            views_of(y@),
        )),
    decreases x@, 2int,
{
    let ghost vx = views_of(x@);
    let ghost vy = views_of(y@);
    proof {
        lemma_views_of(x@);
        lemma_views_of(y@);
        lemma_contained_in(vx, vy);
        lemma_contained_rev(vx, vy);
    }
    let n = x.len();
    let mut i: usize = 0;
    while i < n
        invariant
            i <= n,
            n == x@.len(),
            vx == views_of(x@) && vy == views_of(y@),
            vx.len() == n,
            forall|k: int| 0 <= k < n ==> vx[k] == (#[trigger] x@[k])@,
            contained_in(vx, vy) <==> (forall|k: int|
                0 <= k < vx.len() ==> elem_in(#[trigger] vx[k], vy)),
            forall|k: int| 0 <= k < i ==> elem_in(#[trigger] vx[k], vy),
        decreases n - i,
    {
        proof {
            assert(decreases_to!(x@ => x@[i as int]));
        }
        if !elem_equal(&x[i], y) {
            proof {
                assert(!elem_in(vx[i as int], vy));
            }
            return false;
        }
        i = i + 1;
    }
    let m = y.len();
    let mut j: usize = 0;
    while j < m
        invariant
            j <= m,
            m == y@.len(),
            vx == views_of(x@) && vy == views_of(y@),
            vy.len() == m,
            contained_in(vx, vy),
            forall|k: int| 0 <= k < m ==> vy[k] == (#[trigger] y@[k])@,
            contained_rev(vx, vy) <==> (forall|k: int|
                0 <= k < vy.len() ==> elem_in_rev(vx, #[trigger] vy[k])),
            forall|k: int| 0 <= k < j ==> elem_in_rev(vx, #[trigger] vy[k]),
        decreases m - j,
    {
        if !elem_equal_rev(x, &y[j]) {
            proof {
                assert(!elem_in_rev(vx, vy[j as int]));
            }
            return false;
        }
        j = j + 1;
    }
    true
}

/// Structural equality: commutative for `And`/`Or`, mutual containment for
/// `Any`/`All`.
pub fn struct_equal(a: &InterfaceFilter, b: &InterfaceFilter) -> (r: bool)
    ensures
        r == spec_struct_eq(a@, b@),
    decreases *a, 3int,
{
    match (a, b) {
        (InterfaceFilter::Always(x), InterfaceFilter::Always(y)) => *x == *y,
        (InterfaceFilter::Loopback(_), InterfaceFilter::Loopback(_)) => true,
        (InterfaceFilter::Public(x), InterfaceFilter::Public(y)) => x.public == y.public,
        (InterfaceFilter::Secure(x), InterfaceFilter::Secure(y)) => x.secure == y.secure,
        (InterfaceFilter::Binding(x), InterfaceFilter::Binding(y)) => {
            let pd = ids_all_in(&x.private_disabled, &y.private_disabled) && ids_all_in(
                &y.private_disabled,
                &x.private_disabled,
            );
            let pe = pd && ids_all_in(&x.public_enabled, &y.public_enabled) && ids_all_in(
                &y.public_enabled,
                &x.public_enabled,
            );
            pe
        },
        (InterfaceFilter::And(x), InterfaceFilter::And(y)) => {
            let straight = struct_equal(&x.0, &y.0) && struct_equal(&x.1, &y.1);
            let crossed = !straight && struct_equal(&x.0, &y.1) && struct_equal(&x.1, &y.0);
            proof {
                let vx = seq![(*x.0)@, (*x.1)@];
                let vy = seq![(*y.0)@, (*y.1)@];
                assert(a@ == FilterView::And(vx) && b@ == FilterView::And(vy));
                assert(vx[0] == (*x.0)@ && vx[1] == (*x.1)@);
                assert(vy[0] == (*y.0)@ && vy[1] == (*y.1)@);
            }
            straight || crossed
        },
        (InterfaceFilter::Or(x), InterfaceFilter::Or(y)) => {
            let straight = struct_equal(&x.0, &y.0) && struct_equal(&x.1, &y.1);
            let crossed = !straight && struct_equal(&x.0, &y.1) && struct_equal(&x.1, &y.0);
            proof {
                let vx = seq![(*x.0)@, (*x.1)@];
                let vy = seq![(*y.0)@, (*y.1)@];
                assert(a@ == FilterView::Or(vx) && b@ == FilterView::Or(vy));
                assert(vx[0] == (*x.0)@ && vx[1] == (*x.1)@);
                assert(vy[0] == (*y.0)@ && vy[1] == (*y.1)@);
            }
            straight || crossed
        },
        (InterfaceFilter::Any(x), InterfaceFilter::Any(y)) => {
            proof {
                assert(decreases_to!(*a => *x));
                assert(decreases_to!(*x => x.0));
                assert(decreases_to!(x.0 => x.0@));
            }
            let r = contain_each_other(&x.0, &y.0);
            proof {
                assert(a@ == FilterView::Any(views_of(x.0@)));
                assert(b@ == FilterView::Any(views_of(y.0@)));
            }
            r
        },
        (InterfaceFilter::All(x), InterfaceFilter::All(y)) => {
            proof {
                assert(decreases_to!(*a => *x));
                assert(decreases_to!(*x => x.0));
                assert(decreases_to!(x.0 => x.0@));
            }
            let r = contain_each_other(&x.0, &y.0);
            proof {
                assert(a@ == FilterView::All(views_of(x.0@)));
                assert(b@ == FilterView::All(views_of(y.0@)));
            }
            r
        },
        _ => false,
    }
}

impl InterfaceFilter {
    /// A deep copy whose view equals this one's.
    pub fn duplicate(&self) -> (r: InterfaceFilter)
        ensures
            r@ == self@,
        decreases *self,
    {
        match self {
            InterfaceFilter::Always(b) => InterfaceFilter::Always(*b),
            InterfaceFilter::Loopback(_) => InterfaceFilter::Loopback(LoopbackFilter),
            InterfaceFilter::Public(p) => InterfaceFilter::Public(PublicFilter { public: p.public }),
            InterfaceFilter::Secure(s) => InterfaceFilter::Secure(
                SecureFilter { secure: s.secure },
            ),
            InterfaceFilter::Binding(b) => {
                let r = InterfaceFilter::Binding(
                    BindingFilter {
                        private_disabled: ids_duplicate(&b.private_disabled),
                        public_enabled: ids_duplicate(&b.public_enabled),
                    },
                );
                proof {
                    assert(r@ == self@);
                }
                r
            },
            InterfaceFilter::And(x) => InterfaceFilter::And(
                AndFilter(Box::new(x.0.duplicate()), Box::new(x.1.duplicate())),
            ),
            InterfaceFilter::Or(x) => InterfaceFilter::Or(
                OrFilter(Box::new(x.0.duplicate()), Box::new(x.1.duplicate())),
            ),
            InterfaceFilter::Any(x) => InterfaceFilter::Any(AnyFilter(duplicate_list(&x.0))),
            InterfaceFilter::All(x) => InterfaceFilter::All(AllFilter(duplicate_list(&x.0))),
        }
    }

    /// Collapse degenerate shapes, leaving the meaning unchanged (see
    /// [`lemma_simplify_sound`]).
    pub fn simplify(&self) -> (r: InterfaceFilter)
        ensures
            r@ == spec_simplify(self@),
        decreases *self,
    {
        match self {
            InterfaceFilter::Always(b) => InterfaceFilter::Always(*b),
            InterfaceFilter::Loopback(_) => InterfaceFilter::Loopback(LoopbackFilter),
            InterfaceFilter::Public(p) => InterfaceFilter::Public(PublicFilter { public: p.public }),
            InterfaceFilter::Secure(s) => InterfaceFilter::Secure(
                SecureFilter { secure: s.secure },
            ),
            InterfaceFilter::Binding(b) => {
                let r = InterfaceFilter::Binding(
                    BindingFilter {
                        private_disabled: ids_duplicate(&b.private_disabled),
                        public_enabled: ids_duplicate(&b.public_enabled),
                    },
                );
                proof {
                    assert(r@ == self@);
                }
                r
            },
            InterfaceFilter::And(x) => {
                let sa = x.0.simplify();
                let sb = x.1.simplify();
                proof {
                    let v = seq![(*x.0)@, (*x.1)@];
                    assert(self@ == FilterView::And(v));
                    assert(v[0] == (*x.0)@ && v[1] == (*x.1)@);
                }
                if struct_equal(&sa, &sb) {
                    sa
                } else {
                    let r = InterfaceFilter::And(AndFilter(Box::new(sa), Box::new(sb)));
                    proof {
                        assert(r@->And_0 =~= spec_simplify(self@)->And_0);
                    }
                    r
                }
            },
            InterfaceFilter::Or(x) => {
                let sa = x.0.simplify();
                let sb = x.1.simplify();
                proof {
                    let v = seq![(*x.0)@, (*x.1)@];
                    assert(self@ == FilterView::Or(v));
                    assert(v[0] == (*x.0)@ && v[1] == (*x.1)@);
                }
                if struct_equal(&sa, &sb) {
                    sa
                } else {
                    let r = InterfaceFilter::Or(OrFilter(Box::new(sa), Box::new(sb)));
                    proof {
                        assert(r@->Or_0 =~= spec_simplify(self@)->Or_0);
                    }
                    r
                }
            },
            InterfaceFilter::Any(x) => {
                let mut sv = simplify_list(&x.0);
                proof {
                    assert(self@ == FilterView::Any(views_of(x.0@)));
                }
                if sv.len() == 0 {
                    InterfaceFilter::Always(false)
                } else if sv.len() == 1 {
                    proof {
                        lemma_views_of(sv@);
                    }
                    let one = sv.remove(0);
                    proof {
                        assert(one@ == simplify_seq(views_of(x.0@))[0]);
                    }
                    one
                } else {
                    let r = InterfaceFilter::Any(AnyFilter(sv));
                    proof {
                        lemma_views_of(sv@);
                        assert(r@->Any_0 =~= simplify_seq(views_of(x.0@)));
                    }
                    r
                }
            },
            InterfaceFilter::All(x) => {
                let mut sv = simplify_list(&x.0);
                proof {
                    assert(self@ == FilterView::All(views_of(x.0@)));
                }
                if sv.len() == 0 {
                    InterfaceFilter::Always(true)
                } else if sv.len() == 1 {
                    proof {
                        lemma_views_of(sv@);
                    }
                    let one = sv.remove(0);
                    proof {
                        assert(one@ == simplify_seq(views_of(x.0@))[0]);
                    }
                    one
                } else {
                    let r = InterfaceFilter::All(AllFilter(sv));
                    proof {
                        lemma_views_of(sv@);
                        assert(r@->All_0 =~= simplify_seq(views_of(x.0@)));
                    }
                    r
                }
            },
        }
    }
}

/// Deep copies of the filters in a list.
fn duplicate_list(xs: &Vec<InterfaceFilter>) -> (r: Vec<InterfaceFilter>)
    ensures
        views_of(r@) =~= views_of(xs@),
    decreases xs@,
{
    proof {
        lemma_views_of(xs@);
    }
    let n = xs.len();
    let mut r: Vec<InterfaceFilter> = Vec::new();
    let mut i: usize = 0;
    while i < n
        invariant
            i <= n,
            n == xs@.len(),
            r@.len() == i,
            forall|k: int| 0 <= k < n ==> views_of(xs@)[k] == (#[trigger] xs@[k])@,
            views_of(xs@).len() == n,
            forall|k: int| 0 <= k < i ==> (#[trigger] r@[k])@ == xs@[k]@,
        decreases n - i,
    {
        proof {
            assert(decreases_to!(xs@ => xs@[i as int]));
        }
        r.push(xs[i].duplicate());
        i = i + 1;
    }
    proof {
        lemma_views_of(r@);
        assert forall|k: int| 0 <= k < n implies views_of(r@)[k] == views_of(xs@)[k] by {
            assert(views_of(r@)[k] == r@[k]@);
        }
        assert(views_of(r@) =~= views_of(xs@));
    }
    r
}

/// Simplified copies of the filters in a list.
fn simplify_list(xs: &Vec<InterfaceFilter>) -> (r: Vec<InterfaceFilter>)
    ensures
        views_of(r@) =~= simplify_seq(views_of(xs@)),
    decreases xs@,
{
    proof {
        lemma_views_of(xs@);
        lemma_simplify_seq(views_of(xs@));
    }
    let n = xs.len();
    let mut r: Vec<InterfaceFilter> = Vec::new();
    let mut i: usize = 0;
    while i < n
        invariant
            i <= n,
            n == xs@.len(),
            r@.len() == i,
            forall|k: int| 0 <= k < n ==> views_of(xs@)[k] == (#[trigger] xs@[k])@,
            views_of(xs@).len() == n,
            simplify_seq(views_of(xs@)).len() == n,
            forall|k: int|
                0 <= k < n ==> #[trigger] simplify_seq(views_of(xs@))[k] == spec_simplify(
                    views_of(xs@)[k],
                ),
            forall|k: int| 0 <= k < i ==> (#[trigger] r@[k])@ == spec_simplify(xs@[k]@),
        decreases n - i,
    {
        proof {
            assert(decreases_to!(xs@ => xs@[i as int]));
        }
        r.push(xs[i].simplify());
        i = i + 1;
    }
    proof {
        lemma_views_of(r@);
        assert forall|k: int| 0 <= k < n implies views_of(r@)[k] == simplify_seq(views_of(xs@))[k]
            by {
            assert(views_of(r@)[k] == r@[k]@);
        }
        assert(views_of(r@) =~= simplify_seq(views_of(xs@)));
    }
    r
}

/// The equality reconcilers cache against: the simplified forms compare
/// structurally equal. Filters that compare equal select exactly the same
/// gateways (see [`lemma_filter_eq_semantics`]).
pub fn filter_eq(a: &InterfaceFilter, b: &InterfaceFilter) -> (r: bool)
    ensures
        r == spec_filter_eq(a@, b@),
{
    let sa = a.simplify();
    let sb = b.simplify();
    struct_equal(&sa, &sb)
}

} // verus!
