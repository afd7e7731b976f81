//! A small set keyed only by equality, for element types with no cheap
//! order or hash: a vector that never holds two equal elements.

use vstd::prelude::*;
use vstd::pervasive::VecAdditionalExecFns;
use vstd::std_specs::cmp::PartialEqSpec;

verus! {

/// Whether `s` holds an element equal (under the type's own equality) to
/// `v`.
pub open spec fn spec_member<T: PartialEqSpec>(s: Seq<T>, v: T) -> bool {
    exists|i: int| 0 <= i < s.len() && (#[trigger] s[i]).eq_spec(&v)
}

/// The type's equality is an equivalence relation, as `Eq` demands of its
/// implementors. The set's mutating operations assume it; integers, tuples
/// of integers and this crate's own equality impls all satisfy it.
pub open spec fn obeys_equivalence<T: PartialEqSpec>() -> bool {
    &&& forall|a: T| #[trigger] a.eq_spec(&a)
    &&& forall|a: T, b: T| #[trigger] a.eq_spec(&b) ==> b.eq_spec(&a)
    &&& forall|a: T, b: T, c: T|
        #![trigger a.eq_spec(&b), b.eq_spec(&c)]
        a.eq_spec(&b) && b.eq_spec(&c) ==> a.eq_spec(&c)
}

/// The element at `k` of `kept` appears in `pre` at or beyond `lo`.
pub open spec fn drawn_from_tail<T>(kept: Seq<T>, k: int, pre: Seq<T>, lo: int) -> bool {
    exists|j: int| lo <= j < pre.len() && kept[k] == #[trigger] pre[j]
}

/// A set over `T`'s equality, stored as a duplicate-free vector.
pub struct EqSet<T>(pub Vec<T>);

impl<T: PartialEq> View for EqSet<T> {
    type V = Seq<T>;

    open spec fn view(&self) -> Seq<T> {
        self.0@
    }
}

impl<T: PartialEq> EqSet<T> {
    /// No two held elements are equal.
    pub open spec fn wf(self) -> bool {
        forall|i: int, j: int|
            #![trigger self@[i], self@[j]]
            0 <= i < j < self@.len() ==> !self@[i].eq_spec(&self@[j])
    }

    pub fn new() -> (r: EqSet<T>)
        ensures
            r@.len() == 0,
            r.wf(),
    {
        EqSet(Vec::new())
    }

    pub fn clear(&mut self)
        ensures
            final(self)@.len() == 0,
            final(self).wf(),
    {
        self.0.clear();
    }

    /// Index of the first element equal to `value`, if any.
    fn position(&self, value: &T) -> (r: Option<usize>)
        requires
            T::obeys_eq_spec(),
        ensures
            match r {
                Some(i) => i < self@.len() && self@[i as int].eq_spec(value),
                None => !spec_member(self@, *value),
            },
    {
        let n = self.0.len();
        let mut i: usize = 0;
        while i < n
            invariant
                i <= n,
                n == self@.len(),
                T::obeys_eq_spec(),
                forall|k: int| 0 <= k < i ==> !(#[trigger] self@[k]).eq_spec(value),
            decreases n - i,
        {
            if self.0[i] == *value {
                return Some(i);
            }
            i = i + 1;
        }
        None
    }

    /// The held element equal to `value`, if any.
    pub fn get(&self, value: &T) -> (r: Option<&T>)
        requires
            T::obeys_eq_spec(),
        ensures
            match r {
                Some(e) => spec_member(self@, *value) && e.eq_spec(value) && self@.contains(*e),
                None => !spec_member(self@, *value),
            },
    {
        match self.position(value) {
            Some(i) => {
                let e = &self.0[i];
                proof {
                    assert(self@[i as int] == *e);
                }
                Some(e)
            },
            None => None,
        }
    }

    /// Remove and return some element; no promise which.
    pub fn pop(&mut self) -> (r: Option<T>)
        requires
            old(self).wf(),
        ensures
            final(self).wf(),
            match r {
                Some(v) => old(self)@.len() > 0 && v == old(self)@.last() && final(self)@ == old(
                    self,
                )@.drop_last(),
                None => old(self)@.len() == 0 && final(self)@ == old(self)@,
            },
    {
        self.0.pop()
    }

    /// Whether an element equal to `value` is held.
    pub fn contains(&self, value: &T) -> (r: bool)
        requires
            T::obeys_eq_spec(),
        ensures
            r == spec_member(self@, *value),
    {
        self.position(value).is_some()
    }

    /// Insert `value`; when an equal element was held it is replaced and
    /// returned.
    pub fn insert(&mut self, value: T) -> (r: Option<T>)
        requires
            T::obeys_eq_spec(),
            obeys_equivalence::<T>(),
            old(self).wf(),
        ensures
            final(self).wf(),
            match r {
                Some(prev) => {
                    &&& spec_member(old(self)@, value)
                    &&& prev.eq_spec(&value)
                    &&& exists|i: int|
                        0 <= i < old(self)@.len() && old(self)@[i] == prev && final(self)@ == old(
                            self,
                        )@.update(i, value)
                },
                None => {
                    &&& !spec_member(old(self)@, value)
                    &&& final(self)@ == old(self)@.push(value)
                },
            },
    {
        match self.position(&value) {
            Some(i) => {
                let mut v = value;
                self.0.set_and_swap(i, &mut v);
                proof {
                    let pre = old(self)@;
                    let value_g = pre[i as int];
                    assert forall|a: int, b: int|
                        #![trigger self@[a], self@[b]]
                        0 <= a < b < self@.len() implies !self@[a].eq_spec(&self@[b]) by {
                        if a != i as int && b != i as int {
                            assert(self@[a] == pre[a] && self@[b] == pre[b]);
                        } else if a == i as int {
                            assert(self@[b] == pre[b]);
                            if self@[a].eq_spec(&self@[b]) {
                                // pre[i] eq new value, new value eq pre[b]
                                assert(pre[i as int].eq_spec(&self@[a]));
                                assert(pre[i as int].eq_spec(&pre[b]));
                                assert(false);
                            }
                        } else {
                            assert(self@[a] == pre[a]);
                            if self@[a].eq_spec(&self@[b]) {
                                assert(self@[b].eq_spec(&pre[a]));
                                assert(pre[i as int].eq_spec(&self@[b]));
                                assert(pre[i as int].eq_spec(&pre[a]));
                                assert(false);
                            }
                        }
                    }
                }
                Some(v)
            },
            None => {
                self.0.push(value);
                proof {
                    assert forall|a: int, b: int|
                        #![trigger self@[a], self@[b]]
                        0 <= a < b < self@.len() implies !self@[a].eq_spec(&self@[b]) by {
                        if b == self@.len() - 1 {
                            assert(!old(self)@[a].eq_spec(&self@[b]));
                        } else {
                            assert(self@[a] == old(self)@[a] && self@[b] == old(self)@[b]);
                        }
                    }
                }
                None
            },
        }
    }

    /// Insert `value` only when no equal element is held; reports whether it
    /// was inserted.
    pub fn try_insert(&mut self, value: T) -> (r: bool)
        requires
            T::obeys_eq_spec(),
            old(self).wf(),
        ensures
            final(self).wf(),
            r == !spec_member(old(self)@, value),
            r ==> final(self)@ == old(self)@.push(value),
            !r ==> final(self)@ == old(self)@,
    {
        if self.contains(&value) {
            false
        } else {
            self.0.push(value);
            proof {
                assert forall|a: int, b: int|
                    #![trigger self@[a], self@[b]]
                    0 <= a < b < self@.len() implies !self@[a].eq_spec(&self@[b]) by {
                    if b == self@.len() - 1 {
                        assert(!old(self)@[a].eq_spec(&self@[b]));
                    } else {
                        assert(self@[a] == old(self)@[a] && self@[b] == old(self)@[b]);
                    }
                }
            }
            true
        }
    }

    /// Remove the element equal to `value`, if one is held, and return it.
    /// The last element takes its place.
    pub fn remove(&mut self, value: &T) -> (r: Option<T>)
        requires
            T::obeys_eq_spec(),
            obeys_equivalence::<T>(),
            old(self).wf(),
        ensures
            final(self).wf(),
            match r {
                Some(v) => {
                    &&& spec_member(old(self)@, *value)
                    &&& v.eq_spec(value)
                    &&& old(self)@.contains(v)
                    &&& final(self)@.len() == old(self)@.len() - 1
                    &&& !spec_member(final(self)@, *value)
                    &&& forall|w: T| spec_member(final(self)@, w) ==> spec_member(old(self)@, w)
                },
                None => {
                    &&& !spec_member(old(self)@, *value)
                    &&& final(self)@ == old(self)@
                },
            },
    {
        match self.position(value) {
            Some(i) => {
                let v = self.0.swap_remove(i);
                proof {
                    let pre = old(self)@;
                    assert(pre[i as int] == v);
                    assert(forall|k: int|
                        0 <= k < self@.len() ==> #[trigger] self@[k] == pre[k] || self@[k] == pre[
                            pre.len() - 1
                        ]);
                    assert forall|a: int, b: int|
                        #![trigger self@[a], self@[b]]
                        0 <= a < b < self@.len() implies !self@[a].eq_spec(&self@[b]) by {
                        assert(self@[a] == pre[a] || self@[a] == pre[pre.len() - 1]);
                        assert(self@[b] == pre[b] || self@[b] == pre[pre.len() - 1]);
                    }
                    assert forall|k: int| 0 <= k < self@.len() implies !(
                    #[trigger] self@[k]).eq_spec(value) by {
                        let orig: int = if k == i as int {
                            pre.len() - 1
                        } else {
                            k
                        };
                        assert(self@[k] == pre[orig]);
                        if orig != i as int && pre[orig].eq_spec(value) {
                            // two distinct old elements both equal to `value`
                            assert(pre[i as int].eq_spec(value));
                            assert(value.eq_spec(&pre[orig]));
                            assert(pre[i as int].eq_spec(&pre[orig]));
                            assert(false);
                        }
                    }
                    assert forall|w: T| spec_member(self@, w) implies spec_member(pre, w) by {
                        let k = choose|k: int|
                            0 <= k < self@.len() && (#[trigger] self@[k]).eq_spec(&w);
                        assert(self@[k] == pre[k] || self@[k] == pre[pre.len() - 1]);
                    }
                }
                Some(v)
            },
            None => None,
        }
    }

    /// Keep only the elements the predicate accepts, in their original
    /// order: the survivors are the same elements at increasing positions
    /// of the old storage.
    pub fn retain<F: Fn(&T) -> bool>(&mut self, f: F)
        requires
            old(self).wf(),
            forall|v: &T| #[trigger] f.requires((v,)),
        ensures
            final(self).wf(),
            forall|i: int|
                0 <= i < final(self)@.len() ==> old(self)@.contains(#[trigger] final(self)@[i])
                    && call_ensures(f, (&final(self)@[i],), true),
            forall|j: int|
                0 <= j < old(self)@.len() ==> (final(self)@.contains(#[trigger] old(self)@[j])
                    || call_ensures(f, (&old(self)@[j],), false)),
            exists|m: Seq<int>|
                {
                    &&& m.len() == final(self)@.len()
                    &&& (forall|k: int|
                        0 <= k < m.len() ==> 0 <= #[trigger] m[k] < old(self)@.len()
                            && final(self)@[k] == old(self)@[m[k]])
                    &&& (forall|k1: int, k2: int|
                        #![trigger m[k1], m[k2]]
                        0 <= k1 < k2 < m.len() ==> m[k1] < m[k2])
                },
    {
        let ghost pre = self@;
        let ghost total = pre.len();
        let mut kept: Vec<T> = Vec::new();
        let ghost mut m: Seq<int> = Seq::empty();
        proof {
            assert(pre.skip(0) =~= pre);
        }
        loop
            invariant
                forall|v: &T| #[trigger] f.requires((v,)),
                forall|a: int, b: int|
                    #![trigger pre[a], pre[b]]
                    0 <= a < b < pre.len() ==> !pre[a].eq_spec(&pre[b]),
                total == pre.len(),
                self@.len() <= total,
                self@ == pre.skip(total - self@.len()),
                m.len() == kept@.len(),
                forall|k: int|
                    0 <= k < m.len() ==> 0 <= #[trigger] m[k] < total - self@.len() && kept@[k]
                        == pre[m[k]],
                forall|k1: int, k2: int|
                    0 <= k1 < k2 < m.len() ==> #[trigger] m[k1] < #[trigger] m[k2],
                forall|k: int|
                    0 <= k < kept@.len() ==> call_ensures(f, (&(#[trigger] kept@[k]),), true),
                forall|j: int|
                    0 <= j < total - self@.len() ==> (kept@.contains(#[trigger] pre[j])
                        || call_ensures(f, (&pre[j],), false)),
            ensures
                self@.len() == 0,
                m.len() == kept@.len(),
                forall|k: int|
                    0 <= k < m.len() ==> 0 <= #[trigger] m[k] < total && kept@[k] == pre[m[k]],
                forall|k1: int, k2: int|
                    #![trigger m[k1], m[k2]]
                    0 <= k1 < k2 < m.len() ==> m[k1] < m[k2],
                forall|k: int|
                    0 <= k < kept@.len() ==> call_ensures(f, (&(#[trigger] kept@[k]),), true),
                forall|j: int|
                    0 <= j < total ==> (kept@.contains(#[trigger] pre[j]) || call_ensures(
                        f,
                        (&pre[j],),
                        false,
                    )),
            decreases self@.len(),
        {
            if self.0.len() == 0 {
                break ;
            }
            let ghost cur = self@;
            let ghost consumed = total - cur.len();
            let v = self.0.remove(0);
            proof {
                assert(v == cur[0]);
                assert(cur[0] == pre[consumed]);
                assert(self@ =~= pre.skip(consumed + 1));
            }
            if f(&v) {
                let ghost kpre = kept@;
                kept.push(v);
                proof {
                    m = m.push(consumed);
                    assert(kept@.last() == pre[consumed]);
                    assert(m.last() == consumed);
                    assert forall|k: int| 0 <= k < m.len() implies 0 <= #[trigger] m[k] < total
                        - self@.len() && kept@[k] == pre[m[k]] by {
                        if k < m.len() - 1 {
                            assert(kept@[k] == kpre[k]);
                        }
                    }
                    assert forall|j: int|
                        0 <= j < total - self@.len() implies (kept@.contains(#[trigger] pre[j])
                        || call_ensures(f, (&pre[j],), false)) by {
                        if j < consumed {
                            if kpre.contains(pre[j]) {
                                let k = choose|k: int| 0 <= k < kpre.len() && kpre[k] == pre[j];
                                assert(kept@[k] == pre[j]);
                            }
                        } else {
                            assert(kept@[kept@.len() - 1] == pre[j]);
                        }
                    }
                }
            } else {
                proof {
                    assert forall|j: int|
                        0 <= j < total - self@.len() implies (kept@.contains(#[trigger] pre[j])
                        || call_ensures(f, (&pre[j],), false)) by {
                        if j == consumed {
                            assert(call_ensures(f, (&pre[j],), false));
                        }
                    }
                }
            }
        }
        self.0 = kept;
        proof {
            assert forall|a: int, b: int|
                #![trigger self@[a], self@[b]]
                0 <= a < b < self@.len() implies !self@[a].eq_spec(&self@[b]) by {
                assert(self@[a] == pre[m[a]] && self@[b] == pre[m[b]]);
                assert(m[a] < m[b]);
            }
            assert forall|i: int| 0 <= i < self@.len() implies pre.contains(#[trigger] self@[i])
                && call_ensures(f, (&self@[i],), true) by {
                assert(self@[i] == pre[m[i]]);
            }
        }
    }

    /// Move every element of `other` into this set; an element equal to one
    /// already held replaces it. `other` is left empty.
    pub fn append(&mut self, other: &mut EqSet<T>)
        requires
            T::obeys_eq_spec(),
            obeys_equivalence::<T>(),
            old(self).wf(),
            old(other).wf(),
        ensures
            final(self).wf(),
            final(other)@.len() == 0,
            forall|w: T|
                #![trigger spec_member(final(self)@, w)]
                spec_member(final(self)@, w) <==> (spec_member(old(self)@, w) || spec_member(
                    old(other)@,
                    w,
                )),
    {
        loop
            invariant
                T::obeys_eq_spec(),
                obeys_equivalence::<T>(),
                self.wf(),
                other.wf(),
                forall|w: T|
                    #![trigger spec_member(self@, w)]
                    (spec_member(self@, w) || spec_member(other@, w)) <==> (spec_member(
                        old(self)@,
                        w,
                    ) || spec_member(old(other)@, w)),
            ensures
                other@.len() == 0,
                forall|w: T|
                    #![trigger spec_member(self@, w)]
                    spec_member(self@, w) <==> (spec_member(old(self)@, w) || spec_member(
                        old(other)@,
                        w,
                    )),
            decreases other@.len(),
        {
            let ghost self_pre = self@;
            let ghost other_pre = other@;
            match other.pop() {
                Some(v) => {
                    let ghost vv = other_pre.last();
                    proof {
                        assert(spec_member(other_pre, vv)) by {
                            assert(other_pre[other_pre.len() - 1].eq_spec(&vv));
                        }
                        assert forall|w: T| spec_member(other_pre, w) implies (spec_member(
                            other@,
                            w,
                        ) || vv.eq_spec(&w)) by {
                            let k = choose|k: int|
                                0 <= k < other_pre.len() && (#[trigger] other_pre[k]).eq_spec(&w);
                            if k < other_pre.len() - 1 {
                                assert(other@[k] == other_pre[k]);
                            }
                        }
                        assert forall|w: T| spec_member(other@, w) implies spec_member(
                            other_pre,
                            w,
                        ) by {
                            let k = choose|k: int|
                                0 <= k < other@.len() && (#[trigger] other@[k]).eq_spec(&w);
                            assert(other_pre[k] == other@[k]);
                        }
                    }
                    let replaced = self.insert(v);
                    proof {
                        assert forall|w: T| #![trigger spec_member(self@, w)]
                            true implies (spec_member(self@, w) == (spec_member(self_pre, w)
                            || vv.eq_spec(&w))) by {
                            match replaced {
                                Some(prev) => {
                                    let ri = choose|ri: int|
                                        0 <= ri < self_pre.len() && self_pre[ri] == prev && self@
                                            == self_pre.update(ri, vv);
                                    if spec_member(self@, w) {
                                        let k = choose|k: int|
                                            0 <= k < self@.len() && (#[trigger] self@[k]).eq_spec(
                                                &w,
                                            );
                                        if k != ri {
                                            assert(self@[k] == self_pre[k]);
                                            assert(spec_member(self_pre, w));
                                        } else {
                                            assert(self@[k] == vv);
                                        }
                                    }
                                    if spec_member(self_pre, w) {
                                        let k = choose|k: int|
                                            0 <= k < self_pre.len() && (
                                            #[trigger] self_pre[k]).eq_spec(&w);
                                        if k != ri {
                                            assert(self@[k] == self_pre[k]);
                                            assert(spec_member(self@, w));
                                        } else {
                                            // the replaced element equals the new one,
                                            // so the new one also equals w
                                            assert(prev.eq_spec(&vv));
                                            assert(vv.eq_spec(&prev));
                                            assert(prev.eq_spec(&w));
                                            assert(vv.eq_spec(&w));
                                            assert(self@[ri] == vv);
                                            assert(spec_member(self@, w));
                                        }
                                    }
                                    if vv.eq_spec(&w) {
                                        assert(self@[ri] == vv);
                                        assert(spec_member(self@, w));
                                    }
                                },
                                None => {
                                    assert(self@ == self_pre.push(vv));
                                    if spec_member(self@, w) {
                                        let k = choose|k: int|
                                            0 <= k < self@.len() && (#[trigger] self@[k]).eq_spec(
                                                &w,
                                            );
                                        if k < self_pre.len() {
                                            assert(self@[k] == self_pre[k]);
                                            assert(spec_member(self_pre, w));
                                        } else {
                                            assert(self@[k] == vv);
                                        }
                                    }
                                    if spec_member(self_pre, w) {
                                        let k = choose|k: int|
                                            0 <= k < self_pre.len() && (
                                            #[trigger] self_pre[k]).eq_spec(&w);
                                        assert(self@[k] == self_pre[k]);
                                        assert(spec_member(self@, w));
                                    }
                                    if vv.eq_spec(&w) {
                                        assert(self@[self@.len() - 1] == vv);
                                        assert(spec_member(self@, w));
                                    }
                                },
                            }
                        }
                        assert forall|w: T|
                            #![trigger spec_member(self@, w)]
                            true implies ((spec_member(self@, w) || spec_member(other@, w)) == (
                        spec_member(old(self)@, w) || spec_member(old(other)@, w))) by {
                            assert(spec_member(self@, w) == (spec_member(self_pre, w)
                                || vv.eq_spec(&w)));
                            assert(spec_member(other_pre, w) == (spec_member(other@, w)
                                || vv.eq_spec(&w))) by {
                                if vv.eq_spec(&w) {
                                    assert(other_pre[other_pre.len() - 1].eq_spec(&w));
                                }
                            }
                            assert((spec_member(self_pre, w) || spec_member(other_pre, w)) == (
                            spec_member(old(self)@, w) || spec_member(old(other)@, w)));
                        }
                    }
                },
                None => {
                    break ;
                },
            }
        }
    }

    /// The held elements, in storage order.
    pub fn iter(&self) -> (r: &Vec<T>)
        ensures
            r@ == self@,
    {
        &self.0
    }

    pub fn len(&self) -> (r: usize)
        ensures
            r == self@.len(),
    {
        self.0.len()
    }

    pub fn is_empty(&self) -> (r: bool)
        ensures
            r == (self@.len() == 0),
    {
        self.0.is_empty()
    }
}

} // verus!
