//! The reactive cell: a value with a version counter and an observer
//! cursor.
//!
//! Writers bump the version when (and only when) they changed the value;
//! an observer compares the version against what it last saw. The cell here
//! is the verified state of one observer's handle; sharing between tasks and
//! waking sleepers belong to the caller.

use vstd::prelude::*;

verus! {

/// A value, its version, and the observer's last-seen version.
pub struct Watch<T> {
    pub data: T,
    pub version: u64,
    pub seen: u64,
}

impl<T> Watch<T> {
    /// Versions start at one, so a fresh or reset observer (seen = 0) always
    /// finds the current value new.
    pub open spec fn wf(self) -> bool {
        1 <= self.version && self.seen <= self.version
    }

    /// Whether this observer has not yet seen the current value.
    pub open spec fn unseen(self) -> bool {
        self.seen != self.version
    }

    /// A fresh cell holding `init`, not yet seen.
    pub fn new(init: T) -> (r: Watch<T>)
        ensures
            r.wf(),
            r.data == init,
            r.version == 1,
            r.seen == 0,
    {
        Watch { data: init, version: 1, seen: 0 }
    }

    /// An observer of the same value that sees it as new.
    pub fn clone_unseen(&self) -> (r: Watch<T>) where T: Clone
        requires
            self.wf(),
        ensures
            r.wf(),
            vstd::pervasive::cloned::<T>(self.data, r.data),
            r.version == self.version,
            r.seen == 0,
    {
        Watch { data: self.data.clone(), version: self.version, seen: 0 }
    }

    /// Whether the value changed since this observer last looked; the
    /// observer is caught up afterwards.
    pub fn poll_changed(&mut self) -> (r: bool)
        requires
            old(self).wf(),
        ensures
            final(self).wf(),
            r == old(self).unseen(),
            final(self).data == old(self).data,
            final(self).version == old(self).version,
            final(self).seen == final(self).version,
    {
        let changed = self.seen != self.version;
        self.seen = self.version;
        changed
    }

    /// Store `new` and wake observers only when the writer says it differs.
    /// Returns whether observers were woken.
    pub fn send_if_modified(&mut self, new: T, modified: bool) -> (r: bool)
        requires
            old(self).wf(),
            old(self).version < u64::MAX,
        ensures
            final(self).wf(),
            r == modified,
            modified ==> final(self).data == new && final(self).version == old(self).version + 1,
            !modified ==> final(self).data == old(self).data && final(self).version == old(
                self,
            ).version,
            final(self).seen == old(self).seen,
    {
        if modified {
            self.data = new;
            self.version = self.version + 1;
        }
        modified
    }

    /// Store `new` and wake observers unconditionally.
    pub fn send_modify(&mut self, new: T)
        requires
            old(self).wf(),
            old(self).version < u64::MAX,
        ensures
            final(self).wf(),
            final(self).data == new,
            final(self).version == old(self).version + 1,
            final(self).seen == old(self).seen,
    {
        self.data = new;
        self.version = self.version + 1;
    }

    /// Store `new`, wake observers, and hand back the previous value.
    pub fn send_replace(&mut self, new: T) -> (r: T)
        requires
            old(self).wf(),
            old(self).version < u64::MAX,
        ensures
            final(self).wf(),
            r == old(self).data,
            final(self).data == new,
            final(self).version == old(self).version + 1,
            final(self).seen == old(self).seen,
    {
        let mut prev = new;
        core::mem::swap(&mut self.data, &mut prev);
        self.version = self.version + 1;
        prev
    }

    /// Store `new` and wake observers.
    pub fn send(&mut self, new: T)
        requires
            old(self).wf(),
            old(self).version < u64::MAX,
        ensures
            final(self).wf(),
            final(self).data == new,
            final(self).version == old(self).version + 1,
            final(self).seen == old(self).seen,
    {
        self.send_modify(new);
    }

    /// Wake observers without changing the value.
    pub fn mark_changed(&mut self)
        requires
            old(self).wf(),
            old(self).version < u64::MAX,
        ensures
            final(self).wf(),
            final(self).data == old(self).data,
            final(self).version == old(self).version + 1,
            final(self).seen == old(self).seen,
    {
        self.version = self.version + 1;
    }

    /// Make this observer see the current value as new again.
    pub fn mark_unseen(&mut self)
        requires
            old(self).wf(),
        ensures
            final(self).wf(),
            final(self).data == old(self).data,
            final(self).version == old(self).version,
            final(self).seen == 0,
            final(self).unseen(),
    {
        self.seen = 0;
    }

    /// Catch this observer up without reading the value.
    pub fn mark_seen(&mut self)
        requires
            old(self).wf(),
        ensures
            final(self).wf(),
            final(self).data == old(self).data,
            final(self).version == old(self).version,
            final(self).seen == final(self).version,
    {
        self.seen = self.version;
    }

    /// The current value, without affecting what this observer has seen.
    pub fn peek(&self) -> (r: &T)
        ensures
            r == &self.data,
    {
        &self.data
    }

    /// The current value, catching this observer up.
    pub fn peek_and_mark_seen(&mut self) -> (r: &T)
        requires
            old(self).wf(),
        ensures
            final(self).wf(),
            r == &final(self).data,
            final(self).data == old(self).data,
            final(self).version == old(self).version,
            final(self).seen == final(self).version,
    {
        self.seen = self.version;
        &self.data
    }

}

impl<T: Copy> Watch<T> {
    /// A copy of the current value.
    pub fn read(&self) -> (r: T)
        ensures
            r == self.data,
    {
        self.data
    }

    /// A copy of the current value, catching this observer up.
    pub fn read_and_mark_seen(&mut self) -> (r: T)
        requires
            old(self).wf(),
        ensures
            final(self).wf(),
            r == old(self).data,
            final(self).data == old(self).data,
            final(self).version == old(self).version,
            final(self).seen == final(self).version,
    {
        self.seen = self.version;
        self.data
    }
}

} // verus!
