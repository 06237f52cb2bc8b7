use vstd::prelude::*;

use crate::messages::{EventView, Message, SID};
use crate::registry::Registry;

verus! {

/// Lifecycle of one registered service, as the kernel sees it.
///
/// `Starting`: the SID and channel pair exist but the kernel has not yet seen
/// the service run. `Running`: the dispatch loop reads its outbound channel.
/// `Stopping`: shutdown was requested; the outbound channel is still drained.
/// `Stopped`: the channels are gone and the SID was forgotten.
#[derive(Clone, Copy, PartialEq, Eq, Structural, Debug)]
pub enum ServiceState {
    Starting,
    Running,
    Stopping,
    Stopped,
}

/// Why a registration attempt was turned down. Non-fatal to the kernel.
#[derive(Clone, Copy, PartialEq, Eq, Structural, Debug)]
pub enum RegistrationError {
    /// A service of that name is already registered.
    DuplicateName,
    /// Every identity has been handed out already.
    SidsExhausted,
}

/// Kernel-side record for one service: its identity, its diagnostic name,
/// and where it stands in its lifecycle.
struct Handle {
    sid: SID,
    name: String,
    state: ServiceState,
}

/// The router: owns the subscription registry, the table of service handles,
/// the counter of undeliverable events, and (as ghost state) the log of what
/// was handed out for delivery to each subscriber.
///
/// The kernel is a state machine driven one message at a time. The caller
/// owns the channels: it reads every service's outbound channel, feeds each
/// message to `dispatch`, sends a copy of an event to the inbound channel of
/// every SID that `dispatch` returns, and reports a failed send through
/// `note_undeliverable`.
pub struct Kernel {
    registry: Registry,
    handles: Vec<Handle>,
    next_sid: SID,
    undeliverable: u64,
    delivered: Ghost<Map<SID, Seq<EventView>>>,
}

/// A counter that sticks at its ceiling instead of wrapping.
pub open spec fn sat_inc(c: u64) -> u64 {
    if c < u64::MAX {
        (c + 1) as u64
    } else {
        u64::MAX
    }
}

/// The service table reads the same in `a` and `b`: the same services exist,
/// each in the same state and under the same name, and the next identity to
/// be minted is the same.
pub open spec fn same_service_table(a: Kernel, b: Kernel) -> bool {
    &&& forall|s: SID| #[trigger] b.has_service(s) == a.has_service(s)
    &&& forall|s: SID| a.has_service(s) ==> #[trigger] b.state_of(s) == a.state_of(s)
    &&& forall|s: SID| a.has_service(s) ==> #[trigger] b.name_of(s) == a.name_of(s)
    &&& b.fresh_sid() == a.fresh_sid()
}

/// Nothing was handed out for delivery between `a` and `b`.
pub open spec fn same_deliveries(a: Kernel, b: Kernel) -> bool {
    forall|s: SID| #[trigger] b.deliveries_of(s) == a.deliveries_of(s)
}

/// What dispatching `Event(topic, payload)` does to the kernel: the registry
/// and the service table stay as they are; every current subscriber of
/// `topic` — the publisher not excluded — has the event appended to its
/// delivery log, nobody else receives anything; and the undeliverable
/// counter grows exactly when the topic has no subscriber at all.
pub open spec fn event_dispatch_effect(
    pre: Kernel,
    post: Kernel,
    topic: Seq<char>,
    payload: Seq<char>,
) -> bool {
    &&& post.subs() == pre.subs()
    &&& same_service_table(pre, post)
    &&& forall|s: SID|
        pre.subs().contains((s, topic)) ==> #[trigger] post.deliveries_of(s) == pre.deliveries_of(
            s,
        ).push(EventView { topic, payload })
    &&& forall|s: SID|
        !pre.subs().contains((s, topic)) ==> #[trigger] post.deliveries_of(s)
            == pre.deliveries_of(s)
    &&& (exists|s: SID| pre.subs().contains((s, topic))) ==> post.undeliverable_count()
        == pre.undeliverable_count()
    &&& !(exists|s: SID| pre.subs().contains((s, topic))) ==> post.undeliverable_count() == sat_inc(
        pre.undeliverable_count(),
    )
}

/// What `note_undeliverable` does: one more event counted as dropped, and
/// nothing else — no subscription, no service, no delivery log moves.
pub open spec fn undeliverable_effect(pre: Kernel, post: Kernel) -> bool {
    &&& post.subs() == pre.subs()
    &&& same_service_table(pre, post)
    &&& same_deliveries(pre, post)
    &&& post.undeliverable_count() == sat_inc(pre.undeliverable_count())
}

impl Kernel {
    /// Service identities are pairwise distinct, names are pairwise distinct,
    /// every identity handed out is below the next one to be minted, and the
    /// registry is well formed.
    pub closed spec fn wf(&self) -> bool {
        &&& self.registry.wf()
        &&& forall|i: int, j: int|
            0 <= i < j < self.handles.len() ==> self.handles[i].sid != self.handles[j].sid
        &&& forall|i: int, j: int|
            0 <= i < j < self.handles.len() ==> self.handles[i].name@ != self.handles[j].name@
        &&& forall|i: int| 0 <= i < self.handles.len() ==> #[trigger] self.handles[i].sid
            < self.next_sid
        &&& self.next_sid >= 1
    }

    /// The current subscriptions, as the set of (subscriber, topic) pairs.
    pub closed spec fn subs(&self) -> Set<(SID, Seq<char>)> {
        self.registry@
    }

    spec fn idx_of(&self, sid: SID) -> int {
        choose|i: int| 0 <= i < self.handles.len() && self.handles[i].sid == sid
    }

    /// Whether a service with identity `sid` was ever registered here.
    pub closed spec fn has_service(&self, sid: SID) -> bool {
        exists|i: int| 0 <= i < self.handles.len() && self.handles[i].sid == sid
    }

    /// The lifecycle state of the service with identity `sid`.
    pub closed spec fn state_of(&self, sid: SID) -> ServiceState {
        self.handles[self.idx_of(sid)].state
    }

    /// The diagnostic name of the service with identity `sid`.
    pub closed spec fn name_of(&self, sid: SID) -> Seq<char> {
        self.handles[self.idx_of(sid)].name@
    }

    /// Some registered service bears this name.
    pub open spec fn name_taken(&self, n: Seq<char>) -> bool {
        exists|s: SID| #[trigger] self.has_service(s) && self.name_of(s) == n
    }

    /// The identity the next successful registration will receive.
    pub closed spec fn fresh_sid(&self) -> SID {
        self.next_sid
    }

    /// How many events were dropped as undeliverable so far.
    pub closed spec fn undeliverable_count(&self) -> u64 {
        self.undeliverable
    }

    /// Everything handed out for delivery to `sid` since the kernel started,
    /// oldest first.
    pub closed spec fn deliveries_of(&self, sid: SID) -> Seq<EventView> {
        if self.delivered@.dom().contains(sid) {
            self.delivered@[sid]
        } else {
            Seq::<EventView>::empty()
        }
    }

    /// For every position in the handle table: that handle's fields are what
    /// the lookup spec functions report for its identity.
    proof fn lemma_handles(&self)
        requires
            self.wf(),
        ensures
            forall|i: int|
                0 <= i < self.handles.len() ==> #[trigger] self.has_service(self.handles[i].sid)
                    && self.idx_of(self.handles[i].sid) == i,
    {
        assert forall|i: int| 0 <= i < self.handles.len() implies #[trigger] self.has_service(
            self.handles[i].sid,
        ) && self.idx_of(self.handles[i].sid) == i by {
            let sid = self.handles[i].sid;
            assert(0 <= i < self.handles.len() && self.handles[i].sid == sid);
            assert(self.has_service(sid));
            let j = self.idx_of(sid);
            assert(0 <= j < self.handles.len() && self.handles[j].sid == sid);
            if i < j {
                assert(self.handles[i].sid != self.handles[j].sid);
            } else if j < i {
                assert(self.handles[j].sid != self.handles[i].sid);
            }
        }
    }

    /// A fresh kernel: no services, no subscriptions, nothing delivered,
    /// nothing dropped, and identity 1 is the first to be minted.
    pub fn new() -> (k: Kernel)
        ensures
            k.wf(),
            k.subs() == Set::<(SID, Seq<char>)>::empty(),
            forall|s: SID| !(#[trigger] k.has_service(s)),
            forall|s: SID| #[trigger] k.deliveries_of(s) == Seq::<EventView>::empty(),
            k.undeliverable_count() == 0,
            k.fresh_sid() == 1,
    {
        Kernel {
            registry: Registry::new(),
            handles: Vec::new(),
            next_sid: 1,
            undeliverable: 0,
            delivered: Ghost(Map::empty()),
        }
    }

    /// Registers a service under `name` and mints its identity.
    ///
    /// Succeeds exactly when the name is free and an identity is left to
    /// mint; the new handle starts in `Starting` and nothing else — no
    /// subscription, no delivery log, no counter — moves. On failure the
    /// kernel is unchanged and the error says which condition failed.
    pub fn register(&mut self, name: String) -> (r: Result<SID, RegistrationError>)
        requires
            old(self).wf(),
        ensures
            final(self).wf(),
            match r {
                Ok(sid) => {
                    &&& !old(self).name_taken(name@)
                    &&& old(self).fresh_sid() < u64::MAX
                    &&& sid == old(self).fresh_sid()
                    &&& !old(self).has_service(sid)
                    &&& final(self).has_service(sid)
                    &&& final(self).state_of(sid) == ServiceState::Starting
                    &&& final(self).name_of(sid) == name@
                    &&& final(self).fresh_sid() == old(self).fresh_sid() + 1
                    &&& forall|s: SID|
                        s != sid ==> #[trigger] final(self).has_service(s) == old(
                            self,
                        ).has_service(s)
                    &&& forall|s: SID|
                        s != sid && old(self).has_service(s) ==> #[trigger] final(self).state_of(s)
                            == old(self).state_of(s) && final(self).name_of(s) == old(
                            self,
                        ).name_of(s)
                    &&& final(self).subs() == old(self).subs()
                    &&& same_deliveries(*old(self), *final(self))
                    &&& final(self).undeliverable_count() == old(self).undeliverable_count()
                },
                Err(e) => {
                    &&& *final(self) == *old(self)
                    &&& match e {
                        RegistrationError::DuplicateName => old(self).name_taken(name@),
                        RegistrationError::SidsExhausted => !old(self).name_taken(name@) && old(
                            self,
                        ).fresh_sid() == u64::MAX,
                    }
                },
            },
    {
        proof {
            self.lemma_handles();
        }
        let n = self.handles.len();
        let mut i: usize = 0;
        while i < n
            invariant
                *self == *old(self),
                self.wf(),
                n == self.handles.len(),
                i <= n,
                forall|k: int| 0 <= k < i ==> self.handles[k].name@ != name@,
                forall|k: int|
                    0 <= k < n ==> #[trigger] self.has_service(self.handles[k].sid)
                        && self.idx_of(self.handles[k].sid) == k,
            decreases n - i,
        {
            if self.handles[i].name == name {
                proof {
                    assert(self.has_service(self.handles[i as int].sid));
                    assert(self.name_of(self.handles[i as int].sid) == name@);
                }
                return Err(RegistrationError::DuplicateName);
            }
            i += 1;
        }
        proof {
            // The scan covered the whole table, so no service bears this name.
            if self.name_taken(name@) {
                let s = choose|s: SID| self.has_service(s) && self.name_of(s) == name@;
                let k = self.idx_of(s);
                assert(self.handles[k].name@ == name@);
            }
        }
        if self.next_sid == u64::MAX {
            return Err(RegistrationError::SidsExhausted);
        }
        let ghost pre = *self;
        let sid = self.next_sid;
        self.next_sid = sid + 1;
        self.handles.push(Handle { sid, name, state: ServiceState::Starting });
        proof {
            let at = pre.handles@.len() as int;
            assert forall|a: int, b: int|
                0 <= a < b < self.handles.len() implies self.handles[a].sid != self.handles[b].sid
                by {
                if b == at {
                    assert(pre.handles[a].sid < pre.next_sid);
                }
            }
            assert forall|a: int, b: int|
                0 <= a < b < self.handles.len() implies self.handles[a].name@
                != self.handles[b].name@ by {
                if b == at {
                    assert(pre.handles[a].name@ != name@);
                }
            }
            assert(self.wf());
            self.lemma_handles();
            pre.lemma_handles();
            assert(self.handles[at].sid == sid);
            assert(self.has_service(sid));
            assert(self.idx_of(sid) == at);
            assert forall|s: SID| s != sid implies #[trigger] self.has_service(s)
                == pre.has_service(s) by {
                if self.has_service(s) {
                    let k = self.idx_of(s);
                    assert(k != at);
                    assert(pre.handles[k].sid == s);
                    assert(pre.has_service(s));
                }
                if pre.has_service(s) {
                    let k = pre.idx_of(s);
                    assert(self.handles[k].sid == s);
                    assert(self.has_service(s));
                }
            }
            assert forall|s: SID| s != sid && pre.has_service(s) implies #[trigger] self.state_of(
                s,
            ) == pre.state_of(s) && self.name_of(s) == pre.name_of(s) by {
                let k = pre.idx_of(s);
                assert(self.handles[k].sid == s);
                assert(self.idx_of(s) == k);
            }
            if pre.name_taken(name@) {
                let s = choose|s: SID| pre.has_service(s) && pre.name_of(s) == name@;
                let k = pre.idx_of(s);
                assert(pre.handles[k].name@ == name@);
            }
            assert(same_deliveries(pre, *self));
        }
        Ok(sid)
    }

    /// Replaces the state of the handle for `sid`, touching nothing else.
    /// Reports whether such a handle exists.
    fn force_state(&mut self, sid: SID, st: ServiceState) -> (found: bool)
        requires
            old(self).wf(),
        ensures
            final(self).wf(),
            found == old(self).has_service(sid),
            final(self).subs() == old(self).subs(),
            same_deliveries(*old(self), *final(self)),
            final(self).undeliverable_count() == old(self).undeliverable_count(),
            forall|s: SID| #[trigger]
                final(self).has_service(s) == old(self).has_service(s),
            final(self).fresh_sid() == old(self).fresh_sid(),
            found ==> final(self).state_of(sid) == st,
            forall|s: SID|
                s != sid && old(self).has_service(s) ==> #[trigger] final(self).state_of(s) == old(
                    self,
                ).state_of(s),
            forall|s: SID|
                old(self).has_service(s) ==> #[trigger] final(self).name_of(s) == old(
                    self,
                ).name_of(s),
            !found ==> *final(self) == *old(self),
    {
        proof {
            self.lemma_handles();
        }
        let ghost pre = *self;
        let n = self.handles.len();
        let mut i: usize = 0;
        while i < n
            invariant
                *self == pre,
                pre == *old(self),
                self.wf(),
                n == self.handles.len(),
                i <= n,
                forall|k: int| 0 <= k < i ==> self.handles[k].sid != sid,
                forall|k: int|
                    0 <= k < n ==> #[trigger] self.has_service(self.handles[k].sid)
                        && self.idx_of(self.handles[k].sid) == k,
            decreases n - i,
        {
            if self.handles[i].sid == sid {
                let handle = &mut self.handles[i];
                handle.state = st;
                proof {
                    let at = i as int;
                    assert(self.handles@.len() == pre.handles@.len());
                    assert forall|k: int|
                        0 <= k < self.handles@.len() && k != at implies self.handles@[k]
                        == pre.handles@[k] by {}
                    assert(self.handles[at].sid == sid);
                    assert(self.handles[at].name@ == pre.handles[at].name@);
                    assert(self.wf());
                    self.lemma_handles();
                    assert(self.idx_of(sid) == at);
                    assert forall|s: SID| #[trigger] self.has_service(s) == pre.has_service(s) by {
                        if self.has_service(s) {
                            let k = self.idx_of(s);
                            assert(pre.handles[k].sid == s);
                        }
                        if pre.has_service(s) {
                            let k = pre.idx_of(s);
                            assert(self.handles[k].sid == s);
                        }
                    }
                    assert forall|s: SID| s != sid && pre.has_service(s) implies #[trigger] self
                        .state_of(s) == pre.state_of(s) by {
                        let k = pre.idx_of(s);
                        assert(self.handles[k].sid == s);
                        assert(self.idx_of(s) == k);
                    }
                    assert forall|s: SID| pre.has_service(s) implies #[trigger] self.name_of(s)
                        == pre.name_of(s) by {
                        let k = pre.idx_of(s);
                        assert(self.handles[k].sid == s);
                        assert(self.idx_of(s) == k);
                    }
                    assert(same_deliveries(pre, *self));
                }
                return true;
            }
            i += 1;
        }
        proof {
            if pre.has_service(sid) {
                let k = pre.idx_of(sid);
                assert(self.handles[k].sid == sid);
            }
            assert(same_deliveries(pre, *self));
        }
        false
    }

    /// The kernel observed the service's thread run: `Starting` becomes
    /// `Running`. Reports whether `sid` named a handle in `Starting`; when it
    /// did not, nothing changes.
    pub fn mark_running(&mut self, sid: SID) -> (ok: bool)
        requires
            old(self).wf(),
        ensures
            final(self).wf(),
            ok == (old(self).has_service(sid) && old(self).state_of(sid)
                == ServiceState::Starting),
            ok ==> final(self).state_of(sid) == ServiceState::Running,
            !ok ==> *final(self) == *old(self),
            final(self).subs() == old(self).subs(),
            same_deliveries(*old(self), *final(self)),
            final(self).undeliverable_count() == old(self).undeliverable_count(),
            forall|s: SID| #[trigger]
                final(self).has_service(s) == old(self).has_service(s),
            final(self).fresh_sid() == old(self).fresh_sid(),
            forall|s: SID|
                s != sid && old(self).has_service(s) ==> #[trigger] final(self).state_of(s) == old(
                    self,
                ).state_of(s),
            forall|s: SID|
                old(self).has_service(s) ==> #[trigger] final(self).name_of(s) == old(
                    self,
                ).name_of(s),
    {
        match self.state_query(sid) {
            Some(st) => {
                if matches!(st, ServiceState::Starting) {
                    self.force_state(sid, ServiceState::Running);
                    true
                } else {
                    false
                }
            },
            None => false,
        }
    }

    /// Cooperative shutdown was requested for `sid`: a live handle
    /// (`Starting` or `Running`) becomes `Stopping`. Reports whether it was
    /// live; when it was not, nothing changes.
    pub fn begin_stop(&mut self, sid: SID) -> (ok: bool)
        requires
            old(self).wf(),
        ensures
            final(self).wf(),
            ok == (old(self).has_service(sid) && (old(self).state_of(sid) == ServiceState::Starting
                || old(self).state_of(sid) == ServiceState::Running)),
            ok ==> final(self).state_of(sid) == ServiceState::Stopping,
            !ok ==> *final(self) == *old(self),
            final(self).subs() == old(self).subs(),
            same_deliveries(*old(self), *final(self)),
            final(self).undeliverable_count() == old(self).undeliverable_count(),
            forall|s: SID| #[trigger]
                final(self).has_service(s) == old(self).has_service(s),
            final(self).fresh_sid() == old(self).fresh_sid(),
            forall|s: SID|
                s != sid && old(self).has_service(s) ==> #[trigger] final(self).state_of(s) == old(
                    self,
                ).state_of(s),
            forall|s: SID|
                old(self).has_service(s) ==> #[trigger] final(self).name_of(s) == old(
                    self,
                ).name_of(s),
    {
        match self.state_query(sid) {
            Some(st) => {
                if matches!(st, ServiceState::Starting) || matches!(st, ServiceState::Running) {
                    self.force_state(sid, ServiceState::Stopping);
                    true
                } else {
                    false
                }
            },
            None => false,
        }
    }

    /// The service is gone (its thread exited or its channel closed): its
    /// handle, if any, becomes `Stopped`, and `sid` is forgotten from every
    /// topic — safe even for a SID that never subscribed or was never
    /// registered. Reports whether a handle existed.
    pub fn mark_stopped(&mut self, sid: SID) -> (ok: bool)
        requires
            old(self).wf(),
        ensures
            final(self).wf(),
            ok == old(self).has_service(sid),
            ok ==> final(self).state_of(sid) == ServiceState::Stopped,
            forall|p: (SID, Seq<char>)| #[trigger]
                final(self).subs().contains(p) <==> (old(self).subs().contains(p) && p.0 != sid),
            same_deliveries(*old(self), *final(self)),
            final(self).undeliverable_count() == old(self).undeliverable_count(),
            forall|s: SID| #[trigger]
                final(self).has_service(s) == old(self).has_service(s),
            final(self).fresh_sid() == old(self).fresh_sid(),
            forall|s: SID|
                s != sid && old(self).has_service(s) ==> #[trigger] final(self).state_of(s) == old(
                    self,
                ).state_of(s),
            forall|s: SID|
                old(self).has_service(s) ==> #[trigger] final(self).name_of(s) == old(
                    self,
                ).name_of(s),
    {
        let found = self.force_state(sid, ServiceState::Stopped);
        let ghost mid = *self;
        self.registry.forget(sid);
        proof {
            assert(self.handles == mid.handles);
            assert(self.next_sid == mid.next_sid);
            assert(self.delivered == mid.delivered);
            assert forall|s: SID| #[trigger] self.has_service(s) == old(self).has_service(s) by {
                assert(mid.has_service(s) == old(self).has_service(s));
                assert(self.has_service(s) == mid.has_service(s));
            }
            assert forall|s: SID| s != sid && old(self).has_service(s) implies #[trigger] self
                .state_of(s) == old(self).state_of(s) by {
                assert(mid.state_of(s) == old(self).state_of(s));
                assert(self.state_of(s) == mid.state_of(s));
            }
            assert forall|s: SID| old(self).has_service(s) implies #[trigger] self.name_of(s)
                == old(self).name_of(s) by {
                assert(mid.name_of(s) == old(self).name_of(s));
                assert(self.name_of(s) == mid.name_of(s));
            }
            if found {
                assert(mid.state_of(sid) == ServiceState::Stopped);
                assert(self.state_of(sid) == mid.state_of(sid));
            }
            assert forall|s: SID| #[trigger] self.deliveries_of(s) == old(self).deliveries_of(s)
                by {
                assert(mid.deliveries_of(s) == old(self).deliveries_of(s));
                assert(self.deliveries_of(s) == mid.deliveries_of(s));
            }
        }
        found
    }

    /// Requests shutdown of every live service: each `Starting` or `Running`
    /// handle becomes `Stopping`, everything else stays as it is.
    pub fn begin_stop_all(&mut self)
        requires
            old(self).wf(),
        ensures
            final(self).wf(),
            final(self).subs() == old(self).subs(),
            same_deliveries(*old(self), *final(self)),
            final(self).undeliverable_count() == old(self).undeliverable_count(),
            forall|s: SID| #[trigger]
                final(self).has_service(s) == old(self).has_service(s),
            final(self).fresh_sid() == old(self).fresh_sid(),
            forall|s: SID|
                old(self).has_service(s) ==> #[trigger] final(self).state_of(s) == (if old(
                    self,
                ).state_of(s) == ServiceState::Starting || old(self).state_of(s)
                    == ServiceState::Running {
                    ServiceState::Stopping
                } else {
                    old(self).state_of(s)
                }),
            forall|s: SID|
                old(self).has_service(s) ==> #[trigger] final(self).name_of(s) == old(
                    self,
                ).name_of(s),
    {
        proof {
            self.lemma_handles();
        }
        let ghost pre = *self;
        let n = self.handles.len();
        let mut i: usize = 0;
        while i < n
            invariant
                pre == *old(self),
                pre.wf(),
                n == self.handles.len(),
                n == pre.handles.len(),
                i <= n,
                self.registry == pre.registry,
                self.next_sid == pre.next_sid,
                self.undeliverable == pre.undeliverable,
                self.delivered == pre.delivered,
                forall|k: int|
                    0 <= k < n ==> #[trigger] self.handles[k].sid == pre.handles[k].sid,
                forall|k: int|
                    0 <= k < n ==> #[trigger] self.handles[k].name@ == pre.handles[k].name@,
                forall|k: int|
                    0 <= k < i ==> #[trigger] self.handles[k].state == (if pre.handles[k].state
                        == ServiceState::Starting || pre.handles[k].state == ServiceState::Running {
                        ServiceState::Stopping
                    } else {
                        pre.handles[k].state
                    }),
                forall|k: int|
                    i <= k < n ==> #[trigger] self.handles[k].state == pre.handles[k].state,
            decreases n - i,
        {
            let live = matches!(self.handles[i].state, ServiceState::Starting)
                || matches!(self.handles[i].state, ServiceState::Running);
            if live {
                let handle = &mut self.handles[i];
                handle.state = ServiceState::Stopping;
            }
            i += 1;
        }
        proof {
            assert(self.wf());
            self.lemma_handles();
            pre.lemma_handles();
            assert forall|s: SID| #[trigger] self.has_service(s) == pre.has_service(s) by {
                if self.has_service(s) {
                    let k = self.idx_of(s);
                    assert(pre.handles[k].sid == s);
                }
                if pre.has_service(s) {
                    let k = pre.idx_of(s);
                    assert(self.handles[k].sid == s);
                }
            }
            assert forall|s: SID| pre.has_service(s) implies #[trigger] self.state_of(s) == (if pre
                .state_of(s) == ServiceState::Starting || pre.state_of(s) == ServiceState::Running {
                ServiceState::Stopping
            } else {
                pre.state_of(s)
            }) by {
                let k = pre.idx_of(s);
                assert(self.handles[k].sid == s);
                assert(self.idx_of(s) == k);
            }
            assert forall|s: SID| pre.has_service(s) implies #[trigger] self.name_of(s)
                == pre.name_of(s) by {
                let k = pre.idx_of(s);
                assert(self.handles[k].sid == s);
                assert(self.idx_of(s) == k);
            }
            assert(same_deliveries(pre, *self));
        }
    }

    /// The lifecycle state of `sid`, or nothing if no such service exists.
    pub fn state_query(&self, sid: SID) -> (r: Option<ServiceState>)
        requires
            self.wf(),
        ensures
            match r {
                Some(st) => self.has_service(sid) && st == self.state_of(sid),
                None => !self.has_service(sid),
            },
    {
        proof {
            self.lemma_handles();
        }
        let n = self.handles.len();
        let mut i: usize = 0;
        while i < n
            invariant
                self.wf(),
                n == self.handles.len(),
                i <= n,
                forall|k: int| 0 <= k < i ==> self.handles[k].sid != sid,
                forall|k: int|
                    0 <= k < n ==> #[trigger] self.has_service(self.handles[k].sid)
                        && self.idx_of(self.handles[k].sid) == k,
            decreases n - i,
        {
            if self.handles[i].sid == sid {
                return Some(self.handles[i].state);
            }
            i += 1;
        }
        proof {
            if self.has_service(sid) {
                let k = self.idx_of(sid);
                assert(self.handles[k].sid == sid);
            }
        }
        None
    }

    /// True exactly when every registered service has reached `Stopped`.
    pub fn all_stopped(&self) -> (b: bool)
        requires
            self.wf(),
        ensures
            b == forall|s: SID|
                self.has_service(s) ==> #[trigger] self.state_of(s) == ServiceState::Stopped,
    {
        proof {
            self.lemma_handles();
        }
        let n = self.handles.len();
        let mut i: usize = 0;
        while i < n
            invariant
                self.wf(),
                n == self.handles.len(),
                i <= n,
                forall|k: int|
                    0 <= k < i ==> #[trigger] self.handles[k].state == ServiceState::Stopped,
                forall|k: int|
                    0 <= k < n ==> #[trigger] self.has_service(self.handles[k].sid)
                        && self.idx_of(self.handles[k].sid) == k,
            decreases n - i,
        {
            if !matches!(self.handles[i].state, ServiceState::Stopped) {
                proof {
                    assert(self.state_of(self.handles[i as int].sid) != ServiceState::Stopped);
                }
                return false;
            }
            i += 1;
        }
        proof {
            assert forall|s: SID| self.has_service(s) implies #[trigger] self.state_of(s)
                == ServiceState::Stopped by {
                let k = self.idx_of(s);
                assert(self.handles[k].state == ServiceState::Stopped);
            }
        }
        true
    }

    /// Looks a service up by its diagnostic name.
    pub fn lookup_by_name(&self, name: &String) -> (r: Option<SID>)
        requires
            self.wf(),
        ensures
            match r {
                Some(sid) => self.has_service(sid) && self.name_of(sid) == name@,
                None => !self.name_taken(name@),
            },
    {
        proof {
            self.lemma_handles();
        }
        let n = self.handles.len();
        let mut i: usize = 0;
        while i < n
            invariant
                self.wf(),
                n == self.handles.len(),
                i <= n,
                forall|k: int| 0 <= k < i ==> self.handles[k].name@ != name@,
                forall|k: int|
                    0 <= k < n ==> #[trigger] self.has_service(self.handles[k].sid)
                        && self.idx_of(self.handles[k].sid) == k,
            decreases n - i,
        {
            if self.handles[i].name == *name {
                return Some(self.handles[i].sid);
            }
            i += 1;
        }
        proof {
            if self.name_taken(name@) {
                let s = choose|s: SID| self.has_service(s) && self.name_of(s) == name@;
                let k = self.idx_of(s);
                assert(self.handles[k].name@ == name@);
            }
        }
        None
    }

    /// The current subscribers of `topic`, a duplicate-free snapshot of the
    /// routing table at the moment of the call.
    pub fn subscribers_of(&self, topic: &String) -> (subs: Vec<SID>)
        requires
            self.wf(),
        ensures
            subs@.no_duplicates(),
            forall|s: SID| #[trigger] subs@.contains(s) <==> self.subs().contains((s, topic@)),
    {
        self.registry.subscribers_of(topic)
    }

    /// How many events have been dropped as undeliverable so far.
    pub fn undeliverable_events(&self) -> (c: u64)
        ensures
            c == self.undeliverable_count(),
    {
        self.undeliverable
    }

    /// Interprets one message read from a service's outbound channel.
    ///
    /// `Subscribe` and `Unsubscribe` mutate the registry alone and are never
    /// forwarded: the returned target list is empty. For `Event(topic, _)`
    /// the returned list holds exactly the current subscribers of `topic`,
    /// each once; the caller sends one copy of the event to each of them.
    /// An event whose topic has no subscriber is counted undeliverable.
    pub fn dispatch(&mut self, msg: &Message) -> (targets: Vec<SID>)
        requires
            old(self).wf(),
        ensures
            final(self).wf(),
            match msg {
                Message::Subscribe(s, t) => {
                    &&& final(self).subs() == old(self).subs().insert((*s, t@))
                    &&& targets@.len() == 0
                    &&& same_service_table(*old(self), *final(self))
                    &&& same_deliveries(*old(self), *final(self))
                    &&& final(self).undeliverable_count() == old(self).undeliverable_count()
                },
                Message::Unsubscribe(s, t) => {
                    &&& final(self).subs() == old(self).subs().remove((*s, t@))
                    &&& targets@.len() == 0
                    &&& same_service_table(*old(self), *final(self))
                    &&& same_deliveries(*old(self), *final(self))
                    &&& final(self).undeliverable_count() == old(self).undeliverable_count()
                },
                Message::Event(t, d) => {
                    &&& event_dispatch_effect(*old(self), *final(self), t@, d@)
                    &&& targets@.no_duplicates()
                    &&& forall|s: SID| #[trigger]
                        targets@.contains(s) <==> old(self).subs().contains((s, t@))
                    &&& targets@.len() == 0 <==> !(exists|s: SID|
                        old(self).subs().contains((s, t@)))
                },
            },
    {
        let ghost pre = *self;
        match msg {
            Message::Subscribe(s, t) => {
                self.registry.record_subscribe(*s, t);
                proof {
                    lemma_table_preserved(pre, *self);
                    assert(same_deliveries(pre, *self));
                }
                Vec::new()
            },
            Message::Unsubscribe(s, t) => {
                self.registry.record_unsubscribe(*s, t);
                proof {
                    lemma_table_preserved(pre, *self);
                    assert(same_deliveries(pre, *self));
                }
                Vec::new()
            },
            Message::Event(t, d) => {
                let targets = self.registry.subscribers_of(t);
                if targets.len() == 0 {
                    proof {
                        if exists|s: SID| pre.subs().contains((s, t@)) {
                            let s = choose|s: SID| pre.subs().contains((s, t@));
                            assert(targets@.contains(s));
                        }
                    }
                    if self.undeliverable < u64::MAX {
                        self.undeliverable = self.undeliverable + 1;
                    }
                } else {
                    proof {
                        assert(targets@.len() > 0);
                        assert(targets@.contains(targets@[0]));
                        assert(pre.subs().contains((targets@[0], t@)));
                        assert(exists|s: SID| pre.subs().contains((s, t@)));
                    }
                }
                let ghost ev = EventView { topic: t@, payload: d@ };
                let ghost oldmap = self.delivered@;
                let ghost tgt = Set::new(|s: SID| targets@.contains(s));
                let ghost newmap = Map::new(
                    |s: SID| oldmap.dom().contains(s) || tgt.contains(s),
                    |s: SID|
                        if tgt.contains(s) {
                            (if oldmap.dom().contains(s) {
                                oldmap[s]
                            } else {
                                Seq::<EventView>::empty()
                            }).push(ev)
                        } else {
                            oldmap[s]
                        },
                );
                self.delivered = Ghost(newmap);
                proof {
                    lemma_table_preserved(pre, *self);
                    assert forall|s: SID| pre.subs().contains((s, t@)) implies #[trigger] self
                        .deliveries_of(s) == pre.deliveries_of(s).push(ev) by {
                        assert(targets@.contains(s));
                        assert(tgt.contains(s));
                        assert(newmap.dom().contains(s));
                    }
                    assert forall|s: SID| !pre.subs().contains((s, t@)) implies #[trigger] self
                        .deliveries_of(s) == pre.deliveries_of(s) by {
                        assert(!targets@.contains(s));
                        assert(!tgt.contains(s));
                        if oldmap.dom().contains(s) {
                            assert(newmap.dom().contains(s));
                            assert(newmap[s] == oldmap[s]);
                        } else {
                            assert(!newmap.dom().contains(s));
                        }
                    }
                }
                targets
            },
        }
    }

    /// The caller could not place an event on a subscriber's inbound channel
    /// (closed or full): the event is dropped and counted, and nothing else
    /// — no subscription, no service, no delivery log — changes.
    pub fn note_undeliverable(&mut self)
        requires
            old(self).wf(),
        ensures
            final(self).wf(),
            undeliverable_effect(*old(self), *final(self)),
    {
        let ghost pre = *self;
        if self.undeliverable < u64::MAX {
            self.undeliverable = self.undeliverable + 1;
        }
        proof {
            lemma_table_preserved(pre, *self);
            assert(same_deliveries(pre, *self));
        }
    }
}

/// When two kernel values share their handle table and next identity, the
/// lookup spec functions agree on them.
proof fn lemma_table_preserved(a: Kernel, b: Kernel)
    requires
        a.wf(),
        a.handles == b.handles,
        a.next_sid == b.next_sid,
    ensures
        same_service_table(a, b),
{
    a.lemma_handles();
    assert forall|s: SID| #[trigger] b.has_service(s) == a.has_service(s) by {
        if a.has_service(s) {
            let k = a.idx_of(s);
            assert(b.handles[k].sid == s);
        }
        if b.has_service(s) {
            let k = b.idx_of(s);
            assert(a.handles[k].sid == s);
        }
    }
    assert forall|s: SID| a.has_service(s) implies #[trigger] b.state_of(s) == a.state_of(s)
        && b.name_of(s) == a.name_of(s) by {
        let k = a.idx_of(s);
        assert(b.handles[k].sid == s);
        let j = b.idx_of(s);
        assert(0 <= j < b.handles.len() && b.handles[j].sid == s);
        if j < k {
            assert(a.handles[j].sid != a.handles[k].sid);
        } else if k < j {
            assert(a.handles[k].sid != a.handles[j].sid);
        }
    }
}

/// Law: an event never reaches a service that is not subscribed to its
/// topic. A subscriber of some other topic alone sees its delivery log
/// unchanged by the dispatch.
pub proof fn lemma_topic_isolation(
    pre: Kernel,
    post: Kernel,
    s: SID,
    event_topic: Seq<char>,
    other_topic: Seq<char>,
    payload: Seq<char>,
)
    requires
        event_dispatch_effect(pre, post, event_topic, payload),
        pre.subs().contains((s, other_topic)),
        !pre.subs().contains((s, event_topic)),
    ensures
        post.deliveries_of(s) == pre.deliveries_of(s),
{
}

/// Law: the publisher is not excluded from delivery. Whoever is subscribed
/// to the event's topic — the sender of the event included — has the event
/// appended to its delivery log.
pub proof fn lemma_no_self_exclusion(
    pre: Kernel,
    post: Kernel,
    publisher: SID,
    topic: Seq<char>,
    payload: Seq<char>,
)
    requires
        event_dispatch_effect(pre, post, topic, payload),
        pre.subs().contains((publisher, topic)),
    ensures
        post.deliveries_of(publisher) == pre.deliveries_of(publisher).push(
            EventView { topic, payload },
        ),
{
}

/// Law: per-pair ordering. When two events are dispatched on one topic, one
/// after the other, a subscriber of that topic sees the first strictly
/// before the second in its delivery log: the log is the old log with the
/// two events appended in dispatch order. A subscriber's inbound channel
/// receives its copies in log order, so what holds of the log holds of what
/// the subscriber receives.
pub proof fn lemma_per_pair_ordering(
    k0: Kernel,
    k1: Kernel,
    k2: Kernel,
    b: SID,
    topic: Seq<char>,
    v1: Seq<char>,
    v2: Seq<char>,
)
    requires
        event_dispatch_effect(k0, k1, topic, v1),
        event_dispatch_effect(k1, k2, topic, v2),
        k0.subs().contains((b, topic)),
    ensures
        k2.deliveries_of(b) == k0.deliveries_of(b).push(EventView { topic, payload: v1 }).push(
            EventView { topic, payload: v2 },
        ),
        k2.deliveries_of(b)[k0.deliveries_of(b).len() as int] == (EventView {
            topic,
            payload: v1,
        }),
        k2.deliveries_of(b)[k0.deliveries_of(b).len() as int + 1] == (EventView {
            topic,
            payload: v2,
        }),
{
    assert(k1.subs().contains((b, topic)));
    assert(k1.deliveries_of(b) == k0.deliveries_of(b).push(EventView { topic, payload: v1 }));
    assert(k2.deliveries_of(b) == k1.deliveries_of(b).push(EventView { topic, payload: v2 }));
}

/// Between `pre` and `post`, subscriber `s`'s delivery log only grew at the
/// end: everything already handed out keeps its position. Every kernel
/// operation has this shape — a log is appended to or left alone, never
/// rewritten.
pub open spec fn log_extends(pre: Kernel, post: Kernel, s: SID) -> bool {
    &&& post.deliveries_of(s).len() >= pre.deliveries_of(s).len()
    &&& forall|i: int|
        0 <= i < pre.deliveries_of(s).len() ==> #[trigger] post.deliveries_of(s)[i]
            == pre.deliveries_of(s)[i]
}

/// Law: per-pair ordering holds across interleaved traffic. Two events
/// published on one topic, with any other dispatches between them that only
/// append to `b`'s log, land in `b`'s delivery log at positions `i < j`:
/// the first strictly before the second.
pub proof fn lemma_per_pair_ordering_interleaved(
    k0: Kernel,
    k1: Kernel,
    k2: Kernel,
    k3: Kernel,
    b: SID,
    topic: Seq<char>,
    v1: Seq<char>,
    v2: Seq<char>,
)
    requires
        event_dispatch_effect(k0, k1, topic, v1),
        log_extends(k1, k2, b),
        event_dispatch_effect(k2, k3, topic, v2),
        k0.subs().contains((b, topic)),
        k2.subs().contains((b, topic)),
    ensures
        exists|i: int, j: int|
            0 <= i < j < k3.deliveries_of(b).len() && #[trigger] k3.deliveries_of(b)[i]
                == (EventView { topic, payload: v1 }) && #[trigger] k3.deliveries_of(b)[j]
                == (EventView { topic, payload: v2 }),
{
    let ev1 = EventView { topic, payload: v1 };
    let ev2 = EventView { topic, payload: v2 };
    let i = k0.deliveries_of(b).len() as int;
    let j = k2.deliveries_of(b).len() as int;
    assert(k1.deliveries_of(b) == k0.deliveries_of(b).push(ev1));
    assert(k1.deliveries_of(b)[i] == ev1);
    assert(k2.deliveries_of(b)[i] == ev1);
    assert(k3.deliveries_of(b) == k2.deliveries_of(b).push(ev2));
    assert(k3.deliveries_of(b)[i] == ev1);
    assert(k3.deliveries_of(b)[j] == ev2);
    assert(j >= k1.deliveries_of(b).len());
    assert(0 <= i < j < k3.deliveries_of(b).len());
}

/// Law: an unresponsive subscriber does not block the others. With `blocked`
/// and `healthy` both subscribed to the topic, dispatching the event hands
/// it to `healthy`, and recording that `blocked`'s copy could not be placed
/// moves the drop counter alone — `healthy`'s delivery log and every
/// subscription stay exactly as they were.
pub proof fn lemma_blocked_subscriber_isolated(
    k0: Kernel,
    k1: Kernel,
    k2: Kernel,
    blocked: SID,
    healthy: SID,
    topic: Seq<char>,
    payload: Seq<char>,
)
    requires
        event_dispatch_effect(k0, k1, topic, payload),
        undeliverable_effect(k1, k2),
        k0.subs().contains((blocked, topic)),
        k0.subs().contains((healthy, topic)),
    ensures
        k1.deliveries_of(healthy) == k0.deliveries_of(healthy).push(
            EventView { topic, payload },
        ),
        k2.deliveries_of(healthy) == k1.deliveries_of(healthy),
        k2.subs() == k0.subs(),
{
}

} // verus!
