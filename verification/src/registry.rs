use vstd::prelude::*;

use crate::messages::SID;

verus! {

/// One topic together with the subscribers currently interested in it.
struct Entry {
    topic: String,
    sids: Vec<SID>,
}

/// The routing table: which subscriber has an active, un-retracted interest
/// in which topic.
///
/// Its mathematical value (the view) is the set of (subscriber, topic) pairs
/// currently registered; the concrete layout groups subscribers by topic.
pub struct Registry {
    entries: Vec<Entry>,
}

impl View for Registry {
    type V = Set<(SID, Seq<char>)>;

    closed spec fn view(&self) -> Set<(SID, Seq<char>)> {
        Set::new(
            |p: (SID, Seq<char>)|
                exists|i: int|
                    0 <= i < self.entries.len() && self.entries[i].topic@ == p.1
                        && self.entries[i].sids@.contains(p.0),
        )
    }
}

/// True of a vector exactly when it holds `x`.
fn contains_sid(v: &Vec<SID>, x: SID) -> (b: bool)
    ensures
        b == v@.contains(x),
{
    let mut j: usize = 0;
    while j < v.len()
        invariant
            j <= v@.len(),
            forall|k: int| 0 <= k < j ==> v@[k] != x,
        decreases v@.len() - j,
    {
        if v[j] == x {
            return true;
        }
        j += 1;
    }
    false
}

/// Copies `v` without every occurrence of `x`, keeping the order of the rest.
fn remove_sid(v: &Vec<SID>, x: SID) -> (kept: Vec<SID>)
    requires
        v@.no_duplicates(),
    ensures
        kept@.no_duplicates(),
        forall|s: SID| #[trigger] kept@.contains(s) <==> (v@.contains(s) && s != x),
{
    let mut kept: Vec<SID> = Vec::new();
    let mut j: usize = 0;
    while j < v.len()
        invariant
            j <= v@.len(),
            v@.no_duplicates(),
            kept@.no_duplicates(),
            forall|s: SID| #[trigger] kept@.contains(s) <==> (v@.subrange(0, j as int).contains(
                s,
            ) && s != x),
        decreases v@.len() - j,
    {
        let ghost prefix = v@.subrange(0, j as int);
        proof {
            assert(v@.subrange(0, j + 1) =~= prefix.push(v@[j as int]));
            assert forall|s: SID| #[trigger] v@.subrange(0, j + 1).contains(s) <==> (prefix.contains(
                s,
            ) || s == v@[j as int]) by {
                let ext = v@.subrange(0, j + 1);
                if ext.contains(s) {
                    let l = choose|l: int| 0 <= l < ext.len() && ext[l] == s;
                    if l < j {
                        assert(prefix[l] == s);
                    }
                } else {
                    if prefix.contains(s) {
                        let l = choose|l: int| 0 <= l < prefix.len() && prefix[l] == s;
                        assert(ext[l] == s);
                    }
                    assert(ext[j as int] == v@[j as int]);
                }
            }
        }
        if v[j] != x {
            proof {
                // `v` has no duplicates, so its element at `j` is not in the prefix,
                // hence not in `kept`; pushing it keeps `kept` duplicate-free.
                if prefix.contains(v@[j as int]) {
                    let l = choose|l: int| 0 <= l < prefix.len() && prefix[l] == v@[j as int];
                    assert(v@[l] == v@[j as int]);
                    assert(false);
                }
                assert(!kept@.contains(v@[j as int]));
            }
            let ghost kept_pre = kept@;
            kept.push(v[j]);
            proof {
                assert forall|s: SID| #[trigger] kept@.contains(s) <==> (kept_pre.contains(s) || s
                    == v@[j as int]) by {
                    if kept@.contains(s) {
                        let l = choose|l: int| 0 <= l < kept@.len() && kept@[l] == s;
                        if l < kept_pre.len() {
                            assert(kept_pre[l] == s);
                        }
                    } else {
                        if kept_pre.contains(s) {
                            let l = choose|l: int| 0 <= l < kept_pre.len() && kept_pre[l] == s;
                            assert(kept@[l] == s);
                        }
                        assert(kept@[kept_pre.len() as int] == v@[j as int]);
                    }
                }
                assert forall|a: int, b: int| 0 <= a < b < kept@.len() implies kept@[a] != kept@[b]
                    by {
                    if b < kept_pre.len() {
                    } else {
                        assert(kept@[b] == v@[j as int]);
                        assert(kept_pre[a] == kept@[a]);
                        assert(kept_pre.contains(kept@[a]));
                    }
                }
            }
        }
        j += 1;
    }
    proof {
        assert(v@.subrange(0, v@.len() as int) =~= v@);
    }
    kept
}

impl Registry {
    /// Topics occur at most once, and no subscriber is listed twice under one
    /// topic.
    pub closed spec fn wf(&self) -> bool {
        &&& forall|i: int, j: int|
            0 <= i < j < self.entries.len() ==> self.entries[i].topic@ != self.entries[j].topic@
        &&& forall|i: int|
            0 <= i < self.entries.len() ==> (#[trigger] self.entries[i].sids@).no_duplicates()
    }

    /// An empty routing table: nobody subscribed to anything.
    pub fn new() -> (r: Registry)
        ensures
            r.wf(),
            r@ == Set::<(SID, Seq<char>)>::empty(),
    {
        let r = Registry { entries: Vec::new() };
        proof {
            assert(r@ =~= Set::<(SID, Seq<char>)>::empty());
        }
        r
    }

    /// Records that `sid` wants to receive events published on `topic`.
    /// Idempotent: the registry afterwards holds the pair, and nothing else
    /// changed.
    pub fn record_subscribe(&mut self, sid: SID, topic: &String)
        requires
            old(self).wf(),
        ensures
            final(self).wf(),
            final(self)@ == old(self)@.insert((sid, topic@)),
    {
        let ghost pre = *self;
        let n = self.entries.len();
        let mut i: usize = 0;
        while i < n
            invariant
                pre == *old(self),
                pre.wf(),
                *self == pre,
                n == self.entries.len(),
                i <= n,
                forall|k: int| 0 <= k < i ==> self.entries[k].topic@ != topic@,
            decreases n - i,
        {
            if self.entries[i].topic == *topic {
                if !contains_sid(&self.entries[i].sids, sid) {
                    let ghost sids_pre = self.entries@[i as int].sids@;
                    let entry = &mut self.entries[i];
                    entry.sids.push(sid);
                    proof {
                        self.lemma_view_after_sid_push(pre, i as int, sid, topic@, sids_pre);
                    }
                } else {
                    proof {
                        assert(pre@.contains((sid, topic@)));
                        assert(pre@ =~= pre@.insert((sid, topic@)));
                    }
                }
                return ;
            }
            i += 1;
        }
        let mut fresh: Vec<SID> = Vec::new();
        fresh.push(sid);
        self.entries.push(Entry { topic: topic.clone(), sids: fresh });
        proof {
            self.lemma_view_after_entry_push(pre, sid, topic@);
        }
    }

    /// After pushing `sid` onto the subscriber list of entry `at` (whose topic
    /// reads `topic`), the view gains exactly the pair (`sid`, `topic`).
    proof fn lemma_view_after_sid_push(
        &self,
        pre: Registry,
        at: int,
        sid: SID,
        topic: Seq<char>,
        sids_pre: Seq<SID>,
    )
        requires
            pre.wf(),
            0 <= at < pre.entries.len(),
            pre.entries[at].topic@ == topic,
            pre.entries[at].sids@ == sids_pre,
            !sids_pre.contains(sid),
            self.entries@.len() == pre.entries@.len(),
            self.entries[at].topic@ == topic,
            self.entries[at].sids@ == sids_pre.push(sid),
            forall|k: int|
                0 <= k < self.entries@.len() && k != at ==> self.entries@[k] == pre.entries@[k],
        ensures
            self.wf(),
            self@ == pre@.insert((sid, topic)),
    {
        assert forall|s: SID| #[trigger] self.entries[at].sids@.contains(s) <==> (sids_pre.contains(
            s,
        ) || s == sid) by {
            let cur = self.entries[at].sids@;
            if cur.contains(s) {
                let l = choose|l: int| 0 <= l < cur.len() && cur[l] == s;
                if l < sids_pre.len() {
                    assert(sids_pre[l] == s);
                }
            } else {
                if sids_pre.contains(s) {
                    let l = choose|l: int| 0 <= l < sids_pre.len() && sids_pre[l] == s;
                    assert(cur[l] == s);
                }
                assert(cur[sids_pre.len() as int] == sid);
            }
        }
        assert forall|a: int, b: int|
            0 <= a < b < self.entries[at].sids@.len() implies self.entries[at].sids@[a]
            != self.entries[at].sids@[b] by {
            let cur = self.entries[at].sids@;
            if b < sids_pre.len() {
            } else {
                assert(cur[b] == sid);
                assert(sids_pre[a] == cur[a]);
                assert(sids_pre.contains(cur[a]));
            }
        }
        assert forall|p: (SID, Seq<char>)| #[trigger] self@.contains(p) <==> (pre@.contains(p) || p
            == (sid, topic)) by {
            if self@.contains(p) {
                let k = choose|k: int|
                    0 <= k < self.entries.len() && self.entries[k].topic@ == p.1
                        && self.entries[k].sids@.contains(p.0);
                if k != at {
                    assert(pre.entries[k].topic@ == p.1 && pre.entries[k].sids@.contains(p.0));
                    assert(pre@.contains(p));
                } else {
                    if p.0 == sid && p.1 == topic {
                    } else {
                        assert(sids_pre.contains(p.0));
                        assert(pre.entries[at].topic@ == p.1 && pre.entries[at].sids@.contains(
                            p.0,
                        ));
                        assert(pre@.contains(p));
                    }
                }
            } else {
                if pre@.contains(p) {
                    let k = choose|k: int|
                        0 <= k < pre.entries.len() && pre.entries[k].topic@ == p.1
                            && pre.entries[k].sids@.contains(p.0);
                    if k != at {
                        assert(self.entries[k].topic@ == p.1 && self.entries[k].sids@.contains(
                            p.0,
                        ));
                    } else {
                        assert(self.entries[at].sids@.contains(p.0));
                    }
                    assert(self@.contains(p));
                }
                if p == (sid, topic) {
                    assert(self.entries[at].sids@.contains(sid));
                    assert(self@.contains(p));
                }
            }
        }
        assert(self@ =~= pre@.insert((sid, topic)));
    }

    /// After appending a brand-new entry for `topic` holding `sid` alone, the
    /// view gains exactly the pair (`sid`, `topic`).
    proof fn lemma_view_after_entry_push(&self, pre: Registry, sid: SID, topic: Seq<char>)
        requires
            pre.wf(),
            forall|k: int| 0 <= k < pre.entries.len() ==> pre.entries[k].topic@ != topic,
            self.entries@.len() == pre.entries@.len() + 1,
            forall|k: int| 0 <= k < pre.entries@.len() ==> self.entries@[k] == pre.entries@[k],
            self.entries[pre.entries@.len() as int].topic@ == topic,
            self.entries[pre.entries@.len() as int].sids@ == seq![sid],
        ensures
            self.wf(),
            self@ == pre@.insert((sid, topic)),
    {
        let at = pre.entries@.len() as int;
        assert(self.entries[at].sids@.no_duplicates());
        assert forall|p: (SID, Seq<char>)| #[trigger] self@.contains(p) <==> (pre@.contains(p) || p
            == (sid, topic)) by {
            if self@.contains(p) {
                let k = choose|k: int|
                    0 <= k < self.entries.len() && self.entries[k].topic@ == p.1
                        && self.entries[k].sids@.contains(p.0);
                if k < at {
                    assert(pre@.contains(p));
                } else {
                    assert(self.entries[at].sids@[0] == sid);
                    assert(p.0 == sid && p.1 == topic);
                }
            } else {
                if pre@.contains(p) {
                    let k = choose|k: int|
                        0 <= k < pre.entries.len() && pre.entries[k].topic@ == p.1
                            && pre.entries[k].sids@.contains(p.0);
                    assert(self.entries[k].topic@ == p.1 && self.entries[k].sids@.contains(p.0));
                    assert(self@.contains(p));
                }
                if p == (sid, topic) {
                    assert(self.entries[at].sids@[0] == sid);
                    assert(self.entries[at].sids@.contains(sid));
                    assert(self@.contains(p));
                }
            }
        }
        assert(self@ =~= pre@.insert((sid, topic)));
    }

    /// Retracts `sid`'s interest in `topic`. Idempotent: unsubscribing from a
    /// topic never subscribed to is a no-op, not an error.
    pub fn record_unsubscribe(&mut self, sid: SID, topic: &String)
        requires
            old(self).wf(),
        ensures
            final(self).wf(),
            final(self)@ == old(self)@.remove((sid, topic@)),
    {
        let ghost pre = *self;
        let n = self.entries.len();
        let mut i: usize = 0;
        while i < n
            invariant
                pre == *old(self),
                pre.wf(),
                *self == pre,
                n == self.entries.len(),
                i <= n,
                forall|k: int| 0 <= k < i ==> self.entries[k].topic@ != topic@,
            decreases n - i,
        {
            if self.entries[i].topic == *topic {
                let kept = remove_sid(&self.entries[i].sids, sid);
                let ghost kept_view = kept@;
                let entry = &mut self.entries[i];
                entry.sids = kept;
                proof {
                    self.lemma_view_after_sid_removal(pre, i as int, sid, topic@, kept_view);
                }
                return ;
            }
            i += 1;
        }
        proof {
            // No entry names this topic, so the pair is absent and removal
            // changes nothing.
            if pre@.contains((sid, topic@)) {
                let k = choose|k: int|
                    0 <= k < pre.entries.len() && pre.entries[k].topic@ == topic@
                        && pre.entries[k].sids@.contains(sid);
                assert(false);
            }
            assert(pre@ =~= pre@.remove((sid, topic@)));
        }
    }

    /// After replacing the subscriber list of entry `at` (whose topic reads
    /// `topic`) by the same list without `sid`, the view loses exactly the
    /// pair (`sid`, `topic`).
    proof fn lemma_view_after_sid_removal(
        &self,
        pre: Registry,
        at: int,
        sid: SID,
        topic: Seq<char>,
        kept: Seq<SID>,
    )
        requires
            pre.wf(),
            0 <= at < pre.entries.len(),
            pre.entries[at].topic@ == topic,
            kept.no_duplicates(),
            forall|s: SID| #[trigger] kept.contains(s) <==> (pre.entries[at].sids@.contains(s) && s
                != sid),
            self.entries@.len() == pre.entries@.len(),
            self.entries[at].topic@ == topic,
            self.entries[at].sids@ == kept,
            forall|k: int|
                0 <= k < self.entries@.len() && k != at ==> self.entries@[k] == pre.entries@[k],
        ensures
            self.wf(),
            self@ == pre@.remove((sid, topic)),
    {
        assert forall|p: (SID, Seq<char>)| #[trigger] self@.contains(p) <==> (pre@.contains(p) && p
            != (sid, topic)) by {
            if self@.contains(p) {
                let k = choose|k: int|
                    0 <= k < self.entries.len() && self.entries[k].topic@ == p.1
                        && self.entries[k].sids@.contains(p.0);
                if k != at {
                    assert(pre@.contains(p));
                    // Topic uniqueness: entry `at` is the only one reading `topic`,
                    // so a witness elsewhere speaks of a different topic.
                    assert(pre.entries[k].topic@ != topic);
                } else {
                    assert(kept.contains(p.0));
                    assert(pre.entries[at].sids@.contains(p.0) && p.0 != sid);
                    assert(pre@.contains(p));
                }
            } else {
                if pre@.contains(p) && p != (sid, topic) {
                    let k = choose|k: int|
                        0 <= k < pre.entries.len() && pre.entries[k].topic@ == p.1
                            && pre.entries[k].sids@.contains(p.0);
                    if k != at {
                        assert(self.entries[k].topic@ == p.1 && self.entries[k].sids@.contains(
                            p.0,
                        ));
                        assert(self@.contains(p));
                    } else {
                        assert(p.1 == topic);
                        assert(p.0 != sid);
                        assert(kept.contains(p.0));
                        assert(self@.contains(p));
                    }
                }
            }
        }
        assert(self@ =~= pre@.remove((sid, topic)));
    }

    /// The current subscribers of `topic`, as a duplicate-free snapshot.
    pub fn subscribers_of(&self, topic: &String) -> (subs: Vec<SID>)
        requires
            self.wf(),
        ensures
            subs@.no_duplicates(),
            forall|s: SID| #[trigger] subs@.contains(s) <==> self@.contains((s, topic@)),
    {
        let n = self.entries.len();
        let mut i: usize = 0;
        while i < n
            invariant
                self.wf(),
                n == self.entries.len(),
                i <= n,
                forall|k: int| 0 <= k < i ==> self.entries[k].topic@ != topic@,
            decreases n - i,
        {
            if self.entries[i].topic == *topic {
                let mut out: Vec<SID> = Vec::new();
                let m = self.entries[i].sids.len();
                let mut j: usize = 0;
                while j < m
                    invariant
                        0 <= i < self.entries.len(),
                        m == self.entries[i as int].sids@.len(),
                        j <= m,
                        out@ == self.entries[i as int].sids@.subrange(0, j as int),
                    decreases m - j,
                {
                    out.push(self.entries[i].sids[j]);
                    proof {
                        assert(out@ =~= self.entries[i as int].sids@.subrange(0, j + 1));
                    }
                    j += 1;
                }
                proof {
                    assert(out@ =~= self.entries[i as int].sids@);
                    assert forall|s: SID| #[trigger] out@.contains(s) <==> self@.contains(
                        (s, topic@),
                    ) by {
                        if out@.contains(s) {
                            assert(self.entries[i as int].sids@.contains(s));
                            assert(self@.contains((s, topic@)));
                        }
                        if self@.contains((s, topic@)) {
                            let k = choose|k: int|
                                0 <= k < self.entries.len() && self.entries[k].topic@ == topic@
                                    && self.entries[k].sids@.contains(s);
                            assert(k == i);
                        }
                    }
                }
                return out;
            }
            i += 1;
        }
        let out: Vec<SID> = Vec::new();
        proof {
            assert forall|s: SID| #[trigger] out@.contains(s) <==> self@.contains((s, topic@)) by {
                if self@.contains((s, topic@)) {
                    let k = choose|k: int|
                        0 <= k < self.entries.len() && self.entries[k].topic@ == topic@
                            && self.entries[k].sids@.contains(s);
                    assert(false);
                }
            }
        }
        out
    }

    /// Removes `sid` from every topic, as when its service terminates. Safe
    /// to call for a SID that was never subscribed to anything.
    pub fn forget(&mut self, sid: SID)
        requires
            old(self).wf(),
        ensures
            final(self).wf(),
            forall|p: (SID, Seq<char>)| #[trigger]
                final(self)@.contains(p) <==> (old(self)@.contains(p) && p.0 != sid),
    {
        let ghost pre = *self;
        let n = self.entries.len();
        let mut i: usize = 0;
        while i < n
            invariant
                pre == *old(self),
                n == self.entries.len(),
                i <= n,
                pre.wf(),
                n == pre.entries.len(),
                forall|k: int| #![auto]
                    0 <= k < n ==> self.entries[k].topic@ == pre.entries[k].topic@,
                forall|k: int|
                    i <= k < n ==> #[trigger] self.entries@[k].sids@ == pre.entries@[k].sids@,
                forall|k: int|
                    0 <= k < i ==> (#[trigger] self.entries@[k].sids@).no_duplicates(),
                forall|k: int, s: SID|
                    0 <= k < i ==> (#[trigger] self.entries@[k].sids@.contains(s) <==> (
                    pre.entries@[k].sids@.contains(s) && s != sid)),
            decreases n - i,
        {
            let kept = remove_sid(&self.entries[i].sids, sid);
            let entry = &mut self.entries[i];
            entry.sids = kept;
            i += 1;
        }
        proof {
            assert forall|i_: int, j_: int|
                0 <= i_ < j_ < self.entries.len() implies self.entries[i_].topic@
                != self.entries[j_].topic@ by {
                assert(self.entries[i_].topic@ == pre.entries[i_].topic@);
                assert(self.entries[j_].topic@ == pre.entries[j_].topic@);
            }
            assert forall|p: (SID, Seq<char>)| #[trigger] self@.contains(p) <==> (pre@.contains(p)
                && p.0 != sid) by {
                if self@.contains(p) {
                    let k = choose|k: int|
                        0 <= k < self.entries.len() && self.entries[k].topic@ == p.1
                            && self.entries[k].sids@.contains(p.0);
                    assert(pre.entries@[k].sids@.contains(p.0) && p.0 != sid);
                    assert(pre@.contains(p));
                } else {
                    if pre@.contains(p) && p.0 != sid {
                        let k = choose|k: int|
                            0 <= k < pre.entries.len() && pre.entries[k].topic@ == p.1
                                && pre.entries[k].sids@.contains(p.0);
                        assert(self.entries@[k].sids@.contains(p.0));
                        assert(self@.contains(p));
                    }
                }
            }
        }
    }
}

/// Law: subscribing twice leaves the same subscriptions as subscribing once.
///
/// `record_subscribe` promises that the new registry value is the old one
/// with the pair inserted; inserting the same pair again changes nothing.
pub proof fn lemma_subscribe_idempotent(subs: Set<(SID, Seq<char>)>, sid: SID, topic: Seq<char>)
    ensures
        subs.insert((sid, topic)).insert((sid, topic)) == subs.insert((sid, topic)),
{
    assert(subs.insert((sid, topic)).insert((sid, topic)) =~= subs.insert((sid, topic)));
}

/// Law: unsubscribing undoes a subscribe. After insert-then-remove of one
/// pair the pair is gone; if it was never present the insert-then-remove, and
/// a bare remove, give back the starting subscriptions unchanged.
pub proof fn lemma_unsubscribe_inverse(subs: Set<(SID, Seq<char>)>, sid: SID, topic: Seq<char>)
    ensures
        !subs.insert((sid, topic)).remove((sid, topic)).contains((sid, topic)),
        !subs.contains((sid, topic)) ==> subs.insert((sid, topic)).remove((sid, topic)) == subs,
        !subs.contains((sid, topic)) ==> subs.remove((sid, topic)) == subs,
{
    if !subs.contains((sid, topic)) {
        assert(subs.insert((sid, topic)).remove((sid, topic)) =~= subs);
        assert(subs.remove((sid, topic)) =~= subs);
    }
}

} // verus!
