use std::sync::Arc;
use vstd::prelude::*;

use crate::event::{Event, EventView};
use crate::queue::{OutboundQueue, PushOutcome, QueueView, QUEUE_CAPACITY};

verus! {

/// The identity of one connection: unique while it is registered.
pub type PeerId = u64;

/// The registry's contents, in order of registration: each entry is a peer's
/// identity and its outbound queue.
pub type Peers = Seq<(PeerId, QueueView)>;

/// A fresh outbound queue: empty and open.
pub open spec fn fresh_queue() -> QueueView {
    QueueView { events: Seq::empty(), closed: false }
}

/// Whether `id` is registered.
pub open spec fn has_id(s: Peers, id: PeerId) -> bool {
    exists|i: int| 0 <= i < s.len() && s[i].0 == id
}

/// No identity appears twice.
pub open spec fn ids_unique(s: Peers) -> bool {
    forall|i: int, j: int| 0 <= i < j < s.len() ==> s[i].0 != s[j].0
}

/// The registry's invariant: identities are unique and no queue holds more
/// than its capacity.
pub open spec fn peers_ok(s: Peers) -> bool {
    &&& ids_unique(s)
    &&& forall|i: int| 0 <= i < s.len() ==> s[i].1.events.len() <= QUEUE_CAPACITY
}

/// The position of `id`, where it is registered.
pub open spec fn index_of(s: Peers, id: PeerId) -> int {
    choose|i: int| 0 <= i < s.len() && s[i].0 == id
}

/// The outbound queue of a registered `id`.
pub open spec fn queue_of(s: Peers, id: PeerId) -> QueueView {
    s[index_of(s, id)].1
}

/// The registry with `id` removed; unchanged where `id` is absent.
pub open spec fn without(s: Peers, id: PeerId) -> Peers {
    if has_id(s, id) {
        s.remove(index_of(s, id))
    } else {
        s
    }
}

/// The registry with `id` registered afresh: an earlier entry of `id` is
/// superseded.
pub open spec fn with_peer(s: Peers, id: PeerId) -> Peers {
    without(s, id).push((id, fresh_queue()))
}

/// The registry with the queue of a registered `id` replaced by `q`.
pub open spec fn with_queue(s: Peers, id: PeerId, q: QueueView) -> Peers {
    s.update(index_of(s, id), (id, q))
}

/// Whether a push of one event onto `q` succeeds.
pub open spec fn accepts(q: QueueView) -> bool {
    !q.closed && q.events.len() < QUEUE_CAPACITY
}

/// The registry after `e` is broadcast from `sender`: every other peer whose
/// queue accepts the event gets it appended; every other peer whose queue does
/// not is removed; the sender's entry is untouched.
pub open spec fn delivered(s: Peers, sender: PeerId, e: EventView) -> Peers
    decreases s.len(),
{
    if s.len() == 0 {
        s
    } else {
        let rest = delivered(s.drop_last(), sender, e);
        let p = s.last();
        if p.0 == sender {
            rest.push(p)
        } else if accepts(p.1) {
            rest.push((p.0, QueueView { events: p.1.events.push(e), closed: false }))
        } else {
            rest
        }
    }
}

/// Registering an identity afresh keeps the invariant.
pub proof fn lemma_insert_ok(s: Peers, id: PeerId)
    requires
        peers_ok(s),
    ensures
        peers_ok(with_peer(s, id)),
        with_peer(s, id).last() == (id, fresh_queue()),
{
    lemma_without_drops(s, id);
    let w = without(s, id);
    let r = with_peer(s, id);
    assert forall|a: int, b: int| 0 <= a < b < r.len() implies r[a].0 != r[b].0 by {
        assert(r[a] == w[a]);
        if b < w.len() {
            assert(r[b] == w[b]);
        } else {
            assert(has_id(w, r[a].0));
        }
    };
    assert forall|a: int| 0 <= a < r.len() implies r[a].1.events.len() <= QUEUE_CAPACITY by {
        if a < w.len() {
            assert(r[a] == w[a]);
        }
    };
}

/// Replacing one queue by a queue within capacity keeps the invariant.
proof fn lemma_update_queue_ok(s: Peers, i: int, q: QueueView)
    requires
        peers_ok(s),
        0 <= i < s.len(),
        q.events.len() <= QUEUE_CAPACITY,
    ensures
        peers_ok(s.update(i, (s[i].0, q))),
{
    let r = s.update(i, (s[i].0, q));
    assert forall|a: int, b: int| 0 <= a < b < r.len() implies r[a].0 != r[b].0 by {
        assert(r[a].0 == s[a].0 && r[b].0 == s[b].0);
    };
}

/// Removing an entry keeps the invariant.
proof fn lemma_remove_keeps_ok(s: Peers, i: int)
    requires
        peers_ok(s),
        0 <= i < s.len(),
    ensures
        peers_ok(s.remove(i)),
{
    let r = s.remove(i);
    assert forall|a: int, b: int| 0 <= a < b < r.len() implies r[a].0 != r[b].0 by {
        let a0 = if a < i { a } else { a + 1 };
        let b0 = if b < i { b } else { b + 1 };
        assert(r[a] == s[a0] && r[b] == s[b0]);
    };
    assert forall|a: int| 0 <= a < r.len() implies r[a].1.events.len() <= QUEUE_CAPACITY by {
        let a0 = if a < i { a } else { a + 1 };
        assert(r[a] == s[a0]);
    };
}

/// After `without`, the identity is gone, the invariant holds, and every other
/// identity stays exactly where it was registered.
pub proof fn lemma_without_drops(s: Peers, id: PeerId)
    requires
        peers_ok(s),
    ensures
        peers_ok(without(s, id)),
        !has_id(without(s, id), id),
        forall|x: PeerId| x != id ==> (has_id(without(s, id), x) <==> has_id(s, x)),
{
    if has_id(s, id) {
        let k = index_of(s, id);
        lemma_remove_keeps_ok(s, k);
        let r = s.remove(k);
        assert forall|x: PeerId| has_id(r, x) implies x != id && has_id(s, x) by {
            let a = choose|a: int| 0 <= a < r.len() && r[a].0 == x;
            let a0 = if a < k { a } else { a + 1 };
            assert(r[a] == s[a0]);
        };
        assert forall|x: PeerId| x != id && has_id(s, x) implies has_id(r, x) by {
            let a = choose|a: int| 0 <= a < s.len() && s[a].0 == x;
            assert(a != k);
            let a1 = if a < k { a } else { a - 1 };
            assert(r[a1] == s[a]);
        };
    }
}

/// A broadcast keeps the invariant, and every identity registered after it
/// was registered before it.
proof fn lemma_delivered_ok(s: Peers, sender: PeerId, e: EventView)
    requires
        peers_ok(s),
    ensures
        peers_ok(delivered(s, sender, e)),
        forall|x: PeerId| has_id(delivered(s, sender, e), x) ==> has_id(s, x),
    decreases s.len(),
{
    if s.len() > 0 {
        let t = s.drop_last();
        assert(peers_ok(t)) by {
            assert forall|a: int, b: int| 0 <= a < b < t.len() implies t[a].0 != t[b].0 by {
                assert(t[a] == s[a] && t[b] == s[b]);
            };
            assert forall|a: int| 0 <= a < t.len() implies t[a].1.events.len()
                <= QUEUE_CAPACITY by {
                assert(t[a] == s[a]);
            };
        };
        lemma_delivered_ok(t, sender, e);
        let rest = delivered(t, sender, e);
        let p = s.last();
        assert(!has_id(t, p.0)) by {
            if has_id(t, p.0) {
                let a = choose|a: int| 0 <= a < t.len() && t[a].0 == p.0;
                assert(s[a] == t[a]);
            }
        };
        assert(!has_id(rest, p.0));
        assert forall|x: PeerId| has_id(t, x) implies has_id(s, x) by {
            let a = choose|a: int| 0 <= a < t.len() && t[a].0 == x;
            assert(s[a] == t[a]);
        };
        let r = delivered(s, sender, e);
        if p.0 == sender || accepts(p.1) {
            assert forall|x: PeerId| has_id(r, x) implies has_id(s, x) by {
                let a = choose|a: int| 0 <= a < r.len() && r[a].0 == x;
                if a < rest.len() {
                    assert(r[a] == rest[a]);
                    assert(has_id(rest, x));
                } else {
                    assert(s[s.len() - 1].0 == x);
                }
            };
            assert forall|a: int, b: int| 0 <= a < b < r.len() implies r[a].0 != r[b].0 by {
                assert(r[a] == rest[a]);
                if b < rest.len() {
                    assert(r[b] == rest[b]);
                } else {
                    assert(has_id(rest, r[a].0));
                }
            };
            assert forall|a: int| 0 <= a < r.len() implies r[a].1.events.len()
                <= QUEUE_CAPACITY by {
                if a < rest.len() {
                    assert(r[a] == rest[a]);
                }
            };
        }
    }
}

struct Peer {
    id: PeerId,
    queue: OutboundQueue,
}

/// The directory of connected peers: each identity with its outbound queue.
pub struct Registry {
    peers: Vec<Peer>,
}

impl View for Registry {
    type V = Peers;

    closed spec fn view(&self) -> Peers {
        self.peers@.map_values(|p: Peer| (p.id, p.queue@))
    }
}

impl Registry {
    pub open spec fn wf(&self) -> bool {
        peers_ok(self@)
    }

    /// A registry with no peers.
    pub fn new() -> (r: Registry)
        ensures
            r.wf(),
            r@ == Seq::<(PeerId, QueueView)>::empty(),
    {
        let r = Registry { peers: Vec::new() };
        assert(r@ =~= Seq::<(PeerId, QueueView)>::empty());
        r
    }

    fn find(&self, id: PeerId) -> (r: Option<usize>)
        requires
            self.wf(),
        ensures
            r is None ==> !has_id(self@, id),
            r is Some ==> has_id(self@, id) && r->Some_0 == index_of(self@, id),
    {
        let mut i: usize = 0;
        while i < self.peers.len()
            invariant
                self.wf(),
                i <= self.peers@.len(),
                self@.len() == self.peers@.len(),
                forall|j: int| 0 <= j < i ==> self@[j].0 != id,
            decreases self.peers@.len() - i,
        {
            if self.peers[i].id == id {
                assert(self@[i as int].0 == id);
                assert(has_id(self@, id));
                let ghost k = index_of(self@, id);
                assert(k == i) by {
                    if k != i as int {
                        assert(ids_unique(self@));
                    }
                };
                return Some(i);
            }
            i += 1;
        }
        None
    }

    /// Removes `id`; removing an absent identity changes nothing.
    pub fn remove(&mut self, id: PeerId)
        requires
            old(self).wf(),
        ensures
            final(self).wf(),
            final(self)@ == without(old(self)@, id),
    {
        match self.find(id) {
            Some(i) => {
                self.peers.remove(i);
                assert(self@ =~= old(self)@.remove(i as int));
                proof {
                    lemma_remove_keeps_ok(old(self)@, i as int);
                }
            },
            None => {},
        }
    }

    /// Registers `id` with a fresh outbound queue, superseding any earlier
    /// entry of the same identity.
    pub fn insert(&mut self, id: PeerId)
        requires
            old(self).wf(),
        ensures
            final(self).wf(),
            final(self)@ == with_peer(old(self)@, id),
    {
        self.remove(id);
        proof {
            lemma_without_drops(old(self)@, id);
        }
        let q = OutboundQueue::new();
        self.peers.push(Peer { id, queue: q });
        assert(self@ =~= with_peer(old(self)@, id));
    }

    /// Offers `e` to every registered peer but `sender`, in registration
    /// order. A peer whose queue is closed or full is treated as gone and
    /// removed; the others each get `e` appended to their queue.
    pub fn broadcast(&mut self, sender: PeerId, e: Arc<Event>)
        requires
            old(self).wf(),
        ensures
            final(self).wf(),
            final(self)@ == delivered(old(self)@, sender, e@),
    {
        let ghost orig = self@;
        assert forall|j: int| 0 <= j < self@.len() implies self.peers@[j].queue.wf() by {
            assert(self@[j].1 == self.peers@[j].queue@);
        };
        let n = self.peers.len();
        let mut i: usize = 0;
        let mut k: usize = 0;
        while k < n
            invariant
                n == orig.len(),
                peers_ok(orig),
                k <= n,
                i <= k,
                self@.len() == self.peers@.len(),
                delivered(orig.take(k as int), sender, e@).len() == i,
                self@ == delivered(orig.take(k as int), sender, e@) + orig.skip(k as int),
                forall|j: int| 0 <= j < self@.len() ==> self.peers@[j].queue.wf(),
            decreases n - k,
        {
            proof {
                assert(orig.take(k as int + 1).drop_last() =~= orig.take(k as int));
                assert(orig.take(k as int + 1).last() == orig[k as int]);
                assert(self@[i as int] == orig[k as int]);
            }
            if self.peers[i].id == sender {
                i += 1;
                assert(self@ =~= delivered(orig.take(k as int + 1), sender, e@) + orig.skip(
                    k as int + 1,
                ));
            } else {
                let ghost before = self@;
                let ghost before_peers = self.peers@;
                let outcome = self.peers[i].queue.push(e.clone());
                assert(self.peers@ =~= before_peers.update(i as int, self.peers@[i as int]));
                assert(self@ =~= before.update(i as int, self@[i as int]));
                match outcome {
                    PushOutcome::Queued => {
                        let ghost p = orig[k as int];
                        let ghost pushed = (
                            p.0,
                            QueueView { events: p.1.events.push(e@), closed: false },
                        );
                        assert(self@[i as int] == pushed);
                        i += 1;
                        assert(self@ =~= delivered(orig.take(k as int + 1), sender, e@)
                            + orig.skip(k as int + 1));
                    },
                    _ => {
                        self.peers.remove(i);
                        assert(self@ =~= before.remove(i as int));
                        assert(self@ =~= delivered(orig.take(k as int + 1), sender, e@)
                            + orig.skip(k as int + 1));
                    },
                }
            }
            k += 1;
        }
        assert(orig.take(n as int) =~= orig);
        assert(orig.skip(n as int) =~= Seq::<(PeerId, QueueView)>::empty());
        assert(self@ =~= delivered(orig, sender, e@));
        proof {
            let ghost ev: EventView = e@;
            lemma_delivered_ok(orig, sender, ev);
        }
    }

    /// The writer side of `id`: removes and returns the oldest event waiting
    /// in its queue. `None` when `id` is not registered or nothing waits.
    pub fn take_next(&mut self, id: PeerId) -> (r: Option<Arc<Event>>)
        requires
            old(self).wf(),
        ensures
            final(self).wf(),
            !has_id(old(self)@, id) ==> r is None && final(self)@ == old(self)@,
            has_id(old(self)@, id) && queue_of(old(self)@, id).events.len() == 0 ==> r is None
                && final(self)@ == old(self)@,
            has_id(old(self)@, id) && queue_of(old(self)@, id).events.len() > 0 ==> r is Some
                && r->Some_0@ == queue_of(old(self)@, id).events[0] && final(self)@ == with_queue(
                old(self)@,
                id,
                QueueView {
                    events: queue_of(old(self)@, id).events.drop_first(),
                    closed: queue_of(old(self)@, id).closed,
                },
            ),
    {
        match self.find(id) {
            None => None,
            Some(i) => {
                let ghost before = self@;
                let ghost before_peers = self.peers@;
                assert(self.peers@[i as int].queue@ == before[i as int].1);
                let r = self.peers[i].queue.pop();
                assert(self.peers@ =~= before_peers.update(i as int, self.peers@[i as int]));
                assert(self@ =~= before.update(i as int, self@[i as int]));
                proof {
                    lemma_update_queue_ok(before, i as int, self@[i as int].1);
                }
                proof {
                    if before[i as int].1.events.len() == 0 {
                        assert(self@ =~= before);
                    }
                }
                r
            },
        }
    }

    /// Records that the consumer of `id`'s queue is gone (its writer
    /// stopped): every later push to it fails. Nothing changes where `id` is
    /// not registered.
    pub fn close_outbound(&mut self, id: PeerId)
        requires
            old(self).wf(),
        ensures
            final(self).wf(),
            !has_id(old(self)@, id) ==> final(self)@ == old(self)@,
            has_id(old(self)@, id) ==> final(self)@ == with_queue(
                old(self)@,
                id,
                QueueView { events: queue_of(old(self)@, id).events, closed: true },
            ),
    {
        match self.find(id) {
            None => {},
            Some(i) => {
                let ghost before = self@;
                let ghost before_peers = self.peers@;
                assert(self.peers@[i as int].queue@ == before[i as int].1);
                self.peers[i].queue.close();
                assert(self.peers@ =~= before_peers.update(i as int, self.peers@[i as int]));
                assert(self@ =~= before.update(i as int, self@[i as int]));
                proof {
                    lemma_update_queue_ok(before, i as int, self@[i as int].1);
                }
            },
        }
    }

    /// Whether `id` is registered.
    pub fn contains(&self, id: PeerId) -> (r: bool)
        requires
            self.wf(),
        ensures
            r == has_id(self@, id),
    {
        self.find(id).is_some()
    }

    /// The number of registered peers.
    pub fn len(&self) -> (r: usize)
        ensures
            r == self@.len(),
    {
        self.peers.len()
    }
}

} // verus!
