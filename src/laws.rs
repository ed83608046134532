use vstd::prelude::*;

use crate::command::{classify, quit_word, CommandView};
use crate::event::EventView;
use crate::queue::{QueueView, QUEUE_CAPACITY};
use crate::registry::{
    accepts, delivered, fresh_queue, has_id, ids_unique, index_of, peers_ok, queue_of, with_peer,
    without, PeerId, Peers,
};
use crate::session::{after_frame, joined, step_of, SessionStep};

verus! {

/// Where identities are unique, an entry found at `i` is the one `index_of`
/// picks.
proof fn lemma_index_of(s: Peers, id: PeerId, i: int)
    requires
        ids_unique(s),
        0 <= i < s.len(),
        s[i].0 == id,
    ensures
        has_id(s, id),
        index_of(s, id) == i,
{
    assert(has_id(s, id));
}

proof fn lemma_drop_last_ok(s: Peers)
    requires
        peers_ok(s),
        s.len() > 0,
    ensures
        peers_ok(s.drop_last()),
        !has_id(s.drop_last(), s.last().0),
        forall|x: PeerId| has_id(s.drop_last(), x) ==> has_id(s, x) && index_of(s, x) == index_of(s.drop_last(), x),
        forall|x: PeerId| x != s.last().0 ==> (has_id(s, x) <==> has_id(s.drop_last(), x)),
{
    let t = s.drop_last();
    assert forall|a: int, b: int| 0 <= a < b < t.len() implies t[a].0 != t[b].0 by {
        assert(t[a] == s[a] && t[b] == s[b]);
    };
    assert forall|a: int| 0 <= a < t.len() implies t[a].1.events.len() <= QUEUE_CAPACITY by {
        assert(t[a] == s[a]);
    };
    if has_id(t, s.last().0) {
        let a = choose|a: int| 0 <= a < t.len() && t[a].0 == s.last().0;
        assert(s[a] == t[a]);
    }
    assert forall|x: PeerId| has_id(t, x) implies has_id(s, x) && index_of(s, x) == index_of(t, x) by {
        let a = index_of(t, x);
        assert(s[a] == t[a]);
        lemma_index_of(s, x, a);
    };
    assert forall|x: PeerId| x != s.last().0 && has_id(s, x) implies has_id(t, x) by {
        let a = index_of(s, x);
        assert(a != s.len() - 1);
        assert(s[a] == t[a]);
    };
}

/// What a broadcast does to each identity: the sender keeps its entry
/// untouched, another peer whose queue accepts gets the event appended, and
/// any other peer is removed.
pub proof fn lemma_delivered_entries(s: Peers, sender: PeerId, e: EventView, x: PeerId)
    requires
        peers_ok(s),
    ensures
        peers_ok(delivered(s, sender, e)),
        has_id(delivered(s, sender, e), x) <==> has_id(s, x) && (x == sender || accepts(
            queue_of(s, x),
        )),
        has_id(s, x) && x == sender ==> queue_of(delivered(s, sender, e), x) == queue_of(s, x),
        has_id(s, x) && x != sender && accepts(queue_of(s, x)) ==> queue_of(
            delivered(s, sender, e),
            x,
        ) == (QueueView { events: queue_of(s, x).events.push(e), closed: false }),
    decreases s.len(),
{
    let r = delivered(s, sender, e);
    if s.len() > 0 {
        let t = s.drop_last();
        let p = s.last();
        lemma_drop_last_ok(s);
        lemma_delivered_entries(t, sender, e, x);
        lemma_delivered_entries(t, sender, e, p.0);
        let rest = delivered(t, sender, e);
        lemma_index_of(s, p.0, s.len() - 1);
        if p.0 == sender || accepts(p.1) {
            let p2 = r.last();
            assert(r.drop_last() =~= rest);
            assert(p2.0 == p.0);
            assert forall|a: int, b: int| 0 <= a < b < r.len() implies r[a].0 != r[b].0 by {
                assert(r[a] == rest[a]);
                if b < rest.len() {
                    assert(r[b] == rest[b]);
                } else {
                    assert(has_id(rest, r[a].0));
                }
            };
            assert forall|a: int| 0 <= a < r.len() implies r[a].1.events.len()
                <= QUEUE_CAPACITY by {
                if a < rest.len() {
                    assert(r[a] == rest[a]);
                }
            };
            lemma_index_of(r, p.0, r.len() - 1);
            if x != p.0 {
                if has_id(rest, x) {
                    let a = index_of(rest, x);
                    assert(r[a] == rest[a]);
                    lemma_index_of(r, x, a);
                }
                if has_id(r, x) {
                    let a = index_of(r, x);
                    assert(a != r.len() - 1);
                    assert(r[a] == rest[a]);
                }
            }
        } else {
            assert(r == rest);
        }
    }
}

/// The registry after each identity of `ids` joins in turn, the `i`th under
/// `names[i]`.
pub open spec fn joins(s: Peers, ids: Seq<PeerId>, names: Seq<Seq<char>>) -> Peers
    decreases ids.len(),
{
    if ids.len() == 0 || names.len() == 0 {
        s
    } else {
        joined(joins(s, ids.drop_last(), names.drop_last()), ids.last(), names.last())
    }
}

proof fn lemma_joins_shape(ids: Seq<PeerId>, names: Seq<Seq<char>>)
    requires
        ids.no_duplicates(),
        names.len() == ids.len(),
        ids.len() <= QUEUE_CAPACITY + 1,
    ensures
        peers_ok(joins(Seq::empty(), ids, names)),
        joins(Seq::empty(), ids, names).len() == ids.len(),
        forall|x: PeerId| has_id(joins(Seq::empty(), ids, names), x) <==> ids.contains(x),
        forall|i: int|
            0 <= i < ids.len() ==> {
                let q = #[trigger] joins(Seq::empty(), ids, names)[i].1;
                !q.closed && q.events.len() < ids.len()
            },
    decreases ids.len(),
{
    let s = joins(Seq::empty(), ids, names);
    if ids.len() > 0 {
        let pi = ids.drop_last();
        let pn = names.drop_last();
        let id = ids.last();
        assert(pi.no_duplicates()) by {
            assert forall|a: int, b: int| 0 <= a < b < pi.len() implies pi[a] != pi[b] by {
                assert(pi[a] == ids[a] && pi[b] == ids[b]);
            };
        };
        lemma_joins_shape(pi, pn);
        let t = joins(Seq::empty(), pi, pn);
        assert(!pi.contains(id)) by {
            if pi.contains(id) {
                let a = choose|a: int| 0 <= a < pi.len() && pi[a] == id;
                assert(ids[a] == id);
            }
        };
        assert(!has_id(t, id));
        let w = with_peer(t, id);
        assert(w == t.push((id, fresh_queue())));
        assert(peers_ok(w)) by {
            assert forall|a: int, b: int| 0 <= a < b < w.len() implies w[a].0 != w[b].0 by {
                assert(w[a] == t[a]);
                if b < t.len() {
                    assert(w[b] == t[b]);
                } else {
                    assert(has_id(t, w[a].0));
                }
            };
            assert forall|a: int| 0 <= a < w.len() implies w[a].1.events.len()
                <= QUEUE_CAPACITY by {
                if a < t.len() {
                    assert(w[a] == t[a]);
                }
            };
        };
        let e = EventView::Joined(names.last());
        lemma_delivered_all_accept(w, id, e);
        assert(s == delivered(w, id, e));
        assert forall|x: PeerId| has_id(s, x) <==> ids.contains(x) by {
            if has_id(s, x) {
                let a = choose|a: int| 0 <= a < s.len() && s[a].0 == x;
                assert(w[a].0 == x);
                if a < t.len() {
                    assert(w[a] == t[a]);
                    assert(has_id(t, x));
                    assert(pi.contains(x));
                    let b = choose|b: int| 0 <= b < pi.len() && pi[b] == x;
                    assert(ids[b] == x);
                } else {
                    assert(ids[ids.len() - 1] == x);
                }
            }
            if ids.contains(x) {
                let b = choose|b: int| 0 <= b < ids.len() && ids[b] == x;
                if b < pi.len() {
                    assert(pi[b] == x);
                    assert(pi.contains(x));
                    assert(has_id(t, x));
                    let a = choose|a: int| 0 <= a < t.len() && t[a].0 == x;
                    assert(w[a] == t[a]);
                    assert(s[a].0 == x);
                } else {
                    assert(s[t.len() as int].0 == x);
                }
            }
        };
        assert forall|i: int| 0 <= i < ids.len() implies {
            let q = #[trigger] s[i].1;
            !q.closed && q.events.len() < ids.len()
        } by {
            if i < t.len() {
                assert(w[i] == t[i]);
            }
        };
    }
}

/// A broadcast in which every peer but the sender accepts keeps every entry in
/// place and appends the event to each queue but the sender's.
proof fn lemma_delivered_all_accept(s: Peers, sender: PeerId, e: EventView)
    requires
        forall|i: int| 0 <= i < s.len() && s[i].0 != sender ==> accepts(#[trigger] s[i].1),
    ensures
        delivered(s, sender, e).len() == s.len(),
        forall|i: int|
            0 <= i < s.len() ==> #[trigger] delivered(s, sender, e)[i] == (if s[i].0 == sender {
                s[i]
            } else {
                (s[i].0, QueueView { events: s[i].1.events.push(e), closed: false })
            }),
    decreases s.len(),
{
    if s.len() > 0 {
        let t = s.drop_last();
        assert forall|i: int| 0 <= i < t.len() && t[i].0 != sender implies accepts(
            #[trigger] t[i].1,
        ) by {
            assert(t[i] == s[i]);
        };
        lemma_delivered_all_accept(t, sender, e);
        let r = delivered(s, sender, e);
        let rest = delivered(t, sender, e);
        assert forall|i: int| 0 <= i < s.len() implies #[trigger] r[i] == (if s[i].0 == sender {
            s[i]
        } else {
            (s[i].0, QueueView { events: s[i].1.events.push(e), closed: false })
        }) by {
            if i < t.len() {
                assert(r[i] == rest[i]);
                assert(t[i] == s[i]);
            }
        };
    }
}

/// However many connections complete the join handshake, each under an
/// identity of its own, the registry then holds exactly one entry for each of
/// them and no other, as long as no queue overflows on the `Joined`
/// announcements (at most one more join than a queue's capacity).
pub proof fn lemma_joins_register_each(ids: Seq<PeerId>, names: Seq<Seq<char>>)
    requires
        ids.no_duplicates(),
        names.len() == ids.len(),
        ids.len() <= QUEUE_CAPACITY + 1,
    ensures
        joins(Seq::empty(), ids, names).len() == ids.len(),
        forall|x: PeerId| has_id(joins(Seq::empty(), ids, names), x) <==> ids.contains(x),
{
    lemma_joins_shape(ids, names);
}

/// A broadcast reaches every other registered peer whose queue has room, as
/// the last event of its queue; two broadcasts arrive in the order they were
/// made; the sender's own queue is left as it was.
pub proof fn lemma_broadcasts_reach_others_in_order(
    s: Peers,
    sender: PeerId,
    e1: EventView,
    e2: EventView,
    other: PeerId,
)
    requires
        peers_ok(s),
        has_id(s, other),
        other != sender,
        !queue_of(s, other).closed,
        queue_of(s, other).events.len() + 2 <= QUEUE_CAPACITY,
    ensures
        has_id(delivered(s, sender, e1), other),
        queue_of(delivered(s, sender, e1), other).events == queue_of(s, other).events.push(e1),
        has_id(delivered(delivered(s, sender, e1), sender, e2), other),
        queue_of(delivered(delivered(s, sender, e1), sender, e2), other).events == queue_of(
            s,
            other,
        ).events.push(e1).push(e2),
        has_id(s, sender) ==> queue_of(delivered(s, sender, e1), sender) == queue_of(s, sender),
{
    lemma_delivered_entries(s, sender, e1, other);
    lemma_delivered_entries(s, sender, e1, sender);
    lemma_delivered_entries(delivered(s, sender, e1), sender, e2, other);
}

/// A peer that joins after a broadcast never receives it: its queue starts
/// empty, whatever was broadcast before.
pub proof fn lemma_late_joiner_misses_earlier(
    s: Peers,
    sender: PeerId,
    e: EventView,
    newcomer: PeerId,
    name: Seq<char>,
)
    requires
        peers_ok(s),
    ensures
        has_id(joined(delivered(s, sender, e), newcomer, name), newcomer),
        queue_of(joined(delivered(s, sender, e), newcomer, name), newcomer).events.len() == 0,
{
    let d = delivered(s, sender, e);
    lemma_delivered_entries(s, sender, e, newcomer);
    crate::registry::lemma_insert_ok(d, newcomer);
    let w = with_peer(d, newcomer);
    lemma_index_of(w, newcomer, w.len() - 1);
    lemma_delivered_entries(w, newcomer, EventView::Joined(name), newcomer);
}

/// A peer whose queue is full does not hold up a broadcast: every other peer
/// whose queue has room still gets the event, and the stalled peer is
/// removed.
pub proof fn lemma_stalled_peer_isolated(
    s: Peers,
    sender: PeerId,
    e: EventView,
    stalled: PeerId,
    other: PeerId,
)
    requires
        peers_ok(s),
        has_id(s, stalled),
        stalled != sender,
        queue_of(s, stalled).events.len() == QUEUE_CAPACITY,
        has_id(s, other),
        other != sender,
        accepts(queue_of(s, other)),
    ensures
        !has_id(delivered(s, sender, e), stalled),
        has_id(delivered(s, sender, e), other),
        queue_of(delivered(s, sender, e), other).events == queue_of(s, other).events.push(e),
{
    lemma_delivered_entries(s, sender, e, stalled);
    lemma_delivered_entries(s, sender, e, other);
}

/// Once a peer has sent `/quit` it is no longer registered, and no later
/// broadcast, from anyone, reaches it.
pub proof fn lemma_quit_unregisters(
    s: Peers,
    id: PeerId,
    name: Seq<char>,
    sender: PeerId,
    e: EventView,
)
    requires
        peers_ok(s),
    ensures
        step_of(quit_word()) == SessionStep::Closed,
        !has_id(after_frame(s, id, name, quit_word()), id),
        !has_id(delivered(after_frame(s, id, name, quit_word()), sender, e), id),
{
    assert(classify(quit_word()) == CommandView::Quit);
    let d = delivered(s, id, EventView::Left(name));
    lemma_delivered_entries(s, id, EventView::Left(name), id);
    crate::registry::lemma_without_drops(d, id);
    let q = without(d, id);
    lemma_delivered_entries(q, sender, e, id);
}

/// An empty frame, or a `/` command other than `/quit`, broadcasts nothing,
/// changes nothing, and leaves the session open for what follows.
pub proof fn lemma_ignored_frames_change_nothing(
    s: Peers,
    id: PeerId,
    name: Seq<char>,
    frame: Seq<char>,
)
    requires
        frame.len() == 0 || (frame[0] == '/' && frame != quit_word()),
    ensures
        after_frame(s, id, name, frame) == s,
        step_of(frame) == SessionStep::Continue,
{
}

} // verus!
