//! The connection registry: the set of currently registered observers, each
//! with its own outbound queue, and the fan-out of one message to all of
//! them.
//!
//! Each registered connection owns the sending half of an unbounded channel;
//! the receiving half is handed to the caller, who forwards what arrives on
//! it over the connection's transport. The registry is a single owning value;
//! callers that share it across tasks serialize access to it and so obtain
//! the per-connection delivery order stated here.

use vstd::prelude::*;
use futures::channel::mpsc::UnboundedReceiver;
use futures::channel::mpsc::UnboundedSender;

verus! {

#[verifier::external_type_specification]
#[verifier::external_body]
#[verifier::reject_recursive_types(T)]
pub struct ExUnboundedSender<T>(UnboundedSender<T>);

#[verifier::external_type_specification]
#[verifier::external_body]
#[verifier::reject_recursive_types(T)]
pub struct ExUnboundedReceiver<T>(UnboundedReceiver<T>);

/// The messages handed to the sending half of a channel so far, in order.
pub uninterp spec fn sent_of(tx: UnboundedSender<String>) -> Seq<Seq<char>>;

/// Relies on futures::channel::mpsc::unbounded: it creates a fresh channel
/// pair, to which nothing has been handed yet.
#[verifier::external_body]
fn new_channel() -> (r: (UnboundedSender<String>, UnboundedReceiver<String>))
    ensures
        sent_of(r.0) == Seq::<Seq<char>>::empty(),
{
    futures::channel::mpsc::unbounded()
}

/// Relies on UnboundedSender::unbounded_send: it hands the message to the
/// channel without blocking and without panicking; the channel refuses it,
/// reported by the result, only when the receiving half is gone.
#[verifier::external_body]
fn submit_text(tx: &mut UnboundedSender<String>, message: &str) -> (ok: bool)
    ensures
        sent_of(*final(tx)) == sent_of(*old(tx)).push(message@),
{
    tx.unbounded_send(message.to_string()).is_ok()
}

/// One registered connection: its identifier and the sending half of its
/// outbound queue.
struct Connection {
    id: u64,
    tx: UnboundedSender<String>,
}

/// One registered connection, at the level of contracts: its identifier and
/// the messages submitted to its outbound queue so far, in order.
#[verifier::ext_equal]
pub struct ConnView {
    pub id: u64,
    pub sent: Seq<Seq<char>>,
}

/// Whether no identifier occurs twice.
pub open spec fn ids_distinct(s: Seq<ConnView>) -> bool {
    forall|i: int, j: int| 0 <= i < j < s.len() ==> s[i].id != s[j].id
}

/// The registry with the given identifier taken out, if it is there.
pub open spec fn spec_remove(s: Seq<ConnView>, id: u64) -> Seq<ConnView>
    decreases s.len(),
{
    if s.len() == 0 {
        s
    } else if s[0].id == id {
        s.skip(1)
    } else {
        seq![s[0]] + spec_remove(s.skip(1), id)
    }
}

/// The registry after one message went out: every connection keeps its
/// identifier and its queue grows by exactly that message.
pub open spec fn spec_dispatch(s: Seq<ConnView>, m: Seq<char>) -> Seq<ConnView> {
    s.map_values(|c: ConnView| ConnView { id: c.id, sent: c.sent.push(m) })
}

/// The registry of currently connected observers.
pub struct Connections {
    channels: Vec<Connection>,
    next_id: u64,
}

impl View for Connections {
    type V = Seq<ConnView>;

    closed spec fn view(&self) -> Seq<ConnView> {
        self.channels@.map_values(|c: Connection| ConnView { id: c.id, sent: sent_of(c.tx) })
    }
}

impl Connections {
    /// How many identifiers were ever minted; identifiers are never reused,
    /// so this only grows.
    pub closed spec fn spec_minted(self) -> u64 {
        self.next_id
    }

    /// Well-formed: identifiers are distinct, and none minted twice.
    pub closed spec fn wf(self) -> bool {
        &&& forall|i: int|
            0 <= i < self@.len() ==> (#[trigger] self@[i].id) < self.next_id
        &&& ids_distinct(self@)
    }

    /// Well-formedness puts the distinctness of the identifiers on view.
    pub proof fn lemma_wf_distinct(self)
        requires
            self.wf(),
        ensures
            ids_distinct(self@),
    {
    }

    /// A fresh registry, with no connection and nothing minted.
    pub fn new() -> (c: Connections)
        ensures
            c@ == Seq::<ConnView>::empty(),
            c.wf(),
            c.spec_minted() == 0,
    {
        let c = Connections { channels: Vec::new(), next_id: 0 };
        proof {
            assert(c@ =~= Seq::<ConnView>::empty());
        }
        c
    }

    /// How many identifiers were ever minted.
    pub fn minted(&self) -> (n: u64)
        ensures
            n == self.spec_minted(),
    {
        self.next_id
    }

    /// Registers a new connection: mints a fresh identifier — the next value
    /// of the mint counter, so an identifier is never used twice, removals
    /// notwithstanding — creates its outbound queue and appends it to the
    /// registry. Returns the identifier and the receiving half that the
    /// caller is to drain into the connection's transport.
    pub fn add(&mut self) -> (r: (u64, UnboundedReceiver<String>))
        requires
            old(self).wf(),
            old(self).spec_minted() < u64::MAX,
        ensures
            final(self).wf(),
            final(self)@ == old(self)@.push(ConnView { id: r.0, sent: Seq::empty() }),
            forall|i: int| 0 <= i < old(self)@.len() ==> (#[trigger] old(self)@[i].id) != r.0,
            r.0 == old(self).spec_minted(),
            final(self).spec_minted() == old(self).spec_minted() + 1,
    {
        let id = self.next_id;
        self.next_id = self.next_id + 1;
        let (tx, rx) = new_channel();
        let ghost prev = self.channels@;
        self.channels.push(Connection { id, tx });
        proof {
            assert(self@ =~= prev.map_values(
                |c: Connection| ConnView { id: c.id, sent: sent_of(c.tx) },
            ).push(ConnView { id: id, sent: Seq::empty() }));
        }
        (id, rx)
    }

    /// Takes the connection with the given identifier out of the registry;
    /// with no such connection the registry stays as it is. The queues of all
    /// other connections are untouched.
    #[verifier::loop_isolation(false)]
    pub fn remove(&mut self, id: u64)
        requires
            old(self).wf(),
        ensures
            final(self).wf(),
            final(self)@ == spec_remove(old(self)@, id),
            final(self).spec_minted() == old(self).spec_minted(),
    {
        let ghost orig = self@;
        let mut i: usize = 0;
        while i < self.channels.len()
            invariant
                i <= self.channels@.len(),
                forall|k: int| 0 <= k < i ==> (#[trigger] self@[k].id) != id,
                self == old(self),
            decreases self.channels@.len() - i,
        {
            if self.channels[i].id == id {
                proof {
                    assert(self@[i as int].id == id);
                }
                self.channels.remove(i);
                proof {
                    assert(self@ =~= orig.remove(i as int));
                    lemma_remove_at(orig, id, i as int);
                }
                return ;
            }
            proof {
                assert(self@[i as int].id == self.channels@[i as int].id);
            }
            i += 1;
        }
        proof {
            lemma_remove_absent(orig, id);
        }
    }

    /// Broadcasts one message: submits a copy of it to the outbound queue of
    /// every registered connection, in registry order, touching nothing else.
    #[verifier::loop_isolation(false)]
    pub fn dispatch_message(&mut self, message: &str)
        requires
            old(self).wf(),
        ensures
            final(self).wf(),
            final(self)@ == spec_dispatch(old(self)@, message@),
            final(self).spec_minted() == old(self).spec_minted(),
    {
        let n = self.channels.len();
        let mut i: usize = 0;
        while i < n
            invariant
                i <= n,
                n == self.channels@.len(),
                self.next_id == old(self).next_id,
                forall|k: int|
                    i <= k < n ==> self.channels@[k] == old(self).channels@[k],
                forall|k: int|
                    0 <= k < i ==> (#[trigger] self.channels@[k]).id == old(self).channels@[k].id
                        && sent_of(self.channels@[k].tx) == sent_of(
                        old(self).channels@[k].tx,
                    ).push(message@),
            decreases n - i,
        {
            let ghost prev = self.channels@;
            let conn = &mut self.channels[i];
            submit_text(&mut conn.tx, message);
            proof {
                assert(forall|k: int|
                    0 <= k < n && k != i ==> self.channels@[k] == #[trigger] prev[k]);
            }
            i += 1;
        }
        proof {
            assert(final(self)@ =~= spec_dispatch(old(self)@, message@));
        }
    }
}

proof fn lemma_remove_at(s: Seq<ConnView>, id: u64, i: int)
    requires
        0 <= i < s.len(),
        s[i].id == id,
        forall|k: int| 0 <= k < i ==> (#[trigger] s[k].id) != id,
    ensures
        spec_remove(s, id) == s.remove(i),
    decreases i,
{
    if i == 0 {
        assert(s.remove(0) =~= s.skip(1));
    } else {
        let tail = s.skip(1);
        assert(forall|k: int| 0 <= k < tail.len() ==> tail[k] == #[trigger] s[k + 1]);
        lemma_remove_at(tail, id, i - 1);
        assert(seq![s[0]] + tail.remove(i - 1) =~= s.remove(i));
    }
}

proof fn lemma_remove_absent(s: Seq<ConnView>, id: u64)
    requires
        forall|k: int| 0 <= k < s.len() ==> (#[trigger] s[k].id) != id,
    ensures
        spec_remove(s, id) == s,
    decreases s.len(),
{
    if s.len() > 0 {
        let tail = s.skip(1);
        assert(forall|k: int| 0 <= k < tail.len() ==> tail[k] == #[trigger] s[k + 1]);
        lemma_remove_absent(tail, id);
        assert(seq![s[0]] + tail =~= s);
    }
}

/// What removal keeps: every connection other than the removed one survives
/// unchanged, and nothing with the removed identifier stays.
proof fn lemma_remove_props(s: Seq<ConnView>, id: u64)
    requires
        ids_distinct(s),
    ensures
        ids_distinct(spec_remove(s, id)),
        forall|k: int|
            0 <= k < spec_remove(s, id).len() ==> (#[trigger] spec_remove(s, id)[k].id) != id,
        forall|i: int|
            0 <= i < s.len() && s[i].id != id ==> exists|k: int|
                0 <= k < spec_remove(s, id).len() && #[trigger] spec_remove(s, id)[k] == s[i],
    decreases s.len(),
{
    if s.len() > 0 {
        let tail = s.skip(1);
        assert(forall|k: int| 0 <= k < tail.len() ==> tail[k] == #[trigger] s[k + 1]);
        lemma_remove_props(tail, id);
        if s[0].id == id {
            assert(forall|i: int|
                0 <= i < s.len() && s[i].id != id ==> exists|k: int|
                    0 <= k < spec_remove(s, id).len() && #[trigger] spec_remove(s, id)[k]
                        == s[i]) by {
                assert forall|i: int| 0 <= i < s.len() && s[i].id != id implies exists|k: int|
                    0 <= k < spec_remove(s, id).len() && #[trigger] spec_remove(s, id)[k]
                        == s[i] by {
                    assert(i > 0);
                    assert(spec_remove(s, id) == tail);
                    assert(spec_remove(s, id)[i - 1] == s[i]);
                }
            }
        } else {
            let r = seq![s[0]] + spec_remove(tail, id);
            assert(spec_remove(s, id) == r);
            assert forall|i: int| 0 <= i < s.len() && s[i].id != id implies exists|k: int|
                0 <= k < spec_remove(s, id).len() && #[trigger] spec_remove(s, id)[k] == s[i] by {
                if i == 0 {
                    assert(r[0] == s[0]);
                } else {
                    assert(tail[i - 1] == s[i]);
                    let k = choose|k: int|
                        0 <= k < spec_remove(tail, id).len() && #[trigger] spec_remove(
                            tail,
                            id,
                        )[k] == tail[i - 1];
                    assert(r[k + 1] == s[i]);
                }
            }
            assert forall|a: int, b: int| 0 <= a < b < r.len() implies r[a].id != r[b].id by {
                if a > 0 {
                    assert(r[a] == spec_remove(tail, id)[a - 1]);
                }
                assert(r[b] == spec_remove(tail, id)[b - 1]);
                if a == 0 {
                    lemma_remove_keeps(tail, id, b - 1);
                }
            }
        }
    }
}

/// Every connection the removal keeps was in the registry before.
proof fn lemma_remove_keeps(s: Seq<ConnView>, id: u64, k: int)
    requires
        0 <= k < spec_remove(s, id).len(),
    ensures
        exists|i: int| 0 <= i < s.len() && #[trigger] s[i] == spec_remove(s, id)[k],
    decreases s.len(),
{
    if s.len() > 0 {
        let tail = s.skip(1);
        if s[0].id == id {
            assert(s[k + 1] == spec_remove(s, id)[k]);
        } else {
            if k == 0 {
                assert(s[0] == spec_remove(s, id)[0]);
            } else {
                lemma_remove_keeps(tail, id, k - 1);
                let i = choose|i: int|
                    0 <= i < tail.len() && #[trigger] tail[i] == spec_remove(tail, id)[k - 1];
                assert(s[i + 1] == spec_remove(s, id)[k]);
            }
        }
    }
}

/// Law: dispatching one message delivers exactly one copy of it to every
/// registered connection: the registry keeps its length and its identifiers,
/// and each connection's queue grows by exactly that message.
pub proof fn lemma_dispatch_delivers_to_all(s: Seq<ConnView>, m: Seq<char>)
    ensures
        spec_dispatch(s, m).len() == s.len(),
        forall|i: int| 0 <= i < s.len() ==> (#[trigger] spec_dispatch(s, m)[i].id) == s[i].id,
        forall|i: int|
            0 <= i < s.len() ==> (#[trigger] spec_dispatch(s, m)[i].sent) == s[i].sent.push(m),
{
}

/// Law: removing one connection and then dispatching delivers exactly one
/// copy to every remaining connection — none is skipped, none receives the
/// message twice — and none to the one removed.
pub proof fn lemma_remove_then_dispatch(s: Seq<ConnView>, id: u64, m: Seq<char>)
    requires
        ids_distinct(s),
    ensures
        ids_distinct(spec_dispatch(spec_remove(s, id), m)),
        forall|k: int|
            0 <= k < spec_dispatch(spec_remove(s, id), m).len() ==> (#[trigger] spec_dispatch(
                spec_remove(s, id),
                m,
            )[k].id) != id,
        forall|i: int|
            0 <= i < s.len() && s[i].id != id ==> (exists|k: int|
                0 <= k < spec_dispatch(spec_remove(s, id), m).len() && #[trigger] spec_dispatch(
                    spec_remove(s, id),
                    m,
                )[k] == (ConnView { id: s[i].id, sent: s[i].sent.push(m) })),
{
    lemma_remove_props(s, id);
    let r = spec_remove(s, id);
    let d = spec_dispatch(r, m);
    assert forall|i: int| 0 <= i < s.len() && s[i].id != id implies (exists|k: int|
        0 <= k < d.len() && #[trigger] d[k] == (ConnView {
            id: s[i].id,
            sent: s[i].sent.push(m),
        })) by {
        let k = choose|k: int| 0 <= k < r.len() && #[trigger] r[k] == s[i];
        assert(d[k] == ConnView { id: s[i].id, sent: s[i].sent.push(m) });
    }
}

/// Law: dispatching and then removing one connection leaves every remaining
/// connection with exactly one copy of the message — none skipped, none
/// duplicated.
pub proof fn lemma_dispatch_then_remove(s: Seq<ConnView>, id: u64, m: Seq<char>)
    requires
        ids_distinct(s),
    ensures
        ids_distinct(spec_remove(spec_dispatch(s, m), id)),
        forall|i: int|
            0 <= i < s.len() && s[i].id != id ==> (exists|k: int|
                0 <= k < spec_remove(spec_dispatch(s, m), id).len() && #[trigger] spec_remove(
                    spec_dispatch(s, m),
                    id,
                )[k] == (ConnView { id: s[i].id, sent: s[i].sent.push(m) })),
{
    let d = spec_dispatch(s, m);
    assert(ids_distinct(d));
    lemma_remove_props(d, id);
    assert forall|i: int| 0 <= i < s.len() && s[i].id != id implies (exists|k: int|
        0 <= k < spec_remove(d, id).len() && #[trigger] spec_remove(d, id)[k] == (ConnView {
            id: s[i].id,
            sent: s[i].sent.push(m),
        })) by {
        assert(d[i] == (ConnView { id: s[i].id, sent: s[i].sent.push(m) }));
        assert(d[i].id != id);
    }
}

/// Law: two dispatches in sequence are observed by every connection in the
/// order they were issued: its queue grows by the first message and then the
/// second.
pub proof fn lemma_dispatch_order(s: Seq<ConnView>, m1: Seq<char>, m2: Seq<char>)
    ensures
        spec_dispatch(spec_dispatch(s, m1), m2).len() == s.len(),
        forall|i: int|
            0 <= i < s.len() ==> (#[trigger] spec_dispatch(spec_dispatch(s, m1), m2)[i])
                == (ConnView { id: s[i].id, sent: s[i].sent + seq![m1, m2] }),
{
    assert forall|i: int|
        0 <= i < s.len() implies (#[trigger] spec_dispatch(spec_dispatch(s, m1), m2)[i])
        == (ConnView { id: s[i].id, sent: s[i].sent + seq![m1, m2] }) by {
        assert(s[i].sent.push(m1).push(m2) =~= s[i].sent + seq![m1, m2]);
    }
}

} // verus!


