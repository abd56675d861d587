//! The per-request aggregation barrier: one pending entry per in-flight
//! screenshot request, holding the expected response count, the responses
//! received so far (one slot per agent name, last write wins), and the
//! single-fire completion flag.

use vstd::prelude::*;

use crate::seqext::lemma_push_to_set;
use crate::strutil::views_of;

verus! {

/// The mathematical shape of a result map: agent name to list of URL paths,
/// as an association sequence with pairwise-distinct keys.
pub open spec fn rkeys(m: Seq<(Seq<char>, Seq<Seq<char>>)>) -> Seq<Seq<char>> {
    m.map_values(|p: (Seq<char>, Seq<Seq<char>>)| p.0)
}

/// First-match lookup in an association sequence.
pub open spec fn rget(m: Seq<(Seq<char>, Seq<Seq<char>>)>, k: Seq<char>) -> Option<
    Seq<Seq<char>>,
>
    decreases m.len(),
{
    if m.len() == 0 {
        None
    } else if m[0].0 == k {
        Some(m[0].1)
    } else {
        rget(m.drop_first(), k)
    }
}

/// Last-write-wins update: replaces the value under an existing key in
/// place, or appends a new pair at the end.
pub open spec fn rset(
    m: Seq<(Seq<char>, Seq<Seq<char>>)>,
    k: Seq<char>,
    v: Seq<Seq<char>>,
) -> Seq<(Seq<char>, Seq<Seq<char>>)> {
    if rkeys(m).contains(k) {
        Seq::new(
            m.len(),
            |i: int|
                if m[i].0 == k {
                    (k, v)
                } else {
                    m[i]
                },
        )
    } else {
        m.push((k, v))
    }
}

/// A key is found exactly when it occurs in the key sequence.
pub proof fn lemma_rget_keys(m: Seq<(Seq<char>, Seq<Seq<char>>)>, k: Seq<char>)
    ensures
        rget(m, k) is Some <==> rkeys(m).contains(k),
    decreases m.len(),
{
    if m.len() > 0 {
        if m[0].0 == k {
            assert(rkeys(m)[0] == k);
        } else {
            lemma_rget_keys(m.drop_first(), k);
            assert(rkeys(m.drop_first()) =~= rkeys(m).drop_first());
            if rkeys(m).contains(k) {
                let j = choose|j: int| 0 <= j < rkeys(m).len() && rkeys(m)[j] == k;
                assert(rkeys(m).drop_first()[j - 1] == k);
            }
            if rkeys(m).drop_first().contains(k) {
                let j = choose|j: int|
                    0 <= j < rkeys(m).drop_first().len() && rkeys(m).drop_first()[j] == k;
                assert(rkeys(m)[j + 1] == k);
            }
        }
    }
}

/// The view of an exec response list: each pair as its character sequences.
pub open spec fn rec_view(r: Seq<(String, Vec<String>)>) -> Seq<(Seq<char>, Seq<Seq<char>>)> {
    r.map_values(|p: (String, Vec<String>)| (p.0@, views_of(p.1@)))
}

/// One in-flight fan-out request.
pub struct PendingRequest {
    /// The 128-bit random request id, in its canonical hex rendering.
    pub request_id: String,
    /// Number of agents the request was successfully enqueued to, frozen at
    /// broadcast time.
    pub expected: usize,
    /// Responses so far: agent name to URL paths, one slot per name.
    pub received: Vec<(String, Vec<String>)>,
    /// Whether the completion signal has been fired; it fires at most once.
    pub notified: bool,
}

impl PendingRequest {
    /// The received map of this entry, at the view level.
    pub open spec fn rec(&self) -> Seq<(Seq<char>, Seq<Seq<char>>)> {
        rec_view(self.received@)
    }

    /// Entry invariant: one slot per agent name, never more slots than
    /// expected responses, and the completion signal fires exactly when the
    /// barrier fills.
    pub open spec fn wf(&self) -> bool {
        &&& rkeys(self.rec()).no_duplicates()
        &&& self.expected >= 1
        &&& self.received@.len() <= self.expected
        &&& self.notified == (self.received@.len() == self.expected)
    }
}

/// What became of one delivered response.
pub enum DeliverOutcome {
    /// No pending entry wants it (late, already-complete, or fabricated):
    /// silently dropped.
    Dropped,
    /// Recorded; the barrier still waits for more agents.
    Recorded,
    /// Recorded, and this delivery filled the barrier: the aggregated map is
    /// handed out, exactly once per request.
    Completed(Vec<(String, Vec<String>)>),
}

/// The table of in-flight requests.
pub struct PendingTable {
    pub entries: Vec<PendingRequest>,
}

impl PendingTable {
    /// The request ids of the in-flight entries.
    pub open spec fn request_ids(&self) -> Seq<Seq<char>> {
        self.entries@.map_values(|e: PendingRequest| e.request_id@)
    }

    /// Whether an entry with this request id is in flight.
    pub open spec fn contains_request(&self, rid: Seq<char>) -> bool {
        self.request_ids().contains(rid)
    }

    /// The position of the entry with this request id (meaningful only when
    /// the id is in flight; unique by well-formedness).
    pub open spec fn index_of(&self, rid: Seq<char>) -> int {
        choose|i: int| 0 <= i < self.entries@.len() && self.request_ids()[i] == rid
    }

    /// Table invariant: request ids are pairwise distinct and every entry is
    /// well formed.
    pub open spec fn wf(&self) -> bool {
        &&& self.request_ids().no_duplicates()
        &&& forall|i: int| 0 <= i < self.entries@.len() ==> (#[trigger] self.entries@[i]).wf()
    }

    /// An empty table.
    pub fn new() -> (r: PendingTable)
        ensures
            r.entries@ == Seq::<PendingRequest>::empty(),
            r.wf(),
    {
        PendingTable { entries: Vec::new() }
    }

    /// Installs the pending entry for a freshly broadcast request: expected
    /// count frozen, nothing received, signal not yet fired.
    pub fn install(&mut self, request_id: String, expected: usize)
        requires
            old(self).wf(),
            !old(self).contains_request(request_id@),
            expected >= 1,
        ensures
            final(self).wf(),
            final(self).entries@.len() == old(self).entries@.len() + 1,
            final(self).entries@.last().request_id@ == request_id@,
            final(self).entries@.last().expected == expected,
            final(self).entries@.last().rec() == Seq::<(Seq<char>, Seq<Seq<char>>)>::empty(),
            !final(self).entries@.last().notified,
            forall|j: int|
                0 <= j < old(self).entries@.len() ==> final(self).entries@[j] == old(
                    self,
                ).entries@[j],
            final(self).contains_request(request_id@),
    {
        let ghost rid = request_id@;
        self.entries.push(
            PendingRequest { request_id, expected, received: Vec::new(), notified: false },
        );
        proof {
            assert(self.request_ids() =~= old(self).request_ids().push(rid));
            let last = self.entries@.last();
            assert(last.rec() =~= Seq::<(Seq<char>, Seq<Seq<char>>)>::empty());
            assert(rkeys(last.rec()) =~= Seq::<Seq<char>>::empty());
            assert forall|i: int, j: int|
                0 <= i < self.request_ids().len() && 0 <= j < self.request_ids().len() && i
                    != j implies self.request_ids()[i] != self.request_ids()[j] by {
                if i < self.request_ids().len() - 1 && j < self.request_ids().len() - 1 {
                    assert(old(self).request_ids()[i] != old(self).request_ids()[j]);
                } else {
                    let a = if i < j {
                        i
                    } else {
                        j
                    };
                    assert(old(self).request_ids()[a] == self.request_ids()[a]);
                    if old(self).request_ids()[a] == rid {
                        assert(old(self).request_ids().contains(rid));
                    }
                }
            }
            assert(self.request_ids().last() == rid);
        }
    }

    /// The position of the entry with this request id, or the table's
    /// length when the id is not in flight.
    pub(crate) fn find_request(&self, request_id: &String) -> (idx: usize)
        requires
            self.wf(),
        ensures
            idx <= self.entries@.len(),
            idx == self.entries@.len() ==> !self.contains_request(request_id@),
            idx < self.entries@.len() ==> self.contains_request(request_id@) && idx
                == self.index_of(request_id@) && self.entries@[idx as int].request_id@
                == request_id@,
    {
        let n = self.entries.len();
        let mut idx: usize = n;
        let mut i: usize = 0;
        while i < n
            invariant
                self.wf(),
                n == self.entries@.len(),
                i <= n,
                idx == n || idx < i,
                idx == n ==> forall|j: int|
                    0 <= j < i ==> #[trigger] self.request_ids()[j] != request_id@,
                idx < n ==> self.entries@[idx as int].request_id@ == request_id@,
            decreases n - i,
        {
            if idx == n && self.entries[i].request_id == *request_id {
                idx = i;
            }
            i = i + 1;
        }
        proof {
            if idx == n {
                if self.contains_request(request_id@) {
                    let w = choose|w: int|
                        0 <= w < self.request_ids().len() && self.request_ids()[w] == request_id@;
                    assert(false);
                }
            } else {
                assert(self.request_ids()[idx as int] == request_id@);
                let w = self.index_of(request_id@);
                assert(self.request_ids()[w] == request_id@);
                if w != idx {
                    assert(self.request_ids().no_duplicates());
                    assert(false);
                }
            }
        }
        idx
    }

    /// Removes the entry with this request id, if any; called once the
    /// request's caller has taken its result.  Every other entry stays, in
    /// order; removing an absent id changes nothing.
    pub fn remove_request(&mut self, request_id: &String)
        requires
            old(self).wf(),
        ensures
            final(self).wf(),
            old(self).contains_request(request_id@) ==> final(self).entries@ == old(
                self,
            ).entries@.remove(old(self).index_of(request_id@)),
            !old(self).contains_request(request_id@) ==> final(self).entries@ == old(
                self,
            ).entries@,
            !final(self).contains_request(request_id@),
    {
        let idx = self.find_request(request_id);
        if idx < self.entries.len() {
            self.entries.remove(idx);
            proof {
                lemma_remove_keeps_wf(*old(self), *self, idx as int);
                if self.contains_request(request_id@) {
                    let w = choose|w: int|
                        0 <= w < self.request_ids().len() && self.request_ids()[w] == request_id@;
                    let src = if w < idx as int {
                        w
                    } else {
                        w + 1
                    };
                    assert(self.request_ids()[w] == old(self).request_ids()[src]);
                    assert(old(self).request_ids()[src] == old(self).request_ids()[idx as int]);
                    assert(false);
                }
            }
        }
    }
}

/// Removing one entry keeps the table well formed.
proof fn lemma_remove_keeps_wf(pre: PendingTable, post: PendingTable, idx: int)
    requires
        pre.wf(),
        0 <= idx < pre.entries@.len(),
        post.entries@ == pre.entries@.remove(idx),
    ensures
        post.wf(),
{
    assert(post.request_ids() =~= pre.request_ids().remove(idx));
    assert forall|i: int, j: int|
        0 <= i < post.request_ids().len() && 0 <= j < post.request_ids().len() && i
            != j implies post.request_ids()[i] != post.request_ids()[j] by {
        let si = if i < idx {
            i
        } else {
            i + 1
        };
        let sj = if j < idx {
            j
        } else {
            j + 1
        };
        assert(post.request_ids()[i] == pre.request_ids()[si]);
        assert(post.request_ids()[j] == pre.request_ids()[sj]);
    }
    assert forall|i: int| 0 <= i < post.entries@.len() implies (#[trigger] post.entries@[i]).wf() by {
        let si = if i < idx {
            i
        } else {
            i + 1
        };
        assert(post.entries@[i] == pre.entries@[si]);
        assert(pre.entries@[si].wf());
    }
}

/// How one delivery transforms the entry it addresses.  Before the signal
/// has fired, the response is recorded (last write wins per agent name) and
/// the signal fires exactly when the barrier fills.  After it has fired, a
/// repeated agent name still overwrites its own slot, but a response from a
/// new name is dropped: the received map never outgrows `expected`.
pub open spec fn deliver_transition(
    e_old: PendingRequest,
    e_new: PendingRequest,
    agent: Seq<char>,
    urls: Seq<Seq<char>>,
    r: DeliverOutcome,
) -> bool {
    &&& e_new.request_id@ == e_old.request_id@
    &&& e_new.expected == e_old.expected
    &&& if !e_old.notified {
        &&& e_new.rec() == rset(e_old.rec(), agent, urls)
        &&& e_new.notified == (e_new.rec().len() == e_old.expected)
        &&& (e_new.notified ==> r is Completed)
        &&& (!e_new.notified ==> r is Recorded)
    } else if rkeys(e_old.rec()).contains(agent) {
        &&& e_new.rec() == rset(e_old.rec(), agent, urls)
        &&& e_new.notified
        &&& r is Recorded
    } else {
        &&& e_new == e_old
        &&& r is Dropped
    }
}

/// Overwriting the slot at an existing key is exactly `rset`, and keeps the
/// keys distinct and the length unchanged.
proof fn lemma_rset_overwrite(
    old_rec: Seq<(Seq<char>, Seq<Seq<char>>)>,
    new_rec: Seq<(Seq<char>, Seq<Seq<char>>)>,
    k: int,
    agent: Seq<char>,
    urls: Seq<Seq<char>>,
)
    requires
        rkeys(old_rec).no_duplicates(),
        0 <= k < old_rec.len(),
        old_rec[k].0 == agent,
        new_rec == old_rec.update(k, (agent, urls)),
    ensures
        new_rec == rset(old_rec, agent, urls),
        rkeys(new_rec).no_duplicates(),
        new_rec.len() == old_rec.len(),
{
    assert(rkeys(old_rec)[k] == agent);
    assert(rkeys(old_rec).contains(agent));
    assert forall|q: int| 0 <= q < old_rec.len() && q != k implies old_rec[q].0 != agent by {
        assert(rkeys(old_rec)[q] != rkeys(old_rec)[k]);
    }
    assert(new_rec =~= rset(old_rec, agent, urls));
    assert(rkeys(new_rec) =~= rkeys(old_rec));
}

/// Appending a pair under a fresh key is exactly `rset`, and keeps the keys
/// distinct.
proof fn lemma_rset_append(
    old_rec: Seq<(Seq<char>, Seq<Seq<char>>)>,
    new_rec: Seq<(Seq<char>, Seq<Seq<char>>)>,
    agent: Seq<char>,
    urls: Seq<Seq<char>>,
)
    requires
        rkeys(old_rec).no_duplicates(),
        forall|q: int| 0 <= q < old_rec.len() ==> (#[trigger] old_rec[q]).0 != agent,
        new_rec == old_rec.push((agent, urls)),
    ensures
        new_rec == rset(old_rec, agent, urls),
        rkeys(new_rec).no_duplicates(),
        new_rec.len() == old_rec.len() + 1,
{
    if rkeys(old_rec).contains(agent) {
        let w = choose|w: int| 0 <= w < rkeys(old_rec).len() && rkeys(old_rec)[w] == agent;
        assert(old_rec[w].0 == agent);
        assert(false);
    }
    assert(rkeys(new_rec) =~= rkeys(old_rec).push(agent));
    assert forall|i: int, j: int|
        0 <= i < rkeys(new_rec).len() && 0 <= j < rkeys(new_rec).len() && i
            != j implies rkeys(new_rec)[i] != rkeys(new_rec)[j] by {
        let last = rkeys(new_rec).len() - 1;
        if i != last && j != last {
            assert(rkeys(old_rec)[i] == rkeys(new_rec)[i]);
            assert(rkeys(old_rec)[j] == rkeys(new_rec)[j]);
        } else {
            let q = if i == last {
                j
            } else {
                i
            };
            assert(rkeys(new_rec)[q] == old_rec[q].0);
            assert(old_rec[q].0 != agent);
        }
    }
}

impl PendingTable {
    /// Records one agent's response for an in-flight request; this is the
    /// single place the completion signal can fire, and it fires exactly
    /// once per request, when the barrier first fills.
    pub fn deliver(&mut self, request_id: &String, agent: &String, urls: Vec<String>) -> (r:
        DeliverOutcome)
        requires
            old(self).wf(),
        ensures
            final(self).wf(),
            final(self).entries@.len() == old(self).entries@.len(),
            final(self).request_ids() == old(self).request_ids(),
            forall|j: int|
                0 <= j < old(self).entries@.len() && j != old(self).index_of(request_id@)
                    ==> final(self).entries@[j] == old(self).entries@[j],
            !old(self).contains_request(request_id@) ==> r is Dropped && final(self).entries@
                == old(self).entries@,
            old(self).contains_request(request_id@) ==> deliver_transition(
                old(self).entries@[old(self).index_of(request_id@)],
                final(self).entries@[old(self).index_of(request_id@)],
                agent@,
                views_of(urls@),
                r,
            ),
            r is Completed ==> old(self).contains_request(request_id@) && !old(
                self,
            ).entries@[old(self).index_of(request_id@)].notified && final(self).entries@[old(
                self,
            ).index_of(request_id@)].notified,
            r matches DeliverOutcome::Completed(m) ==> rec_view(m@) == final(self).entries@[old(
                self,
            ).index_of(request_id@)].rec(),
    {
        let idx = self.find_request(request_id);
        if idx == self.entries.len() {
            return DeliverOutcome::Dropped;
        }
        let ghost pre = *self;
        let ghost i0 = pre.index_of(request_id@);
        proof {
            assert(i0 == idx as int);
        }
        let mut e = self.entries.remove(idx);
        let ghost e_old = e;
        let ghost rec_old = e.rec();

        // Find this agent's existing slot, if any.
        let m = e.received.len();
        let mut k: usize = m;
        let mut j: usize = 0;
        while j < m
            invariant
                m == e.received@.len(),
                j <= m,
                k == m || k < j,
                k == m ==> forall|q: int| 0 <= q < j ==> (#[trigger] e.received@[q]).0@ != agent@,
                k < m ==> e.received@[k as int].0@ == agent@,
            decreases m - j,
        {
            if k == m && e.received[j].0 == *agent {
                k = j;
            }
            j = j + 1;
        }

        let r: DeliverOutcome;
        if e.notified {
            if k < m {
                e.received.remove(k);
                e.received.insert(k, (agent.clone(), urls));
                proof {
                    assert(e.received@ =~= e_old.received@.update(k as int, e.received@[k as int]));
                    assert(e.rec() =~= rec_old.update(k as int, (agent@, views_of(urls@))));
                    lemma_rset_overwrite(rec_old, e.rec(), k as int, agent@, views_of(urls@));
                }
                r = DeliverOutcome::Recorded;
            } else {
                proof {
                    if rkeys(rec_old).contains(agent@) {
                        let w = choose|w: int|
                            0 <= w < rkeys(rec_old).len() && rkeys(rec_old)[w] == agent@;
                        assert(e_old.received@[w].0@ == agent@);
                        assert(false);
                    }
                }
                r = DeliverOutcome::Dropped;
            }
        } else {
            if k < m {
                e.received.remove(k);
                e.received.insert(k, (agent.clone(), urls));
                proof {
                    assert(e.received@ =~= e_old.received@.update(k as int, e.received@[k as int]));
                    assert(e.rec() =~= rec_old.update(k as int, (agent@, views_of(urls@))));
                    lemma_rset_overwrite(rec_old, e.rec(), k as int, agent@, views_of(urls@));
                }
            } else {
                e.received.push((agent.clone(), urls));
                proof {
                    assert forall|q: int| 0 <= q < rec_old.len() implies (#[trigger] rec_old[q]).0
                        != agent@ by {
                        assert(e_old.received@[q].0@ != agent@);
                    }
                    assert(e.rec() =~= rec_old.push((agent@, views_of(urls@))));
                    lemma_rset_append(rec_old, e.rec(), agent@, views_of(urls@));
                }
            }
            if e.received.len() == e.expected {
                e.notified = true;
                let copy = clone_received(&e.received);
                r = DeliverOutcome::Completed(copy);
            } else {
                r = DeliverOutcome::Recorded;
            }
        }
        let ghost e_new = e;
        self.entries.insert(idx, e);
        proof {
            assert(self.entries@ =~= pre.entries@.update(idx as int, e_new));
            assert(self.request_ids() =~= pre.request_ids());
            assert(deliver_transition(e_old, e_new, agent@, views_of(urls@), r));
            assert forall|q: int| 0 <= q < self.entries@.len() implies (
            #[trigger] self.entries@[q]).wf() by {
                if q != idx as int {
                    assert(self.entries@[q] == pre.entries@[q]);
                    assert(pre.entries@[q].wf());
                } else {
                    assert(e_new.wf());
                }
            }
        }
        r
    }
}

/// In a well-formed table the received map never outgrows the expected
/// count: at every observable moment each entry holds at most `expected`
/// response slots.
pub proof fn lemma_received_bounded(t: &PendingTable)
    requires
        t.wf(),
    ensures
        forall|i: int|
            0 <= i < t.entries@.len() ==> (#[trigger] t.entries@[i]).received@.len()
                <= t.entries@[i].expected,
{
}

/// The completion signal fires exactly once.  Once an entry has fired, it
/// stays fired, and no later delivery can complete it again.
pub proof fn lemma_notify_fires_once(
    e_old: PendingRequest,
    e_new: PendingRequest,
    agent: Seq<char>,
    urls: Seq<Seq<char>>,
    r: DeliverOutcome,
)
    requires
        deliver_transition(e_old, e_new, agent, urls, r),
    ensures
        e_old.notified ==> e_new.notified,
        e_old.notified ==> !(r is Completed),
        r is Completed ==> !e_old.notified && e_new.notified && e_new.rec().len()
            == e_new.expected,
{
}

/// Lookup in a concatenation: the left part answers first.
pub proof fn lemma_rget_concat(
    a: Seq<(Seq<char>, Seq<Seq<char>>)>,
    b: Seq<(Seq<char>, Seq<Seq<char>>)>,
    k: Seq<char>,
)
    ensures
        rget(a + b, k) == if rget(a, k) is Some {
            rget(a, k)
        } else {
            rget(b, k)
        },
    decreases a.len(),
{
    if a.len() == 0 {
        assert(a + b =~= b);
    } else {
        assert((a + b)[0] == a[0]);
        if a[0].0 == k {
        } else {
            assert((a + b).drop_first() =~= a.drop_first() + b);
            lemma_rget_concat(a.drop_first(), b, k);
        }
    }
}

impl PendingTable {
    /// A copy of the responses received so far for this request (empty when
    /// the id is not in flight): the timeout path's view of the barrier.
    pub fn received_snapshot(&self, request_id: &String) -> (r: Vec<(String, Vec<String>)>)
        requires
            self.wf(),
        ensures
            self.contains_request(request_id@) ==> rec_view(r@) == self.entries@[self.index_of(
                request_id@,
            )].rec(),
            !self.contains_request(request_id@) ==> r@.len() == 0,
            rkeys(rec_view(r@)).no_duplicates(),
    {
        let idx = self.find_request(request_id);
        if idx < self.entries.len() {
            let r = clone_received(&self.entries[idx].received);
            proof {
                assert(self.entries@[idx as int].wf());
            }
            r
        } else {
            let r: Vec<(String, Vec<String>)> = Vec::new();
            proof {
                assert(rec_view(r@) =~= Seq::<(Seq<char>, Seq<Seq<char>>)>::empty());
                assert(rkeys(rec_view(r@)) =~= Seq::<Seq<char>>::empty());
            }
            r
        }
    }
}

/// Completes a result map: every currently connected agent appears as a key,
/// with an empty URL list when it contributed nothing.  Keys already present
/// keep their lists; a name listed twice is added once.
pub fn enrich_with_names(base: Vec<(String, Vec<String>)>, names: Vec<String>) -> (r: Vec<
    (String, Vec<String>),
>)
    requires
        rkeys(rec_view(base@)).no_duplicates(),
    ensures
        rkeys(rec_view(r@)).no_duplicates(),
        rkeys(rec_view(r@)).to_set() == rkeys(rec_view(base@)).to_set() + views_of(
            names@,
        ).to_set(),
        forall|k: Seq<char>|
            rkeys(rec_view(base@)).contains(k) ==> rget(rec_view(r@), k) == rget(
                rec_view(base@),
                k,
            ),
        forall|k: Seq<char>|
            !rkeys(rec_view(base@)).contains(k) && views_of(names@).to_set().contains(k) ==> rget(
                rec_view(r@),
                k,
            ) == Some(Seq::<Seq<char>>::empty()),
{
    let ghost base_v = rec_view(base@);
    let mut r = base;
    let n = names.len();
    let mut i: usize = 0;
    while i < n
        invariant
            n == names@.len(),
            i <= n,
            base_v == rec_view(base@),
            rkeys(base_v).no_duplicates(),
            base_v.len() <= rec_view(r@).len(),
            rec_view(r@).take(base_v.len() as int) == base_v,
            rkeys(rec_view(r@)).no_duplicates(),
            forall|j: int|
                base_v.len() <= j < rec_view(r@).len() ==> (#[trigger] rec_view(r@)[j]).1
                    == Seq::<Seq<char>>::empty(),
            rkeys(rec_view(r@)).to_set() =~= rkeys(base_v).to_set() + views_of(
                names@.take(i as int),
            ).to_set(),
        decreases n - i,
    {
        let name = &names[i];
        let m = r.len();
        let mut found = false;
        let mut j: usize = 0;
        while j < m
            invariant
                m == r@.len(),
                j <= m,
                !found ==> forall|q: int| 0 <= q < j ==> (#[trigger] r@[q]).0@ != name@,
                found ==> rkeys(rec_view(r@)).contains(name@),
            decreases m - j,
        {
            if !found && r[j].0 == *name {
                found = true;
                proof {
                    assert(rkeys(rec_view(r@))[j as int] == name@);
                }
            }
            j = j + 1;
        }
        let ghost pre = rec_view(r@);
        if !found {
            proof {
                if rkeys(pre).contains(name@) {
                    let w = choose|w: int| 0 <= w < rkeys(pre).len() && rkeys(pre)[w] == name@;
                    assert(r@[w].0@ == name@);
                    assert(false);
                }
            }
            r.push((name.clone(), Vec::new()));
            proof {
                assert(views_of(Seq::<String>::empty()) =~= Seq::<Seq<char>>::empty());
                assert(rec_view(r@) =~~= pre.push((name@, Seq::<Seq<char>>::empty())));
                assert forall|q: int| 0 <= q < pre.len() implies (#[trigger] pre[q]).0 != name@ by {
                    assert(rkeys(pre)[q] == pre[q].0);
                }
                lemma_rset_append(pre, rec_view(r@), name@, Seq::<Seq<char>>::empty());
                assert(rec_view(r@).take(base_v.len() as int) =~= pre.take(base_v.len() as int));
                assert(rkeys(rec_view(r@)) =~= rkeys(pre).push(name@));
                lemma_push_to_set(rkeys(pre), name@);
                lemma_push_to_set(views_of(names@.take(i as int)), name@);
                assert(views_of(names@.take(i + 1)) =~= views_of(names@.take(i as int)).push(
                    name@,
                ));
                assert(rkeys(rec_view(r@)).to_set() =~= rkeys(base_v).to_set() + views_of(
                    names@.take(i + 1),
                ).to_set());
            }
        } else {
            proof {
                lemma_push_to_set(views_of(names@.take(i as int)), name@);
                assert(views_of(names@.take(i + 1)) =~= views_of(names@.take(i as int)).push(
                    name@,
                ));
                assert(rkeys(rec_view(r@)).to_set() =~= rkeys(base_v).to_set() + views_of(
                    names@.take(i + 1),
                ).to_set());
            }
        }
        i = i + 1;
    }
    proof {
        assert(names@.take(n as int) =~= names@);
        let rv = rec_view(r@);
        let ext = rv.skip(base_v.len() as int);
        assert(rv =~= rv.take(base_v.len() as int) + ext);
        assert(rv =~= base_v + ext);
        assert forall|k: Seq<char>| rkeys(base_v).contains(k) implies rget(rv, k) == rget(
            base_v,
            k,
        ) by {
            lemma_rget_concat(base_v, ext, k);
            lemma_rget_keys(base_v, k);
        }
        assert forall|k: Seq<char>|
            !rkeys(base_v).contains(k) && views_of(names@).to_set().contains(k) implies rget(rv, k)
            == Some(Seq::<Seq<char>>::empty()) by {
            lemma_rget_concat(base_v, ext, k);
            lemma_rget_keys(base_v, k);
            assert(rkeys(rv).to_set().contains(k));
            let w = choose|w: int| 0 <= w < rkeys(rv).len() && rkeys(rv)[w] == k;
            assert(rv[w].0 == k);
            assert(w >= base_v.len()) by {
                if w < base_v.len() {
                    assert(rkeys(base_v)[w] == k);
                }
            }
            assert(ext[w - base_v.len()].0 == k);
            assert(rkeys(ext)[w - base_v.len()] == k);
            lemma_rget_keys(ext, k);
            lemma_rget_is_entry(ext, k);
            let v = choose|v: Seq<Seq<char>>| rget(ext, k) == Some(v);
            let e = choose|e: int| 0 <= e < ext.len() && ext[e].0 == k && ext[e].1 == v;
            assert(rv[base_v.len() + e].1 == v);
            assert(v == Seq::<Seq<char>>::empty());
        }
    }
    r
}

/// A successful lookup returns the list stored beside some occurrence of
/// the key.
pub proof fn lemma_rget_is_entry(m: Seq<(Seq<char>, Seq<Seq<char>>)>, k: Seq<char>)
    requires
        rget(m, k) is Some,
    ensures
        exists|e: int|
            0 <= e < m.len() && (#[trigger] m[e]).0 == k && m[e].1 == rget(m, k).unwrap(),
    decreases m.len(),
{
    if m.len() > 0 {
        if m[0].0 == k {
            assert(m[0].0 == k && m[0].1 == rget(m, k).unwrap());
        } else {
            lemma_rget_is_entry(m.drop_first(), k);
            let e = choose|e: int|
                0 <= e < m.drop_first().len() && (#[trigger] m.drop_first()[e]).0 == k
                    && m.drop_first()[e].1 == rget(m.drop_first(), k).unwrap();
            assert(m[e + 1].0 == k && m[e + 1].1 == rget(m, k).unwrap());
        }
    }
}

/// Clones a URL list; the copy reads the same.
pub fn clone_string_vec(v: &Vec<String>) -> (r: Vec<String>)
    ensures
        r@ == v@,
{
    let mut r: Vec<String> = Vec::new();
    let n = v.len();
    let mut i: usize = 0;
    while i < n
        invariant
            n == v@.len(),
            i <= n,
            r@ == v@.take(i as int),
        decreases n - i,
    {
        r.push(v[i].clone());
        proof {
            assert(r@ =~= v@.take(i + 1));
        }
        i = i + 1;
    }
    proof {
        assert(v@.take(n as int) =~= v@);
    }
    r
}

/// Clones a received map; the copy has the same view.
pub fn clone_received(v: &Vec<(String, Vec<String>)>) -> (r: Vec<(String, Vec<String>)>)
    ensures
        rec_view(r@) == rec_view(v@),
{
    let mut r: Vec<(String, Vec<String>)> = Vec::new();
    let n = v.len();
    let mut i: usize = 0;
    while i < n
        invariant
            n == v@.len(),
            i <= n,
            rec_view(r@) == rec_view(v@).take(i as int),
        decreases n - i,
    {
        let ghost pre = r@;
        let name = v[i].0.clone();
        let urls = clone_string_vec(&v[i].1);
        r.push((name, urls));
        proof {
            assert(rec_view(r@) =~= rec_view(pre).push((v@[i as int].0@, views_of(v@[i as int].1@))));
            assert(rec_view(v@).take(i + 1) =~= rec_view(v@).take(i as int).push(
                rec_view(v@)[i as int],
            ));
            assert(rec_view(r@) =~= rec_view(v@).take(i + 1));
        }
        i = i + 1;
    }
    proof {
        assert(rec_view(v@).take(n as int) =~= rec_view(v@));
    }
    r
}

} // verus!
