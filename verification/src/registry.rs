//! The client registry: the table of authenticated agents, keyed by a
//! monotonic, process-local client id.  Each entry carries the agent's
//! self-chosen name; the outbound message sink that belongs to an entry is
//! held outside the verified core, keyed by the same id.

use vstd::prelude::*;

use crate::seqext::lemma_filter_no_duplicates;
use crate::strutil::views_of;

verus! {

/// One authenticated agent: its registry key and its self-chosen name.
pub struct ConnectedClient {
    pub id: u64,
    pub name: String,
}

/// The table of authenticated agents, plus the counter that mints their ids.
pub struct ClientRegistry {
    pub entries: Vec<ConnectedClient>,
    pub next_client_id: u64,
}

impl ClientRegistry {
    /// The ids of the registered clients, in registration order.
    pub open spec fn ids(&self) -> Seq<u64> {
        self.entries@.map_values(|c: ConnectedClient| c.id)
    }

    /// The names of the registered clients, in registration order (shared
    /// names may repeat).
    pub open spec fn names(&self) -> Seq<Seq<char>> {
        self.entries@.map_values(|c: ConnectedClient| c.name@)
    }

    /// Whether some registered client has this id.
    pub open spec fn contains_id(&self, id: u64) -> bool {
        self.ids().contains(id)
    }

    /// Well-formedness: ids are pairwise distinct and below the counter, so
    /// a freshly minted id never collides.
    pub open spec fn wf(&self) -> bool {
        &&& forall|i: int, j: int|
            0 <= i < j < self.entries@.len() ==> #[trigger] self.ids()[i] != #[trigger] self.ids()[j]
        &&& forall|i: int| 0 <= i < self.entries@.len() ==> #[trigger] self.ids()[i] < self.next_client_id
    }

    /// An empty registry.
    pub fn new() -> (r: ClientRegistry)
        ensures
            r.entries@ == Seq::<ConnectedClient>::empty(),
            r.next_client_id == 0,
            r.wf(),
    {
        ClientRegistry { entries: Vec::new(), next_client_id: 0 }
    }

    /// Mints the next client id: returns the counter and advances it.
    pub fn next_id(&mut self) -> (id: u64)
        requires
            old(self).wf(),
            old(self).next_client_id < u64::MAX,
        ensures
            id == old(self).next_client_id,
            final(self).next_client_id == old(self).next_client_id + 1,
            final(self).entries@ == old(self).entries@,
            final(self).wf(),
            !final(self).contains_id(id),
    {
        let id = self.next_client_id;
        self.next_client_id = self.next_client_id + 1;
        proof {
            assert(self.ids() =~= old(self).ids());
            assert forall|i: int, j: int| 0 <= i < j < self.entries@.len() implies #[trigger] self.ids()[i]
                != #[trigger] self.ids()[j] by {
                assert(old(self).ids()[i] != old(self).ids()[j]);
            }
            assert forall|i: int| 0 <= i < self.entries@.len() implies #[trigger] self.ids()[i]
                < self.next_client_id by {
                assert(old(self).ids()[i] < old(self).next_client_id);
            }
            if self.contains_id(id) {
                let w = choose|w: int| 0 <= w < self.ids().len() && self.ids()[w] == id;
                assert(old(self).ids()[w] < old(self).next_client_id);
                assert(false);
            }
        }
        id
    }

    /// Inserts an authenticated agent under a freshly minted id.
    pub fn register_client(&mut self, id: u64, name: String)
        requires
            old(self).wf(),
            !old(self).contains_id(id),
            id < old(self).next_client_id,
        ensures
            final(self).entries@ == old(self).entries@.push(ConnectedClient { id, name }),
            final(self).next_client_id == old(self).next_client_id,
            final(self).wf(),
    {
        self.entries.push(ConnectedClient { id, name });
        proof {
            assert(self.ids() =~= old(self).ids().push(id));
            assert forall|i: int, j: int| 0 <= i < j < self.entries@.len() implies #[trigger] self.ids()[i]
                != #[trigger] self.ids()[j] by {
                if j < self.entries@.len() - 1 {
                    assert(old(self).ids()[i] != old(self).ids()[j]);
                } else {
                    assert(self.ids()[j] == id);
                    assert(self.ids()[i] == old(self).ids()[i]);
                    if old(self).ids()[i] == id {
                        assert(old(self).ids().contains(id));
                    }
                }
            }
            assert forall|i: int| 0 <= i < self.entries@.len() implies #[trigger] self.ids()[i]
                < self.next_client_id by {
                if i < self.entries@.len() - 1 {
                    assert(old(self).ids()[i] < old(self).next_client_id);
                }
            }
        }
    }

    /// Removes the agent with this id, if present; every other entry stays,
    /// in order.  Removing an absent id changes nothing.
    pub fn unregister_client(&mut self, id: u64)
        requires
            old(self).wf(),
        ensures
            final(self).entries@ == old(self).entries@.filter(
                |c: ConnectedClient| c.id != id,
            ),
            final(self).next_client_id == old(self).next_client_id,
            final(self).wf(),
            !final(self).contains_id(id),
    {
        let ghost keep_pred = |c: ConnectedClient| c.id != id;
        let mut kept: Vec<ConnectedClient> = Vec::new();
        let n = self.entries.len();
        let mut i: usize = 0;
        while i < n
            invariant
                self.wf(),
                n == self.entries@.len(),
                i <= n,
                kept@ == self.entries@.take(i as int).filter(keep_pred),
                keep_pred == (|c: ConnectedClient| c.id != id),
                forall|k: int|
                    0 <= k < kept@.len() ==> exists|j: int|
                        0 <= j < i && #[trigger] kept@[k] == self.entries@[j],
                forall|k: int| 0 <= k < kept@.len() ==> #[trigger] kept@[k].id != id,
            decreases n - i,
        {
            let e = &self.entries[i];
            proof {
                let s_i = self.entries@.take(i as int);
                let s_i1 = self.entries@.take(i + 1);
                assert(s_i1 =~= s_i.push(self.entries@[i as int]));
                assert(s_i1.drop_last() =~= s_i);
            }
            if e.id != id {
                kept.push(ConnectedClient { id: e.id, name: e.name.clone() });
                proof {
                    reveal(Seq::filter);
                    let s_i = self.entries@.take(i as int);
                    let s_i1 = self.entries@.take(i + 1);
                    assert(ConnectedClient { id: self.entries@[i as int].id, name: self
                        .entries@[i as int].name } == self.entries@[i as int]);
                    assert(kept@ =~= s_i1.filter(keep_pred));
                    assert(kept@[kept@.len() - 1] == self.entries@[i as int]);
                }
            } else {
                proof {
                    reveal(Seq::filter);
                    let s_i = self.entries@.take(i as int);
                    let s_i1 = self.entries@.take(i + 1);
                    assert(s_i1.filter(keep_pred) == s_i.filter(keep_pred));
                }
            }
            i = i + 1;
        }
        proof {
            assert(self.entries@.take(n as int) =~= self.entries@);
        }
        let ghost pre = *self;
        self.entries = kept;
        proof {
            assert(pre.entries@.no_duplicates()) by {
                assert forall|x: int, y: int|
                    0 <= x < pre.entries@.len() && 0 <= y < pre.entries@.len() && x
                        != y implies pre.entries@[x] != pre.entries@[y] by {
                    if x < y {
                        assert(pre.ids()[x] != pre.ids()[y]);
                    } else {
                        assert(pre.ids()[y] != pre.ids()[x]);
                    }
                }
            }
            lemma_filter_no_duplicates(pre.entries@, keep_pred);
            assert forall|a: int, b: int| 0 <= a < b < self.entries@.len() implies #[trigger] self.ids()[a]
                != #[trigger] self.ids()[b] by {
                let ja = choose|j: int|
                    0 <= j < pre.entries@.len() && self.entries@[a] == pre.entries@[j];
                let jb = choose|j: int|
                    0 <= j < pre.entries@.len() && self.entries@[b] == pre.entries@[j];
                assert(self.entries@[a] != self.entries@[b]);
                assert(self.ids()[a] == pre.ids()[ja]);
                assert(self.ids()[b] == pre.ids()[jb]);
                if ja == jb {
                    assert(false);
                } else if ja < jb {
                    assert(pre.ids()[ja] != pre.ids()[jb]);
                } else {
                    assert(pre.ids()[jb] != pre.ids()[ja]);
                }
            }
            assert forall|a: int| 0 <= a < self.entries@.len() implies #[trigger] self.ids()[a]
                < self.next_client_id by {
                let ja = choose|j: int|
                    0 <= j < pre.entries@.len() && self.entries@[a] == pre.entries@[j];
                assert(self.ids()[a] == pre.ids()[ja]);
            }
            if self.contains_id(id) {
                let w = choose|w: int| 0 <= w < self.ids().len() && self.ids()[w] == id;
                assert(self.entries@[w].id != id);
                assert(false);
            }
        }
    }

    /// How many agents are registered.
    pub fn count(&self) -> (n: usize)
        ensures
            n == self.entries@.len(),
    {
        self.entries.len()
    }

    /// The ids of all registered agents, in order: the broadcast targets.
    pub fn client_ids(&self) -> (r: Vec<u64>)
        ensures
            r@ == self.ids(),
    {
        let mut r: Vec<u64> = Vec::new();
        let n = self.entries.len();
        let mut i: usize = 0;
        while i < n
            invariant
                n == self.entries@.len(),
                i <= n,
                r@ == self.ids().take(i as int),
            decreases n - i,
        {
            r.push(self.entries[i].id);
            proof {
                assert(r@ =~= self.ids().take(i + 1));
            }
            i = i + 1;
        }
        proof {
            assert(self.ids().take(n as int) =~= self.ids());
        }
        r
    }

    /// The names of all registered agents, in order (with repeats if two
    /// agents share a name).
    pub fn snapshot_names(&self) -> (r: Vec<String>)
        ensures
            views_of(r@) == self.names(),
    {
        let mut r: Vec<String> = Vec::new();
        let n = self.entries.len();
        let mut i: usize = 0;
        while i < n
            invariant
                n == self.entries@.len(),
                i <= n,
                views_of(r@) == self.names().take(i as int),
            decreases n - i,
        {
            let ghost pre = r@;
            r.push(self.entries[i].name.clone());
            proof {
                assert(r@ == pre.push(self.entries@[i as int].name));
                assert(views_of(r@) =~= views_of(pre).push(self.entries@[i as int].name@));
                assert(self.names().take(i + 1) =~= self.names().take(i as int).push(
                    self.names()[i as int],
                ));
                assert(views_of(r@) =~= self.names().take(i + 1));
            }
            i = i + 1;
        }
        proof {
            assert(self.names().take(n as int) =~= self.names());
        }
        r
    }

} // impl

} // verus!
