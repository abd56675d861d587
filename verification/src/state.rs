//! The coordinator's shared state: the client registry, the table of
//! in-flight requests, the image store, and the configuration they share.
//! The request path — broadcast, install, deliver, finish — lives here; the
//! surrounding tasks (sockets, timers, disk) call these operations and do
//! the waiting in between.

use vstd::prelude::*;

use crate::messages::ServerMessage;
use crate::pending::enrich_with_names;
use crate::pending::rec_view;
use crate::pending::rget;
use crate::pending::rkeys;
use crate::pending::DeliverOutcome;
use crate::pending::PendingTable;
use crate::registry::ClientRegistry;
use crate::store::ImageStore;
use crate::strutil::views_of;
use crate::text::spec_screenshot_request;

verus! {

/// The shared coordinator state.
pub struct AppState {
    pub clients: ClientRegistry,
    pub pending_requests: PendingTable,
    pub stored_images: ImageStore,
    /// Retention bound for stored images, in milliseconds.
    pub retention_ms: u64,
    /// Directory under which image files are written.
    pub image_dir: String,
    /// The coordinator-wide shared secret, hex-encoded.
    pub secret_key: String,
}

impl AppState {
    /// Well-formedness of the shared state.
    pub open spec fn wf(&self) -> bool {
        &&& self.clients.wf()
        &&& self.pending_requests.wf()
    }

    /// The configuration fields no operation ever changes.
    pub open spec fn same_config(&self, other: &AppState) -> bool {
        &&& self.retention_ms == other.retention_ms
        &&& self.image_dir == other.image_dir
        &&& self.secret_key == other.secret_key
    }

    /// A fresh state with no clients, no in-flight requests and no stored
    /// images.  The retention bound is given in minutes.
    pub fn new(retention_mins: u64, image_dir: String, secret_key: String) -> (r: AppState)
        requires
            retention_mins <= 0xFFFF_FFFF,
        ensures
            r.wf(),
            r.clients.entries@.len() == 0,
            r.clients.next_client_id == 0,
            r.pending_requests.entries@.len() == 0,
            r.stored_images.entries@.len() == 0,
            r.retention_ms == retention_mins * 60_000,
            r.image_dir == image_dir,
            r.secret_key == secret_key,
    {
        AppState {
            clients: ClientRegistry::new(),
            pending_requests: PendingTable::new(),
            stored_images: ImageStore::new(),
            retention_ms: retention_mins * 60_000,
            image_dir,
            secret_key,
        }
    }

    /// Mints the next client id.
    pub fn next_id(&mut self) -> (id: u64)
        requires
            old(self).wf(),
            old(self).clients.next_client_id < u64::MAX,
        ensures
            final(self).wf(),
            old(self).same_config(final(self)),
            id == old(self).clients.next_client_id,
            final(self).clients.next_client_id == id + 1,
            final(self).clients.entries@ == old(self).clients.entries@,
            !final(self).clients.contains_id(id),
            final(self).pending_requests == old(self).pending_requests,
            final(self).stored_images == old(self).stored_images,
    {
        self.clients.next_id()
    }

    /// Registers an authenticated agent under a freshly minted id.
    pub fn register_client(&mut self, id: u64, name: String)
        requires
            old(self).wf(),
            !old(self).clients.contains_id(id),
            id < old(self).clients.next_client_id,
        ensures
            final(self).wf(),
            old(self).same_config(final(self)),
            final(self).clients.entries@ == old(self).clients.entries@.push(
                crate::registry::ConnectedClient { id, name },
            ),
            final(self).clients.next_client_id == old(self).clients.next_client_id,
            final(self).pending_requests == old(self).pending_requests,
            final(self).stored_images == old(self).stored_images,
    {
        self.clients.register_client(id, name)
    }

    /// Removes an agent when its session ends; idempotent.
    pub fn unregister_client(&mut self, id: u64)
        requires
            old(self).wf(),
        ensures
            final(self).wf(),
            old(self).same_config(final(self)),
            final(self).clients.entries@ == old(self).clients.entries@.filter(
                |c: crate::registry::ConnectedClient| c.id != id,
            ),
            !final(self).clients.contains_id(id),
            final(self).clients.next_client_id == old(self).clients.next_client_id,
            final(self).pending_requests == old(self).pending_requests,
            final(self).stored_images == old(self).stored_images,
    {
        self.clients.unregister_client(id)
    }

    /// The broadcast plan for a screenshot request: the encoded text frame
    /// and the ids of every connected agent, whose outbound sinks the
    /// caller enqueues it on.  The number of successful enqueues becomes
    /// the request's expected count.
    pub fn broadcast_screenshot_request(&self, request_id: &str) -> (r: (String, Vec<u64>))
        ensures
            r.0@ == spec_screenshot_request(request_id@),
            r.1@ == self.clients.ids(),
    {
        let msg = crate::text::encode_server_message(
            &ServerMessage::ScreenshotRequest { request_id: request_id.to_owned() },
        );
        let targets = self.clients.client_ids();
        (msg, targets)
    }

    /// Installs the aggregation barrier for a freshly broadcast request,
    /// with the expected count frozen.  A request id already in flight is
    /// left untouched (the fresh 128-bit id makes that collision
    /// negligible) and reported.
    pub fn install_pending(&mut self, request_id: String, expected: usize) -> (installed: bool)
        requires
            old(self).wf(),
            expected >= 1,
        ensures
            final(self).wf(),
            old(self).same_config(final(self)),
            installed == !old(self).pending_requests.contains_request(request_id@),
            !installed ==> *final(self) == *old(self),
            installed ==> {
                &&& final(self).pending_requests.contains_request(request_id@)
                &&& final(self).pending_requests.entries@.last().request_id@ == request_id@
                &&& final(self).pending_requests.entries@.last().expected == expected
                &&& final(self).pending_requests.entries@.last().rec() == Seq::<
                    (Seq<char>, Seq<Seq<char>>),
                >::empty()
                &&& !final(self).pending_requests.entries@.last().notified
                &&& final(self).pending_requests.entries@.len() == old(self).pending_requests.entries@.len() + 1
                &&& forall|j: int|
                    0 <= j < old(self).pending_requests.entries@.len() ==> final(self).pending_requests.entries@[j] == old(self).pending_requests.entries@[j]
            },
            final(self).clients == old(self).clients,
            final(self).stored_images == old(self).stored_images,
    {
        let idx = self.pending_requests.find_request(&request_id);
        if idx < self.pending_requests.entries.len() {
            false
        } else {
            self.pending_requests.install(request_id, expected);
            true
        }
    }

    /// Hands one agent's response to the aggregation barrier.
    pub fn deliver(&mut self, request_id: &String, agent: &String, urls: Vec<String>) -> (r:
        DeliverOutcome)
        requires
            old(self).wf(),
        ensures
            final(self).wf(),
            old(self).same_config(final(self)),
            final(self).clients == old(self).clients,
            final(self).stored_images == old(self).stored_images,
            final(self).pending_requests.entries@.len() == old(self).pending_requests.entries@.len(),
            final(self).pending_requests.request_ids() == old(self).pending_requests.request_ids(),
            !old(self).pending_requests.contains_request(request_id@) ==> r is Dropped && final(self).pending_requests.entries@ == old(self).pending_requests.entries@,
            old(self).pending_requests.contains_request(request_id@)
                ==> crate::pending::deliver_transition(
                old(self).pending_requests.entries@[old(self).pending_requests.index_of(
                    request_id@,
                )],
                final(self).pending_requests.entries@[old(self).pending_requests.index_of(
                    request_id@,
                )],
                agent@,
                views_of(urls@),
                r,
            ),
            r is Completed ==> old(self).pending_requests.contains_request(request_id@) && !old(self).pending_requests.entries@[old(self).pending_requests.index_of(request_id@)].notified,
            r matches DeliverOutcome::Completed(m) ==> rec_view(m@) == final(self).pending_requests.entries@[old(self).pending_requests.index_of(request_id@)].rec(),
    {
        self.pending_requests.deliver(request_id, agent, urls)
    }

    /// Records one successfully written image file.
    pub fn store_image(&mut self, path: String, now_ms: u64)
        requires
            old(self).wf(),
        ensures
            final(self).wf(),
            old(self).same_config(final(self)),
            final(self).stored_images.entries@ == old(self).stored_images.entries@.push(
                crate::store::StoredImage { path, created_at_ms: now_ms },
            ),
            final(self).clients == old(self).clients,
            final(self).pending_requests == old(self).pending_requests,
    {
        self.stored_images.record(path, now_ms)
    }

    /// One retention tick over the stored images.
    pub fn sweep_expired(&mut self, now_ms: u64) -> (expired: Vec<String>)
        requires
            old(self).wf(),
        ensures
            final(self).wf(),
            old(self).same_config(final(self)),
            final(self).stored_images.entries@ == old(self).stored_images.entries@.filter(
                |e: crate::store::StoredImage| !e.expired(now_ms, old(self).retention_ms),
            ),
            views_of(expired@) == old(self).stored_images.entries@.filter(
                |e: crate::store::StoredImage| e.expired(now_ms, old(self).retention_ms),
            ).map_values(|e: crate::store::StoredImage| e.path@),
            forall|i: int|
                0 <= i < final(self).stored_images.entries@.len() ==> now_ms - #[trigger] final(self).stored_images.entries@[i].created_at_ms <= old(self).retention_ms,
            final(self).clients == old(self).clients,
            final(self).pending_requests == old(self).pending_requests,
    {
        let retention_ms = self.retention_ms;
        self.stored_images.sweep(now_ms, retention_ms)
    }

    /// Closes out one request once its caller stops waiting, whether the
    /// barrier completed (`completed` carries the map it fired) or the
    /// deadline ran out (the responses received so far are taken instead).
    /// The result carries every currently connected agent as a key — those
    /// that did not contribute map to an empty list — and the entry leaves
    /// the table for good.
    pub fn finish_request(
        &mut self,
        request_id: &String,
        completed: Option<Vec<(String, Vec<String>)>>,
    ) -> (r: Vec<(String, Vec<String>)>)
        requires
            old(self).wf(),
            completed matches Some(m) ==> rkeys(rec_view(m@)).no_duplicates(),
        ensures
            final(self).wf(),
            old(self).same_config(final(self)),
            final(self).clients == old(self).clients,
            final(self).stored_images == old(self).stored_images,
            !final(self).pending_requests.contains_request(request_id@),
            ({
                let base = match completed {
                    Some(m) => rec_view(m@),
                    None => if old(self).pending_requests.contains_request(request_id@) {
                        old(self).pending_requests.entries@[old(self).pending_requests.index_of(
                            request_id@,
                        )].rec()
                    } else {
                        Seq::<(Seq<char>, Seq<Seq<char>>)>::empty()
                    },
                };
                &&& rkeys(rec_view(r@)).no_duplicates()
                &&& rkeys(rec_view(r@)).to_set() == rkeys(base).to_set() + old(self).clients.names().to_set()
                &&& forall|k: Seq<char>|
                    rkeys(base).contains(k) ==> rget(rec_view(r@), k) == rget(base, k)
                &&& forall|k: Seq<char>|
                    !rkeys(base).contains(k) && old(self).clients.names().to_set().contains(k)
                        ==> rget(rec_view(r@), k) == Some(Seq::<Seq<char>>::empty())
            }),
    {
        let base = match completed {
            Some(m) => m,
            None => self.pending_requests.received_snapshot(request_id),
        };
        let names = self.clients.snapshot_names();
        let ghost names_v = views_of(names@);
        let result = enrich_with_names(base, names);
        self.pending_requests.remove_request(request_id);
        proof {
            assert(names_v == self.clients.names());
        }
        result
    }
}

} // verus!
