//! The image store: the in-memory record of successfully written screenshot
//! files, and the retention sweep that evicts entries once they outlive the
//! retention bound.  Disk writes and deletions happen outside; this module
//! decides exactly which entries stay and which paths are handed out for
//! deletion.

use vstd::prelude::*;

use crate::strutil::dec_of;
use crate::strutil::push_decimal;
use crate::strutil::views_of;
use vstd::string::StringExecFns;

verus! {

/// One successfully written image file: its path and the wall-clock moment
/// of the write, in milliseconds since the Unix epoch.
pub struct StoredImage {
    pub path: String,
    pub created_at_ms: u64,
}

/// The eviction threshold for a sweep at `now_ms` with retention
/// `retention_ms`: entries created strictly before it are expired.
pub open spec fn cutoff_ms(now_ms: u64, retention_ms: u64) -> u64 {
    if now_ms >= retention_ms {
        (now_ms - retention_ms) as u64
    } else {
        0
    }
}

impl StoredImage {
    /// Whether this entry is past the retention bound for a sweep at
    /// `now_ms`.
    pub open spec fn expired(self, now_ms: u64, retention_ms: u64) -> bool {
        self.created_at_ms < cutoff_ms(now_ms, retention_ms)
    }
}

/// The list of stored images, in order of writing.
pub struct ImageStore {
    pub entries: Vec<StoredImage>,
}

impl ImageStore {
    /// An empty store.
    pub fn new() -> (r: ImageStore)
        ensures
            r.entries@ == Seq::<StoredImage>::empty(),
    {
        ImageStore { entries: Vec::new() }
    }

    /// Records one successful write: appends the entry and changes nothing
    /// else.
    pub fn record(&mut self, path: String, now_ms: u64)
        ensures
            final(self).entries@ == old(self).entries@.push(
                StoredImage { path, created_at_ms: now_ms },
            ),
    {
        self.entries.push(StoredImage { path, created_at_ms: now_ms });
    }

    /// One retention tick: evicts every entry past the retention bound,
    /// keeps the rest in order, and returns the evicted paths (in order) so
    /// the caller can try to delete the files.  An entry is evicted whether
    /// or not its file can still be deleted.
    pub fn sweep(&mut self, now_ms: u64, retention_ms: u64) -> (expired: Vec<String>)
        ensures
            final(self).entries@ == old(self).entries@.filter(
                |e: StoredImage| !e.expired(now_ms, retention_ms),
            ),
            views_of(expired@) == old(self).entries@.filter(
                |e: StoredImage| e.expired(now_ms, retention_ms),
            ).map_values(|e: StoredImage| e.path@),
            forall|i: int|
                0 <= i < final(self).entries@.len() ==> now_ms - #[trigger] final(self).entries@[i].created_at_ms <= retention_ms,
    {
        let cutoff: u64 = if now_ms >= retention_ms {
            now_ms - retention_ms
        } else {
            0
        };
        let ghost keep_pred = |e: StoredImage| !e.expired(now_ms, retention_ms);
        let ghost drop_pred = |e: StoredImage| e.expired(now_ms, retention_ms);
        let mut kept: Vec<StoredImage> = Vec::new();
        let mut expired: Vec<String> = Vec::new();
        let n = self.entries.len();
        let mut i: usize = 0;
        while i < n
            invariant
                n == self.entries@.len(),
                i <= n,
                cutoff == cutoff_ms(now_ms, retention_ms),
                kept@ == self.entries@.take(i as int).filter(keep_pred),
                views_of(expired@) == self.entries@.take(i as int).filter(drop_pred).map_values(
                    |e: StoredImage| e.path@,
                ),
                keep_pred == (|e: StoredImage| !e.expired(now_ms, retention_ms)),
                drop_pred == (|e: StoredImage| e.expired(now_ms, retention_ms)),
            decreases n - i,
        {
            let e = &self.entries[i];
            proof {
                let s_i = self.entries@.take(i as int);
                let s_i1 = self.entries@.take(i + 1);
                assert(s_i1 =~= s_i.push(self.entries@[i as int]));
                assert(s_i1.drop_last() =~= s_i);
            }
            if e.created_at_ms < cutoff {
                let ghost pre_exp = expired@;
                expired.push(e.path.clone());
                proof {
                    reveal(Seq::filter);
                    let s_i = self.entries@.take(i as int);
                    let s_i1 = self.entries@.take(i + 1);
                    let entry = self.entries@[i as int];
                    assert(s_i1.filter(drop_pred) == s_i.filter(drop_pred).push(entry));
                    assert(s_i1.filter(keep_pred) == s_i.filter(keep_pred));
                    assert(expired@ == pre_exp.push(entry.path));
                    assert(views_of(expired@) =~= views_of(pre_exp).push(entry.path@));
                    assert(s_i.filter(drop_pred).push(entry).map_values(|x: StoredImage| x.path@)
                        =~= s_i.filter(drop_pred).map_values(|x: StoredImage| x.path@).push(
                        entry.path@,
                    ));
                    assert(views_of(expired@) =~= s_i1.filter(drop_pred).map_values(
                        |x: StoredImage| x.path@,
                    ));
                }
            } else {
                kept.push(StoredImage { path: e.path.clone(), created_at_ms: e.created_at_ms });
                proof {
                    reveal(Seq::filter);
                    let s_i = self.entries@.take(i as int);
                    let s_i1 = self.entries@.take(i + 1);
                    assert(StoredImage { path: self.entries@[i as int].path, created_at_ms: self
                        .entries@[i as int].created_at_ms } == self.entries@[i as int]);
                    assert(s_i1.filter(keep_pred) == s_i.filter(keep_pred).push(
                        self.entries@[i as int],
                    ));
                    assert(s_i1.filter(drop_pred) == s_i.filter(drop_pred));
                    assert(kept@ =~= s_i1.filter(keep_pred));
                    assert(views_of(expired@) =~= s_i1.filter(drop_pred).map_values(
                        |x: StoredImage| x.path@,
                    ));
                }
            }
            i = i + 1;
        }
        proof {
            assert(self.entries@.take(n as int) =~= self.entries@);
            broadcast use vstd::seq_lib::group_filter_ensures;

        }
        self.entries = kept;
        expired
    }
}

/// The file name under which one received image is stored: request id,
/// agent name, monitor index and write time, joined by underscores.
pub open spec fn spec_image_filename(
    rid: Seq<char>,
    agent: Seq<char>,
    monitor: u32,
    now_ms: u64,
) -> Seq<char> {
    rid + "_"@ + agent + "_"@ + dec_of(monitor as nat) + "_"@ + dec_of(now_ms as nat) + ".jpg"@
}

/// Builds the stored file's name for one received image.
pub fn image_filename(request_id: &str, agent: &str, monitor: u32, now_ms: u64) -> (r: String)
    ensures
        r@ == spec_image_filename(request_id@, agent@, monitor, now_ms),
{
    let mut out = String::from_str(request_id);
    out.append("_");
    out.append(agent);
    out.append("_");
    push_decimal(&mut out, monitor as u64);
    out.append("_");
    push_decimal(&mut out, now_ms);
    out.append(".jpg");
    proof {
        assert(out@ =~= spec_image_filename(request_id@, agent@, monitor, now_ms));
    }
    out
}

/// The public URL under which a stored file is served.
pub fn image_url(filename: &str) -> (r: String)
    ensures
        r@ == "/images/"@ + filename@,
{
    let mut out = String::from_str("/images/");
    out.append(filename);
    out
}

/// The on-disk path of a stored file.
pub fn image_path(image_dir: &str, filename: &str) -> (r: String)
    ensures
        r@ == image_dir@ + "/"@ + filename@,
{
    let mut out = String::from_str(image_dir);
    out.append("/");
    out.append(filename);
    proof {
        assert(out@ =~= image_dir@ + "/"@ + filename@);
    }
    out
}

/// With retention `R` and a sweep every `tick_ms`, no retained entry's age
/// ever reaches `R + tick_ms`: an entry that survived the sweep at
/// `sweep_ms` is at most `R` old then, and the next sweep comes within
/// `tick_ms`.
pub proof fn lemma_retention_bound(
    e: StoredImage,
    sweep_ms: u64,
    now_ms: u64,
    retention_ms: u64,
    tick_ms: u64,
)
    requires
        !e.expired(sweep_ms, retention_ms),
        sweep_ms <= now_ms < sweep_ms + tick_ms,
    ensures
        now_ms - e.created_at_ms < retention_ms + tick_ms,
{
}

} // verus!
