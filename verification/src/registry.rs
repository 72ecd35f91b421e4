//! The in-memory registry of download jobs.
//!
//! The registry is the single source of truth for job state.  Records are
//! created `Pending` under a fresh random id, moved exactly once to a terminal
//! state when the download's outcome is reported, and removed on request.
//! Callers serialize access to a registry value (the surrounding service keeps
//! it behind one exclusive lock); the contracts here describe each operation
//! against the state it sees.

use vstd::prelude::*;

use crate::job::{models, wf_record, wf_records, Download, DownloadModel, Status};

verus! {

/// True when `id` is the id of some record in `s`.
pub open spec fn contains_id(s: Seq<DownloadModel>, id: Seq<char>) -> bool {
    exists|i: int| 0 <= i < s.len() && s[i].id == id
}

/// The index of the first record in `s` whose id is `id`, if any.
pub open spec fn find_id(s: Seq<DownloadModel>, id: Seq<char>) -> Option<int>
    decreases s.len(),
{
    if s.len() == 0 {
        None
    } else if s[0].id == id {
        Some(0int)
    } else {
        match find_id(s.drop_first(), id) {
            Some(i) => Some(i + 1),
            None => None,
        }
    }
}

/// What `find_id` finds: the first match, in range, and nothing before it;
/// `None` exactly when no record has the id.
pub proof fn lemma_find_id(s: Seq<DownloadModel>, id: Seq<char>)
    ensures
        match find_id(s, id) {
            Some(i) => {
                &&& 0 <= i < s.len()
                &&& s[i].id == id
                &&& forall|k: int| 0 <= k < i ==> s[k].id != id
                &&& contains_id(s, id)
            },
            None => !contains_id(s, id),
        },
    decreases s.len(),
{
    if s.len() == 0 {
    } else if s[0].id == id {
        assert(contains_id(s, id)) by {
            assert(s[0].id == id);
        }
    } else {
        let t = s.drop_first();
        lemma_find_id(t, id);
        match find_id(t, id) {
            Some(i) => {
                assert(t[i] == s[i + 1]);
                assert(contains_id(s, id)) by {
                    assert(s[i + 1].id == id);
                }
                assert forall|k: int| 0 <= k < i + 1 implies s[k].id != id by {
                    if k > 0 {
                        assert(t[k - 1] == s[k]);
                        assert(t[k - 1].id != id);
                    }
                }
            },
            None => {
                assert forall|k: int| 0 <= k < s.len() implies s[k].id != id by {
                    if k > 0 {
                        assert(t[k - 1] == s[k]);
                        assert(t[k - 1].id != id);
                    }
                }
            },
        }
    }
}

/// When `s[i]` is the first record whose id is `id`, `find_id` returns `i`.
pub proof fn lemma_pin_find_id(s: Seq<DownloadModel>, id: Seq<char>, i: int)
    requires
        0 <= i < s.len(),
        s[i].id == id,
        forall|k: int| 0 <= k < i ==> s[k].id != id,
    ensures
        find_id(s, id) == Some(i),
{
    lemma_find_id(s, id);
    match find_id(s, id) {
        Some(i0) => {
            if i0 < i {
                assert(s[i0].id != id);
            } else if i0 > i {
                assert(s[i].id != id);
            }
        },
        None => {
            assert(contains_id(s, id)) by {
                assert(s[i].id == id);
            }
        },
    }
}

/// All ids in `s` are pairwise distinct.
pub open spec fn ids_unique(s: Seq<DownloadModel>) -> bool {
    forall|i: int, j: int| 0 <= i < j < s.len() ==> s[i].id != s[j].id
}

/// The outcome of one download's unit of work, as reported back to the
/// registry: the name of the file found in the output directory on success,
/// or failure of the external process.
pub enum Outcome {
    Success(String),
    Failure,
}

/// Mathematical model of an outcome.
pub ghost enum OutcomeModel {
    Success(Seq<char>),
    Failure,
}

impl View for Outcome {
    type V = OutcomeModel;

    open spec fn view(&self) -> OutcomeModel {
        match self {
            Outcome::Success(f) => OutcomeModel::Success(f@),
            Outcome::Failure => OutcomeModel::Failure,
        }
    }
}

/// The terminal record that reporting outcome `o` on record `d` produces:
/// success sets the file name and full progress, failure leaves the record
/// with no file and no progress.
pub open spec fn finished(d: DownloadModel, o: OutcomeModel) -> DownloadModel {
    match o {
        OutcomeModel::Success(f) => DownloadModel {
            status: Status::Completed,
            progress: 100,
            file_name: Some(f),
            ..d
        },
        OutcomeModel::Failure => DownloadModel {
            status: Status::Failed,
            progress: 0,
            file_name: None,
            ..d
        },
    }
}

/// The authoritative in-memory store of all job records.
pub struct Registry {
    jobs: Vec<Download>,
}

/// Relies on `uuid::Uuid::new_v4` and the hyphenated rendering of
/// `uuid::Uuid`: a random version-4 UUID printed as 36 characters.  The value
/// is random, so nothing is promised of it beyond its length.
#[verifier::external_body]
fn fresh_id() -> (r: String)
    ensures
        r@.len() == 36,
{
    uuid::Uuid::new_v4().to_string()
}

impl View for Registry {
    type V = Seq<DownloadModel>;

    closed spec fn view(&self) -> Seq<DownloadModel> {
        models(self.jobs@)
    }
}

impl Registry {
    /// Registry invariant: ids are unique and every record is well formed.
    pub open spec fn wf(&self) -> bool {
        &&& ids_unique(self@)
        &&& forall|i: int| 0 <= i < self@.len() ==> wf_record(self@[i])
    }

    /// An empty registry.
    pub fn new() -> (r: Registry)
        ensures
            r@ == Seq::<DownloadModel>::empty(),
            r.wf(),
    {
        let r = Registry { jobs: Vec::new() };
        proof {
            assert(r@ =~= Seq::<DownloadModel>::empty());
        }
        r
    }

    /// Insert a freshly built pending record for `url` under `id` and return
    /// a copy of it, unless a record with that id already exists, in which
    /// case nothing changes.
    pub fn insert_new(&mut self, id: String, url: String) -> (r: Option<Download>)
        requires
            old(self).wf(),
        ensures
            final(self).wf(),
            r is Some <==> !contains_id(old(self)@, id@),
            match r {
                Some(d) => {
                    &&& d@.id == id@
                    &&& d@.url == url@
                    &&& d@.status == Status::Pending
                    &&& d@.progress == 0
                    &&& d@.file_name is None
                    &&& final(self)@ == old(self)@.push(d@)
                },
                None => final(self)@ == old(self)@,
            },
    {
        let n = self.jobs.len();
        let mut i: usize = 0;
        while i < n
            invariant
                self == old(self),
                old(self).wf(),
                n == self.jobs.len(),
                i <= n,
                forall|k: int| 0 <= k < i ==> self@[k].id != id@,
            decreases n - i,
        {
            if self.jobs[i].id == id {
                proof {
                    assert(contains_id(self@, id@)) by {
                        assert(self@[i as int].id == id@);
                    }
                }
                return None;
            }
            i += 1;
        }
        assert(!contains_id(self@, id@));
        let d = Download {
            id,
            url,
            status: Status::Pending,
            progress: 0,
            file_name: None,
        };
        let out = d.duplicate();
        self.jobs.push(d);
        proof {
            assert(self@ =~= old(self)@.push(out@));
        }
        Some(out)
    }

    /// Create a new pending job for `url` under a fresh random id and return
    /// a copy of the new record.
    ///
    /// Success is owed whenever the generated id cannot collide with an
    /// existing one — in particular whenever no stored id has the
    /// 36-character shape of generated ids, as after starting empty.  On a
    /// collision (the generator is random, so no call can rule it out among
    /// 36-character ids) nothing changes and `None` is returned.
    pub fn create(&mut self, url: String) -> (r: Option<Download>)
        requires
            old(self).wf(),
        ensures
            final(self).wf(),
            (forall|i: int| 0 <= i < old(self)@.len() ==> old(self)@[i].id.len() != 36)
                ==> r is Some,
            match r {
                Some(d) => {
                    &&& !contains_id(old(self)@, d@.id)
                    &&& d@.url == url@
                    &&& d@.status == Status::Pending
                    &&& d@.progress == 0
                    &&& d@.file_name is None
                    &&& final(self)@ == old(self)@.push(d@)
                },
                None => final(self)@ == old(self)@,
            },
    {
        let id = fresh_id();
        proof {
            if forall|i: int| 0 <= i < old(self)@.len() ==> old(self)@[i].id.len() != 36 {
                assert forall|i: int| 0 <= i < old(self)@.len() implies old(
                    self,
                )@[i].id != id@ by {
                    assert(old(self)@[i].id.len() != 36);
                }
                assert(!contains_id(old(self)@, id@));
            }
        }
        self.insert_new(id, url)
    }

    /// A snapshot copy of all current records, in insertion order.
    pub fn list(&self) -> (r: Vec<Download>)
        ensures
            r@.len() == self@.len(),
            forall|i: int| 0 <= i < self@.len() ==> r@[i]@ == self@[i],
    {
        let mut out: Vec<Download> = Vec::new();
        let mut i: usize = 0;
        while i < self.jobs.len()
            invariant
                i <= self.jobs.len(),
                out@.len() == i,
                forall|k: int| 0 <= k < i ==> out@[k]@ == self@[k],
            decreases self.jobs.len() - i,
        {
            out.push(self.jobs[i].duplicate());
            i += 1;
        }
        out
    }

    /// Remove the record with the given id and return it; `None` (and no
    /// change) when no record has that id.
    pub fn delete(&mut self, id: &String) -> (r: Option<Download>)
        requires
            old(self).wf(),
        ensures
            final(self).wf(),
            r is Some <==> contains_id(old(self)@, id@),
            match find_id(old(self)@, id@) {
                Some(i) => {
                    &&& r matches Some(d) && d@ == old(self)@[i]
                    &&& final(self)@ == old(self)@.remove(i)
                },
                None => final(self)@ == old(self)@,
            },
    {
        proof {
            lemma_find_id(old(self)@, id@);
        }
        let n = self.jobs.len();
        let mut i: usize = 0;
        while i < n
            invariant
                self == old(self),
                old(self).wf(),
                n == self.jobs.len(),
                i <= n,
                forall|k: int| 0 <= k < i ==> self@[k].id != id@,
            decreases n - i,
        {
            if self.jobs[i].id == *id {
                proof {
                    assert(self@[i as int].id == id@);
                    lemma_pin_find_id(self@, id@, i as int);
                }
                let d = self.jobs.remove(i);
                proof {
                    assert(self@ =~= old(self)@.remove(i as int));
                    lemma_remove_keeps_wf(old(self)@, i as int);
                }
                return Some(d);
            }
            i += 1;
        }
        None
    }

    /// Report a download's outcome on the record with the given id, moving it
    /// to its terminal state; reports on an id no longer present (for
    /// instance, deleted while the download still ran) change nothing and
    /// return `false`.
    pub fn finish(&mut self, id: &String, outcome: Outcome) -> (r: bool)
        requires
            old(self).wf(),
        ensures
            final(self).wf(),
            r <==> contains_id(old(self)@, id@),
            match find_id(old(self)@, id@) {
                Some(i) => final(self)@ == old(self)@.update(
                    i,
                    finished(old(self)@[i], outcome@),
                ),
                None => final(self)@ == old(self)@,
            },
    {
        proof {
            lemma_find_id(old(self)@, id@);
        }
        let n = self.jobs.len();
        let mut i: usize = 0;
        while i < n
            invariant
                self == old(self),
                old(self).wf(),
                n == self.jobs.len(),
                i <= n,
                forall|k: int| 0 <= k < i ==> self@[k].id != id@,
            decreases n - i,
        {
            if self.jobs[i].id == *id {
                proof {
                    assert(self@[i as int].id == id@);
                    lemma_pin_find_id(self@, id@, i as int);
                }
                match outcome {
                    Outcome::Success(f) => {
                        self.jobs[i].status = Status::Completed;
                        self.jobs[i].progress = 100;
                        self.jobs[i].file_name = Some(f);
                    },
                    Outcome::Failure => {
                        self.jobs[i].status = Status::Failed;
                        self.jobs[i].progress = 0;
                        self.jobs[i].file_name = None;
                    },
                }
                proof {
                    let m = finished(old(self)@[i as int], outcome@);
                    assert(self@ =~= old(self)@.update(i as int, m));
                    lemma_update_same_id_keeps_wf(old(self)@, i as int, m);
                }
                return true;
            }
            i += 1;
        }
        false
    }
}

impl Registry {
    /// The snapshot document for the current collection, as written to disk
    /// on every mutation.
    pub fn snapshot(&self) -> (r: String)
        ensures
            r@ == crate::codec::enc_coll(self@),
    {
        crate::codec::encode_snapshot(&self.jobs)
    }

    /// Rebuild a registry from a snapshot document: the stored collection
    /// when the text parses and the collection is well formed, the empty
    /// registry otherwise (a missing or damaged snapshot is not fatal).
    pub fn load_snapshot(text: &str) -> (r: Registry)
        ensures
            r.wf(),
            match crate::codec::sp_doc(text@) {
                Some(ds) => if ids_unique(ds) && wf_records(ds) {
                    r@ == ds
                } else {
                    r@ == Seq::<DownloadModel>::empty()
                },
                None => r@ == Seq::<DownloadModel>::empty(),
            },
    {
        match crate::codec::parse_snapshot(text) {
            Some(jobs) => {
                let reg = Registry { jobs };
                if reg.check_wf() {
                    reg
                } else {
                    Registry::new()
                }
            },
            None => Registry::new(),
        }
    }

    /// Whether the held collection satisfies the registry invariant.
    fn check_wf(&self) -> (r: bool)
        ensures
            r == self.wf(),
    {
        let n = self.jobs.len();
        let mut i: usize = 0;
        while i < n
            invariant
                i <= n,
                n == self.jobs.len(),
                forall|p: int, q: int|
                    0 <= p < q < self@.len() && p < i ==> self@[p].id != self@[q].id,
                forall|p: int| 0 <= p < i ==> wf_record(self@[p]),
            decreases n - i,
        {
            let d = &self.jobs[i];
            let ok = match d.status {
                Status::Pending => d.progress == 0 && d.file_name.is_none(),
                Status::Completed => d.progress == 100 && d.file_name.is_some(),
                Status::Failed => d.progress == 0 && d.file_name.is_none(),
            };
            if !ok {
                proof {
                    assert(!wf_record(self@[i as int]));
                }
                return false;
            }
            let mut j: usize = i + 1;
            while j < n
                invariant
                    i < n,
                    i < j <= n,
                    n == self.jobs.len(),
                    forall|p: int, q: int|
                        0 <= p < q < self@.len() && p < i ==> self@[p].id != self@[q].id,
                    forall|p: int| 0 <= p <= i ==> wf_record(self@[p]),
                    forall|q: int| i < q < j ==> self@[i as int].id != self@[q].id,
                decreases n - j,
            {
                if self.jobs[i].id == self.jobs[j].id {
                    proof {
                        assert(self@[i as int].id == self@[j as int].id);
                        assert(!ids_unique(self@));
                    }
                    return false;
                }
                j += 1;
            }
            i += 1;
        }
        true
    }
}

/// Law: persisting and reloading restores the collection.  For any state `s`
/// that satisfies the registry invariant, the snapshot document of `s` parses
/// back to exactly `s`; with `snapshot`'s and `load_snapshot`'s contracts,
/// reloading a saved registry (a restart) rebuilds an equal one.
pub proof fn lemma_snapshot_round_trip(s: Seq<DownloadModel>)
    requires
        ids_unique(s),
        wf_records(s),
    ensures
        crate::codec::sp_doc(crate::codec::enc_coll(s)) == Some(s),
{
    crate::codec::lemma_doc_round(s);
}

/// One registry step that a successful `create` performs: a record whose id
/// is absent is appended, and nothing else changes.
pub open spec fn create_step(
    pre: Seq<DownloadModel>,
    post: Seq<DownloadModel>,
    d: DownloadModel,
) -> bool {
    &&& !contains_id(pre, d.id)
    &&& post == pre.push(d)
}

/// Along a chain of create steps, every state is the initial state followed
/// by the records created so far.
proof fn lemma_chain_prefix(states: Seq<Seq<DownloadModel>>, created: Seq<DownloadModel>, j: int)
    requires
        states.len() == created.len() + 1,
        forall|i: int| 0 <= i < created.len()
            ==> #[trigger] create_step(states[i], states[i + 1], created[i]),
        0 <= j < states.len(),
    ensures
        states[j] == states.first() + created.take(j),
    decreases j,
{
    if j == 0 {
        assert(states[0] =~= states.first() + created.take(0));
    } else {
        lemma_chain_prefix(states, created, j - 1);
        let i = j - 1;
        assert(create_step(states[i], states[i + 1], created[i]));
        assert(states[j] =~= states.first() + created.take(j));
    }
}

/// Law: across any chain of successful `create` calls, the registry ends as
/// the initial state followed by exactly the created records (nothing lost,
/// nothing duplicated), the created ids are pairwise distinct, and uniqueness
/// of ids is preserved.
pub proof fn lemma_create_chain(states: Seq<Seq<DownloadModel>>, created: Seq<DownloadModel>)
    requires
        states.len() == created.len() + 1,
        forall|i: int| 0 <= i < created.len()
            ==> #[trigger] create_step(states[i], states[i + 1], created[i]),
    ensures
        states.last() == states.first() + created,
        forall|i: int, j: int| 0 <= i < j < created.len() ==> created[i].id != created[j].id,
        ids_unique(states.first()) ==> ids_unique(states.last()),
{
    let n = created.len() as int;
    let first = states.first();
    let fl = first.len() as int;
    assert forall|j: int| 0 <= j < states.len() implies states[j] == first + created.take(j) by {
        lemma_chain_prefix(states, created, j);
    }
    assert(created.take(n) =~= created);
    assert(states.last() == states[n]);
    assert(states.last() == first + created);

    assert forall|i: int, j: int| 0 <= i < j < n implies created[i].id != created[j].id by {
        let sj = states[j];
        assert(sj == first + created.take(j));
        assert(sj[fl + i] == created[i]);
        assert(contains_id(sj, created[i].id)) by {
            assert(sj[fl + i].id == created[i].id);
        }
        assert(create_step(states[j], states[j + 1], created[j]));
    }

    if ids_unique(first) {
        let last = states.last();
        assert forall|p: int, q: int| 0 <= p < q < last.len() implies last[p].id != last[q].id by {
            if q < fl {
                assert(last[p] == first[p]);
                assert(last[q] == first[q]);
            } else if p < fl {
                let jq = q - fl;
                assert(last[q] == created[jq]);
                assert(last[p] == first[p]);
                assert(create_step(states[jq], states[jq + 1], created[jq]));
                assert(states[jq] == first + created.take(jq));
                assert(states[jq][p] == first[p]);
                if last[p].id == last[q].id {
                    assert(contains_id(states[jq], created[jq].id)) by {
                        assert(states[jq][p].id == created[jq].id);
                    }
                    assert(false);
                }
            } else {
                assert(last[p] == created[p - fl]);
                assert(last[q] == created[q - fl]);
            }
        }
    }
}

/// Removing a record keeps ids unique and records well formed.
proof fn lemma_remove_keeps_wf(s: Seq<DownloadModel>, i: int)
    requires
        0 <= i < s.len(),
        ids_unique(s),
        forall|k: int| 0 <= k < s.len() ==> wf_record(s[k]),
    ensures
        ids_unique(s.remove(i)),
        forall|k: int| 0 <= k < s.remove(i).len() ==> wf_record(s.remove(i)[k]),
{
    let t = s.remove(i);
    assert forall|p: int, q: int| 0 <= p < q < t.len() implies t[p].id != t[q].id by {
        let p0: int = if p < i { p } else { p + 1 };
        let q0: int = if q < i { q } else { q + 1 };
        assert(t[p] == s[p0]);
        assert(t[q] == s[q0]);
    }
}

/// Replacing a record by a well-formed record with the same id keeps ids
/// unique and records well formed.
proof fn lemma_update_same_id_keeps_wf(s: Seq<DownloadModel>, i: int, d: DownloadModel)
    requires
        0 <= i < s.len(),
        d.id == s[i].id,
        wf_record(d),
        ids_unique(s),
        forall|k: int| 0 <= k < s.len() ==> wf_record(s[k]),
    ensures
        ids_unique(s.update(i, d)),
        forall|k: int| 0 <= k < s.update(i, d).len() ==> wf_record(s.update(i, d)[k]),
{
}

} // verus!
