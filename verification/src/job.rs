//! The download-job record and its well-formedness rules.

use vstd::prelude::*;

verus! {

/// Lifecycle state of a download job.  A record is created `Pending` and moves
/// exactly once to `Completed` or `Failed` when its external download ends.
#[derive(Clone, Copy, PartialEq, Eq, Structural, Debug)]
pub enum Status {
    Pending,
    Completed,
    Failed,
}

/// One download job record.
///
/// `id` is assigned by the registry at creation and never changes; `url` is
/// immutable after creation; `file_name` is set only on successful completion.
pub struct Download {
    pub id: String,
    pub url: String,
    pub status: Status,
    pub progress: u8,
    pub file_name: Option<String>,
}

/// Mathematical model of a job record: the strings as character sequences.
#[verifier::ext_equal]
pub ghost struct DownloadModel {
    pub id: Seq<char>,
    pub url: Seq<char>,
    pub status: Status,
    pub progress: u8,
    pub file_name: Option<Seq<char>>,
}

impl View for Download {
    type V = DownloadModel;

    open spec fn view(&self) -> DownloadModel {
        DownloadModel {
            id: self.id@,
            url: self.url@,
            status: self.status,
            progress: self.progress,
            file_name: match self.file_name {
                Option::Some(f) => Option::Some(f@),
                Option::None => Option::None,
            },
        }
    }
}

/// The models of a sequence of records.
pub open spec fn models(jobs: Seq<Download>) -> Seq<DownloadModel> {
    jobs.map(|i: int, d: Download| d@)
}

/// The record invariant: a completed job carries a file name and full
/// progress; a pending or failed job carries neither.
pub open spec fn wf_record(d: DownloadModel) -> bool {
    &&& d.status == Status::Pending ==> d.progress == 0 && d.file_name is None
    &&& d.status == Status::Completed ==> d.progress == 100 && d.file_name is Some
    &&& d.status == Status::Failed ==> d.progress == 0 && d.file_name is None
}

/// All records in `s` are well formed.
pub open spec fn wf_records(s: Seq<DownloadModel>) -> bool {
    forall|i: int| 0 <= i < s.len() ==> wf_record(s[i])
}

impl Download {
    /// An exact copy of the record.
    pub fn duplicate(&self) -> (r: Download)
        ensures
            r@ == self@,
    {
        Download {
            id: self.id.clone(),
            url: self.url.clone(),
            status: self.status,
            progress: self.progress,
            file_name: match &self.file_name {
                Option::Some(f) => Option::Some(f.clone()),
                Option::None => Option::None,
            },
        }
    }
}

} // verus!
