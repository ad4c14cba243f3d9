//! The outcome of one ingest attempt, as recorded in the update log.

use vstd::prelude::*;

verus! {

/// Mathematical image of an [`UpdateStatus`].
pub struct UpdateStatusModel {
    pub message: Seq<char>,
    pub succeed: bool,
    pub time: int,
    pub last_modified: int,
}

/// One entry of the append-only audit trail of ingest attempts: when the
/// attempt ran, whether it succeeded, its failure message, and the
/// last-modified instant of the source feed.  Instants are unix seconds.
#[derive(Debug)]
pub struct UpdateStatus {
    pub message: String,
    pub succeed: bool,
    pub time: i64,
    pub last_modified: i64,
}

impl View for UpdateStatus {
    type V = UpdateStatusModel;

    open spec fn view(&self) -> UpdateStatusModel {
        UpdateStatusModel {
            message: self.message@,
            succeed: self.succeed,
            time: self.time as int,
            last_modified: self.last_modified as int,
        }
    }
}

impl DeepView for UpdateStatus {
    type V = UpdateStatusModel;

    open spec fn deep_view(&self) -> UpdateStatusModel {
        self.view()
    }
}

impl Clone for UpdateStatus {
    fn clone(&self) -> (res: Self)
        ensures
            res@ == self@,
    {
        UpdateStatus {
            message: self.message.clone(),
            succeed: self.succeed,
            time: self.time,
            last_modified: self.last_modified,
        }
    }
}

impl PartialEq for UpdateStatus {
    fn eq(&self, other: &Self) -> (r: bool) {
        self.message == other.message && self.succeed == other.succeed && self.time == other.time
            && self.last_modified == other.last_modified
    }
}

impl vstd::std_specs::cmp::PartialEqSpecImpl for UpdateStatus {
    open spec fn obeys_eq_spec() -> bool {
        true
    }

    open spec fn eq_spec(&self, other: &Self) -> bool {
        self@ == other@
    }
}

impl UpdateStatus {
    /// A successful attempt at `time` over a feed last modified at
    /// `last_modified`.
    pub fn new_ok(time: i64, last_modified: i64) -> (r: Self)
        ensures
            r@.message == Seq::<char>::empty(),
            r@.succeed == true,
            r@.time == time as int,
            r@.last_modified == last_modified as int,
    {
        UpdateStatus { message: String::new(), succeed: true, time, last_modified }
    }

    /// A failed attempt at `time`, with its failure message; the source's
    /// last-modified instant stays at the epoch.
    pub fn new_fail(time: i64, message: String) -> (r: Self)
        ensures
            r@.message == message@,
            r@.succeed == false,
            r@.time == time as int,
            r@.last_modified == 0,
    {
        UpdateStatus { message, succeed: false, time, last_modified: 0 }
    }

    /// The attempt's instant rendered for display, `YYYY-MM-DD HH:MM:SS` in
    /// UTC.  The log records run instants, which lie between the epoch and
    /// the end of the year 9999.
    pub fn format_time(&self) -> (r: String)
        requires
            0 <= self.time <= 253402300799,
        ensures
            r@ == crate::timestamp::spec_format_time(self.time as int),
    {
        crate::timestamp::format_unix_time(self.time)
    }
}

} // verus!
