use vstd::prelude::*;

use crate::report::binary_size_text;
use crate::report::format_binary;
use crate::scan::rotated_logs_name;
use crate::scan::ScanResult;
use crate::text::copy_strings;
use crate::text::decimal;
use crate::text::decimal_text;
use crate::text::same_text;
use crate::text::strings_view;
use crate::tree::CleanPlan;
use crate::tree::Overflow;

verus! {

/// What cleaning a category works on.
pub enum CleanTarget {
    /// The rotated logs directly inside this directory.
    RotatedLogs(String),
    /// Everything below each of these paths, in order.
    Paths(Vec<String>),
}

/// Decides what cleaning a selected category works on: the log category
/// works on the rotated logs in `/var/log`, any other on everything below
/// each of its paths.
pub fn clean_target(result: &ScanResult) -> (t: CleanTarget)
    ensures
        result.name@ == rotated_logs_name() ==> (t matches CleanTarget::RotatedLogs(dir) && dir@
            == "/var/log"@),
        result.name@ != rotated_logs_name() ==> (t matches CleanTarget::Paths(paths)
            && strings_view(paths@) == strings_view(result.paths@)),
{
    if same_text(result.name.as_str(), "Old Logs (/var/log)") {
        CleanTarget::RotatedLogs("/var/log".to_owned())
    } else {
        CleanTarget::Paths(copy_strings(&result.paths))
    }
}

/// Running totals of a cleaning run.
pub struct CleanTally {
    pub freed: u64,
    pub files: u32,
}

impl CleanTally {
    /// Totals before anything is cleaned.
    pub fn new() -> (t: CleanTally)
        ensures
            t.freed == 0,
            t.files == 0,
    {
        CleanTally { freed: 0, files: 0 }
    }

    /// Adds what one cleaned path reported. `Err`, with the totals left as
    /// they were, exactly when a total would overflow its counter.
    pub fn add_plan(&mut self, plan: &CleanPlan) -> (r: Result<(), Overflow>)
        ensures
            r is Ok <==> (old(self).freed + plan.freed <= u64::MAX && old(self).files + plan.files
                <= u32::MAX),
            r is Ok ==> final(self).freed == old(self).freed + plan.freed && final(self).files
                == old(self).files + plan.files,
            r is Err ==> *final(self) == *old(self),
    {
        let freed = match self.freed.checked_add(plan.freed) {
            Some(f) => f,
            None => return Err(Overflow),
        };
        let files = match self.files.checked_add(plan.files) {
            Some(f) => f,
            None => return Err(Overflow),
        };
        self.freed = freed;
        self.files = files;
        Ok(())
    }

    /// The number of removed files in decimal and the text of the freed
    /// size, as the closing summary shows them.
    pub fn summary(&self) -> (r: (String, String))
        ensures
            r.0@ == decimal(self.files as nat),
            r.1@ == binary_size_text(self.freed),
    {
        (decimal_text(self.files as u64), format_binary(self.freed))
    }
}

} // verus!
