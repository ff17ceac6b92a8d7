use vstd::prelude::*;

use crate::calendar::{parsed_day, CalendarDate};
use crate::config::ResourceConfig;

verus! {

/// The options of the command line program.
#[derive(Debug)]
pub struct CliArgs {
    /// The configuration file for the project
    pub project_file: String,
    /// Additional resources, each of the form <name>=<count>
    pub add_resource: Vec<ResourceConfig>,
    /// The maximum depth of the search tree to use.
    pub search_depth: usize,
    /// Output the solution to a CSV file
    pub output_csv: Option<String>,
    /// Calculate the dates of the solution using the given start date
    pub start_date: Option<String>,
}

impl Default for CliArgs {
    fn default() -> (r: Self)
        ensures
            r.project_file@ == Seq::<char>::empty(),
            r.add_resource@.len() == 0,
            r.search_depth == 5,
            r.output_csv is None,
            r.start_date is None,
    {
        CliArgs {
            project_file: String::new(),
            add_resource: Vec::new(),
            search_depth: 5,
            output_csv: None,
            start_date: None,
        }
    }
}

/// Why a start date could not be read.
#[derive(Debug, Clone, Copy, PartialEq, Eq, Structural)]
pub enum DateError {
    /// The text is neither `today` nor a `<year>-<month>-<day>` date.
    InvalidDate,
}

fn same_text(a: &str, b: &str) -> (r: bool)
    ensures
        r == (a@ == b@),
{
    let n: usize = a.unicode_len();
    let m: usize = b.unicode_len();
    if n != m {
        return false;
    }
    let mut k: usize = 0;
    while k < n
        invariant
            k <= n,
            n == a@.len(),
            n == b@.len(),
            forall|j: int| 0 <= j < k ==> a@[j] == b@[j],
        decreases n - k,
    {
        if a.get_char(k) != b.get_char(k) {
            return false;
        }
        k = k + 1;
    }
    proof {
        assert(a@ =~= b@);
    }
    true
}

impl CliArgs {
    /// The start date of the schedule: `today` when none is given or the text is `today`,
    /// otherwise the date written as `<year>-<month>-<day>`.
    pub fn parse_start_date(&self, today: CalendarDate) -> (r: Result<CalendarDate, DateError>)
        ensures
            match self.start_date {
                None => r == Ok::<CalendarDate, DateError>(today),
                Some(text) => if text@ == "today"@ {
                    r == Ok::<CalendarDate, DateError>(today)
                } else {
                    match parsed_day(text@, "%Y-%m-%d"@) {
                        Some(d) => r == Ok::<CalendarDate, DateError>(CalendarDate { days_from_ce: d }),
                        None => r == Err::<CalendarDate, DateError>(DateError::InvalidDate),
                    }
                },
            },
    {
        match &self.start_date {
            None => Ok(today),
            Some(date) => {
                if same_text(date.as_str(), "today") {
                    Ok(today)
                } else {
                    match CalendarDate::parse_iso(date.as_str()) {
                        Some(d) => Ok(d),
                        None => Err(DateError::InvalidDate),
                    }
                }
            },
        }
    }
}

} // verus!
