use vstd::prelude::*;

use chrono::{Datelike, NaiveDate};

use crate::project::{ends_fit, entry_end, solution_entries, QueueView, Solution, TaskQueueEntry};

verus! {

/// A day of the proleptic Gregorian calendar, numbered from 1 January of year 1 (day 1).
#[derive(Debug, Clone, Copy, PartialEq, Eq, Structural)]
pub struct CalendarDate {
    pub days_from_ce: i32,
}

/// The day number of the date that `format` reads from `text`, if it reads one.
pub uninterp spec fn parsed_day(text: Seq<char>, format: Seq<char>) -> Option<i32>;

/// The text chrono writes for the date with the given day number, if there is such a date.
pub uninterp spec fn day_text(day: i32) -> Option<Seq<char>>;

/// Calls chrono's `NaiveDate::parse_from_str(text, format)` and, when it succeeds, takes the
/// date's day number (`Datelike::num_days_from_ce`). The contract only names the outcome; it
/// states nothing of which texts parse.
#[verifier::external_body]
fn parse_date_day(text: &str, format: &str) -> (r: Option<i32>)
    ensures
        r == parsed_day(text@, format@),
{
    match NaiveDate::parse_from_str(text, format) {
        Ok(date) => Some(date.num_days_from_ce()),
        Err(_) => None,
    }
}

/// Calls chrono's `NaiveDate::from_num_days_from_ce_opt(day)` and writes the date with its
/// `Display` impl. The contract only names the outcome.
#[verifier::external_body]
fn format_day(day: i32) -> (r: Option<String>)
    ensures
        match r {
            Some(t) => day_text(day) == Some(t@),
            None => day_text(day) is None,
        },
{
    match NaiveDate::from_num_days_from_ce_opt(day) {
        Some(date) => Some(date.to_string()),
        None => None,
    }
}

/// The day `offset` days after `day`, if its number fits in an `i32`.
pub open spec fn shifted_day(day: i32, offset: int) -> Option<i32> {
    if day + offset <= i32::MAX {
        Some((day + offset) as i32)
    } else {
        None
    }
}

impl CalendarDate {
    /// The date `days` days later, if its day number fits in an `i32`.
    pub fn after_days(&self, days: usize) -> (r: Option<CalendarDate>)
        ensures
            match shifted_day(self.days_from_ce, days as int) {
                Some(d) => r == Some(CalendarDate { days_from_ce: d }),
                None => r is None,
            },
    {
        let sum: i128 = self.days_from_ce as i128 + days as i128;
        if sum > i32::MAX as i128 {
            None
        } else {
            Some(CalendarDate { days_from_ce: sum as i32 })
        }
    }

    /// The date as chrono writes it, if chrono can represent it.
    pub fn to_text(&self) -> (r: Option<String>)
        ensures
            match r {
                Some(t) => day_text(self.days_from_ce) == Some(t@),
                None => day_text(self.days_from_ce) is None,
            },
    {
        format_day(self.days_from_ce)
    }

    /// Read a date written as `<year>-<month>-<day>`.
    pub fn parse_iso(text: &str) -> (r: Option<CalendarDate>)
        ensures
            match parsed_day(text@, "%Y-%m-%d"@) {
                Some(d) => r == Some(CalendarDate { days_from_ce: d }),
                None => r is None,
            },
    {
        match parse_date_day(text, "%Y-%m-%d") {
            Some(d) => Some(CalendarDate { days_from_ce: d }),
            None => None,
        }
    }
}

/// The text of the date `offset` days after `day`, if there is one.
pub open spec fn shifted_text(day: i32, offset: int) -> Option<Seq<char>> {
    match shifted_day(day, offset) {
        Some(d) => day_text(d),
        None => None,
    }
}

/// Each entry of the solution with the name of the resource whose queue holds it.
pub open spec fn named_entries(qs: Seq<QueueView>) -> Seq<(Seq<char>, TaskQueueEntry)>
    decreases qs.len(),
{
    if qs.len() == 0 {
        Seq::empty()
    } else {
        named_entries(qs.drop_last()) + qs.last().tasks.map_values(
            |e: TaskQueueEntry| (qs.last().assignee.name@, e),
        )
    }
}

/// The row of an entry: resource, task, start date and end date.
pub open spec fn entry_row(name: Seq<char>, e: TaskQueueEntry, start: CalendarDate) -> Option<Seq<Seq<char>>> {
    match (shifted_text(start.days_from_ce, e.start as int), shifted_text(start.days_from_ce, entry_end(e))) {
        (Some(a), Some(b)) => Some(seq![name, e.label@, a, b]),
        _ => None,
    }
}

/// The rows of the entries, when every date in them can be written.
pub open spec fn entry_rows(es: Seq<(Seq<char>, TaskQueueEntry)>, start: CalendarDate) -> Option<Seq<Seq<Seq<char>>>>
    decreases es.len(),
{
    if es.len() == 0 {
        Some(Seq::empty())
    } else {
        match (entry_rows(es.drop_last(), start), entry_row(es.last().0, es.last().1, start)) {
            (Some(rows), Some(row)) => Some(rows.push(row)),
            _ => None,
        }
    }
}

/// The header of the table of a solution.
pub open spec fn table_header() -> Seq<Seq<char>> {
    seq!["Resource"@, "Task"@, "Start"@, "End"@]
}

/// The views of a table of strings.
pub open spec fn table_view(t: Seq<Vec<String>>) -> Seq<Seq<Seq<char>>> {
    t.map_values(|row: Vec<String>| row@.map_values(|c: String| c@))
}

proof fn lemma_named_entries(qs: Seq<QueueView>)
    ensures
        named_entries(qs).len() == solution_entries(qs).len(),
        forall|k: int| 0 <= k < named_entries(qs).len() ==> (#[trigger] named_entries(qs)[k]).1 == solution_entries(qs)[k],
    decreases qs.len(),
{
    if qs.len() > 0 {
        lemma_named_entries(qs.drop_last());
        let a = named_entries(qs.drop_last());
        let b = solution_entries(qs.drop_last());
        assert forall|k: int| 0 <= k < named_entries(qs).len() implies (#[trigger] named_entries(qs)[k]).1
            == solution_entries(qs)[k] by {
            if k < a.len() {
                assert(named_entries(qs)[k] == a[k]);
                assert(solution_entries(qs)[k] == b[k]);
            } else {
                assert(solution_entries(qs)[k] == qs.last().tasks[k - b.len()]);
            }
        }
    }
}

fn text_of(day: &CalendarDate, offset: usize) -> (r: Option<String>)
    ensures
        match r {
            Some(t) => shifted_text(day.days_from_ce, offset as int) == Some(t@),
            None => shifted_text(day.days_from_ce, offset as int) is None,
        },
{
    match day.after_days(offset) {
        Some(d) => d.to_text(),
        None => None,
    }
}

impl Solution {
    /// The solution as a table of resource, task, start date and end date, one row per entry
    /// after a header row, or `None` when some date cannot be written.
    pub fn csv_table(&self, start_date: CalendarDate) -> (r: Option<Vec<Vec<String>>>)
        requires
            ends_fit(solution_entries(self@)),
        ensures
            match entry_rows(named_entries(self@), start_date) {
                Some(rows) => r matches Some(t) && table_view(t@) == seq![table_header()] + rows,
                None => r is None,
            },
    {
        let ghost qs = self@;
        let mut table: Vec<Vec<String>> = Vec::new();
        let mut header: Vec<String> = Vec::new();
        header.push("Resource".to_owned());
        header.push("Task".to_owned());
        header.push("Start".to_owned());
        header.push("End".to_owned());
        proof {
            assert(header@.map_values(|c: String| c@) =~= table_header());
        }
        table.push(header);
        proof {
            assert(table_view(table@)[0] == table_header());
            assert(table_view(table@) =~= seq![table_header()] + Seq::<Seq<Seq<char>>>::empty());
            lemma_named_entries(qs);
        }
        let mut i: usize = 0;
        while i < self.task_queues.len()
            invariant
                i <= qs.len(),
                qs == self@,
                qs.len() == self.task_queues@.len(),
                ends_fit(solution_entries(qs)),
                entry_rows(named_entries(qs.take(i as int)), start_date) matches Some(rows) && table_view(table@)
                    == seq![table_header()] + rows,
            decreases qs.len() - i,
        {
            let queue = &self.task_queues[i];
            let ghost before = named_entries(qs.take(i as int));
            proof {
                assert(qs[i as int] == queue@);
                assert(qs.take(i + 1).drop_last() =~= qs.take(i as int));
            }
            let mut k: usize = 0;
            while k < queue.tasks.len()
                invariant
                    k <= queue.tasks@.len(),
                    i < qs.len(),
                    qs == self@,
                    qs[i as int] == queue@,
                    ends_fit(solution_entries(qs)),
                    before == named_entries(qs.take(i as int)),
                    entry_rows(
                        before + queue.tasks@.take(k as int).map_values(
                            |e: TaskQueueEntry| (queue.assignee.name@, e),
                        ),
                        start_date,
                    ) matches Some(rows) && table_view(table@) == seq![table_header()] + rows,
                decreases queue.tasks@.len() - k,
            {
                let entry = &queue.tasks[k];
                let ghost prefix = before + queue.tasks@.take(k as int).map_values(
                    |e: TaskQueueEntry| (queue.assignee.name@, e),
                );
                let ghost next = before + queue.tasks@.take(k + 1).map_values(
                    |e: TaskQueueEntry| (queue.assignee.name@, e),
                );
                proof {
                    assert(next.drop_last() =~= prefix);
                    assert(next.last() == (queue.assignee.name@, *entry));
                    crate::project::lemma_entry_in_solution(qs, i as int, k as int);
                    let j = solution_entries(qs.take(i as int)).len() + k;
                    assert(solution_entries(qs)[j] == *entry);
                }
                let end: usize = entry.end();
                let start_text = text_of(&start_date, entry.start);
                let end_text = text_of(&start_date, end);
                match (start_text, end_text) {
                    (Some(a), Some(b)) => {
                        let mut row: Vec<String> = Vec::new();
                        row.push(queue.assignee.name.clone());
                        row.push(entry.label.clone());
                        row.push(a);
                        row.push(b);
                        let ghost old_table = table@;
                        table.push(row);
                        proof {
                            let rows = entry_rows(prefix, start_date)->0;
                            assert(table_view(table@) =~= table_view(old_table).push(table_view(table@).last()));
                            assert(table_view(table@).last() =~= seq![
                                queue.assignee.name@,
                                entry.label@,
                                shifted_text(start_date.days_from_ce, entry.start as int)->0,
                                shifted_text(start_date.days_from_ce, entry_end(*entry))->0
                            ]);
                            assert(table_view(table@) =~= seq![table_header()] + rows.push(table_view(table@).last()));
                        }
                    },
                    _ => {
                        proof {
                            lemma_entry_rows_none(qs, i as int, k as int, before, queue@, start_date);
                        }
                        return None;
                    },
                }
                k = k + 1;
            }
            proof {
                assert(queue.tasks@.take(k as int) =~= queue.tasks@);
                assert(named_entries(qs.take(i + 1)) =~= before + queue.tasks@.map_values(
                    |e: TaskQueueEntry| (queue.assignee.name@, e),
                ));
            }
            i = i + 1;
        }
        proof {
            assert(qs.take(i as int) =~= qs);
        }
        Some(table)
    }
}

/// A row that cannot be written makes the whole table unwritable.
proof fn lemma_entry_rows_none(
    qs: Seq<QueueView>,
    i: int,
    k: int,
    before: Seq<(Seq<char>, TaskQueueEntry)>,
    q: QueueView,
    start: CalendarDate,
)
    requires
        0 <= i < qs.len(),
        qs[i] == q,
        0 <= k < q.tasks.len(),
        before == named_entries(qs.take(i)),
        entry_rows(
            before + q.tasks.take(k + 1).map_values(|e: TaskQueueEntry| (q.assignee.name@, e)),
            start,
        ) is None,
    ensures
        entry_rows(named_entries(qs), start) is None,
{
    let pre = before + q.tasks.take(k + 1).map_values(|e: TaskQueueEntry| (q.assignee.name@, e));
    lemma_named_entries_split(qs, i);
    let all = named_entries(qs);
    assert(all.take(pre.len() as int) =~= pre) by {
        assert(all =~= before + q.tasks.map_values(|e: TaskQueueEntry| (q.assignee.name@, e)) + named_entries(
            qs.skip(i + 1),
        ));
    }
    lemma_entry_rows_prefix_none(all, pre.len() as int, start);
}

proof fn lemma_named_entries_split(qs: Seq<QueueView>, i: int)
    requires
        0 <= i < qs.len(),
    ensures
        named_entries(qs) =~= named_entries(qs.take(i)) + qs[i].tasks.map_values(
            |e: TaskQueueEntry| (qs[i].assignee.name@, e),
        ) + named_entries(qs.skip(i + 1)),
    decreases qs.len(),
{
    if i == qs.len() - 1 {
        assert(qs.take(i) =~= qs.drop_last());
        assert(qs.skip(i + 1) =~= Seq::<QueueView>::empty());
    } else {
        lemma_named_entries_split(qs.drop_last(), i);
        assert(qs.drop_last().take(i) =~= qs.take(i));
        assert(qs.skip(i + 1).drop_last() =~= qs.drop_last().skip(i + 1));
        assert(qs.skip(i + 1).last() == qs.last());
    }
}

proof fn lemma_entry_rows_prefix_none(es: Seq<(Seq<char>, TaskQueueEntry)>, k: int, start: CalendarDate)
    requires
        0 <= k <= es.len(),
        entry_rows(es.take(k), start) is None,
    ensures
        entry_rows(es, start) is None,
    decreases es.len() - k,
{
    if k < es.len() {
        assert(es.take(k + 1).drop_last() =~= es.take(k));
        lemma_entry_rows_prefix_none(es, k + 1, start);
    } else {
        assert(es.take(k) =~= es);
    }
}

} // verus!
