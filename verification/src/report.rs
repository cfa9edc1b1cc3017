use vstd::prelude::*;

use crate::calendar::{format_unix_utc, timestamp_text};
use crate::download::{derive_filename, file_name_of};
use crate::modlist::ModEntry;
use crate::text::{append_chars, chars_of, decimal_chars, push_decimal, string_of};

verus! {

/// What a run did: the modlist version, the mode, the files that were saved and the mods that
/// failed with their error.
pub struct RunReport {
    pub version: String,
    pub mode: String,
    pub succeeded: Vec<String>,
    pub failed: Vec<(String, String)>,
}

/// The saved file names of a report.
pub open spec fn succeeded_view(report: RunReport) -> Seq<Seq<char>> {
    report.succeeded@.map_values(|s: String| s@)
}

/// The failed mods of a report, each as (name, error).
pub open spec fn failed_view(report: RunReport) -> Seq<(Seq<char>, Seq<char>)> {
    report.failed@.map_values(|f: (String, String)| (f.0@, f.1@))
}

impl RunReport {
    /// A report of a run that has downloaded nothing yet.
    pub fn new(version: String, mode: String) -> (r: RunReport)
        ensures
            r.version@ == version@,
            r.mode@ == mode@,
            r.succeeded@.len() == 0,
            r.failed@.len() == 0,
    {
        RunReport { version, mode, succeeded: Vec::new(), failed: Vec::new() }
    }

    /// Records how the download of `entry` ended: on success the file name derived from its
    /// URL joins the saved files, on failure the mod's name and the error join the failures.
    pub fn record_download(&mut self, entry: &ModEntry, outcome: Result<(), String>)
        ensures
            final(self).version@ == old(self).version@,
            final(self).mode@ == old(self).mode@,
            match outcome {
                Ok(()) => {
                    &&& succeeded_view(*final(self)) == succeeded_view(*old(self)).push(
                        file_name_of(entry.url@),
                    )
                    &&& failed_view(*final(self)) == failed_view(*old(self))
                },
                Err(e) => {
                    &&& succeeded_view(*final(self)) == succeeded_view(*old(self))
                    &&& failed_view(*final(self)) == failed_view(*old(self)).push(
                        (entry.display_name@, e@),
                    )
                },
            },
    {
        match outcome {
            Ok(()) => {
                let file = derive_filename(entry.url.as_str());
                let ghost before = self.succeeded@;
                self.succeeded.push(file);
                assert(succeeded_view(*self) =~= before.map_values(|s: String| s@).push(file@));
            },
            Err(e) => {
                let ghost before = self.failed@;
                let name = string_of(&chars_of(entry.display_name.as_str()));
                let ghost pair = (name@, e@);
                self.failed.push((name, e));
                assert(failed_view(*self) =~= before.map_values(
                    |f: (String, String)| (f.0@, f.1@),
                ).push(pair));
            },
        }
    }

    /// Whether no download failed.
    pub fn all_succeeded(&self) -> (b: bool)
        ensures
            b == (self.failed@.len() == 0),
    {
        self.failed.len() == 0
    }
}

/// One `[OK]   {file}` line per saved file.
pub open spec fn ok_lines(files: Seq<Seq<char>>) -> Seq<char>
    decreases files.len(),
{
    if files.len() == 0 {
        seq![]
    } else {
        ok_lines(files.drop_last()) + "[OK]   "@ + files.last() + "\n"@
    }
}

/// One `[FAIL] {name}: {error}` line per failed mod.
pub open spec fn fail_lines(failures: Seq<(Seq<char>, Seq<char>)>) -> Seq<char>
    decreases failures.len(),
{
    if failures.len() == 0 {
        seq![]
    } else {
        fail_lines(failures.drop_last()) + "[FAIL] "@ + failures.last().0 + ": "@
            + failures.last().1 + "\n"@
    }
}

/// The text appended to the log for one run, stamped with `timestamp` (Unix seconds).
pub open spec fn log_text(report: RunReport, timestamp: nat) -> Seq<char> {
    "=== "@ + timestamp_text(timestamp) + " | Mode: "@ + report.mode@ + " | Version: "@
        + report.version@ + " ===\n"@ + ok_lines(succeeded_view(report)) + fail_lines(
        failed_view(report),
    ) + "=== Run complete: "@ + decimal_chars(report.succeeded@.len()) + " succeeded, "@
        + decimal_chars(report.failed@.len()) + " failed ===\n\n"@
}

fn append_str(s: &mut String, t: &str)
    ensures
        final(s)@ == old(s)@ + t@,
{
    append_chars(s, &chars_of(t));
}

fn append_count(s: &mut String, n: usize)
    ensures
        final(s)@ == old(s)@ + decimal_chars(n as nat),
{
    let mut v: Vec<char> = Vec::new();
    push_decimal(&mut v, n as u64);
    assert(v@ =~= decimal_chars(n as nat));
    append_chars(s, &v);
}

impl RunReport {
    /// The run summary appended to the log file: a header line with the time, mode and version,
    /// one line per saved file and per failure, and a closing line with the counts.
    pub fn log_entry(&self, timestamp: u64) -> (r: String)
        ensures
            r@ == log_text(*self, timestamp as nat),
    {
        let mut r = string_of(&chars_of("=== "));
        let stamp = format_unix_utc(timestamp);
        append_str(&mut r, stamp.as_str());
        append_str(&mut r, " | Mode: ");
        append_str(&mut r, self.mode.as_str());
        append_str(&mut r, " | Version: ");
        append_str(&mut r, self.version.as_str());
        append_str(&mut r, " ===\n");
        let ghost head = r@;
        let mut i: usize = 0;
        while i < self.succeeded.len()
            invariant
                i <= self.succeeded@.len(),
                r@ == head + ok_lines(succeeded_view(*self).subrange(0, i as int)),
            decreases self.succeeded@.len() - i,
        {
            let ghost files = succeeded_view(*self);
            append_str(&mut r, "[OK]   ");
            append_str(&mut r, self.succeeded[i].as_str());
            append_str(&mut r, "\n");
            proof {
                let next = files.subrange(0, i + 1);
                assert(next.drop_last() =~= files.subrange(0, i as int));
                assert(next.last() == self.succeeded@[i as int]@);
            }
            i = i + 1;
        }
        assert(succeeded_view(*self).subrange(0, self.succeeded@.len() as int) =~= succeeded_view(
            *self,
        ));
        let ghost mid = r@;
        let mut j: usize = 0;
        while j < self.failed.len()
            invariant
                j <= self.failed@.len(),
                r@ == mid + fail_lines(failed_view(*self).subrange(0, j as int)),
            decreases self.failed@.len() - j,
        {
            let ghost fails = failed_view(*self);
            append_str(&mut r, "[FAIL] ");
            append_str(&mut r, self.failed[j].0.as_str());
            append_str(&mut r, ": ");
            append_str(&mut r, self.failed[j].1.as_str());
            append_str(&mut r, "\n");
            proof {
                let next = fails.subrange(0, j + 1);
                assert(next.drop_last() =~= fails.subrange(0, j as int));
                assert(next.last() == (self.failed@[j as int].0@, self.failed@[j as int].1@));
            }
            j = j + 1;
        }
        assert(failed_view(*self).subrange(0, self.failed@.len() as int) =~= failed_view(*self));
        append_str(&mut r, "=== Run complete: ");
        append_count(&mut r, self.succeeded.len());
        append_str(&mut r, " succeeded, ");
        append_count(&mut r, self.failed.len());
        append_str(&mut r, " failed ===\n\n");
        assert(r@ =~= log_text(*self, timestamp as nat));
        r
    }
}

/// One `  - {name}: {error}` line per failed mod.
pub open spec fn failure_lines(failures: Seq<(Seq<char>, Seq<char>)>) -> Seq<Seq<char>> {
    failures.map_values(|f: (Seq<char>, Seq<char>)| "  - "@ + f.0 + ": "@ + f.1)
}

/// The lines shown at the end of a run.
pub open spec fn summary_text(report: RunReport) -> Seq<Seq<char>> {
    if report.failed@.len() == 0 {
        seq![
            "\u{2713} Done! "@ + decimal_chars(report.succeeded@.len())
                + " mods downloaded successfully."@,
        ]
    } else {
        seq![
            "\u{26a0} Completed with "@ + decimal_chars(report.failed@.len()) + " failure(s) ("@
                + decimal_chars(report.succeeded@.len()) + " succeeded):"@,
        ] + failure_lines(failed_view(report)) + seq![
            Seq::<char>::empty(),
            "Re-run the updater to retry, or check the URLs in the modlist."@,
        ]
    }
}

impl RunReport {
    /// The lines shown at the end of a run: a success line when nothing failed, otherwise the
    /// counts, one line per failure, a blank line and a hint to re-run.
    pub fn summary_lines(&self) -> (r: Vec<String>)
        ensures
            r.deep_view() == summary_text(*self),
    {
        let mut lines: Vec<String> = Vec::new();
        if self.failed.len() == 0 {
            let mut line = string_of(&chars_of("\u{2713} Done! "));
            append_count(&mut line, self.succeeded.len());
            append_str(&mut line, " mods downloaded successfully.");
            lines.push(line);
            assert(lines.deep_view() =~= summary_text(*self));
            return lines;
        }
        let mut head = string_of(&chars_of("\u{26a0} Completed with "));
        append_count(&mut head, self.failed.len());
        append_str(&mut head, " failure(s) (");
        append_count(&mut head, self.succeeded.len());
        append_str(&mut head, " succeeded):");
        let ghost head_view = head@;
        lines.push(head);
        let ghost first = lines.deep_view();
        let mut j: usize = 0;
        while j < self.failed.len()
            invariant
                j <= self.failed@.len(),
                lines@.len() == 1 + j,
                lines.deep_view() == first + failure_lines(
                    failed_view(*self).subrange(0, j as int),
                ),
            decreases self.failed@.len() - j,
        {
            let mut line = string_of(&chars_of("  - "));
            append_str(&mut line, self.failed[j].0.as_str());
            append_str(&mut line, ": ");
            append_str(&mut line, self.failed[j].1.as_str());
            let ghost before = lines.deep_view();
            lines.push(line);
            assert(lines.deep_view() =~= before.push(line@));
            assert(failure_lines(failed_view(*self).subrange(0, j + 1)) =~= failure_lines(
                failed_view(*self).subrange(0, j as int),
            ).push(line@));
            j = j + 1;
        }
        assert(failed_view(*self).subrange(0, self.failed@.len() as int) =~= failed_view(*self));
        let ghost before_tail = lines.deep_view();
        let blank = String::new();
        let hint = string_of(&chars_of("Re-run the updater to retry, or check the URLs in the modlist."));
        lines.push(blank);
        lines.push(hint);
        assert(lines.deep_view() =~= before_tail.push(blank@).push(hint@));
        assert(first =~= seq![head_view]);
        assert(lines.deep_view() =~= summary_text(*self));
        lines
    }
}

/// The end-of-run summary counts in the right places: with no failure, one line that gives the
/// number of saved files; with failures, a first line that gives the number of failures and
/// then the number of saved files, one line per failure with its name and error, a blank line
/// and a hint.
pub proof fn lemma_summary_counts(report: RunReport)
    ensures
        report.failed@.len() == 0 ==> summary_text(report) == seq![
            "\u{2713} Done! "@ + decimal_chars(report.succeeded@.len())
                + " mods downloaded successfully."@,
        ],
        report.failed@.len() > 0 ==> {
            &&& summary_text(report).len() == report.failed@.len() + 3
            &&& summary_text(report)[0] == "\u{26a0} Completed with "@ + decimal_chars(
                report.failed@.len(),
            ) + " failure(s) ("@ + decimal_chars(report.succeeded@.len()) + " succeeded):"@
            &&& forall|i: int|
                0 <= i < report.failed@.len() ==> #[trigger] summary_text(report)[i + 1] == "  - "@
                    + report.failed@[i].0@ + ": "@ + report.failed@[i].1@
            &&& summary_text(report)[report.failed@.len() + 1int] == Seq::<char>::empty()
        },
{
    if report.failed@.len() > 0 {
        let lines = summary_text(report);
        assert forall|i: int| 0 <= i < report.failed@.len() implies #[trigger] lines[i + 1]
            == "  - "@ + report.failed@[i].0@ + ": "@ + report.failed@[i].1@ by {
            assert(failure_lines(failed_view(report))[i] == "  - "@ + failed_view(report)[i].0
                + ": "@ + failed_view(report)[i].1);
        }
    }
}

/// The log entry of a run opens with its time, mode and version, and closes with the number of
/// saved files and then the number of failures:
/// `=== Run complete: {succeeded} succeeded, {failed} failed ===` and a blank line.
pub proof fn lemma_log_entry_frame(report: RunReport, timestamp: nat)
    ensures
        ({
            let text = log_text(report, timestamp);
            let head = "=== "@ + timestamp_text(timestamp) + " | Mode: "@ + report.mode@
                + " | Version: "@ + report.version@ + " ===\n"@;
            let tail = "=== Run complete: "@ + decimal_chars(report.succeeded@.len())
                + " succeeded, "@ + decimal_chars(report.failed@.len()) + " failed ===\n\n"@;
            &&& head.len() + tail.len() <= text.len()
            &&& text.subrange(0, head.len() as int) == head
            &&& text.subrange(text.len() - tail.len(), text.len() as int) == tail
        }),
{
    let text = log_text(report, timestamp);
    let head = "=== "@ + timestamp_text(timestamp) + " | Mode: "@ + report.mode@ + " | Version: "@
        + report.version@ + " ===\n"@;
    let tail = "=== Run complete: "@ + decimal_chars(report.succeeded@.len()) + " succeeded, "@
        + decimal_chars(report.failed@.len()) + " failed ===\n\n"@;
    let body = ok_lines(succeeded_view(report)) + fail_lines(failed_view(report));
    assert(text =~= head + body + tail);
    assert((head + body + tail).subrange(0, head.len() as int) =~= head);
    assert((head + body + tail).subrange(
        (head + body + tail).len() - tail.len(),
        (head + body + tail).len() as int,
    ) =~= tail);
}

} // verus!
