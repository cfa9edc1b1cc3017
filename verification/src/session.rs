use vstd::prelude::*;

use crate::modlist::{side_both, side_client, side_included, side_server};
use crate::text::{append_chars, chars_eq, chars_of, decimal_chars, push_decimal, string_of};

verus! {

/// Whether the arguments ask for server mode: one of them is exactly `--server`.
pub fn server_mode_requested(args: &Vec<String>) -> (b: bool)
    ensures
        b == exists|i: int| 0 <= i < args@.len() && (#[trigger] args@[i])@ == "--server"@,
{
    let flag = chars_of("--server");
    let mut i: usize = 0;
    while i < args.len()
        invariant
            i <= args@.len(),
            flag@ == "--server"@,
            forall|j: int| 0 <= j < i ==> (#[trigger] args@[j])@ != "--server"@,
        decreases args@.len() - i,
    {
        if chars_eq(&chars_of(args[i].as_str()), &flag) {
            return true;
        }
        i = i + 1;
    }
    false
}

/// The name of the mode: `Server` in server mode, `Client` otherwise.
pub open spec fn mode_text(is_server: bool) -> Seq<char> {
    if is_server {
        "Server"@
    } else {
        "Client"@
    }
}

/// The mode is named after the side tag whose mods it downloads besides `Both`: the mode's name
/// is a tag wanted in that mode and not in the other.
pub proof fn lemma_mode_names_its_side(is_server: bool)
    ensures
        side_included(mode_text(is_server), is_server),
        !side_included(mode_text(is_server), !is_server),
{
    reveal_strlit("Server");
    reveal_strlit("Client");
    assert("Server"@ =~= side_server());
    assert("Client"@ =~= side_client());
    assert(side_server() != side_both() && side_client() != side_both() && side_client()
        != side_server()) by {
        assert(side_server().len() != side_both().len());
        assert(side_client().len() != side_both().len());
        assert(side_client()[0] != side_server()[0]);
    }
}

/// The mode shown and logged: `Server` in server mode, `Client` otherwise.
pub fn mode_label(is_server: bool) -> (r: String)
    ensures
        r@ == (if is_server {
            "Server"@
        } else {
            "Client"@
        }),
        r@ == mode_text(is_server),
{
    if is_server {
        string_of(&chars_of("Server"))
    } else {
        string_of(&chars_of("Client"))
    }
}

/// How sure the updater is that it runs in a modpack instance folder.
#[derive(Debug, PartialEq, Eq, Structural)]
pub enum InstanceCheck {
    /// Two or more markers were found: go on silently.
    Confident,
    /// Exactly one marker was found, the one at this position: tell the user and count down.
    OneMarker(usize),
    /// No marker was found: ask the user whether to go on.
    NoMarkers,
}

/// How many of `found` are true.
pub open spec fn count_found(found: Seq<bool>) -> nat
    decreases found.len(),
{
    if found.len() == 0 {
        0
    } else {
        count_found(found.drop_last()) + if found.last() {
            1nat
        } else {
            0nat
        }
    }
}

/// What the markers that were found (one flag per marker) say about the folder.
pub open spec fn instance_check_of(found: Seq<bool>) -> InstanceCheck {
    if count_found(found) >= 2 {
        InstanceCheck::Confident
    } else if count_found(found) == 1 {
        InstanceCheck::OneMarker(
            (choose|i: int| 0 <= i < found.len() && found[i] && forall|j: int| 0 <= j < i ==> !found[j]) as usize,
        )
    } else {
        InstanceCheck::NoMarkers
    }
}

proof fn lemma_count_zero(found: Seq<bool>)
    requires
        forall|j: int| 0 <= j < found.len() ==> !found[j],
    ensures
        count_found(found) == 0,
    decreases found.len(),
{
    if found.len() > 0 {
        lemma_count_zero(found.drop_last());
    }
}

proof fn lemma_count_positive(found: Seq<bool>, i: int)
    requires
        0 <= i < found.len(),
        found[i],
    ensures
        count_found(found) >= 1,
    decreases found.len(),
{
    if i < found.len() - 1 {
        lemma_count_positive(found.drop_last(), i);
    }
}

proof fn lemma_count_one(found: Seq<bool>, i: int)
    requires
        0 <= i < found.len(),
        found[i],
        forall|j: int| 0 <= j < found.len() && j != i ==> !found[j],
    ensures
        count_found(found) == 1,
    decreases found.len(),
{
    if i == found.len() - 1 {
        lemma_count_zero(found.drop_last());
    } else {
        lemma_count_one(found.drop_last(), i);
    }
}

proof fn lemma_count_two(found: Seq<bool>, i: int, j: int)
    requires
        0 <= i < j < found.len(),
        found[i],
        found[j],
    ensures
        count_found(found) >= 2,
    decreases found.len(),
{
    if j == found.len() - 1 {
        lemma_count_positive(found.drop_last(), i);
    } else {
        lemma_count_two(found.drop_last(), i, j);
    }
}

/// What the markers say, in terms of which were found: exactly one found marker, at position
/// `i`, gives `OneMarker(i)`; two or more give `Confident`; none gives `NoMarkers`.
pub proof fn lemma_instance_check_cases(found: Seq<bool>)
    ensures
        forall|i: int|
            0 <= i < found.len() && found[i] && (forall|j: int|
                0 <= j < found.len() && j != i ==> !found[j]) ==> instance_check_of(found)
                == InstanceCheck::OneMarker(i as usize),
        forall|i: int, j: int|
            0 <= i < j < found.len() && found[i] && found[j] ==> instance_check_of(found)
                == InstanceCheck::Confident,
        (forall|j: int| 0 <= j < found.len() ==> !found[j]) ==> instance_check_of(found)
            == InstanceCheck::NoMarkers,
{
    assert forall|i: int|
        0 <= i < found.len() && found[i] && (forall|j: int|
            0 <= j < found.len() && j != i ==> !found[j]) implies instance_check_of(found)
        == InstanceCheck::OneMarker(i as usize) by {
        lemma_count_one(found, i);
        assert(0 <= i < found.len() && found[i] && forall|j: int| 0 <= j < i ==> !found[j]);
        let k = choose|k: int|
            0 <= k < found.len() && found[k] && forall|j: int| 0 <= j < k ==> !found[j];
        assert(k == i);
    }
    assert forall|i: int, j: int|
        0 <= i < j < found.len() && found[i] && found[j] implies instance_check_of(found)
        == InstanceCheck::Confident by {
        lemma_count_two(found, i, j);
    }
    if forall|j: int| 0 <= j < found.len() ==> !found[j] {
        lemma_count_zero(found);
    }
}

/// Judges the instance folder from which markers were found (one flag per marker, in order).
pub fn check_instance_markers(found: &Vec<bool>) -> (r: InstanceCheck)
    ensures
        r == instance_check_of(found@),
{
    let mut count: usize = 0;
    let mut first: Option<usize> = None;
    let mut i: usize = 0;
    while i < found.len()
        invariant
            i <= found@.len(),
            count == count_found(found@.subrange(0, i as int)),
            count <= i,
            match first {
                Some(f) => 0 <= f < i && found@[f as int] && forall|j: int|
                    0 <= j < f ==> !found@[j],
                None => forall|j: int| 0 <= j < i ==> !found@[j],
            },
        decreases found@.len() - i,
    {
        assert(found@.subrange(0, i + 1).drop_last() =~= found@.subrange(0, i as int));
        if found[i] {
            count = count + 1;
            if first.is_none() {
                first = Some(i);
            }
        }
        i = i + 1;
    }
    assert(found@.subrange(0, found@.len() as int) =~= found@);
    if count >= 2 {
        InstanceCheck::Confident
    } else if count == 1 {
        match first {
            Some(f) => {
                proof {
                    let k = choose|k: int|
                        0 <= k < found@.len() && found@[k] && forall|j: int|
                            0 <= j < k ==> !found@[j];
                    assert(k == f);
                }
                InstanceCheck::OneMarker(f)
            },
            None => {
                proof {
                    lemma_count_zero(found@);
                }
                InstanceCheck::NoMarkers
            },
        }
    } else {
        match first {
            Some(f) => {
                proof {
                    lemma_count_positive(found@, f as int);
                }
                InstanceCheck::NoMarkers
            },
            None => InstanceCheck::NoMarkers,
        }
    }
}

/// Whether an answer (already trimmed) lowercases to `y`.
pub fn confirms_continue(answer: &str) -> (b: bool)
    ensures
        b == (answer@ == seq!['y'] || answer@ == seq!['Y']),
{
    let v = chars_of(answer);
    if v.len() == 1 {
        assert(v@ =~= seq![v@[0]]);
        v[0] == 'y' || v[0] == 'Y'
    } else {
        assert(seq!['y'].len() == 1 && seq!['Y'].len() == 1);
        false
    }
}

/// Whether an answer (already trimmed) lowercases to `n`.
pub fn declines_backup(answer: &str) -> (b: bool)
    ensures
        b == (answer@ == seq!['n'] || answer@ == seq!['N']),
{
    let v = chars_of(answer);
    if v.len() == 1 {
        assert(v@ =~= seq![v@[0]]);
        v[0] == 'n' || v[0] == 'N'
    } else {
        assert(seq!['n'].len() == 1 && seq!['N'].len() == 1);
        false
    }
}

/// The folder a backup of `folder` goes to: `{folder}_backup_{timestamp}`.
pub fn backup_dir_name(folder: &str, timestamp: u64) -> (r: String)
    ensures
        r@ == folder@ + "_backup_"@ + decimal_chars(timestamp as nat),
{
    let mut r = string_of(&chars_of(folder));
    append_chars(&mut r, &chars_of("_backup_"));
    let mut v: Vec<char> = Vec::new();
    push_decimal(&mut v, timestamp);
    assert(v@ =~= decimal_chars(timestamp as nat));
    append_chars(&mut r, &v);
    r
}

/// The steps of an update run, in the order they are taken.
#[derive(Debug, Clone, Copy, PartialEq, Eq, Structural)]
pub enum Step {
    /// Nothing done yet.
    Begin,
    /// Check that the folder looks like a modpack instance (client mode only).
    SanityCheck,
    /// Find the newest modlist.
    DetectVersion,
    /// Download and read the modlist; the last step before anything is written.
    FetchModlist,
    /// Offer to back up `mods/` and `config/`.
    OfferBackup,
    /// Empty `mods/`.
    WipeMods,
    /// Download every mod of the modlist.
    DownloadMods,
    /// Show the summary and append to the log.
    ReportAndLog,
    /// Stop with this exit code.
    Finish(u8),
}

/// How a step ended.
#[derive(Debug, Clone, Copy, PartialEq, Eq, Structural)]
pub enum Outcome {
    /// The step did its work.
    Done,
    /// The user declined to go on.
    Cancelled,
    /// The step failed.
    Failed,
}

/// The step after `step` ended with `outcome`: a failure stops the run with exit code 1 and a
/// cancellation with 0; the last step stops with 0 when every mod was downloaded and 1 otherwise.
pub open spec fn spec_next_step(step: Step, outcome: Outcome, is_server: bool, all_downloaded: bool) -> Step {
    match outcome {
        Outcome::Failed => match step {
            Step::Finish(code) => Step::Finish(code),
            _ => Step::Finish(1),
        },
        Outcome::Cancelled => match step {
            Step::Finish(code) => Step::Finish(code),
            _ => Step::Finish(0),
        },
        Outcome::Done => match step {
            Step::Begin => if is_server {
                Step::DetectVersion
            } else {
                Step::SanityCheck
            },
            Step::SanityCheck => Step::DetectVersion,
            Step::DetectVersion => Step::FetchModlist,
            Step::FetchModlist => Step::OfferBackup,
            Step::OfferBackup => Step::WipeMods,
            Step::WipeMods => Step::DownloadMods,
            Step::DownloadMods => Step::ReportAndLog,
            Step::ReportAndLog => Step::Finish(
                if all_downloaded {
                    0
                } else {
                    1
                },
            ),
            Step::Finish(code) => Step::Finish(code),
        },
    }
}

/// The step that follows `step` after it ended with `outcome`.
pub fn next_step(step: Step, outcome: Outcome, is_server: bool, all_downloaded: bool) -> (r: Step)
    ensures
        r == spec_next_step(step, outcome, is_server, all_downloaded),
{
    match outcome {
        Outcome::Failed => match step {
            Step::Finish(code) => Step::Finish(code),
            _ => Step::Finish(1),
        },
        Outcome::Cancelled => match step {
            Step::Finish(code) => Step::Finish(code),
            _ => Step::Finish(0),
        },
        Outcome::Done => match step {
            Step::Begin => if is_server {
                Step::DetectVersion
            } else {
                Step::SanityCheck
            },
            Step::SanityCheck => Step::DetectVersion,
            Step::DetectVersion => Step::FetchModlist,
            Step::FetchModlist => Step::OfferBackup,
            Step::OfferBackup => Step::WipeMods,
            Step::WipeMods => Step::DownloadMods,
            Step::DownloadMods => Step::ReportAndLog,
            Step::ReportAndLog => Step::Finish(
                if all_downloaded {
                    0
                } else {
                    1
                },
            ),
            Step::Finish(code) => Step::Finish(code),
        },
    }
}

/// How a run exits: a step that fails stops the run with exit code 1 and a step the user
/// cancels stops it with 0, whatever the step; after the summary and log the exit code is 0
/// exactly when every mod was downloaded; a finished run stays finished with its code.
pub proof fn lemma_exit_codes(step: Step, is_server: bool, all_downloaded: bool)
    ensures
        !(step is Finish) ==> spec_next_step(step, Outcome::Failed, is_server, all_downloaded)
            == Step::Finish(1),
        !(step is Finish) ==> spec_next_step(step, Outcome::Cancelled, is_server, all_downloaded)
            == Step::Finish(0),
        spec_next_step(Step::ReportAndLog, Outcome::Done, is_server, all_downloaded) == Step::Finish(
            0,
        ) <==> all_downloaded,
        spec_next_step(Step::ReportAndLog, Outcome::Done, is_server, all_downloaded) is Finish,
        forall|code: u8, o: Outcome|
            spec_next_step(Step::Finish(code), o, is_server, all_downloaded) == Step::Finish(code),
        forall|o: Outcome| spec_next_step(step, o, is_server, all_downloaded) == Step::Finish(0)
            ==> o == Outcome::Cancelled || (step == Step::ReportAndLog && o == Outcome::Done
            && all_downloaded) || step == Step::Finish(0),
{
}

/// The steps of a run where every step succeeds, in order: the instance check (client mode
/// only), finding the modlist, fetching it, the backup offer, emptying `mods/`, the downloads,
/// then the summary and log.
pub proof fn lemma_step_order(is_server: bool, all_downloaded: bool)
    ensures
        spec_next_step(Step::Begin, Outcome::Done, is_server, all_downloaded) == if is_server {
            Step::DetectVersion
        } else {
            Step::SanityCheck
        },
        spec_next_step(Step::SanityCheck, Outcome::Done, is_server, all_downloaded)
            == Step::DetectVersion,
        spec_next_step(Step::DetectVersion, Outcome::Done, is_server, all_downloaded)
            == Step::FetchModlist,
        spec_next_step(Step::FetchModlist, Outcome::Done, is_server, all_downloaded)
            == Step::OfferBackup,
        spec_next_step(Step::OfferBackup, Outcome::Done, is_server, all_downloaded)
            == Step::WipeMods,
        spec_next_step(Step::WipeMods, Outcome::Done, is_server, all_downloaded)
            == Step::DownloadMods,
        spec_next_step(Step::DownloadMods, Outcome::Done, is_server, all_downloaded)
            == Step::ReportAndLog,
{
}

/// `steps` is a run that starts at `Begin`, where step `i + 1` follows step `i` after it ended
/// with `outcomes[i]`.
pub open spec fn is_run(steps: Seq<Step>, outcomes: Seq<Outcome>, is_server: bool, all_downloaded: bool) -> bool {
    &&& steps.len() > 0
    &&& steps[0] == Step::Begin
    &&& outcomes.len() + 1 >= steps.len()
    &&& forall|i: int|
        0 <= i < steps.len() - 1 ==> #[trigger] steps[i + 1] == spec_next_step(
            steps[i],
            outcomes[i],
            is_server,
            all_downloaded,
        )
}

/// `mods/` is emptied only after the modlist was fetched and read: in any run, a step that
/// wipes `mods/` comes after a fetch of the modlist that succeeded (so a failed fetch or parse
/// leaves `mods/` untouched), and after the backup offer; server mode never runs the instance
/// check.
pub proof fn lemma_wipe_only_after_modlist(
    steps: Seq<Step>,
    outcomes: Seq<Outcome>,
    is_server: bool,
    all_downloaded: bool,
    i: int,
)
    requires
        is_run(steps, outcomes, is_server, all_downloaded),
        0 <= i < steps.len(),
        steps[i] == Step::WipeMods,
    ensures
        i >= 2,
        steps[i - 2] == Step::FetchModlist,
        outcomes[i - 2] == Outcome::Done,
        steps[i - 1] == Step::OfferBackup,
        outcomes[i - 1] == Outcome::Done,
{
    assert(i != 0);
    assert(steps[(i - 1) + 1] == spec_next_step(steps[i - 1], outcomes[i - 1], is_server, all_downloaded));
    assert(steps[i - 1] == Step::OfferBackup);
    assert(i - 1 != 0);
    assert(steps[(i - 2) + 1] == spec_next_step(steps[i - 2], outcomes[i - 2], is_server, all_downloaded));
}

/// In server mode the instance check never runs.
pub proof fn lemma_server_skips_sanity_check(
    steps: Seq<Step>,
    outcomes: Seq<Outcome>,
    all_downloaded: bool,
    i: int,
)
    requires
        is_run(steps, outcomes, true, all_downloaded),
        0 <= i < steps.len(),
    ensures
        steps[i] != Step::SanityCheck,
{
    if i > 0 {
        assert(steps[(i - 1) + 1] == spec_next_step(steps[i - 1], outcomes[i - 1], true, all_downloaded));
    }
}

} // verus!
