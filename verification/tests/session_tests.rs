use createcore_updater::session::{
    backup_dir_name, check_instance_markers, confirms_continue, declines_backup, mode_label,
    next_step, server_mode_requested, InstanceCheck, Outcome, Step,
};
use createcore_updater::text::trim;

fn strings(list: &[&str]) -> Vec<String> {
    list.iter().map(|s| s.to_string()).collect()
}

#[test]
fn server_flag_anywhere() {
    assert!(server_mode_requested(&strings(&["updater", "--server"])));
    assert!(server_mode_requested(&strings(&["--server", "x"])));
    assert!(!server_mode_requested(&strings(&["updater"])));
    assert!(!server_mode_requested(&strings(&["updater", "--Server", "--server=1"])));
}

#[test]
fn mode_labels() {
    assert_eq!(mode_label(true), "Server");
    assert_eq!(mode_label(false), "Client");
}

#[test]
fn marker_counting() {
    assert_eq!(check_instance_markers(&vec![true, true, false]), InstanceCheck::Confident);
    assert_eq!(check_instance_markers(&vec![true, true, true]), InstanceCheck::Confident);
    assert_eq!(check_instance_markers(&vec![false, true, false]), InstanceCheck::OneMarker(1));
    assert_eq!(check_instance_markers(&vec![false, false, true]), InstanceCheck::OneMarker(2));
    assert_eq!(check_instance_markers(&vec![false, false, false]), InstanceCheck::NoMarkers);
}

#[test]
fn answers() {
    assert!(confirms_continue("y"));
    assert!(confirms_continue("Y"));
    assert!(!confirms_continue("yes"));
    assert!(!confirms_continue(""));
    assert!(!confirms_continue("n"));
    assert!(declines_backup("n"));
    assert!(declines_backup("N"));
    assert!(!declines_backup(""));
    assert!(!declines_backup("no"));
    assert!(!declines_backup("y"));
}

#[test]
fn backup_names() {
    assert_eq!(backup_dir_name("mods", 1700000000), "mods_backup_1700000000");
    assert_eq!(backup_dir_name("config", 0), "config_backup_0");
}

#[test]
fn trimming_matches_str_trim() {
    for s in ["  abc ", "\u{a0}\u{3000}x y\u{2029}", "\t\n", "", "a", " \u{85}b\u{200b} "] {
        assert_eq!(trim(s), s.trim());
        assert_eq!(trim(&trim(s)), trim(s));
    }
}

#[test]
fn decimal_matches_to_string() {
    for n in [0u64, 7, 10, 99, 100, 1234567890, u64::MAX] {
        assert_eq!(backup_dir_name("", n), format!("_backup_{}", n));
    }
}

fn walk(is_server: bool, outcomes: &[Outcome], all_downloaded: bool) -> Vec<Step> {
    let mut steps = vec![Step::Begin];
    for o in outcomes {
        let last = *steps.last().unwrap();
        steps.push(next_step(last, *o, is_server, all_downloaded));
    }
    steps
}

#[test]
fn client_run_in_order() {
    let steps = walk(false, &[Outcome::Done; 8], true);
    assert_eq!(
        steps,
        vec![
            Step::Begin,
            Step::SanityCheck,
            Step::DetectVersion,
            Step::FetchModlist,
            Step::OfferBackup,
            Step::WipeMods,
            Step::DownloadMods,
            Step::ReportAndLog,
            Step::Finish(0),
        ]
    );
}

#[test]
fn server_run_skips_instance_check_and_reports_failed_downloads() {
    let steps = walk(true, &[Outcome::Done; 7], false);
    assert_eq!(steps[1], Step::DetectVersion);
    assert!(!steps.contains(&Step::SanityCheck));
    assert_eq!(*steps.last().unwrap(), Step::Finish(1));
}

#[test]
fn failed_fetch_never_wipes_mods() {
    let steps = walk(true, &[Outcome::Done, Outcome::Done, Outcome::Failed, Outcome::Done], true);
    assert_eq!(steps[3], Step::Finish(1));
    assert!(!steps.contains(&Step::WipeMods));
}

#[test]
fn cancelled_check_stops_cleanly() {
    assert_eq!(next_step(Step::SanityCheck, Outcome::Cancelled, false, true), Step::Finish(0));
    assert_eq!(next_step(Step::Finish(1), Outcome::Done, false, true), Step::Finish(1));
}
