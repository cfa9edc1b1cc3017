use createcore_updater::download::{derive_filename, mod_file_path, progress_label};
use createcore_updater::modlist::ModEntry;
use createcore_updater::report::RunReport;

#[test]
fn filename_from_documented_example() {
    assert_eq!(
        derive_filename("https://cdn.modrinth.com/data/x/versions/y/linkage-0.2.5.jar?mr_download_reason=standalone"),
        "linkage-0.2.5.jar"
    );
}

#[test]
fn filename_edge_cases() {
    assert_eq!(derive_filename("plain.jar"), "plain.jar");
    assert_eq!(derive_filename("https://host/dir/"), "");
    assert_eq!(derive_filename("https://host/a.jar?x=1?y=2"), "a.jar");
    assert_eq!(derive_filename("https://host/q?a=b/c.jar"), "c.jar");
    assert_eq!(derive_filename(""), "");
}

#[test]
fn filename_has_no_separators() {
    for url in ["a/b/c?d/e", "////", "??", "x?y", "https://h/p/q.jar?r=s"] {
        let f = derive_filename(url);
        assert!(!f.contains('/') && !f.contains('?'), "{}", f);
    }
}

#[test]
fn file_path_is_under_mods() {
    assert_eq!(mod_file_path("a.jar"), "mods/a.jar");
}

#[test]
fn progress_counts_from_one() {
    assert_eq!(progress_label(0, 12, "Create"), "[1/12] Downloading: Create...");
    assert_eq!(progress_label(11, 12, "JEI"), "[12/12] Downloading: JEI...");
}

fn entry(name: &str, url: &str) -> ModEntry {
    ModEntry { display_name: name.to_string(), url: url.to_string() }
}

#[test]
fn report_tallies_each_download_once() {
    let mut report = RunReport::new("CreateCore-v3.0.0".to_string(), "Client".to_string());
    assert!(report.all_succeeded());
    report.record_download(&entry("Create", "https://h/create.jar?x"), Ok(()));
    report.record_download(&entry("JEI", "https://h/jei.jar"), Err("timed out".to_string()));
    report.record_download(&entry("Spark", "https://h/spark.jar"), Ok(()));
    assert_eq!(report.succeeded, vec!["create.jar".to_string(), "spark.jar".to_string()]);
    assert_eq!(report.failed, vec![("JEI".to_string(), "timed out".to_string())]);
    assert_eq!(report.succeeded.len() + report.failed.len(), 3);
    assert!(!report.all_succeeded());
}

#[test]
fn log_entry_text() {
    let mut report = RunReport::new("CreateCore-v3.0.0".to_string(), "Server".to_string());
    report.record_download(&entry("Create", "https://h/create.jar"), Ok(()));
    report.record_download(&entry("JEI", "https://h/jei.jar"), Err("HTTP 404".to_string()));
    assert_eq!(
        report.log_entry(0),
        "=== 1970-01-01 00:00:00 | Mode: Server | Version: CreateCore-v3.0.0 ===\n\
[OK]   create.jar\n\
[FAIL] JEI: HTTP 404\n\
=== Run complete: 1 succeeded, 1 failed ===\n\n"
    );
}

#[test]
fn log_entry_of_empty_run() {
    let report = RunReport::new("v".to_string(), "Client".to_string());
    assert_eq!(
        report.log_entry(1700000000),
        "=== 2023-11-14 22:13:20 | Mode: Client | Version: v ===\n=== Run complete: 0 succeeded, 0 failed ===\n\n"
    );
}

#[test]
fn summary_when_all_succeed() {
    let mut report = RunReport::new("v".to_string(), "Client".to_string());
    report.record_download(&entry("A", "https://h/a.jar"), Ok(()));
    report.record_download(&entry("B", "https://h/b.jar"), Ok(()));
    assert_eq!(report.summary_lines(), vec!["\u{2713} Done! 2 mods downloaded successfully.".to_string()]);
}

#[test]
fn summary_with_failures() {
    let mut report = RunReport::new("v".to_string(), "Client".to_string());
    report.record_download(&entry("A", "https://h/a.jar"), Ok(()));
    report.record_download(&entry("B", "https://h/b.jar"), Err("boom".to_string()));
    assert_eq!(
        report.summary_lines(),
        vec![
            "\u{26a0} Completed with 1 failure(s) (1 succeeded):".to_string(),
            "  - B: boom".to_string(),
            "".to_string(),
            "Re-run the updater to retry, or check the URLs in the modlist.".to_string(),
        ]
    );
}
