use createcore_updater::version::{
    detect_latest_version, latest_modlist_index, parse_csv_version, version_label, RAW_BASE_URL,
};

fn names(list: &[&str]) -> Vec<String> {
    list.iter().map(|s| s.to_string()).collect()
}

#[test]
fn parses_documented_example() {
    assert_eq!(parse_csv_version("CreateCore-v3.0.0.csv"), Some((3, 0, 0)));
}

#[test]
fn parses_multi_digit_parts() {
    assert_eq!(parse_csv_version("CreateCore-v12.345.6789.csv"), Some((12, 345, 6789)));
}

#[test]
fn parses_leading_zeros_and_plus_like_str_parse() {
    assert_eq!(parse_csv_version("CreateCore-v03.00.010.csv"), Some((3, 0, 10)));
    assert_eq!(parse_csv_version("CreateCore-v+1.2.+3.csv"), Some((1, 2, 3)));
}

#[test]
fn rejects_wrong_shapes() {
    assert_eq!(parse_csv_version("CreateCore-v3.0.csv"), None);
    assert_eq!(parse_csv_version("CreateCore-v3.0.0.0.csv"), None);
    assert_eq!(parse_csv_version("CreateCore-v3..0.csv"), None);
    assert_eq!(parse_csv_version("CreateCore-v3.0.-1.csv"), None);
    assert_eq!(parse_csv_version("CreateCore-v3.0.+.csv"), None);
    assert_eq!(parse_csv_version("CreateCore-v.csv"), None);
    assert_eq!(parse_csv_version("CreateCore-v"), None);
    assert_eq!(parse_csv_version("createcore-v3.0.0.csv"), None);
    assert_eq!(parse_csv_version("CreateCore-v3.0.0.txt"), None);
    assert_eq!(parse_csv_version("CreateCore-v3.0.0.csv "), None);
    assert_eq!(parse_csv_version("CreateCore-v3.a.0.csv"), None);
    assert_eq!(parse_csv_version(""), None);
}

#[test]
fn version_parts_must_fit_u32() {
    assert_eq!(parse_csv_version("CreateCore-v4294967295.0.0.csv"), Some((4294967295, 0, 0)));
    assert_eq!(parse_csv_version("CreateCore-v4294967296.0.0.csv"), None);
    assert_eq!(parse_csv_version("CreateCore-v0.0.99999999999999999999.csv"), None);
}

#[test]
fn modlist_name_round_trip_on_values() {
    for (a, b, c) in [(0u32, 0u32, 0u32), (3, 0, 0), (1, 22, 333), (4294967295, 7, 4294967295)] {
        let name = format!("CreateCore-v{}.{}.{}.csv", a, b, c);
        assert_eq!(parse_csv_version(&name), Some((a, b, c)));
        assert_eq!(version_label(&name), format!("CreateCore-v{}.{}.{}", a, b, c));
    }
}

#[test]
fn latest_picks_highest_version() {
    let list = names(&[
        "README.md",
        "CreateCore-v2.9.9.csv",
        "CreateCore-v3.0.0.csv",
        "CreateCore-v3.0.0-beta.csv",
        "CreateCore-v2.10.0.csv",
    ]);
    assert_eq!(latest_modlist_index(&list), Some(2));
    let (file, url) = detect_latest_version(&list).unwrap();
    assert_eq!(file, "CreateCore-v3.0.0.csv");
    assert_eq!(url, format!("{}{}", RAW_BASE_URL, "CreateCore-v3.0.0.csv"));
    assert_eq!(
        url,
        "https://raw.githubusercontent.com/NerArth/CreateCore/refs/heads/main/modlists/CreateCore-v3.0.0.csv"
    );
}

#[test]
fn latest_compares_numerically_not_textually() {
    let list = names(&["CreateCore-v3.10.0.csv", "CreateCore-v3.9.0.csv"]);
    assert_eq!(detect_latest_version(&list).unwrap().0, "CreateCore-v3.10.0.csv");
}

#[test]
fn latest_among_equal_versions_is_the_last() {
    let list = names(&["CreateCore-v3.0.0.csv", "CreateCore-v03.0.0.csv", "CreateCore-v1.0.0.csv"]);
    assert_eq!(latest_modlist_index(&list), Some(1));
    assert_eq!(detect_latest_version(&list).unwrap().0, "CreateCore-v03.0.0.csv");
}

#[test]
fn no_modlist_gives_none() {
    let list = names(&["README.md", "CreateCore-v3.csv", "notes.txt"]);
    assert_eq!(latest_modlist_index(&list), None);
    assert!(detect_latest_version(&list).is_none());
    assert!(detect_latest_version(&Vec::new()).is_none());
}

#[test]
fn version_label_strips_csv_endings() {
    assert_eq!(version_label("CreateCore-v3.0.0.csv"), "CreateCore-v3.0.0");
    assert_eq!(version_label("x.csv.csv"), "x");
    assert_eq!(version_label("x.txt"), "x.txt");
    assert_eq!(version_label(".csv"), "");
}
