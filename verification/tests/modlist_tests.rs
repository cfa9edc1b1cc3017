use createcore_updater::modlist::{
    header_index, modlist_columns, parse_modlist, select_mods, side_wanted, Columns, ModEntry,
    ModlistError,
};

fn strings(list: &[&str]) -> Vec<String> {
    list.iter().map(|s| s.to_string()).collect()
}

fn pairs(mods: &[ModEntry]) -> Vec<(String, String)> {
    mods.iter().map(|m| (m.display_name.clone(), m.url.clone())).collect()
}

const SAMPLE: &str = "FileName,Url,Side\n\
Create, https://cdn.example/create-6.0.jar ,Both\n\
JEI,https://cdn.example/jei.jar, Client \n\
Spark,https://cdn.example/spark.jar,Server\n\
Odd,https://cdn.example/odd.jar,client\n";

#[test]
fn client_mode_keeps_both_and_client() {
    let mods = parse_modlist(SAMPLE.as_bytes(), false).unwrap();
    assert_eq!(
        pairs(&mods),
        vec![
            ("Create".to_string(), "https://cdn.example/create-6.0.jar".to_string()),
            ("JEI".to_string(), "https://cdn.example/jei.jar".to_string()),
        ]
    );
}

#[test]
fn server_mode_keeps_both_and_server() {
    let mods = parse_modlist(SAMPLE.as_bytes(), true).unwrap();
    assert_eq!(
        pairs(&mods),
        vec![
            ("Create".to_string(), "https://cdn.example/create-6.0.jar".to_string()),
            ("Spark".to_string(), "https://cdn.example/spark.jar".to_string()),
        ]
    );
}

#[test]
fn column_order_does_not_matter() {
    let reordered = "Side,FileName,Extra,Url\n\
Both,Create,x, https://cdn.example/create-6.0.jar \n\
 Client ,JEI,y,https://cdn.example/jei.jar\n\
Server,Spark,z,https://cdn.example/spark.jar\n\
client,Odd,w,https://cdn.example/odd.jar\n";
    for is_server in [false, true] {
        let a = parse_modlist(SAMPLE.as_bytes(), is_server).unwrap();
        let b = parse_modlist(reordered.as_bytes(), is_server).unwrap();
        assert_eq!(pairs(&a), pairs(&b));
    }
}

#[test]
fn missing_column_is_reported_by_name() {
    let data = "FileName,Side\nCreate,Both\n";
    match parse_modlist(data.as_bytes(), false) {
        Err(ModlistError::MissingColumn(name)) => assert_eq!(name, "Url"),
        other => panic!("unexpected: {:?}", other.map(|m| m.len())),
    }
}

#[test]
fn empty_input_lacks_the_name_column() {
    match parse_modlist(b"", false) {
        Err(ModlistError::MissingColumn(name)) => assert_eq!(name, "FileName"),
        other => panic!("unexpected: {:?}", other.map(|m| m.len())),
    }
}

#[test]
fn header_row_that_is_not_utf8_fails() {
    let data: &[u8] = b"FileName,\xff\xfe,Side\nA,B,Both\n";
    match parse_modlist(data, false) {
        Err(e @ ModlistError::HeaderRow(_)) => assert_eq!(e.message(), "CSV is missing a header row."),
        other => panic!("unexpected: {:?}", other.map(|m| m.len())),
    }
}

#[test]
fn record_with_wrong_field_count_fails() {
    let data = "FileName,Url,Side\nCreate,https://x/a.jar\n";
    match parse_modlist(data.as_bytes(), false) {
        Err(e @ ModlistError::Record(_)) => assert_eq!(e.message(), "Failed to read a CSV row."),
        other => panic!("unexpected: {:?}", other.map(|m| m.len())),
    }
}

#[test]
fn header_only_gives_no_mods() {
    let data = "FileName,Url,Side\n";
    assert_eq!(parse_modlist(data.as_bytes(), false).unwrap().len(), 0);
}

#[test]
fn header_index_finds_first_match() {
    let h = strings(&["a", "b", "a"]);
    assert_eq!(header_index(&h, "a").unwrap(), 0);
    assert_eq!(header_index(&h, "b").unwrap(), 1);
    match header_index(&h, "c") {
        Err(e) => assert_eq!(e.message(), "CSV is missing the expected column: 'c'"),
        Ok(i) => panic!("unexpected index {}", i),
    }
    assert!(header_index(&h, " a").is_err());
}

#[test]
fn columns_resolved_by_header() {
    let h = strings(&["Side", "Url", "FileName"]);
    let c = modlist_columns(&h).unwrap();
    assert_eq!((c.name, c.url, c.side), (2, 1, 0));
    let missing = strings(&["Url", "FileName"]);
    match modlist_columns(&missing) {
        Err(ModlistError::MissingColumn(name)) => assert_eq!(name, "Side"),
        _ => panic!("expected a missing column"),
    }
}

#[test]
fn short_records_get_defaults() {
    let records = vec![strings(&["Both"]), strings(&["Both", " Mod A "]), strings(&["Both", "B", "u"])];
    let cols = Columns { name: 1, url: 2, side: 0 };
    let mods = select_mods(&records, &cols, false);
    assert_eq!(
        pairs(&mods),
        vec![
            ("Unknown".to_string(), "".to_string()),
            ("Mod A".to_string(), "".to_string()),
            ("B".to_string(), "u".to_string()),
        ]
    );
}

#[test]
fn record_without_side_is_skipped() {
    let records = vec![strings(&["Name", "url"])];
    let cols = Columns { name: 0, url: 1, side: 2 };
    assert_eq!(select_mods(&records, &cols, false).len(), 0);
    assert_eq!(select_mods(&records, &cols, true).len(), 0);
}

#[test]
fn side_tags_are_exact() {
    let t = |s: &str| s.chars().collect::<Vec<char>>();
    assert!(side_wanted(&t("Both"), true));
    assert!(side_wanted(&t("Both"), false));
    assert!(side_wanted(&t("Client"), false));
    assert!(!side_wanted(&t("Client"), true));
    assert!(side_wanted(&t("Server"), true));
    assert!(!side_wanted(&t("Server"), false));
    assert!(!side_wanted(&t("both"), false));
    assert!(!side_wanted(&t(""), false));
}

#[test]
fn code_column_names_are_not_the_schema() {
    let data = "Mod Name Text,CDN Release URL,Client-Server Tag\nCreate,https://x/a.jar,Both\n";
    match parse_modlist(data.as_bytes(), false) {
        Err(e @ ModlistError::MissingColumn(_)) => {
            assert_eq!(e.message(), "CSV is missing the expected column: 'FileName'")
        }
        other => panic!("unexpected: {:?}", other.map(|m| m.len())),
    }
}

#[test]
fn client_and_server_lists_share_both_rows() {
    let data = "FileName,Url,Side\na.jar,u/a,Both\nb.jar,u/b,Client\nc.jar,u/c,Server\nd.jar,u/d,Both\ne.jar,u/e,None\n";
    let client = pairs(&parse_modlist(data.as_bytes(), false).unwrap());
    let server = pairs(&parse_modlist(data.as_bytes(), true).unwrap());
    let names = |v: &Vec<(String, String)>| v.iter().map(|p| p.0.clone()).collect::<Vec<_>>();
    assert_eq!(names(&client), vec!["a.jar", "b.jar", "d.jar"]);
    assert_eq!(names(&server), vec!["a.jar", "c.jar", "d.jar"]);
    assert_eq!(client.len() + server.len(), 1 + 1 + 2 * 2);
}
