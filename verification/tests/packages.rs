use houdini_launcher::json::{parse_json, Json};
use houdini_launcher::package::{
    env_map, is_enabled, is_package_file, load_packages, package_file_path, raw_paths,
    save_package_enabled, MissingPaths, Package, PackageError, PackageFile,
};

fn doc(text: &str) -> Json {
    parse_json(text).expect("the test document is JSON")
}

fn package(text: &str, root: &str) -> Package {
    Package::from_json("p".to_string(), "/cfg/packages/p.json".to_string(), doc(text), root.to_string())
}

fn env_of(text: &str) -> Vec<(String, String)> {
    env_map(&doc(text)).into_iter().map(|v| (v.key, v.value)).collect()
}

fn pair(key: &str, value: &str) -> (String, String) {
    (key.to_string(), value.to_string())
}

/// Drives a check against a list of existing paths; gives the result and the
/// paths that were asked for.
fn drive(mut check: MissingPaths, existing: &[&str]) -> (bool, Vec<String>) {
    let mut asked = Vec::new();
    while let Some(path) = check.pending() {
        asked.push(path.clone());
        check.answer(existing.contains(&path.as_str()));
    }
    (check.result().expect("a finished check has a result"), asked)
}

#[test]
fn substitution_resolves_a_variable_of_a_later_entry() {
    let p = package(r#"{"env":[{"hpath":"$ROOT/x"},{"ROOT":"C:/h"}]}"#, "/cfg");
    assert_eq!(p.resolve_path("$ROOT/x"), "C:/h/x");
    assert_eq!(p.checked_paths(), vec!["C:/h/x".to_string()]);
}

#[test]
fn the_config_root_placeholder_resolves_to_the_config_root() {
    let p = package(r#"{"env":[{"hpath":"$CONFIG_ROOT_PATH/tools"},{"ROOT":"C:/h"}]}"#, "D:/cfg");
    assert_eq!(p.resolve_path("$CONFIG_ROOT_PATH/tools"), "D:/cfg/tools");
    assert_eq!(p.resolve_path("$ROOT/$CONFIG_ROOT_PATH"), "C:/h/D:/cfg");
    assert_eq!(p.checked_paths(), vec!["D:/cfg/tools".to_string()]);
}

#[test]
fn a_variable_named_like_the_config_root_placeholder_is_substituted_first() {
    let p = package(r#"{"env":[{"CONFIG_ROOT_PATH":"E:/own"}]}"#, "D:/cfg");
    assert_eq!(p.resolve_path("$CONFIG_ROOT_PATH/tools"), "E:/own/tools");
}

#[test]
fn a_package_without_enable_field_is_enabled() {
    assert!(package(r#"{"env":[]}"#, "/cfg").enabled);
    assert!(package(r#"{}"#, "/cfg").enabled);
    assert!(is_enabled(&doc("[1,2]")));
    assert!(is_enabled(&doc("null")));
}

#[test]
fn a_package_is_what_its_enable_field_says() {
    assert!(!package(r#"{"enable": false}"#, "/cfg").enabled);
    assert!(package(r#"{"enable": true}"#, "/cfg").enabled);
}

#[test]
fn an_enable_field_that_is_no_boolean_counts_as_enabled() {
    assert!(package(r#"{"enable": "false"}"#, "/cfg").enabled);
    assert!(package(r#"{"enable": 0}"#, "/cfg").enabled);
    assert!(package(r#"{"enable": null}"#, "/cfg").enabled);
}

#[test]
fn from_json_keeps_what_it_is_given() {
    let p = Package::from_json("tools".to_string(), "/c/packages/tools.json".to_string(), doc("{}"), "/c".to_string());
    assert_eq!(p.name, "tools");
    assert_eq!(p.file_path, "/c/packages/tools.json");
    assert_eq!(p.config_root, "/c");
    assert!(matches!(p.data, Json::Object(ref members) if members.is_empty()));
}

#[test]
fn the_environment_holds_texts_and_numbers() {
    let env = env_of(r#"{"env":[{"A":"x"},{"B":12},{"C":-3},{"D":1.5},{"E":true},{"F":null},{"G":[1]},{"H":{"a":1}}]}"#);
    assert_eq!(env, vec![pair("A", "x"), pair("B", "12"), pair("C", "-3"), pair("D", "1.5")]);
}

#[test]
fn later_entries_overwrite_earlier_ones() {
    let env = env_of(r#"{"env":[{"A":"1"},{"B":"2"},{"A":"3"}]}"#);
    assert_eq!(env, vec![pair("A", "3"), pair("B", "2")]);
}

#[test]
fn entries_with_several_keys_bind_them_all() {
    let env = env_of(r#"{"env":[{"A":"1","B":"2"},{"C":"3"}]}"#);
    assert_eq!(env, vec![pair("A", "1"), pair("B", "2"), pair("C", "3")]);
}

#[test]
fn documents_without_an_env_array_have_an_empty_environment() {
    assert!(env_of(r#"{}"#).is_empty());
    assert!(env_of(r#"{"env":{"A":"1"}}"#).is_empty());
    assert!(env_of(r#"{"env":"A"}"#).is_empty());
    assert!(env_of(r#"[{"A":"1"}]"#).is_empty());
    assert!(env_of(r#""text""#).is_empty());
    assert!(env_of(r#"{"env":["A", 1, null, ["B"]]}"#).is_empty());
}

#[test]
fn get_env_map_is_the_environment_of_the_document() {
    let p = package(r#"{"env":[{"ROOT":"C:/h"},{"N":7}]}"#, "/cfg");
    let env: Vec<(String, String)> = p.get_env_map().into_iter().map(|v| (v.key, v.value)).collect();
    assert_eq!(env, vec![pair("ROOT", "C:/h"), pair("N", "7")]);
}

#[test]
fn raw_paths_are_the_values_of_hpath_and_path() {
    let raws = raw_paths(&doc(r#"{"env":[{"hpath":"$A/x"},{"other":"no"},{"path":"/p","hpath":"/h"},{"PATH":"/up"}]}"#));
    assert_eq!(raws, vec!["$A/x".to_string(), "/h".to_string(), "/p".to_string()]);
}

#[test]
fn a_path_that_is_no_text_is_the_empty_path() {
    let raws = raw_paths(&doc(r#"{"env":[{"hpath":5},{"path":null}]}"#));
    assert_eq!(raws, vec![String::new(), String::new()]);
}

#[test]
fn a_package_with_a_missing_path_reports_it() {
    let p = package(r#"{"env":[{"hpath":"$ROOT/x"},{"ROOT":"C:/h"}]}"#, "/cfg");
    let (missing, asked) = drive(p.has_missing_paths(), &[]);
    assert!(missing);
    assert_eq!(asked, vec!["C:/h/x".to_string()]);
}

#[test]
fn a_package_whose_paths_all_exist_reports_none_missing() {
    let p = package(r#"{"env":[{"hpath":"$ROOT/x"},{"ROOT":"C:/h"},{"path":"$CONFIG_ROOT_PATH/p"}]}"#, "/cfg");
    let (missing, asked) = drive(p.has_missing_paths(), &["C:/h/x", "/cfg/p"]);
    assert!(!missing);
    assert_eq!(asked, vec!["C:/h/x".to_string(), "/cfg/p".to_string()]);
}

#[test]
fn a_package_without_env_has_no_missing_paths() {
    let (missing, asked) = drive(package(r#"{"enable":true}"#, "/cfg").has_missing_paths(), &[]);
    assert!(!missing);
    assert!(asked.is_empty());
    let (missing, _) = drive(package(r#"{"env":[{"A":"/nowhere"}]}"#, "/cfg").has_missing_paths(), &[]);
    assert!(!missing);
}

#[test]
fn the_check_stops_at_the_first_missing_path() {
    let p = package(r#"{"env":[{"path":"/a"},{"path":"/b"},{"path":"/c"}]}"#, "/cfg");
    let (missing, asked) = drive(p.has_missing_paths(), &["/a", "/c"]);
    assert!(missing);
    assert_eq!(asked, vec!["/a".to_string(), "/b".to_string()]);
}

#[test]
fn a_path_that_is_no_text_is_missing() {
    let p = package(r#"{"env":[{"hpath":17}]}"#, "/cfg");
    let (missing, asked) = drive(p.has_missing_paths(), &["/cfg"]);
    assert!(missing);
    assert_eq!(asked, vec![String::new()]);
}

#[test]
fn a_finished_check_ignores_further_answers() {
    let mut check = MissingPaths::new(vec!["/a".to_string()]);
    assert_eq!(check.result(), None);
    check.answer(false);
    assert_eq!(check.result(), Some(true));
    check.answer(true);
    assert_eq!(check.result(), Some(true));
    assert_eq!(check.pending(), None);
    let empty = MissingPaths::new(Vec::new());
    assert_eq!(empty.result(), Some(false));
}

#[test]
fn package_files_have_the_extension_json() {
    assert!(is_package_file("/cfg/packages/tools.json"));
    assert!(is_package_file("a.b.json"));
    assert!(!is_package_file("/cfg/packages/tools.JSON"));
    assert!(!is_package_file("/cfg/packages/tools.json.bak"));
    assert!(!is_package_file("/cfg/packages/json"));
    assert!(!is_package_file("/cfg/packages/.json"));
}

fn file(path: &str, content: Option<&str>) -> PackageFile {
    PackageFile { path: path.to_string(), content: content.map(|c| c.to_string()) }
}

#[test]
fn packages_are_loaded_from_the_json_files_and_listed_by_name() {
    let files = vec![
        file("/c/packages/zeta.json", Some(r#"{"enable":false}"#)),
        file("/c/packages/notes.txt", Some(r#"{}"#)),
        file("/c/packages/Beta.json", Some(r#"{"env":[{"A":"1"}]}"#)),
        file("/c/packages/broken.json", Some(r#"{"env": ["#)),
        file("/c/packages/unread.json", None),
        file("/c/packages/alpha.json", Some(r#"{}"#)),
    ];
    let packages = load_packages(&files, "/c");
    let names: Vec<&str> = packages.iter().map(|p| p.name.as_str()).collect();
    assert_eq!(names, vec!["alpha", "Beta", "zeta"]);
    assert_eq!(packages[1].file_path, "/c/packages/Beta.json");
    assert_eq!(packages[1].config_root, "/c");
    assert!(packages[1].enabled);
    assert!(!packages[2].enabled);
}

#[test]
fn packages_with_names_equal_but_for_case_keep_their_order() {
    let files = vec![
        file("/c/packages/b.json", Some("{}")),
        file("/c/packages/A.json", Some("1")),
        file("/c/packages/a.json", Some("2")),
        file("/c/packages/B.json", Some("3")),
    ];
    let packages = load_packages(&files, "/c");
    let names: Vec<&str> = packages.iter().map(|p| p.name.as_str()).collect();
    assert_eq!(names, vec!["A", "a", "b", "B"]);
}

#[test]
fn no_files_give_no_packages() {
    assert!(load_packages(&Vec::new(), "/c").is_empty());
}

#[test]
fn the_file_of_a_package_is_its_name_with_json() {
    assert_eq!(package_file_path("/c/packages", "tools"), "/c/packages/tools.json");
}

#[test]
fn switching_a_package_off_sets_its_enable_field() {
    let text = save_package_enabled(r#"{"name":"x","enable":true,"env":[{"A":"1"}]}"#, false).unwrap();
    let after = doc(&text);
    assert!(!is_enabled(&after));
    assert!(matches!(after.field("name"), Some(Json::Text(name)) if name == "x"));
    assert_eq!(env_map(&after).len(), 1);
    assert!(text.contains('\n'));
}

#[test]
fn switching_adds_the_enable_field_where_there_is_none() {
    let text = save_package_enabled(r#"{"env":[]}"#, false).unwrap();
    assert!(!is_enabled(&doc(&text)));
    let text = save_package_enabled(r#"{"env":[]}"#, true).unwrap();
    assert!(is_enabled(&doc(&text)));
    assert!(matches!(doc(&text).field("enable"), Some(Json::Bool(true))));
    let text = save_package_enabled("null", false).unwrap();
    assert!(matches!(doc(&text).field("enable"), Some(Json::Bool(false))));
}

#[test]
fn switching_keeps_the_text_exactly_as_serde_json_writes_it() {
    let text = save_package_enabled(r#"{"b":1,"a":[true,null]}"#, true).unwrap();
    let mut value: serde_json::Value = serde_json::from_str(r#"{"b":1,"a":[true,null]}"#).unwrap();
    value["enable"] = serde_json::Value::Bool(true);
    assert_eq!(text, serde_json::to_string_pretty(&value).unwrap());
}

#[test]
fn a_file_that_is_no_json_cannot_be_switched() {
    let error = save_package_enabled("{ not json", true).unwrap_err();
    assert!(matches!(error, PackageError::Parse(_)));
    assert!(error.message().starts_with("Failed to parse package JSON: "));
    assert!(error.message().len() > "Failed to parse package JSON: ".len());
}

#[test]
fn a_document_that_is_no_object_cannot_be_switched() {
    for text in ["[1]", "3", "\"x\"", "true"] {
        let error = save_package_enabled(text, true).unwrap_err();
        assert!(matches!(error, PackageError::NotAnObject));
        assert_eq!(error.message(), "Package JSON is not an object");
    }
}

#[test]
fn a_serialize_error_has_its_own_message() {
    let error = PackageError::Serialize("boom".to_string());
    assert_eq!(error.message(), "Failed to serialize package: boom");
}

#[test]
fn a_cloned_package_is_the_same_package() {
    let p = package(r#"{"enable":false,"env":[{"hpath":"$ROOT/x"},{"ROOT":"C:/h"}]}"#, "/cfg");
    let copy = p.clone();
    assert_eq!(copy.name, p.name);
    assert_eq!(copy.file_path, p.file_path);
    assert_eq!(copy.config_root, p.config_root);
    assert_eq!(copy.enabled, p.enabled);
    assert_eq!(copy.checked_paths(), p.checked_paths());
}

#[test]
fn checking_among_known_paths_gives_the_same_answer_as_driving() {
    let text = r#"{"env":[{"path":"/a"},{"hpath":"$R/b"},{"R":"/r"}]}"#;
    for existing in [vec![], vec!["/a"], vec!["/a", "/r/b"], vec!["/r/b"]] {
        let known: Vec<String> = existing.iter().map(|p| p.to_string()).collect();
        let driven = drive(package(text, "/cfg").has_missing_paths(), &existing).0;
        assert_eq!(package(text, "/cfg").has_missing_paths().check_among(&known), driven);
    }
    assert!(!MissingPaths::new(Vec::new()).check_among(&Vec::new()));
}
