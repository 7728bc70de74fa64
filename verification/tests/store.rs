use houdini_launcher::json::{parse_json, write_json, Json};
use houdini_launcher::models::{ConfigPaths, FavoritesFile, PresetData, PresetsFile};
use houdini_launcher::state::AppState;
use houdini_launcher::store::{
    create_preset, favorites_from_json, favorites_to_json, load_favorites, load_presets,
    preset_from_json, preset_to_json, presets_from_json, presets_to_json, read_optional_text,
    read_text_array, save_favorites, save_presets, write_optional_text, write_text_array,
    SerializeError,
};

fn strings(items: &[&str]) -> Vec<String> {
    items.iter().map(|d| d.to_string()).collect()
}

fn preset(name: &str, packages: &[&str], houdini: &str, avatar: &str, avatar_path: &str) -> PresetData {
    PresetData {
        name: name.to_string(),
        packages: strings(packages),
        houdini: houdini.to_string(),
        avatar: avatar.to_string(),
        avatar_path: avatar_path.to_string(),
    }
}

fn same_preset(a: &PresetData, b: &PresetData) -> bool {
    a.name == b.name
        && a.packages == b.packages
        && a.houdini == b.houdini
        && a.avatar == b.avatar
        && a.avatar_path == b.avatar_path
}

fn same_presets(a: &[PresetData], b: &[PresetData]) -> bool {
    a.len() == b.len() && a.iter().zip(b).all(|(x, y)| same_preset(x, y))
}

fn by_name(mut presets: Vec<PresetData>) -> Vec<PresetData> {
    presets.sort_by(|a, b| a.name.cmp(&b.name));
    presets
}

#[test]
fn favorites_round_trip_through_their_file() {
    let favorites = strings(&["tools", "Redshift", "", "é"]);
    let text = save_favorites(favorites.clone()).unwrap();
    assert_eq!(load_favorites(&Some(text)), favorites);
}

#[test]
fn no_favorites_round_trip_too() {
    let text = save_favorites(Vec::new()).unwrap();
    assert_eq!(text, "{\n  \"favorites\": []\n}");
    assert_eq!(load_favorites(&Some(text)), Vec::<String>::new());
}

#[test]
fn the_favorites_file_is_an_object_with_one_array() {
    let text = save_favorites(strings(&["a", "b"])).unwrap();
    assert_eq!(text, "{\n  \"favorites\": [\n    \"a\",\n    \"b\"\n  ]\n}");
}

#[test]
fn favorites_round_trip_through_their_document() {
    let file = FavoritesFile { favorites: strings(&["b", "a", "b"]) };
    let back = favorites_from_json(&favorites_to_json(&file)).unwrap();
    assert_eq!(back.favorites, file.favorites);
}

#[test]
fn a_missing_or_malformed_favorites_file_gives_no_favorites() {
    assert!(load_favorites(&None).is_empty());
    assert!(load_favorites(&Some("".to_string())).is_empty());
    assert!(load_favorites(&Some("{ nope".to_string())).is_empty());
    assert!(load_favorites(&Some("[\"a\"]".to_string())).is_empty());
    assert!(load_favorites(&Some("{}".to_string())).is_empty());
    assert!(load_favorites(&Some("{\"favorites\": \"a\"}".to_string())).is_empty());
    assert!(load_favorites(&Some("{\"favorites\": [\"a\", 1]}".to_string())).is_empty());
    assert!(load_favorites(&Some("{\"favorites\": null}".to_string())).is_empty());
}

#[test]
fn other_fields_of_the_favorites_file_are_ignored() {
    let text = r#"{"version": 2, "favorites": ["a"]}"#.to_string();
    assert_eq!(load_favorites(&Some(text)), strings(&["a"]));
}

#[test]
fn presets_round_trip_through_their_file() {
    let presets = vec![
        preset("fx", &["tools", "Redshift"], "Houdini 20.5.278", "data:image/png;base64,AA", ""),
        preset("anim", &[], "Houdini 19.5", "", "C:/pics/anim.png"),
        preset("bare", &["a"], "", "", ""),
    ];
    let default = Some("anim".to_string());
    let text = save_presets(&presets, &default).unwrap();
    let loaded = load_presets(&Some(text));
    assert_eq!(loaded.default, default);
    assert!(same_presets(&by_name(loaded.presets), &by_name(presets)));
}

#[test]
fn presets_without_a_default_round_trip() {
    let presets = vec![preset("only", &["p"], "Houdini 20", "", "")];
    let text = save_presets(&presets, &None).unwrap();
    let loaded = load_presets(&Some(text));
    assert_eq!(loaded.default, None);
    assert!(same_presets(&loaded.presets, &presets));
}

#[test]
fn no_presets_round_trip_too() {
    let text = save_presets(&Vec::new(), &None).unwrap();
    assert_eq!(text, "{\n  \"default\": null,\n  \"presets\": {}\n}");
    let loaded = load_presets(&Some(text));
    assert!(loaded.presets.is_empty());
    assert_eq!(loaded.default, None);
}

#[test]
fn presets_round_trip_through_their_document_in_order() {
    let presets = vec![
        preset("z", &["1"], "h", "a", "p"),
        preset("a", &["2", "3"], "g", "", ""),
    ];
    let file = presets_from_json(&presets_to_json(&presets, &Some("z".to_string()))).unwrap();
    assert_eq!(file.default, Some("z".to_string()));
    assert!(same_presets(&file.presets, &presets));
}

#[test]
fn of_presets_with_one_name_the_last_is_kept() {
    let presets = vec![
        preset("a", &["old"], "h1", "", ""),
        preset("b", &["b"], "h2", "", ""),
        preset("a", &["new"], "h3", "pic", ""),
    ];
    let file = presets_from_json(&presets_to_json(&presets, &None)).unwrap();
    let kept = vec![preset("a", &["new"], "h3", "pic", ""), preset("b", &["b"], "h2", "", "")];
    assert!(same_presets(&file.presets, &kept));
    let loaded = load_presets(&Some(save_presets(&presets, &None).unwrap()));
    assert!(same_presets(&by_name(loaded.presets), &kept));
}

#[test]
fn the_presets_file_has_the_documented_shape() {
    let presets = vec![preset("fx", &["tools"], "Houdini 20", "", "C:/p.png")];
    let text = save_presets(&presets, &Some("fx".to_string())).unwrap();
    let value: serde_json::Value = serde_json::from_str(&text).unwrap();
    assert_eq!(value["default"], "fx");
    assert_eq!(value["presets"]["fx"]["packages"][0], "tools");
    assert_eq!(value["presets"]["fx"]["houdini"], "Houdini 20");
    assert!(value["presets"]["fx"]["avatar"].is_null());
    assert_eq!(value["presets"]["fx"]["avatar_path"], "C:/p.png");
    assert_eq!(value["presets"]["fx"].as_object().unwrap().len(), 4);
    assert_eq!(value.as_object().unwrap().len(), 2);
}

#[test]
fn presets_without_optional_fields_are_read() {
    let text = r#"{"presets": {"fx": {"packages": ["a"], "houdini": "Houdini 20"}}}"#;
    let loaded = load_presets(&Some(text.to_string()));
    assert_eq!(loaded.default, None);
    assert!(same_presets(&loaded.presets, &[preset("fx", &["a"], "Houdini 20", "", "")]));
}

#[test]
fn a_missing_or_malformed_presets_file_gives_no_presets() {
    for content in [
        None,
        Some(""),
        Some("{ nope"),
        Some("[]"),
        Some("{}"),
        Some(r#"{"default": "x"}"#),
        Some(r#"{"default": 3, "presets": {}}"#),
        Some(r#"{"presets": []}"#),
        Some(r#"{"presets": {"fx": {"houdini": "h"}}}"#),
        Some(r#"{"presets": {"fx": {"packages": ["a"]}}}"#),
        Some(r#"{"presets": {"fx": {"packages": "a", "houdini": "h"}}}"#),
        Some(r#"{"presets": {"fx": {"packages": [1], "houdini": "h"}}}"#),
        Some(r#"{"presets": {"fx": {"packages": [], "houdini": 20}}}"#),
        Some(r#"{"presets": {"fx": {"packages": [], "houdini": "h", "avatar": 1}}}"#),
        Some(r#"{"presets": {"fx": {"packages": [], "houdini": "h", "avatar_path": []}}}"#),
        Some(r#"{"presets": {"ok": {"packages": [], "houdini": "h"}, "bad": 1}}"#),
    ] {
        let loaded = load_presets(&content.map(|c| c.to_string()));
        assert!(loaded.presets.is_empty(), "{:?}", content);
        assert_eq!(loaded.default, None, "{:?}", content);
    }
}

#[test]
fn a_preset_is_read_from_its_member() {
    let value = parse_json(r#"{"packages": ["a", "b"], "houdini": "h", "avatar": "pic", "avatar_path": null}"#).unwrap();
    let read = preset_from_json(&"fx".to_string(), &value).unwrap();
    assert!(same_preset(&read, &preset("fx", &["a", "b"], "h", "pic", "")));
    assert!(preset_from_json(&"fx".to_string(), &Json::Null).is_none());
    let again = preset_from_json(&"fx".to_string(), &preset_to_json(&read)).unwrap();
    assert!(same_preset(&again, &read));
}

#[test]
fn text_arrays_are_read_and_written() {
    let value = write_text_array(&strings(&["a", ""]));
    assert_eq!(write_json(value).unwrap(), "[\n  \"a\",\n  \"\"\n]");
    let value = parse_json(r#"["x", "y"]"#).unwrap();
    assert_eq!(read_text_array(Some(&value)), Some(strings(&["x", "y"])));
    assert_eq!(read_text_array(Some(&parse_json("[]").unwrap())), Some(Vec::new()));
    assert_eq!(read_text_array(Some(&parse_json(r#"["x", null]"#).unwrap())), None);
    assert_eq!(read_text_array(Some(&parse_json(r#"{"a": "x"}"#).unwrap())), None);
    assert_eq!(read_text_array(None), None);
}

#[test]
fn optional_texts_are_read_and_written() {
    assert!(matches!(write_optional_text(&String::new()), Json::Null));
    assert!(matches!(write_optional_text(&"x".to_string()), Json::Text(t) if t == "x"));
    assert_eq!(read_optional_text(None), Some(String::new()));
    assert_eq!(read_optional_text(Some(&Json::Null)), Some(String::new()));
    assert_eq!(read_optional_text(Some(&Json::Text("x".to_string()))), Some("x".to_string()));
    assert_eq!(read_optional_text(Some(&Json::Bool(true))), None);
}

#[test]
fn a_new_preset_has_no_picture() {
    let made = create_preset("fx".to_string(), strings(&["a"]), "Houdini 20".to_string());
    assert!(same_preset(&made, &preset("fx", &["a"], "Houdini 20", "", "")));
}

#[test]
fn a_serialize_error_says_what_failed() {
    let error = SerializeError { what: "presets".to_string(), detail: "boom".to_string() };
    assert_eq!(error.message(), "Failed to serialize presets: boom");
}

#[test]
fn the_state_starts_empty_under_the_saved_root() {
    let state = AppState::new(&Some("/cfg".to_string()));
    assert_eq!(state.config_paths.root, "/cfg");
    assert_eq!(state.config_paths.packages_dir, ConfigPaths::from_root(&Some("/cfg".to_string())).packages_dir);
    assert!(state.packages.is_empty());
    assert!(state.presets.is_empty());
    assert!(state.favorites.is_empty());
    assert_eq!(state.default_preset, None);
    assert_eq!(AppState::new(&None).config_paths.root, ".");
}

#[test]
fn a_presets_file_value_holds_what_was_loaded() {
    let file: PresetsFile = load_presets(&Some(r#"{"default": "a", "presets": {"a": {"packages": [], "houdini": "h"}}}"#.to_string()));
    assert_eq!(file.default, Some("a".to_string()));
    assert_eq!(file.presets.len(), 1);
    assert_eq!(file.presets[0].name, "a");
}
