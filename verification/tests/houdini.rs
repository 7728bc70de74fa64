use houdini_launcher::houdini::{
    bin_dir, common_houdini_roots, fallback_exe_path, get_houdini_exe_path,
    list_houdini_versions, list_houdini_versions_from_root, load_saved_houdini_exe,
    load_saved_houdini_root, save_houdini_exe, save_houdini_root, wanted_exe_path, InstallEntry,
};

fn entry(path: &str, is_dir: bool, has_bin_dir: bool) -> InstallEntry {
    InstallEntry { path: path.to_string(), is_dir, has_bin_dir }
}

#[test]
fn the_common_roots_are_the_two_vendor_directories() {
    assert_eq!(
        common_houdini_roots(),
        vec![
            "C:\\Program Files\\Side Effects Software".to_string(),
            "C:\\Program Files\\SideFX".to_string(),
        ]
    );
}

#[test]
fn versions_are_the_houdini_directories_with_a_bin_directory() {
    let entries = vec![
        entry("/opt/sfx/Houdini 19.5.303", true, true),
        entry("/opt/sfx/Houdini 20.0.1", true, false),
        entry("/opt/sfx/Houdini 20.5.278", true, true),
        entry("/opt/sfx/Houdini.txt", false, true),
        entry("/opt/sfx/houdini 18", true, true),
        entry("/opt/sfx/Tools", true, true),
        entry("/opt/sfx/Houdini 20.5.300", true, true),
    ];
    let versions = list_houdini_versions_from_root(&entries);
    let names: Vec<&str> = versions.iter().map(|v| v.name.as_str()).collect();
    assert_eq!(names, vec!["Houdini 20.5.300", "Houdini 20.5.278", "Houdini 19.5.303"]);
    assert_eq!(versions[0].path, "/opt/sfx/Houdini 20.5.300");
    assert_eq!(versions[0].bin_path, "/opt/sfx/Houdini 20.5.300/bin");
}

#[test]
fn versions_with_one_name_keep_their_order() {
    let entries = vec![
        entry("/a/Houdini 20", true, true),
        entry("/b/Houdini 20", true, true),
        entry("/c/Houdini 21", true, true),
    ];
    let versions = list_houdini_versions_from_root(&entries);
    let paths: Vec<&str> = versions.iter().map(|v| v.path.as_str()).collect();
    assert_eq!(paths, vec!["/c/Houdini 21", "/a/Houdini 20", "/b/Houdini 20"]);
}

#[test]
fn an_empty_root_has_no_versions() {
    assert!(list_houdini_versions_from_root(&Vec::new()).is_empty());
}

#[test]
fn the_first_root_with_a_version_counts() {
    let listings = vec![
        vec![entry("/one/Other", true, true)],
        Vec::new(),
        vec![entry("/three/Houdini 20", true, true), entry("/three/Houdini 19", true, true)],
        vec![entry("/four/Houdini 21", true, true)],
    ];
    let versions = list_houdini_versions(&listings);
    let names: Vec<&str> = versions.iter().map(|v| v.name.as_str()).collect();
    assert_eq!(names, vec!["Houdini 20", "Houdini 19"]);
    assert_eq!(versions[0].path, "/three/Houdini 20");
}

#[test]
fn roots_without_versions_give_none() {
    assert!(list_houdini_versions(&Vec::new()).is_empty());
    assert!(list_houdini_versions(&vec![Vec::new(), vec![entry("/x/y", true, true)]]).is_empty());
}

#[test]
fn the_executable_lies_in_the_bin_directory() {
    assert_eq!(bin_dir("/opt/h"), "/opt/h/bin");
    assert_eq!(wanted_exe_path("/opt/h", &None), "/opt/h/bin/houdinifx.exe");
    assert_eq!(wanted_exe_path("/opt/h", &Some("hython.exe".to_string())), "/opt/h/bin/hython.exe");
    assert_eq!(fallback_exe_path("/opt/h"), "/opt/h/bin/houdini.exe");
}

#[test]
fn the_wanted_executable_is_taken_where_it_exists() {
    let name = Some("hython.exe".to_string());
    assert_eq!(get_houdini_exe_path("/opt/h", &name, true, true), "/opt/h/bin/hython.exe");
    assert_eq!(get_houdini_exe_path("/opt/h", &name, true, false), "/opt/h/bin/hython.exe");
    assert_eq!(get_houdini_exe_path("/opt/h", &None, true, false), "/opt/h/bin/houdinifx.exe");
}

#[test]
fn the_fallback_is_taken_where_only_it_exists() {
    assert_eq!(get_houdini_exe_path("/opt/h", &None, false, true), "/opt/h/bin/houdini.exe");
}

#[test]
fn the_wanted_executable_is_named_where_neither_exists() {
    assert_eq!(get_houdini_exe_path("/opt/h", &None, false, false), "/opt/h/bin/houdinifx.exe");
}

#[test]
fn saved_executable_and_root_are_trimmed_texts() {
    assert_eq!(load_saved_houdini_exe(&Some(" C:/h/bin/h.exe \r\n".to_string())), Some("C:/h/bin/h.exe".to_string()));
    assert_eq!(load_saved_houdini_exe(&Some("\n".to_string())), None);
    assert_eq!(load_saved_houdini_exe(&None), None);
    assert_eq!(load_saved_houdini_root(&Some("C:/h\n".to_string())), Some("C:/h".to_string()));
    assert_eq!(load_saved_houdini_root(&Some("".to_string())), None);
    assert_eq!(save_houdini_exe(" C:/h/bin/h.exe\n"), "C:/h/bin/h.exe");
    assert_eq!(save_houdini_root("C:/h "), "C:/h");
}
