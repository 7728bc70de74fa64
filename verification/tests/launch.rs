use houdini_launcher::launch::{launch_environment, launch_houdini, EnvPair, LaunchError};

fn pair(name: &str, value: &str) -> EnvPair {
    EnvPair { name: name.to_string(), value: value.to_string() }
}

fn texts(pairs: &[EnvPair]) -> Vec<(&str, &str)> {
    pairs.iter().map(|p| (p.name.as_str(), p.value.as_str())).collect()
}

#[test]
fn the_environment_is_inherited_then_fixed_then_extra() {
    let environment = launch_environment(
        vec![pair("PATH", "/bin"), pair("HOME", "/home/u")],
        "/cfg/packages".to_string(),
        "/cfg".to_string(),
        vec![pair("A", "1"), pair("PATH", "/other")],
    );
    assert_eq!(
        texts(&environment),
        vec![
            ("PATH", "/bin"),
            ("HOME", "/home/u"),
            ("HOUDINI_PACKAGE_DIR", "/cfg/packages"),
            ("CONFIG_ROOT_PATH", "/cfg"),
            ("A", "1"),
            ("PATH", "/other"),
        ]
    );
}

#[test]
fn without_other_variables_the_environment_holds_the_two_fixed_ones() {
    let environment = launch_environment(Vec::new(), "p".to_string(), "r".to_string(), Vec::new());
    assert_eq!(texts(&environment), vec![("HOUDINI_PACKAGE_DIR", "p"), ("CONFIG_ROOT_PATH", "r")]);
}

#[test]
fn a_missing_executable_is_not_started() {
    let out = launch_houdini(
        "C:/h/bin/houdini.exe".to_string(),
        false,
        "p".to_string(),
        "r".to_string(),
        vec![pair("A", "1")],
        Vec::new(),
        "/cfg".to_string(),
    );
    let error = out.unwrap_err();
    assert!(matches!(&error, LaunchError::ExecutableNotFound(path) if path == "C:/h/bin/houdini.exe"));
    assert_eq!(error.message(), "Houdini executable not found: C:/h/bin/houdini.exe");
}

#[test]
fn an_existing_executable_is_started_in_the_config_root() {
    let plan = launch_houdini(
        "C:/h/bin/houdini.exe".to_string(),
        true,
        "/cfg/packages".to_string(),
        "/cfg".to_string(),
        vec![pair("A", "1")],
        vec![pair("PATH", "/bin")],
        "/cfg".to_string(),
    )
    .unwrap();
    assert_eq!(plan.executable, "C:/h/bin/houdini.exe");
    assert_eq!(plan.working_dir, "/cfg");
    assert_eq!(
        texts(&plan.environment),
        vec![
            ("PATH", "/bin"),
            ("HOUDINI_PACKAGE_DIR", "/cfg/packages"),
            ("CONFIG_ROOT_PATH", "/cfg"),
            ("A", "1"),
        ]
    );
}
