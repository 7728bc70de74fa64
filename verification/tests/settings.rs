use houdini_launcher::settings::{
    autostart_registry_key, autostart_value_name, is_autostart_enabled,
    is_deadline_monitor_enabled, set_autostart,
    set_deadline_monitor_enabled, AutostartChange,
};

fn says(content: &str) -> bool {
    is_deadline_monitor_enabled(&Some(content.to_string()))
}

#[test]
fn the_switch_is_on_for_one_and_true() {
    assert!(says("1"));
    assert!(says(" 1\n"));
    assert!(says("true"));
    assert!(says("TRUE"));
    assert!(says("  True \r\n"));
}

#[test]
fn the_switch_is_off_for_anything_else() {
    assert!(!says("0"));
    assert!(!says("false"));
    assert!(!says(""));
    assert!(!says("yes"));
    assert!(!says("11"));
    assert!(!says("t rue"));
    assert!(!is_deadline_monitor_enabled(&None));
}

#[test]
fn the_switch_is_written_as_one_or_zero() {
    assert_eq!(set_deadline_monitor_enabled(true), "1");
    assert_eq!(set_deadline_monitor_enabled(false), "0");
    assert!(says(&set_deadline_monitor_enabled(true)));
    assert!(!says(&set_deadline_monitor_enabled(false)));
}

#[test]
fn switching_autostart_on_registers_the_executable() {
    let change = set_autostart(true, "C:/apps/launcher.exe".to_string());
    let AutostartChange::Register { key, name, command } = change else {
        panic!("switching on registers")
    };
    assert_eq!(key, "Software\\Microsoft\\Windows\\CurrentVersion\\Run");
    assert_eq!(name, "HoudiniLauncher");
    assert_eq!(command, "C:/apps/launcher.exe");
}

#[test]
fn switching_autostart_off_unregisters_it() {
    let change = set_autostart(false, "C:/apps/launcher.exe".to_string());
    let AutostartChange::Unregister { key, name } = change else {
        panic!("switching off unregisters")
    };
    assert_eq!(key, "Software\\Microsoft\\Windows\\CurrentVersion\\Run");
    assert_eq!(name, "HoudiniLauncher");
}

#[test]
fn autostart_is_on_where_the_value_is_there() {
    assert!(is_autostart_enabled(&Some("C:/apps/launcher.exe".to_string())));
    assert!(is_autostart_enabled(&Some(String::new())));
    assert!(!is_autostart_enabled(&None));
}

#[test]
fn the_autostart_key_and_name_are_fixed() {
    assert_eq!(autostart_registry_key(), "Software\\Microsoft\\Windows\\CurrentVersion\\Run");
    assert_eq!(autostart_value_name(), "HoudiniLauncher");
}
