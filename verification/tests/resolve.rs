use houdini_launcher::resolve::{
    insert_by_length, resolve_placeholders, substitution_order, upsert, EnvVar,
};

fn var(key: &str, value: &str) -> EnvVar {
    EnvVar { key: key.to_string(), value: value.to_string() }
}

fn keys(vars: &[EnvVar]) -> Vec<&str> {
    vars.iter().map(|v| v.key.as_str()).collect()
}

#[test]
fn a_placeholder_is_replaced_by_the_value_of_its_key() {
    let env = vec![var("hpath", "$ROOT/x"), var("ROOT", "C:/h")];
    assert_eq!(resolve_placeholders("$ROOT/x", &env, "/cfg"), "C:/h/x");
    assert_eq!(resolve_placeholders("$ROOT/$ROOT", &env, "/cfg"), "C:/h/C:/h");
}

#[test]
fn a_longer_key_is_substituted_before_a_key_that_begins_it() {
    let env = vec![var("ROOT", "/short"), var("ROOT2", "/long")];
    assert_eq!(resolve_placeholders("$ROOT2/x:$ROOT/y", &env, "/cfg"), "/long/x:/short/y");
    let env = vec![var("ROOT2", "/long"), var("ROOT", "/short")];
    assert_eq!(resolve_placeholders("$ROOT2/x:$ROOT/y", &env, "/cfg"), "/long/x:/short/y");
}

#[test]
fn values_may_hold_placeholders_of_shorter_keys() {
    let env = vec![var("A", "1"), var("LONG", "$A/2")];
    assert_eq!(resolve_placeholders("$LONG/3", &env, "/cfg"), "1/2/3");
}

#[test]
fn the_config_root_is_substituted_last() {
    assert_eq!(resolve_placeholders("$CONFIG_ROOT_PATH/p", &Vec::new(), "D:/cfg"), "D:/cfg/p");
    let env = vec![var("X", "$CONFIG_ROOT_PATH/x")];
    assert_eq!(resolve_placeholders("$X", &env, "D:/cfg"), "D:/cfg/x");
}

#[test]
fn a_text_without_placeholders_stays_as_it_is() {
    let env = vec![var("ROOT", "C:/h")];
    assert_eq!(resolve_placeholders("C:/plain/ROOT", &env, "/cfg"), "C:/plain/ROOT");
    assert_eq!(resolve_placeholders("", &env, "/cfg"), "");
    assert_eq!(resolve_placeholders("$UNKNOWN/x", &env, "/cfg"), "$UNKNOWN/x");
}

#[test]
fn the_order_of_substitution_puts_longer_keys_first() {
    let env = vec![var("A", "1"), var("CCC", "3"), var("BB", "2"), var("DD", "4"), var("E", "5")];
    let ordered = substitution_order(&env);
    assert_eq!(keys(&ordered), vec!["CCC", "BB", "DD", "A", "E"]);
    assert_eq!(ordered[1].value, "2");
}

#[test]
fn the_length_of_a_key_counts_characters() {
    let env = vec![var("ab", "1"), var("éé", "2"), var("abc", "3")];
    assert_eq!(keys(&substitution_order(&env)), vec!["abc", "ab", "éé"]);
}

#[test]
fn insert_by_length_puts_a_variable_behind_those_at_least_as_long() {
    let mut sorted = vec![var("CCC", "3"), var("BB", "2"), var("A", "1")];
    insert_by_length(&mut sorted, var("XX", "x"));
    assert_eq!(keys(&sorted), vec!["CCC", "BB", "XX", "A"]);
    insert_by_length(&mut sorted, var("LONGEST", "l"));
    assert_eq!(keys(&sorted), vec!["LONGEST", "CCC", "BB", "XX", "A"]);
    insert_by_length(&mut sorted, var("", "e"));
    assert_eq!(keys(&sorted), vec!["LONGEST", "CCC", "BB", "XX", "A", ""]);
}

#[test]
fn upsert_overwrites_in_place_or_appends() {
    let mut env = Vec::new();
    upsert(&mut env, "A".to_string(), "1".to_string());
    upsert(&mut env, "B".to_string(), "2".to_string());
    upsert(&mut env, "A".to_string(), "3".to_string());
    assert_eq!(keys(&env), vec!["A", "B"]);
    assert_eq!(env[0].value, "3");
    assert_eq!(env[1].value, "2");
}
