use simple_starter::config::{check_config_well_formed, get_config_value_by_path, merge_config_values, split_path_segments, ConfigValue};
use simple_starter::settings::{
    app_default_config, core_task_placement, merge_default_configs, profile_file_name, runtime_choice, select_profile,
    CoreTaskPlacement, RuntimeChoice, RuntimeConfigError,
};

fn s(x: &str) -> String {
    x.to_string()
}

fn table(entries: Vec<(&str, ConfigValue)>) -> ConfigValue {
    ConfigValue::Table(entries.into_iter().map(|(k, v)| (s(k), v)).collect())
}

fn string_at(v: &ConfigValue, path: &str) -> Option<String> {
    match get_config_value_by_path(v, path) {
        Some(ConfigValue::String(x)) => Some(x.clone()),
        _ => None,
    }
}

fn int_at(v: &ConfigValue, path: &str) -> Option<i64> {
    match get_config_value_by_path(v, path) {
        Some(ConfigValue::Integer(x)) => Some(*x),
        _ => None,
    }
}

#[test]
fn dotted_paths_follow_tables() {
    let cfg = table(vec![("web", table(vec![("port", ConfigValue::Integer(8080)), ("host", ConfigValue::String(s("0.0.0.0")))]))]);
    assert_eq!(int_at(&cfg, "web.port"), Some(8080));
    assert_eq!(string_at(&cfg, "web.host"), Some(s("0.0.0.0")));
    assert!(get_config_value_by_path(&cfg, "web.port.x").is_none());
    assert!(get_config_value_by_path(&cfg, "web.missing").is_none());
    assert!(get_config_value_by_path(&cfg, "").is_none());
    assert!(matches!(get_config_value_by_path(&cfg, "web"), Some(ConfigValue::Table(_))));
    assert_eq!(split_path_segments("a.b..c"), vec![s("a"), s("b"), s(""), s("c")]);
}

#[test]
fn overlay_wins_on_leaves_and_base_keeps_the_rest() {
    let base = table(vec![
        ("web", table(vec![("port", ConfigValue::Integer(80)), ("host", ConfigValue::String(s("localhost")))])),
        ("app", table(vec![("name", ConfigValue::String(s("demo")))])),
    ]);
    let overlay = table(vec![
        ("web", table(vec![("port", ConfigValue::Integer(8080))])),
        ("logger", table(vec![("level", ConfigValue::String(s("DEBUG")))])),
    ]);
    let merged = merge_config_values(base, overlay);
    assert_eq!(int_at(&merged, "web.port"), Some(8080));
    assert_eq!(string_at(&merged, "web.host"), Some(s("localhost")));
    assert_eq!(string_at(&merged, "app.name"), Some(s("demo")));
    assert_eq!(string_at(&merged, "logger.level"), Some(s("DEBUG")));
    assert!(check_config_well_formed(&merged));
}

#[test]
fn a_value_that_is_not_a_table_replaces_the_base() {
    let base = table(vec![("web", table(vec![("port", ConfigValue::Integer(80))]))]);
    let overlay = table(vec![("web", ConfigValue::Boolean(false))]);
    let merged = merge_config_values(base, overlay);
    assert!(matches!(get_config_value_by_path(&merged, "web"), Some(ConfigValue::Boolean(false))));
    assert!(get_config_value_by_path(&merged, "web.port").is_none());
    let replaced = merge_config_values(table(vec![]), ConfigValue::Integer(3));
    assert!(matches!(replaced, ConfigValue::Integer(3)));
}

#[test]
fn well_formedness_rejects_repeated_names() {
    assert!(check_config_well_formed(&table(vec![("a", ConfigValue::Integer(1)), ("b", ConfigValue::Integer(2))])));
    assert!(!check_config_well_formed(&table(vec![("a", ConfigValue::Integer(1)), ("a", ConfigValue::Integer(2))])));
    assert!(!check_config_well_formed(&table(vec![("t", table(vec![("x", ConfigValue::Integer(1)), ("x", ConfigValue::Integer(1))]))])));
    assert!(check_config_well_formed(&ConfigValue::Array(vec![ConfigValue::Integer(1)])));
}

#[test]
fn built_in_defaults() {
    let d = app_default_config();
    assert_eq!(string_at(&d, "logger.level"), Some(s("INFO")));
    assert_eq!(string_at(&d, "logger.file_name"), Some(s("app.log")));
    assert_eq!(int_at(&d, "logger.max_file_number"), Some(30));
    assert!(matches!(get_config_value_by_path(&d, "logger.enable_console"), Some(ConfigValue::Boolean(true))));
    assert_eq!(string_at(&d, "runtime.worker_thread_name"), Some(s("tokio_worker")));
    assert!(matches!(get_config_value_by_path(&d, "app"), Some(ConfigValue::Table(t)) if t.is_empty()));
}

#[test]
fn later_default_layers_win() {
    let plugin = table(vec![("security", table(vec![("log_warn", ConfigValue::Boolean(false))])), ("logger", table(vec![("level", ConfigValue::String(s("WARN")))]))]);
    let user = table(vec![("logger", table(vec![("level", ConfigValue::String(s("DEBUG")))]))]);
    let merged = merge_default_configs(vec![plugin], vec![user]);
    assert_eq!(string_at(&merged, "logger.level"), Some(s("DEBUG")));
    assert_eq!(string_at(&merged, "logger.file_name"), Some(s("app.log")));
    assert!(matches!(get_config_value_by_path(&merged, "security.log_warn"), Some(ConfigValue::Boolean(false))));
    let only_builtin = merge_default_configs(Vec::new(), Vec::new());
    assert_eq!(string_at(&only_builtin, "logger.level"), Some(s("INFO")));
}

#[test]
fn profile_selection() {
    let with_profile = table(vec![("app", table(vec![("profile", ConfigValue::String(s("dev")))]))]);
    let empty_profile = table(vec![("app", table(vec![("profile", ConfigValue::String(s("")))]))]);
    let none = table(vec![]);
    assert_eq!(select_profile(Some("prod"), &with_profile), Some(s("prod")));
    assert_eq!(select_profile(Some(""), &with_profile), Some(s("dev")));
    assert_eq!(select_profile(None, &with_profile), Some(s("dev")));
    assert_eq!(select_profile(None, &empty_profile), None);
    assert_eq!(select_profile(None, &none), None);
    assert_eq!(select_profile(Some(""), &none), None);
    assert_eq!(profile_file_name("dev"), "application-dev.toml");
}

#[test]
fn runtime_choices() {
    assert_eq!(runtime_choice(true, Some(0), false), Ok(RuntimeChoice::Custom));
    assert_eq!(runtime_choice(false, None, false), Ok(RuntimeChoice::DefaultMultiThread));
    assert_eq!(runtime_choice(false, Some(0), false), Err(RuntimeConfigError::InvalidWorkerThreadNum { value: 0 }));
    assert_eq!(runtime_choice(false, Some(1), false), Ok(RuntimeChoice::CurrentThread));
    assert_eq!(runtime_choice(false, Some(1), true), Ok(RuntimeChoice::MultiThread { worker_threads: 1 }));
    assert_eq!(runtime_choice(false, Some(4), false), Ok(RuntimeChoice::MultiThread { worker_threads: 4 }));
}

#[test]
fn core_task_placements() {
    assert_eq!(core_task_placement(false, false, false), CoreTaskPlacement::BlockOn);
    assert_eq!(core_task_placement(false, true, true), CoreTaskPlacement::BlockOn);
    assert_eq!(core_task_placement(true, true, false), CoreTaskPlacement::Spawned);
    assert_eq!(core_task_placement(true, false, true), CoreTaskPlacement::Spawned);
    assert_eq!(core_task_placement(true, false, false), CoreTaskPlacement::NotRun);
}
