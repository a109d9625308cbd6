use simple_starter::config::ConfigValue;
use simple_starter::security::{
    build_resource_map, decide_access, epoch_nanos, decide_access_at, decide_request, decide_request_at, lookup_resource, permission_outcome, AccessDecision,
    DefaultBasePathProvider, DefaultPermissionChecker, DefaultSecurityErrorHandler, ResourceEntry, ResourceMapError,
    SecurityError, SecurityPlugin, UserContext, Whitelist, WhitelistEntry,
};

fn s(x: &str) -> String {
    x.to_string()
}

fn user(disabled: bool, expired_at: Option<i128>) -> UserContext {
    UserContext {
        user_id: s("u1"),
        resource_ids: vec![s("user:list"), s("user:get")],
        is_disabled: disabled,
        expired_at,
        extra: None,
    }
}

fn resource(path: &'static str, id: &'static str) -> ResourceEntry {
    ResourceEntry { path_pattern: path, resource_id: id, resource_name: "n", module_id: "m", module_name: "mn" }
}

#[test]
fn whitelist_exact_and_prefix_rules() {
    let mut w = Whitelist::new();
    w.add(Some("get"), "/health");
    w.add(None, "/public/*");
    assert!(w.is_allowed("GET", "/health"));
    assert!(w.is_allowed("get", "/health"));
    assert!(!w.is_allowed("POST", "/health"));
    assert!(!w.is_allowed("GET", "/health/x"));
    assert!(w.is_allowed("DELETE", "/public/a/b"));
    assert!(w.is_allowed("PUT", "/public"));
    assert!(w.is_allowed("PUT", "/publicity"));
    assert!(!w.is_allowed("GET", "/private"));
    assert!(!Whitelist::new().is_allowed("GET", "/"));
}

#[test]
fn whitelist_entry_keeps_the_method_upper_case() {
    let e = WhitelistEntry::new(Some("post"), "/login");
    assert_eq!(e.method, Some(s("POST")));
    assert!(e.matches("Post", "/login"));
    assert!(!e.matches("GET", "/login"));
    let german = WhitelistEntry::new(Some("straße"), "/x");
    assert_eq!(german.method, Some(s("STRASSE")));
    let any = WhitelistEntry::new(None, "/*");
    assert!(any.matches("PATCH", "/anything"));
}

#[test]
fn adding_a_rule_keeps_what_was_allowed() {
    let mut w = Whitelist::new();
    w.add(None, "/a");
    assert!(w.is_allowed("GET", "/a"));
    assert!(!w.is_allowed("GET", "/b"));
    w.add(Some("GET"), "/b");
    assert!(w.is_allowed("GET", "/a"));
    assert!(w.is_allowed("GET", "/b"));
}

#[test]
fn plugin_whitelist_builder() {
    let plugin = SecurityPlugin::new().add_whitelist(Some("GET"), "/health").add_whitelist(None, "/login");
    assert!(plugin.whitelist().is_allowed("GET", "/health"));
    assert!(plugin.whitelist().is_allowed("POST", "/login"));
    assert!(!plugin.whitelist().is_allowed("POST", "/health"));
    assert_eq!(plugin.name(), "SecurityPlugin");
    assert_eq!(plugin.dependencies(), vec!["WebPlugin"]);
    let config = plugin.default_config();
    assert!(!SecurityPlugin::log_warn(&config));
    let on = ConfigValue::Table(vec![(s("security"), ConfigValue::Table(vec![(s("log_warn"), ConfigValue::Boolean(true))]))]);
    assert!(SecurityPlugin::log_warn(&on));
}

#[test]
fn resource_map_under_a_base_path() {
    let resources = vec![resource("/users", "user:list"), resource("/users/:id", "user:get")];
    let map = build_resource_map("/api//", &resources).unwrap();
    assert_eq!(map, vec![(s("/api/users"), s("user:list")), (s("/api/users/:id"), s("user:get"))]);
    let plain = build_resource_map("", &resources).unwrap();
    assert_eq!(plain[0], (s("/users"), s("user:list")));
    assert_eq!(lookup_resource(&map, &s("/api/users/:id")), Some(s("user:get")));
    assert_eq!(lookup_resource(&map, &s("/users")), None);
}

#[test]
fn duplicate_resource_patterns_are_rejected() {
    let resources = vec![resource("/a", "r1"), resource("/b", "r2"), resource("/a", "r3")];
    match build_resource_map("", &resources) {
        Err(ResourceMapError::DuplicatePattern { pattern, resource_id, existing }) => {
            assert_eq!(pattern, "/a");
            assert_eq!(resource_id, "r3");
            assert_eq!(existing, "r1");
        },
        other => panic!("unexpected {:?}", other),
    }
}

#[test]
fn whitelisted_requests_need_no_user() {
    let mut wl = Whitelist::new();
    wl.add(Some("GET"), "/health");
    let map = vec![(s("/users"), s("user:list"))];
    let path = s("/users");
    assert!(matches!(decide_request_at(&wl, "GET", "/health", None, 10, None, &map), AccessDecision::Whitelisted));
    assert!(matches!(decide_request_at(&wl, "POST", "/health", None, 10, None, &map), AccessDecision::Unauthorized));
    assert!(matches!(
        decide_request_at(&wl, "GET", "/users", Some(&user(false, None)), 10, Some(&path), &map),
        AccessDecision::CheckPermission { resource_id } if resource_id == "user:list"
    ));
    assert!(matches!(decide_request(&wl, "GET", "/health", None, None, &map), AccessDecision::Whitelisted));
}

#[test]
fn access_decisions_in_order() {
    let map = vec![(s("/users"), s("user:list"))];
    let path = s("/users");
    let unknown = s("/other");
    assert!(matches!(decide_access_at(None, 10, Some(&path), &map), AccessDecision::Unauthorized));
    assert!(matches!(
        decide_access_at(Some(&user(true, Some(1))), 10, Some(&path), &map),
        AccessDecision::Forbidden(SecurityError::UserDisabled { user_id }) if user_id == "u1"
    ));
    assert!(matches!(
        decide_access_at(Some(&user(false, Some(5))), 10, Some(&path), &map),
        AccessDecision::Forbidden(SecurityError::UserExpired { .. })
    ));
    assert!(matches!(
        decide_access_at(Some(&user(false, Some(10))), 10, None, &map),
        AccessDecision::Forbidden(SecurityError::MatchedPathUnavailable)
    ));
    assert!(matches!(
        decide_access_at(Some(&user(false, None)), 10, Some(&unknown), &map),
        AccessDecision::Forbidden(SecurityError::ResourceNotFound { pattern }) if pattern == "/other"
    ));
    assert!(matches!(
        decide_access_at(Some(&user(false, None)), 10, Some(&path), &map),
        AccessDecision::CheckPermission { resource_id } if resource_id == "user:list"
    ));
    assert!(matches!(decide_access(None, Some(&path), &map), AccessDecision::Unauthorized));
    assert!(matches!(
        decide_access(Some(&user(false, None)), Some(&path), &map),
        AccessDecision::CheckPermission { .. }
    ));
}

#[test]
fn permission_check_and_outcome() {
    let u = user(false, None);
    assert!(u.has_resource("user:get"));
    assert!(!u.has_resource("user:delete"));
    assert!(DefaultPermissionChecker.check(&u, "user:list"));
    assert!(!DefaultPermissionChecker.check(&u, "admin"));
    assert!(permission_outcome(true, &s("u1"), &s("r")).is_ok());
    assert!(matches!(
        permission_outcome(false, &s("u1"), &s("r")),
        Err(SecurityError::PermissionDenied { user_id, resource_id }) if user_id == "u1" && resource_id == "r"
    ));
    assert_eq!(DefaultSecurityErrorHandler.unauthorized(), 401);
    assert_eq!(DefaultSecurityErrorHandler.forbidden(&SecurityError::MatchedPathUnavailable), 403);
}

#[test]
fn user_expiry_and_activity() {
    assert!(!user(false, None).is_expired_at(i128::MAX));
    assert!(user(false, Some(5)).is_expired_at(6));
    assert!(!user(false, Some(5)).is_expired_at(5));
    assert!(user(false, None).is_active_at(0));
    assert!(!user(true, None).is_active_at(0));
    assert!(!user(false, Some(1)).is_active_at(2));
    assert!(user(false, None).is_active());
    assert!(!user(false, None).is_expired());
    assert!(user(false, Some(1)).is_expired());
    assert!(!user(false, Some(i128::MAX)).is_expired());
    // Expiry times before the epoch are representable, and past.
    assert!(user(false, Some(-5)).is_expired_at(-1));
    assert!(!user(false, Some(-5)).is_expired_at(-9));
    assert!(user(false, Some(-5)).is_expired());
    assert_eq!(epoch_nanos(Ok(7)), 7);
    assert_eq!(epoch_nanos(Err(7)), -7);
    assert_eq!(epoch_nanos(Ok(u128::MAX)), i128::MAX);
    assert_eq!(epoch_nanos(Err(u128::MAX)), -i128::MAX);
}

#[test]
fn base_path_from_configuration() {
    let cfg = ConfigValue::Table(vec![(s("web"), ConfigValue::Table(vec![(s("base_path"), ConfigValue::String(s("/api")))]))]);
    assert_eq!(DefaultBasePathProvider.base_path(&cfg), "/api");
    let wrong_type = ConfigValue::Table(vec![(s("web"), ConfigValue::Table(vec![(s("base_path"), ConfigValue::Integer(1))]))]);
    assert_eq!(DefaultBasePathProvider.base_path(&wrong_type), "");
    assert_eq!(DefaultBasePathProvider.base_path(&ConfigValue::Table(Vec::new())), "");
}
