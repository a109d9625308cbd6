//! Web security: a whitelist of requests let through without
//! authentication, the map from route patterns to resources, and the
//! decisions of the authentication and authorization middleware.
use crate::config::{get_config_value_by_path, lookup_path, ConfigValue};
use crate::text::{ends_with, has_prefix, has_suffix, starts_with, str_to_uppercase, trim_end_char, trim_end_matches, uppercase_of};
use vstd::prelude::*;

verus! {

/// `serde_json::Value`, carried through as the free-form part of a user
/// context.
#[verifier::external_type_specification]
#[verifier::external_body]
pub struct ExJsonValue(serde_json::Value);

/// A request with method `req_method` and path `path` matches the
/// whitelist rule (`method`, `pattern`): the method, compared in upper case,
/// is the rule's (any method when the rule has none), and the path is the
/// pattern, or begins with what precedes a trailing `/*` of the pattern.
pub open spec fn rule_matches(method: Option<Seq<char>>, pattern: Seq<char>, req_method: Seq<char>, path: Seq<char>) -> bool {
    &&& match method {
        Some(m) => m == uppercase_of(req_method),
        None => true,
    }
    &&& if has_suffix(pattern, seq!['/', '*']) {
        has_prefix(path, pattern.subrange(0, pattern.len() - 2))
    } else {
        pattern == path
    }
}

/// A whitelist rule: exact path (`/login`) or prefix (`/login/*`), for one
/// HTTP method or for all.
#[derive(Debug, Clone)]
pub struct WhitelistEntry {
    pub method: Option<String>,
    pub path_pattern: String,
}

impl WhitelistEntry {
    /// The rule's method, if any.
    pub open spec fn method_view(&self) -> Option<Seq<char>> {
        match self.method {
            Some(m) => Some(m@),
            None => None,
        }
    }

    /// A rule; the method is kept in upper case.
    pub fn new(method: Option<&str>, path_pattern: &str) -> (r: Self)
        ensures
            r.method_view() == match method {
                Some(m) => Some(uppercase_of(m@)),
                None => None,
            },
            r.path_pattern@ == path_pattern@,
    {
        let method = match method {
            Some(m) => Some(str_to_uppercase(m)),
            None => None,
        };
        WhitelistEntry { method, path_pattern: String::from_str(path_pattern) }
    }

    /// Whether the request matches this rule.
    pub fn matches(&self, method: &str, path: &str) -> (r: bool)
        ensures
            r == rule_matches(self.method_view(), self.path_pattern@, method@, path@),
    {
        if let Some(m) = &self.method {
            let upper = str_to_uppercase(method);
            if *m != upper {
                return false;
            }
        }
        let pattern = self.path_pattern.as_str();
        let suffix = "/*";
        proof {
            reveal_strlit("/*");
        }
        assert(suffix@ =~= seq!['/', '*']);
        if ends_with(pattern, suffix) {
            let n = pattern.unicode_len();
            let prefix = pattern.substring_char(0, n - 2);
            starts_with(path, prefix)
        } else {
            string_equals(pattern, path)
        }
    }
}

/// Whether two strings are equal.
fn string_equals(a: &str, b: &str) -> (r: bool)
    ensures
        r == (a@ == b@),
{
    let n = a.unicode_len();
    if n != b.unicode_len() {
        return false;
    }
    let r = starts_with(a, b);
    assert(r ==> a@ =~= b@) by {
        if r {
            assert(a@.subrange(0, n as int) == a@);
        }
    }
    assert(a@ == b@ ==> r) by {
        if a@ == b@ {
            assert(a@.subrange(0, n as int) == a@);
        }
    }
    r
}

/// (method, pattern) of each rule.
pub open spec fn rules_view(entries: Seq<WhitelistEntry>) -> Seq<(Option<Seq<char>>, Seq<char>)> {
    entries.map_values(|e: WhitelistEntry| (e.method_view(), e.path_pattern@))
}

/// Some rule lets the request through.
pub open spec fn allowed_by(rules: Seq<(Option<Seq<char>>, Seq<char>)>, method: Seq<char>, path: Seq<char>) -> bool {
    exists|i: int| 0 <= i < rules.len() && #[trigger] rule_matches(rules[i].0, rules[i].1, method, path)
}

/// The requests let through without authentication.
#[derive(Debug, Clone)]
pub struct Whitelist {
    entries: Vec<WhitelistEntry>,
}

impl View for Whitelist {
    type V = Seq<(Option<Seq<char>>, Seq<char>)>;

    closed spec fn view(&self) -> Seq<(Option<Seq<char>>, Seq<char>)> {
        rules_view(self.entries@)
    }
}

impl Whitelist {
    /// An empty whitelist.
    pub fn new() -> (r: Self)
        ensures
            r@ == Seq::<(Option<Seq<char>>, Seq<char>)>::empty(),
    {
        let r = Whitelist { entries: Vec::new() };
        assert(r@ =~= Seq::<(Option<Seq<char>>, Seq<char>)>::empty());
        r
    }

    /// Adds a rule.
    pub fn add(&mut self, method: Option<&str>, path_pattern: &str)
        ensures
            final(self)@ == old(self)@.push(
                (
                    match method {
                        Some(m) => Some(uppercase_of(m@)),
                        None => None,
                    },
                    path_pattern@,
                ),
            ),
    {
        let ghost before = self@;
        let e = WhitelistEntry::new(method, path_pattern);
        self.entries.push(e);
        assert(self@ =~= before.push((e.method_view(), e.path_pattern@)));
    }

    /// Whether some rule lets the request through.
    pub fn is_allowed(&self, method: &str, path: &str) -> (r: bool)
        ensures
            r == allowed_by(self@, method@, path@),
    {
        let ghost rules = self@;
        let mut i: usize = 0;
        while i < self.entries.len()
            invariant
                i <= self.entries@.len(),
                rules == rules_view(self.entries@),
                forall|j: int| 0 <= j < i ==> !#[trigger] rule_matches(rules[j].0, rules[j].1, method@, path@),
            decreases self.entries@.len() - i,
        {
            if self.entries[i].matches(method, path) {
                assert(rule_matches(rules[i as int].0, rules[i as int].1, method@, path@));
                return true;
            }
            i = i + 1;
        }
        false
    }
}

impl Default for Whitelist {
    /// An empty whitelist.
    fn default() -> (r: Self)
        ensures
            r@ == Seq::<(Option<Seq<char>>, Seq<char>)>::empty(),
    {
        Whitelist::new()
    }
}

/// Adding a rule never withdraws a request from the whitelist, and lets
/// through exactly what it matches besides.
pub proof fn law_whitelist_add(
    rules: Seq<(Option<Seq<char>>, Seq<char>)>,
    rule: (Option<Seq<char>>, Seq<char>),
    method: Seq<char>,
    path: Seq<char>,
)
    ensures
        allowed_by(rules.push(rule), method, path) == (allowed_by(rules, method, path) || rule_matches(rule.0, rule.1, method, path)),
{
    let r2 = rules.push(rule);
    if allowed_by(rules, method, path) {
        let i = choose|i: int| 0 <= i < rules.len() && #[trigger] rule_matches(rules[i].0, rules[i].1, method, path);
        assert(r2[i] == rules[i]);
    }
    if rule_matches(rule.0, rule.1, method, path) {
        assert(r2[rules.len() as int] == rule);
    }
    if allowed_by(r2, method, path) {
        let i = choose|i: int| 0 <= i < r2.len() && #[trigger] rule_matches(r2[i].0, r2[i].1, method, path);
        if i < rules.len() {
            assert(r2[i] == rules[i]);
        }
    }
}

/// A rule for all methods with an exact path lets that path through for
/// every method; a prefix rule `p/*` lets through every path that begins
/// with `p`.
pub proof fn law_rule_patterns(pattern: Seq<char>, method: Seq<char>, path: Seq<char>)
    ensures
        !has_suffix(pattern, seq!['/', '*']) ==> rule_matches(None, pattern, method, pattern),
        has_suffix(pattern, seq!['/', '*']) && has_prefix(path, pattern.subrange(0, pattern.len() - 2)) ==> rule_matches(
            None,
            pattern,
            method,
            path,
        ),
{
}

/// The security plugin: its whitelist, extended by `add_whitelist`.
pub struct SecurityPlugin {
    whitelist: Whitelist,
}

impl SecurityPlugin {
    /// The rules of the plugin's whitelist.
    pub closed spec fn whitelist_rules(&self) -> Seq<(Option<Seq<char>>, Seq<char>)> {
        self.whitelist@
    }

    /// A plugin with an empty whitelist.
    pub fn new() -> (r: Self)
        ensures
            r.whitelist_rules() == Seq::<(Option<Seq<char>>, Seq<char>)>::empty(),
    {
        SecurityPlugin { whitelist: Whitelist::new() }
    }

    /// Adds a whitelist rule: `method` such as `"GET"` (`None` for all
    /// methods), `path_pattern` such as `"/login"` or `"/public/*"`.
    pub fn add_whitelist(self, method: Option<&str>, path_pattern: &str) -> (r: Self)
        ensures
            r.whitelist_rules() == self.whitelist_rules().push(
                (
                    match method {
                        Some(m) => Some(uppercase_of(m@)),
                        None => None,
                    },
                    path_pattern@,
                ),
            ),
    {
        let mut s = self;
        s.whitelist.add(method, path_pattern);
        s
    }

    /// The plugin's whitelist.
    pub fn whitelist(&self) -> (r: &Whitelist)
        ensures
            r@ == self.whitelist_rules(),
    {
        &self.whitelist
    }
}

// ---------------------------------------------------------------------------
// Resources: route patterns and the resource each one guards.
// ---------------------------------------------------------------------------

/// A protected web resource, declared with its route pattern.
#[derive(Debug, Clone)]
pub struct ResourceEntry {
    /// Route pattern, such as `/api/users/:id`.
    pub path_pattern: &'static str,
    /// Resource identity checked against the user's resources.
    pub resource_id: &'static str,
    pub resource_name: &'static str,
    pub module_id: &'static str,
    pub module_name: &'static str,
}

/// Why the resource map cannot be built.
#[derive(Debug)]
pub enum ResourceMapError {
    /// Two resources have the same full route pattern.
    DuplicatePattern { pattern: String, resource_id: String, existing: String },
}

/// The full route pattern of a resource under the web base path: the base
/// path without trailing slashes, then the pattern (the pattern alone when
/// there is no base path).
pub open spec fn full_pattern(base: Seq<char>, pattern: Seq<char>) -> Seq<char> {
    if base.len() == 0 {
        pattern
    } else {
        trim_end_char(base, '/') + pattern
    }
}

/// (full pattern, resource id) of each resource, in order.
pub open spec fn resource_rows(base: Seq<char>, resources: Seq<ResourceEntry>) -> Seq<(Seq<char>, Seq<char>)> {
    resources.map_values(|e: ResourceEntry| (full_pattern(base, e.path_pattern@), e.resource_id@))
}

/// The full pattern of resource `j` is the first to repeat an earlier one.
pub open spec fn is_first_duplicate(rows: Seq<(Seq<char>, Seq<char>)>, i: int, j: int) -> bool {
    &&& 0 <= i < j < rows.len()
    &&& rows[i].0 == rows[j].0
    &&& forall|a: int, b: int| 0 <= a < b < j ==> #[trigger] rows[a].0 != #[trigger] rows[b].0
}

/// No two resources share a full pattern.
pub open spec fn patterns_unique(rows: Seq<(Seq<char>, Seq<char>)>) -> bool {
    forall|a: int, b: int| 0 <= a < b < rows.len() ==> #[trigger] rows[a].0 != #[trigger] rows[b].0
}

/// (pattern, resource id) rows as strings.
pub open spec fn map_view(map: Seq<(String, String)>) -> Seq<(Seq<char>, Seq<char>)> {
    map.map_values(|e: (String, String)| (e.0@, e.1@))
}

/// Builds the map from full route pattern to resource id; two resources
/// with the same full pattern are an error.
pub fn build_resource_map(base_path: &str, resources: &Vec<ResourceEntry>) -> (r: Result<Vec<(String, String)>, ResourceMapError>)
    ensures
        r is Ok <==> patterns_unique(resource_rows(base_path@, resources@)),
        match r {
            Ok(map) => map_view(map@) == resource_rows(base_path@, resources@),
            Err(ResourceMapError::DuplicatePattern { pattern, resource_id, existing }) => exists|i: int, j: int|
                #[trigger] is_first_duplicate(resource_rows(base_path@, resources@), i, j) && pattern@ == resource_rows(
                    base_path@,
                    resources@,
                )[j].0 && resource_id@ == resources@[j].resource_id@ && existing@ == resources@[i].resource_id@,
        },
{
    let ghost rows = resource_rows(base_path@, resources@);
    let base_empty = base_path.unicode_len() == 0;
    let base = trim_end_matches(base_path, '/');
    let mut map: Vec<(String, String)> = Vec::new();
    let mut j: usize = 0;
    while j < resources.len()
        invariant
            j <= resources@.len(),
            rows == resource_rows(base_path@, resources@),
            base_empty == (base_path@.len() == 0),
            base@ == trim_end_char(base_path@, '/'),
            map@.len() == j,
            map_view(map@) == rows.subrange(0, j as int),
            patterns_unique(rows.subrange(0, j as int)),
        decreases resources@.len() - j,
    {
        let entry = &resources[j];
        let full = if base_empty {
            String::from_str(entry.path_pattern)
        } else {
            let mut f = String::from_str(base.as_str());
            f.append(entry.path_pattern);
            f
        };
        assert(full@ == rows[j as int].0);
        let mut i: usize = 0;
        while i < map.len()
            invariant
                i <= map@.len() == j,
                j < resources@.len(),
                *entry == resources@[j as int],
                rows == resource_rows(base_path@, resources@),
                map_view(map@) == rows.subrange(0, j as int),
                patterns_unique(rows.subrange(0, j as int)),
                full@ == rows[j as int].0,
                forall|a: int| 0 <= a < i ==> #[trigger] rows[a].0 != full@,
            decreases map@.len() - i,
        {
            assert(map_view(map@)[i as int] == (map@[i as int].0@, map@[i as int].1@));
            if map[i].0 == full {
                assert(rows.subrange(0, j as int)[i as int] == rows[i as int]);
                assert(rows[i as int].0 == full@);
                assert forall|a: int, b: int| 0 <= a < b < j implies #[trigger] rows[a].0 != #[trigger] rows[b].0 by {
                    assert(rows.subrange(0, j as int)[a] == rows[a] && rows.subrange(0, j as int)[b] == rows[b]);
                }
                assert(is_first_duplicate(resource_rows(base_path@, resources@), i as int, j as int));
                let resource_id = String::from_str(entry.resource_id);
                let existing = String::from_str(resources[i].resource_id);
                assert(resource_id@ == resources@[j as int].resource_id@);
                assert(existing@ == resources@[i as int].resource_id@);
                assert(full@ == resource_rows(base_path@, resources@)[j as int].0);
                assert(!patterns_unique(resource_rows(base_path@, resources@)));
                return Err(ResourceMapError::DuplicatePattern { pattern: full, resource_id, existing });
            }
            i = i + 1;
        }
        let ghost before = map_view(map@);
        map.push((full, String::from_str(entry.resource_id)));
        assert(map_view(map@) =~= rows.subrange(0, j + 1));
        assert forall|a: int| 0 <= a < j implies #[trigger] rows[a].0 != full@ by {
            assert(rows.subrange(0, j as int)[a] == rows[a]);
        }
        assert(patterns_unique(rows.subrange(0, j + 1))) by {
            let w = rows.subrange(0, j + 1);
            assert forall|a: int, b: int| 0 <= a < b < w.len() implies #[trigger] w[a].0 != #[trigger] w[b].0 by {
                if b < j {
                    assert(w[a] == rows.subrange(0, j as int)[a] && w[b] == rows.subrange(0, j as int)[b]);
                } else {
                    assert(w[a] == rows[a] && w[b] == rows[j as int]);
                }
            }
        }
        j = j + 1;
    }
    assert(rows.subrange(0, j as int) == rows);
    Ok(map)
}

/// The resource guarding the route pattern `pattern`.
pub fn lookup_resource(map: &Vec<(String, String)>, pattern: &String) -> (r: Option<String>)
    ensures
        match r {
            Some(id) => exists|i: int|
                0 <= i < map@.len() && #[trigger] map_view(map@)[i] == (pattern@, id@) && forall|k: int|
                    0 <= k < i ==> map_view(map@)[k].0 != pattern@,
            None => forall|i: int| 0 <= i < map@.len() ==> #[trigger] map_view(map@)[i].0 != pattern@,
        },
{
    let ghost mv = map_view(map@);
    let mut i: usize = 0;
    while i < map.len()
        invariant
            i <= map@.len(),
            mv == map_view(map@),
            forall|k: int| 0 <= k < i ==> #[trigger] mv[k].0 != pattern@,
        decreases map@.len() - i,
    {
        assert(mv[i as int] == (map@[i as int].0@, map@[i as int].1@));
        if map[i].0 == *pattern {
            let id = map[i].1.clone();
            assert(mv[i as int] == (pattern@, id@));
            return Some(id);
        }
        i = i + 1;
    }
    None
}

// ---------------------------------------------------------------------------
// Users and access decisions.
// ---------------------------------------------------------------------------

/// `SystemTime::now()` measured from the Unix epoch, in nanoseconds:
/// `Ok(n)` for `n` after the epoch, `Err(n)` for a clock `n` before it
/// (the error of `duration_since`). Nothing is stated of the result: it
/// depends on the clock.
#[verifier::external_body]
fn read_clock() -> (r: Result<u128, u128>) {
    match std::time::SystemTime::now().duration_since(std::time::UNIX_EPOCH) {
        Ok(d) => Ok(d.as_nanos()),
        Err(e) => Err(e.duration().as_nanos()),
    }
}

/// Nanoseconds since the epoch of a clock reading, negative before it; a
/// reading beyond the range of `i128` (over 10^21 years away) is held at
/// its end.
pub fn epoch_nanos(reading: Result<u128, u128>) -> (r: i128)
    ensures
        r == match reading {
            Ok(n) => if n <= i128::MAX { n as int } else { i128::MAX as int },
            Err(n) => if n <= i128::MAX { -n } else { -(i128::MAX as int) },
        },
{
    match reading {
        Ok(n) => if n <= i128::MAX as u128 {
            n as i128
        } else {
            i128::MAX
        },
        Err(n) => if n <= i128::MAX as u128 {
            -(n as i128)
        } else {
            -i128::MAX
        },
    }
}

/// The current time, in nanoseconds since the Unix epoch.
fn now_nanos() -> (r: i128) {
    epoch_nanos(read_clock())
}

/// The authenticated user of a request.
#[derive(Debug, Clone)]
pub struct UserContext {
    pub user_id: String,
    /// Resources the user may access (a set: order and repetition do not
    /// matter).
    pub resource_ids: Vec<String>,
    pub is_disabled: bool,
    /// When the user expires, in nanoseconds since the Unix epoch (negative
    /// before it); `None` never expires.
    pub expired_at: Option<i128>,
    /// Free-form data for the application.
    pub extra: Option<serde_json::Value>,
}

/// The user has expired at time `now`.
pub open spec fn expired_at_time(expired_at: Option<i128>, now: i128) -> bool {
    match expired_at {
        Some(t) => t < now,
        None => false,
    }
}

impl UserContext {
    /// Whether the user may access the resource `resource_id`.
    pub fn has_resource(&self, resource_id: &str) -> (r: bool)
        ensures
            r == self.resource_ids.deep_view().contains(resource_id@),
    {
        let ghost rv = self.resource_ids.deep_view();
        let mut i: usize = 0;
        while i < self.resource_ids.len()
            invariant
                i <= self.resource_ids@.len(),
                rv == self.resource_ids.deep_view(),
                forall|k: int| 0 <= k < i ==> #[trigger] rv[k] != resource_id@,
            decreases self.resource_ids@.len() - i,
        {
            if string_equals(self.resource_ids[i].as_str(), resource_id) {
                assert(rv[i as int] == resource_id@);
                return true;
            }
            i = i + 1;
        }
        false
    }

    /// Whether the user has expired at time `now` (nanoseconds since the
    /// Unix epoch); a user without expiry never expires.
    pub fn is_expired_at(&self, now: i128) -> (r: bool)
        ensures
            r == expired_at_time(self.expired_at, now),
    {
        match self.expired_at {
            Some(t) => t < now,
            None => false,
        }
    }

    /// Whether the user has expired now.
    pub fn is_expired(&self) -> (r: bool)
        ensures
            r ==> self.expired_at is Some,
            exists|now: i128| #[trigger] expired_at_time(self.expired_at, now) == r,
    {
        self.is_expired_at(now_nanos())
    }

    /// Whether the user is active at time `now`: neither disabled nor expired.
    pub fn is_active_at(&self, now: i128) -> (r: bool)
        ensures
            r == (!self.is_disabled && !expired_at_time(self.expired_at, now)),
    {
        !self.is_disabled && !self.is_expired_at(now)
    }

    /// Whether the user is active now: neither disabled nor expired.
    pub fn is_active(&self) -> (r: bool)
        ensures
            r ==> !self.is_disabled,
            self.expired_at is None ==> r == !self.is_disabled,
            exists|now: i128| r == (!self.is_disabled && !#[trigger] expired_at_time(self.expired_at, now)),
    {
        self.is_active_at(now_nanos())
    }
}

/// Why a request is refused after authentication.
#[derive(Debug, Clone)]
pub enum SecurityError {
    UserDisabled { user_id: String },
    UserExpired { user_id: String },
    /// The request's route pattern is not known.
    MatchedPathUnavailable,
    /// No resource guards the route pattern.
    ResourceNotFound { pattern: String },
    PermissionDenied { user_id: String, resource_id: String },
}

/// What the middleware does with a request that the whitelist did not let
/// through, once the user is known.
#[derive(Debug)]
pub enum AccessDecision {
    /// The whitelist lets the request through without authentication.
    Whitelisted,
    /// No authenticated user: answer as unauthorized.
    Unauthorized,
    /// Refused: answer as forbidden, with the reason.
    Forbidden(SecurityError),
    /// Ask the permission checker whether the user may access the resource.
    CheckPermission { resource_id: String },
}

/// The decision for a request by `user` (if authenticated) at time `now` on
/// the route pattern `matched_path` (if known): unauthorized without a
/// user; forbidden for a disabled, then an expired user, then without
/// route pattern, then without resource for the pattern; otherwise the
/// permission check of the first resource registered for the pattern.
pub open spec fn access_decided(
    r: AccessDecision,
    user: Option<UserContext>,
    now: i128,
    matched_path: Option<Seq<char>>,
    map: Seq<(Seq<char>, Seq<char>)>,
) -> bool {
    match user {
        None => r is Unauthorized,
        Some(u) => if u.is_disabled {
            r matches AccessDecision::Forbidden(SecurityError::UserDisabled { user_id }) && user_id@ == u.user_id@
        } else if expired_at_time(u.expired_at, now) {
            r matches AccessDecision::Forbidden(SecurityError::UserExpired { user_id }) && user_id@ == u.user_id@
        } else {
            match matched_path {
                None => r matches AccessDecision::Forbidden(SecurityError::MatchedPathUnavailable),
                Some(p) => if exists|i: int| 0 <= i < map.len() && #[trigger] map[i].0 == p {
                    r matches AccessDecision::CheckPermission { resource_id } && exists|i: int|
                        0 <= i < map.len() && #[trigger] map[i] == (p, resource_id@) && forall|k: int| 0 <= k < i ==> map[k].0 != p
                } else {
                    r matches AccessDecision::Forbidden(SecurityError::ResourceNotFound { pattern }) && pattern@ == p
                },
            }
        },
    }
}

/// The user, if any.
pub open spec fn user_of(user: Option<&UserContext>) -> Option<UserContext> {
    match user {
        Some(u) => Some(*u),
        None => None,
    }
}

/// The route pattern, if any.
pub open spec fn pattern_of(p: Option<&String>) -> Option<Seq<char>> {
    match p {
        Some(p) => Some(p@),
        None => None,
    }
}

/// Decides on a request that the whitelist did not let through: see
/// [`access_decided`].
pub fn decide_access_at(
    user: Option<&UserContext>,
    now: i128,
    matched_path: Option<&String>,
    resource_map: &Vec<(String, String)>,
) -> (r: AccessDecision)
    ensures
        access_decided(
            r,
            user_of(user),
            now,
            pattern_of(matched_path),
            map_view(resource_map@),
        ),
{
    let u = match user {
        None => {
            return AccessDecision::Unauthorized;
        },
        Some(u) => u,
    };
    if u.is_disabled {
        return AccessDecision::Forbidden(SecurityError::UserDisabled { user_id: u.user_id.clone() });
    }
    if u.is_expired_at(now) {
        return AccessDecision::Forbidden(SecurityError::UserExpired { user_id: u.user_id.clone() });
    }
    let pattern = match matched_path {
        None => {
            return AccessDecision::Forbidden(SecurityError::MatchedPathUnavailable);
        },
        Some(p) => p,
    };
    let ghost mv = map_view(resource_map@);
    match lookup_resource(resource_map, pattern) {
        Some(resource_id) => {
            let ghost i = choose|i: int|
                0 <= i < resource_map@.len() && #[trigger] mv[i] == (pattern@, resource_id@) && forall|k: int|
                    0 <= k < i ==> mv[k].0 != pattern@;
            assert(mv[i].0 == pattern@);
            AccessDecision::CheckPermission { resource_id }
        },
        None => AccessDecision::Forbidden(SecurityError::ResourceNotFound { pattern: pattern.clone() }),
    }
}

/// Decides on a request as [`decide_access_at`] does, at the current time.
pub fn decide_access(user: Option<&UserContext>, matched_path: Option<&String>, resource_map: &Vec<(String, String)>) -> (r: AccessDecision)
    ensures
        exists|now: i128|
            #[trigger] access_decided(
                r,
                user_of(user),
                now,
                pattern_of(matched_path),
                map_view(resource_map@),
            ),
{
    let now = now_nanos();
    decide_access_at(user, now, matched_path, resource_map)
}

/// The decision for a request `method path` that reaches the middleware:
/// let through when the whitelist allows it, whoever asks; otherwise as
/// [`access_decided`] says for `user` at time `now`.
pub open spec fn request_decided(
    r: AccessDecision,
    rules: Seq<(Option<Seq<char>>, Seq<char>)>,
    method: Seq<char>,
    path: Seq<char>,
    user: Option<UserContext>,
    now: i128,
    matched_path: Option<Seq<char>>,
    map: Seq<(Seq<char>, Seq<char>)>,
) -> bool {
    if allowed_by(rules, method, path) {
        r is Whitelisted
    } else {
        access_decided(r, user, now, matched_path, map)
    }
}

/// Decides on a request, whitelist first (see [`request_decided`]); `user`
/// is the authenticated user, which a whitelisted request does not need.
pub fn decide_request_at(
    whitelist: &Whitelist,
    method: &str,
    path: &str,
    user: Option<&UserContext>,
    now: i128,
    matched_path: Option<&String>,
    resource_map: &Vec<(String, String)>,
) -> (r: AccessDecision)
    ensures
        request_decided(r, whitelist@, method@, path@, user_of(user), now, pattern_of(matched_path), map_view(resource_map@)),
{
    if whitelist.is_allowed(method, path) {
        AccessDecision::Whitelisted
    } else {
        decide_access_at(user, now, matched_path, resource_map)
    }
}

/// Decides on a request as [`decide_request_at`] does, at the current time.
pub fn decide_request(
    whitelist: &Whitelist,
    method: &str,
    path: &str,
    user: Option<&UserContext>,
    matched_path: Option<&String>,
    resource_map: &Vec<(String, String)>,
) -> (r: AccessDecision)
    ensures
        exists|now: i128|
            #[trigger] request_decided(
                r,
                whitelist@,
                method@,
                path@,
                user_of(user),
                now,
                pattern_of(matched_path),
                map_view(resource_map@),
            ),
{
    let now = now_nanos();
    decide_request_at(whitelist, method, path, user, now, matched_path, resource_map)
}

/// The outcome of the permission check: let through when allowed, else
/// refused with `PermissionDenied`.
pub fn permission_outcome(allowed: bool, user_id: &String, resource_id: &String) -> (r: Result<(), SecurityError>)
    ensures
        allowed ==> r is Ok,
        !allowed ==> (r matches Err(SecurityError::PermissionDenied { user_id: u, resource_id: id }) && u@ == user_id@
            && id@ == resource_id@),
{
    if allowed {
        Ok(())
    } else {
        Err(SecurityError::PermissionDenied { user_id: user_id.clone(), resource_id: resource_id.clone() })
    }
}

/// The default permission checker: a user may access exactly its own
/// resources.
pub struct DefaultPermissionChecker;

impl DefaultPermissionChecker {
    /// Whether `user_ctx` may access `resource_id`.
    pub fn check(&self, user_ctx: &UserContext, resource_id: &str) -> (r: bool)
        ensures
            r == user_ctx.resource_ids.deep_view().contains(resource_id@),
    {
        user_ctx.has_resource(resource_id)
    }
}

/// The default answers to refused requests: HTTP 401 and 403.
pub struct DefaultSecurityErrorHandler;

impl DefaultSecurityErrorHandler {
    /// Status of the answer to an unauthenticated request.
    pub fn unauthorized(&self) -> (r: u16)
        ensures
            r == 401,
    {
        401
    }

    /// Status of the answer to a refused request, whatever the reason.
    pub fn forbidden(&self, error: &SecurityError) -> (r: u16)
        ensures
            r == 403,
    {
        403
    }
}

/// The default base path: the configuration's `web.base_path` string, or
/// the empty path.
pub struct DefaultBasePathProvider;

impl DefaultBasePathProvider {
    /// `web.base_path` of the configuration when it is a string, else empty.
    pub fn base_path(&self, config: &ConfigValue) -> (r: String)
        ensures
            r@ == match lookup_path(*config, "web.base_path"@) {
                Some(ConfigValue::String(s)) => s@,
                _ => Seq::<char>::empty(),
            },
    {
        match get_config_value_by_path(config, "web.base_path") {
            Some(ConfigValue::String(s)) => s.clone(),
            _ => String::new(),
        }
    }
}

impl SecurityPlugin {
    /// Whether refused requests are logged: the configuration's
    /// `security.log_warn` when it is a boolean, else no.
    pub fn log_warn(config: &ConfigValue) -> (r: bool)
        ensures
            r == match lookup_path(*config, "security.log_warn"@) {
                Some(ConfigValue::Boolean(b)) => b,
                _ => false,
            },
    {
        match get_config_value_by_path(config, "security.log_warn") {
            Some(ConfigValue::Boolean(b)) => *b,
            _ => false,
        }
    }

    /// The plugin's name.
    pub fn name(&self) -> (r: &'static str)
        ensures
            r@ == "SecurityPlugin"@,
    {
        "SecurityPlugin"
    }

    /// The plugins it starts after.
    pub fn dependencies(&self) -> (r: Vec<&'static str>)
        ensures
            r@.len() == 1,
            r@[0]@ == "WebPlugin"@,
    {
        let mut r: Vec<&'static str> = Vec::new();
        r.push("WebPlugin");
        r
    }

    /// Its default configuration: `[security] log_warn = false`.
    pub fn default_config(&self) -> (r: ConfigValue)
        ensures
            r matches ConfigValue::Table(t) && t@.len() == 1 && t@[0].0@ == "security"@ && (
            t@[0].1 matches ConfigValue::Table(u) && u@.len() == 1 && u@[0].0@ == "log_warn"@ && u@[0].1
                == ConfigValue::Boolean(false)),
    {
        let mut inner: Vec<(String, ConfigValue)> = Vec::new();
        inner.push((String::from_str("log_warn"), ConfigValue::Boolean(false)));
        let mut outer: Vec<(String, ConfigValue)> = Vec::new();
        outer.push((String::from_str("security"), ConfigValue::Table(inner)));
        ConfigValue::Table(outer)
    }
}

/// A rule for one method never lets through a request of another method
/// (compared in upper case), whether its pattern is exact or a `/*`
/// prefix.
pub proof fn law_method_rule_is_method_only(m: Seq<char>, pattern: Seq<char>, req_method: Seq<char>, path: Seq<char>)
    requires
        m != uppercase_of(req_method),
    ensures
        !rule_matches(Some(m), pattern, req_method, path),
{
}

/// The whitelist comes first: a request it lets through is whitelisted
/// whoever asks, authenticated or not, whatever the user's state and the
/// route; a request it does not let through is never whitelisted.
pub proof fn law_whitelist_first(
    r: AccessDecision,
    rules: Seq<(Option<Seq<char>>, Seq<char>)>,
    method: Seq<char>,
    path: Seq<char>,
    user: Option<UserContext>,
    now: i128,
    matched_path: Option<Seq<char>>,
    map: Seq<(Seq<char>, Seq<char>)>,
)
    requires
        request_decided(r, rules, method, path, user, now, matched_path, map),
    ensures
        allowed_by(rules, method, path) ==> r is Whitelisted,
        !allowed_by(rules, method, path) ==> !(r is Whitelisted),
{
}
} // verus!
