//! Application settings: the built-in default configuration, the layering
//! of default configurations, the choice of the configuration profile and
//! the choice of the async runtime.
use crate::config::{config_well_formed, get_config_value_by_path, is_merge, lookup_path, merge_config_values, ConfigValue};
use vstd::prelude::*;

verus! {

/// A table of one entry.
fn single_entry(name: &str, value: ConfigValue) -> (r: Vec<(String, ConfigValue)>)
    ensures
        r@.len() == 1,
        r@[0].0@ == name@,
        r@[0].1 == value,
{
    let mut t: Vec<(String, ConfigValue)> = Vec::new();
    t.push((String::from_str(name), value));
    t
}

/// `r` is the built-in default configuration (see [`app_default_config`]).
pub open spec fn is_app_default(r: ConfigValue) -> bool {
    &&& config_well_formed(r)
    &&& r matches ConfigValue::Table(t) && t@.len() == 3 && t@[0].0@ == "app"@ && t@[1].0@ == "logger"@ && t@[2].0@
            == "runtime"@
    &&& r matches ConfigValue::Table(t) && (t@[0].1 matches ConfigValue::Table(a) && a@.len() == 0)
    &&& r matches ConfigValue::Table(t) && (t@[1].1 matches ConfigValue::Table(l) && l@.len() == 6 && l@[0].0@
            == "level"@ && (l@[0].1 matches ConfigValue::String(v) && v@ == "INFO"@) && l@[1].0@ == "enable_console"@
            && l@[1].1 == ConfigValue::Boolean(true) && l@[2].0@ == "with_thread_id"@ && l@[2].1 == ConfigValue::Boolean(
            true,
        ) && l@[3].0@ == "with_thread_name"@ && l@[3].1 == ConfigValue::Boolean(true) && l@[4].0@ == "file_name"@
            && (l@[4].1 matches ConfigValue::String(v) && v@ == "app.log"@) && l@[5].0@ == "max_file_number"@ && l@[5].1
            == ConfigValue::Integer(30))
    &&& r matches ConfigValue::Table(t) && (t@[2].1 matches ConfigValue::Table(rt) && rt@.len() == 1 && rt@[0].0@
            == "worker_thread_name"@ && (rt@[0].1 matches ConfigValue::String(v) && v@ == "tokio_worker"@))
}

/// The built-in default configuration:
///
/// ```toml
/// [app]
///
/// [logger]
/// level = "INFO"
/// enable_console = true
/// with_thread_id = true
/// with_thread_name = true
/// file_name = "app.log"
/// max_file_number = 30
///
/// [runtime]
/// worker_thread_name = "tokio_worker"
/// ```
pub fn app_default_config() -> (r: ConfigValue)
    ensures
        is_app_default(r),
{
    let mut logger: Vec<(String, ConfigValue)> = Vec::new();
    logger.push((String::from_str("level"), ConfigValue::String(String::from_str("INFO"))));
    logger.push((String::from_str("enable_console"), ConfigValue::Boolean(true)));
    logger.push((String::from_str("with_thread_id"), ConfigValue::Boolean(true)));
    logger.push((String::from_str("with_thread_name"), ConfigValue::Boolean(true)));
    logger.push((String::from_str("file_name"), ConfigValue::String(String::from_str("app.log"))));
    logger.push((String::from_str("max_file_number"), ConfigValue::Integer(30)));
    let runtime = single_entry("worker_thread_name", ConfigValue::String(String::from_str("tokio_worker")));
    let mut top: Vec<(String, ConfigValue)> = Vec::new();
    let app_table: Vec<(String, ConfigValue)> = Vec::new();
    top.push((String::from_str("app"), ConfigValue::Table(app_table)));
    top.push((String::from_str("logger"), ConfigValue::Table(logger)));
    top.push((String::from_str("runtime"), ConfigValue::Table(runtime)));
    proof {
        reveal_strlit("app");
        reveal_strlit("logger");
        reveal_strlit("runtime");
        reveal_strlit("level");
        reveal_strlit("enable_console");
        reveal_strlit("with_thread_id");
        reveal_strlit("with_thread_name");
        reveal_strlit("file_name");
        reveal_strlit("max_file_number");
        let lt = logger@;
        assert forall|i: int, j: int| 0 <= i < lt.len() && 0 <= j < lt.len() && i != j implies #[trigger] lt[i].0@ != #[trigger] lt[j].0@ by {
            assert(lt[i].0@.len() != lt[j].0@.len() || lt[i].0@[0] != lt[j].0@[0] || lt[i].0@[5] != lt[j].0@[5]);
        }
        reveal_with_fuel(config_well_formed, 3);
        assert(config_well_formed(ConfigValue::Table(logger)));
        assert(config_well_formed(ConfigValue::Table(runtime)));
        assert(config_well_formed(ConfigValue::Table(app_table)));
        let tt = top@;
        assert(config_well_formed(tt[0].1));
        assert(config_well_formed(tt[1].1));
        assert(config_well_formed(tt[2].1));
        assert forall|i: int, j: int| 0 <= i < tt.len() && 0 <= j < tt.len() && i != j implies #[trigger] tt[i].0@ != #[trigger] tt[j].0@ by {
            assert(tt[i].0@[0] != tt[j].0@[0]);
        }
    }
    ConfigValue::Table(top)
}

/// `chain` starts at `base` and lays each of the `layers` over the
/// previous step.
pub open spec fn is_layer_chain(base: ConfigValue, layers: Seq<ConfigValue>, chain: Seq<ConfigValue>) -> bool {
    &&& chain.len() == layers.len() + 1
    &&& chain[0] == base
    &&& forall|k: int| #![trigger layers[k]] 0 <= k < layers.len() ==> is_merge(chain[k], layers[k], chain[k + 1])
}

/// `r` is `base` with the `layers` laid over it one after the other.
pub open spec fn is_layering(base: ConfigValue, layers: Seq<ConfigValue>, r: ConfigValue) -> bool {
    exists|chain: Seq<ConfigValue>| #[trigger] is_layer_chain(base, layers, chain) && chain.last() == r
}

/// Every layer is well formed.
pub open spec fn all_well_formed(layers: Seq<ConfigValue>) -> bool {
    forall|k: int| 0 <= k < layers.len() ==> #[trigger] config_well_formed(layers[k])
}

/// Lays `layers` over `base` in order.
fn layer_over(base: ConfigValue, layers: Vec<ConfigValue>) -> (r: ConfigValue)
    requires
        config_well_formed(base),
        all_well_formed(layers@),
    ensures
        config_well_formed(r),
        is_layering(base, layers@, r),
{
    let ghost all = layers@;
    assert(all.len() == layers.len());
    let mut acc = base;
    let ghost mut chain: Seq<ConfigValue> = seq![base];
    let mut rest = layers;
    let mut k: usize = 0;
    while rest.len() > 0
        invariant
            k <= all.len() <= usize::MAX,
            rest@ == all.subrange(k as int, all.len() as int),
            all_well_formed(all),
            config_well_formed(acc),
            is_layer_chain(base, all.subrange(0, k as int), chain),
            chain.last() == acc,
        decreases rest@.len(),
    {
        let ghost prev_chain = chain;
        let ghost prev = acc;
        let layer = rest.remove(0);
        assert(layer == all[k as int]);
        assert(config_well_formed(all[k as int]));
        acc = merge_config_values(acc, layer);
        proof {
            chain = chain.push(acc);
            let pre = all.subrange(0, k as int);
            let pre2 = all.subrange(0, k + 1);
            assert forall|j: int| #![trigger pre2[j]] 0 <= j < pre2.len() implies is_merge(chain[j], pre2[j], chain[j + 1]) by {
                if j < k {
                    assert(pre2[j] == pre[j]);
                    assert(chain[j] == prev_chain[j] && chain[j + 1] == prev_chain[j + 1]);
                } else {
                    assert(chain[j] == prev);
                }
            }
        }
        k = k + 1;
        assert(rest@ =~= all.subrange(k as int, all.len() as int));
    }
    assert(all.subrange(0, k as int) == all);
    acc
}

/// The default configuration of the application: the built-in defaults,
/// then each plugin's defaults in registration order, then each default
/// configuration given by the user, each laid over what precedes.
pub fn merge_default_configs(plugin_defaults: Vec<ConfigValue>, user_defaults: Vec<ConfigValue>) -> (r: ConfigValue)
    requires
        all_well_formed(plugin_defaults@),
        all_well_formed(user_defaults@),
    ensures
        config_well_formed(r),
        exists|builtin: ConfigValue, mid: ConfigValue|
            #[trigger] is_layering(builtin, plugin_defaults@, mid) && is_layering(mid, user_defaults@, r)
                && is_app_default(builtin),
{
    let builtin = app_default_config();
    let ghost b = builtin;
    let mid = layer_over(builtin, plugin_defaults);
    let ghost m = mid;
    let r = layer_over(mid, user_defaults);
    assert(is_layering(b, plugin_defaults@, m) && is_layering(m, user_defaults@, r));
    r
}

/// The configuration profile in effect: the `APP_PROFILE` value when it is
/// set and not empty, else the base configuration's `app.profile` string;
/// an empty name selects no profile.
pub open spec fn chosen_profile(env_profile: Option<Seq<char>>, base: ConfigValue) -> Option<Seq<char>> {
    let p = match env_profile {
        Some(e) => if e.len() > 0 {
            Some(e)
        } else {
            configured_profile(base)
        },
        None => configured_profile(base),
    };
    match p {
        Some(x) => if x.len() > 0 {
            Some(x)
        } else {
            None
        },
        None => None,
    }
}

/// The base configuration's `app.profile`, when it is a string.
pub open spec fn configured_profile(base: ConfigValue) -> Option<Seq<char>> {
    match lookup_path(base, "app.profile"@) {
        Some(ConfigValue::String(s)) => Some(s@),
        _ => None,
    }
}

/// Chooses the configuration profile (see [`chosen_profile`]);
/// `env_profile` is the value of the `APP_PROFILE` environment variable.
pub fn select_profile(env_profile: Option<&str>, base: &ConfigValue) -> (r: Option<String>)
    ensures
        match r {
            Some(p) => chosen_profile(
                match env_profile {
                    Some(e) => Some(e@),
                    None => None,
                },
                *base,
            ) == Some(p@),
            None => chosen_profile(
                match env_profile {
                    Some(e) => Some(e@),
                    None => None,
                },
                *base,
            ) is None,
        },
{
    let configured = match get_config_value_by_path(base, "app.profile") {
        Some(ConfigValue::String(s)) => Some(s.clone()),
        _ => None,
    };
    let profile = match env_profile {
        Some(e) => {
            if e.unicode_len() > 0 {
                Some(String::from_str(e))
            } else {
                configured
            }
        },
        None => configured,
    };
    match profile {
        Some(p) => {
            if p.as_str().unicode_len() > 0 {
                Some(p)
            } else {
                None
            }
        },
        None => None,
    }
}

/// The file of a profile's configuration: `application-<profile>.toml`.
pub fn profile_file_name(profile: &str) -> (r: String)
    ensures
        r@ == "application-"@ + profile@ + ".toml"@,
{
    let mut r = String::from_str("application-");
    r.append(profile);
    r.append(".toml");
    r
}

/// The async runtime to build.
#[derive(PartialEq, Eq, Structural, Clone, Copy, Debug)]
pub enum RuntimeChoice {
    /// The application's own runtime factory.
    Custom,
    /// A single-threaded runtime.
    CurrentThread,
    /// A multi-threaded runtime with this many worker threads.
    MultiThread { worker_threads: u8 },
    /// A multi-threaded runtime with the default number of workers.
    DefaultMultiThread,
}

/// Why no runtime can be built.
#[derive(PartialEq, Eq, Structural, Clone, Copy, Debug)]
pub enum RuntimeConfigError {
    /// `runtime.worker_thread_num` must be positive.
    InvalidWorkerThreadNum { value: u8 },
}

/// Chooses the runtime: the application's factory when given; else from
/// `runtime.worker_thread_num`: none gives the default multi-threaded
/// runtime, zero is an error, one gives a single-threaded runtime unless a
/// main-loop hook takes over the main thread, more give that many workers.
pub fn runtime_choice(has_custom_factory: bool, worker_thread_num: Option<u8>, has_main_loop_hook: bool) -> (r: Result<
    RuntimeChoice,
    RuntimeConfigError,
>)
    ensures
        r == if has_custom_factory {
            Ok(RuntimeChoice::Custom)
        } else {
            match worker_thread_num {
                None => Ok(RuntimeChoice::DefaultMultiThread),
                Some(n) => if n == 0 {
                    Err(RuntimeConfigError::InvalidWorkerThreadNum { value: n })
                } else if n == 1 && !has_main_loop_hook {
                    Ok(RuntimeChoice::CurrentThread)
                } else {
                    Ok(RuntimeChoice::MultiThread { worker_threads: n })
                },
            }
        },
{
    if has_custom_factory {
        return Ok(RuntimeChoice::Custom);
    }
    match worker_thread_num {
        Some(n) if n == 0 => Err(RuntimeConfigError::InvalidWorkerThreadNum { value: n }),
        Some(n) if n == 1 && !has_main_loop_hook => Ok(RuntimeChoice::CurrentThread),
        Some(n) => Ok(RuntimeChoice::MultiThread { worker_threads: n }),
        None => Ok(RuntimeChoice::DefaultMultiThread),
    }
}

/// Where the application's core task (cron scheduler and background tasks)
/// runs.
#[derive(PartialEq, Eq, Structural, Clone, Copy, Debug)]
pub enum CoreTaskPlacement {
    /// Spawned on the runtime, beside a main-loop hook that holds the main
    /// thread.
    Spawned,
    /// Not run: the main-loop hook holds the main thread and there is
    /// nothing to schedule.
    NotRun,
    /// Run on the main thread until the shutdown signal.
    BlockOn,
}

/// Places the core task: with a main-loop hook it is spawned when there are
/// cron jobs or background tasks and not run otherwise; without one, the
/// main thread runs it.
pub fn core_task_placement(has_main_loop_hook: bool, has_cron_jobs: bool, has_task_factories: bool) -> (r: CoreTaskPlacement)
    ensures
        r == if has_main_loop_hook {
            if has_cron_jobs || has_task_factories {
                CoreTaskPlacement::Spawned
            } else {
                CoreTaskPlacement::NotRun
            }
        } else {
            CoreTaskPlacement::BlockOn
        },
{
    if has_main_loop_hook {
        if has_cron_jobs || has_task_factories {
            CoreTaskPlacement::Spawned
        } else {
            CoreTaskPlacement::NotRun
        }
    } else {
        CoreTaskPlacement::BlockOn
    }
}

} // verus!
