use vstd::prelude::*;

verus! {

/// Appends one path component to a base directory, separated by `/`.
fn join_path(base: &str, component: &str) -> (r: String)
    ensures
        r@ == base@ + "/"@ + component@,
{
    let mut s = String::from_str(base);
    s.append("/");
    s.append(component);
    s
}

/// The application's configuration directory under the platform's local
/// configuration root (the caller resolves that root from the environment).
pub fn get_app_config_dir(config_root: &str) -> (r: String)
    ensures
        r@ == config_root@ + "/"@ + "random-picker"@,
{
    join_path(config_root, "random-picker")
}

/// The application's cache directory under the platform's cache root (the
/// caller resolves that root from the environment).
pub fn get_app_cache_dir(cache_root: &str) -> (r: String)
    ensures
        r@ == cache_root@ + "/"@ + "random-picker"@,
{
    join_path(cache_root, "random-picker")
}

/// The path of the history file for one group, inside the application's
/// cache directory: `<cache dir>/<group name>.txt`.
pub fn group_history_path(app_cache_dir: &str, group_name: &str) -> (r: String)
    ensures
        r@ == app_cache_dir@ + "/"@ + group_name@ + ".txt"@,
{
    let mut s = join_path(app_cache_dir, group_name);
    s.append(".txt");
    s
}

} // verus!
