//! The configuration model: named groups, each owning an ordered list of
//! configured items, plus an optional default group name. The configuration
//! file itself is read and deserialized at the program's edge; this module
//! holds the verified lookups over the loaded values.

use vstd::prelude::*;

use crate::errors::PickError;
use crate::text::views;

verus! {

/// One named group with its configured items.
pub struct Group {
    pub name: String,
    pub items: Vec<String>,
}

/// The whole loaded configuration: every group, and the name of the group
/// used when the user names none.
pub struct AppSetting {
    pub groups: Vec<Group>,
    pub default_group: Option<String>,
}

/// The names of the configured groups, in configuration order.
pub open spec fn group_names(setting: AppSetting) -> Seq<Seq<char>> {
    setting.groups@.map_values(|g: Group| g.name@)
}

impl AppSetting {
    /// The path of the configuration file inside the application's
    /// configuration directory: `<config dir>/config.yaml`.
    pub fn get_config_path(app_config_dir: &str) -> (r: String)
        ensures
            r@ == app_config_dir@ + "/"@ + "config.yaml"@,
    {
        let mut s = String::from_str(app_config_dir);
        s.append("/");
        s.append("config.yaml");
        s
    }
}

/// The names of the configured groups, in configuration order.
pub fn get_group_names(setting: &AppSetting) -> (r: Vec<String>)
    ensures
        views(r@) == group_names(*setting),
{
    let n = setting.groups.len();
    let mut out: Vec<String> = Vec::new();
    let mut k: usize = 0;
    while k < n
        invariant
            k <= n,
            n == setting.groups@.len(),
            views(out@) == group_names(*setting).subrange(0, k as int),
        decreases n - k,
    {
        let g = &setting.groups[k];
        let ghost prev = out@;
        out.push(g.name.clone());
        proof {
            assert(out@.len() == prev.len() + 1);
            assert(out@.last() == setting.groups@[k as int].name);
            assert(views(out@) =~= views(prev).push(setting.groups@[k as int].name@));
            assert(group_names(*setting).subrange(0, k + 1) =~= views(prev).push(
                setting.groups@[k as int].name@,
            ));
        }
        k = k + 1;
    }
    proof {
        assert(group_names(*setting).subrange(0, n as int) =~= group_names(*setting));
    }
    out
}

/// Validates a group name given on the command line: accepted exactly when
/// it is the name of some configured group, in which case the full list of
/// valid group names is returned.
pub fn parse_group(setting: &AppSetting, s: &str) -> (r: Result<Vec<String>, PickError>)
    ensures
        r is Ok <==> group_names(*setting).contains(s@),
        r is Err ==> r->Err_0 == PickError::GroupNotFound,
        r is Ok ==> views(r->Ok_0@) == group_names(*setting),
{
    let names = get_group_names(setting);
    let wanted = String::from_str(s);
    let n = names.len();
    let mut k: usize = 0;
    while k < n
        invariant
            k <= n,
            n == names@.len(),
            views(names@) == group_names(*setting),
            wanted@ == s@,
            forall|j: int| 0 <= j < k ==> views(names@)[j] != s@,
        decreases n - k,
    {
        if wanted.eq(&names[k]) {
            proof {
                assert(group_names(*setting)[k as int] == s@);
                assert(group_names(*setting).contains(s@));
            }
            return Ok(names);
        }
        k = k + 1;
    }
    proof {
        assert forall|j: int| 0 <= j < group_names(*setting).len() implies group_names(*setting)[j]
            != s@ by {}
    }
    Err(PickError::GroupNotFound)
}

/// The index of the first configured group with the given name, or `None`
/// when no group has it.
pub fn find_group(setting: &AppSetting, name: &str) -> (r: Option<usize>)
    ensures
        r is Some ==> ({
            let i = r->0 as int;
            &&& 0 <= i < setting.groups@.len()
            &&& setting.groups@[i].name@ == name@
            &&& forall|j: int| 0 <= j < i ==> setting.groups@[j].name@ != name@
        }),
        r is None ==> forall|j: int|
            0 <= j < setting.groups@.len() ==> setting.groups@[j].name@ != name@,
        r is Some <==> group_names(*setting).contains(name@),
{
    let wanted = String::from_str(name);
    let n = setting.groups.len();
    let mut k: usize = 0;
    while k < n
        invariant
            k <= n,
            n == setting.groups@.len(),
            wanted@ == name@,
            forall|j: int| 0 <= j < k ==> setting.groups@[j].name@ != name@,
        decreases n - k,
    {
        if wanted.eq(&setting.groups[k].name) {
            proof {
                assert(group_names(*setting)[k as int] == name@);
                assert(group_names(*setting).contains(name@));
            }
            return Some(k);
        }
        k = k + 1;
    }
    proof {
        assert forall|j: int| 0 <= j < group_names(*setting).len() implies group_names(*setting)[j]
            != name@ by {}
    }
    None
}

} // verus!
