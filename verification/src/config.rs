//! The user's configuration: rules that classify commands, watchers to surface,
//! overrides, groups and what to ignore. An absent or malformed file counts as an
//! empty one.
use vstd::prelude::*;

use crate::paths;

verus! {

#[derive(Debug)]
pub struct ConfigFile {
    pub rule: Vec<RuleCfg>,
    pub watch: Vec<WatchCfg>,
    pub overrides: Vec<OverrideCfg>,
    pub group: Vec<GroupCfg>,
    pub ignore: Vec<IgnoreCfg>,
}

/// Classify a command: a label, and optionally a URL template.
#[derive(Debug)]
pub struct RuleCfg {
    pub match_cmd: String,
    pub label: String,
    pub url: Option<String>,
}

/// A port-less workload to surface as its own target.
#[derive(Debug)]
pub struct WatchCfg {
    pub match_cmd: String,
    pub label: String,
}

/// Pin a target's project or label regardless of heuristics.
#[derive(Debug)]
pub struct OverrideCfg {
    pub match_port: Option<u16>,
    pub match_cmd: Option<String>,
    pub project: Option<String>,
    pub label: Option<String>,
}

/// Bundle targets that do not share a directory.
#[derive(Debug)]
pub struct GroupCfg {
    pub name: String,
    /// Selectors: a port, a project name, or a command label.
    pub members: Vec<Member>,
}

/// One entry of a group's member list, as the file holds it.
#[derive(Debug)]
pub enum Member {
    Integer(i64),
    Text(String),
    Other,
}

/// What never to show: by command or label, by port, or by both.
#[derive(Debug)]
pub struct IgnoreCfg {
    pub match_port: Option<u16>,
    pub match_cmd: Option<String>,
}

impl ConfigFile {
    /// No rule of any kind.
    pub open spec fn is_empty(&self) -> bool {
        &&& self.rule@.len() == 0
        &&& self.watch@.len() == 0
        &&& self.overrides@.len() == 0
        &&& self.group@.len() == 0
        &&& self.ignore@.len() == 0
    }
}

impl Default for ConfigFile {
    fn default() -> (r: Self)
        ensures
            r.is_empty(),
    {
        ConfigFile {
            rule: Vec::new(),
            watch: Vec::new(),
            overrides: Vec::new(),
            group: Vec::new(),
            ignore: Vec::new(),
        }
    }
}

/// Where the file lies below a configuration directory.
pub open spec fn file_below(dir: Seq<char>) -> Seq<char> {
    paths::below(paths::below(dir, "marina"@), "config.toml"@)
}

/// The directory of `$XDG_CONFIG_HOME` where that is set and not empty, otherwise
/// `.config` in the home directory.
pub open spec fn config_file(xdg: Option<Seq<char>>, home: Option<Seq<char>>) -> Option<
    Seq<char>,
> {
    match (xdg, home) {
        (Some(x), _) if x.len() > 0 => Some(file_below(x)),
        (_, Some(h)) => Some(file_below(paths::below(h, ".config"@))),
        _ => None,
    }
}

fn below_config(dir: &str) -> (r: String)
    ensures
        r@ == file_below(dir@),
{
    let own = paths::join(dir, "marina");
    paths::join(own.as_str(), "config.toml")
}

/// The path of the configuration file.
pub fn config_path(xdg: Option<&str>, home: Option<&str>) -> (r: Option<String>)
    ensures
        match r {
            Some(p) => config_file(paths::opt_str(xdg), paths::opt_str(home)) == Some(p@),
            None => config_file(paths::opt_str(xdg), paths::opt_str(home)) is None,
        },
{
    match xdg {
        Some(x) => {
            if x.unicode_len() > 0 {
                return Some(below_config(x));
            }
        },
        None => {},
    }
    match home {
        Some(h) => {
            let dir = paths::join(h, ".config");
            Some(below_config(dir.as_str()))
        },
        None => None,
    }
}

/// The configuration that a file gives, and what is said of one that cannot be read.
pub open spec fn loaded(
    path: Seq<char>,
    parsed: Option<Result<ConfigFile, String>>,
    r: (ConfigFile, Option<String>),
) -> bool {
    match parsed {
        Some(Ok(cfg)) => r.0 == cfg && r.1 is None,
        Some(Err(e)) => r.0.is_empty() && r.1 is Some && r.1->0@ == "marina: ignoring "@ + path
            + ": "@ + e@,
        None => r.0.is_empty() && r.1 is None,
    }
}

/// The configuration to use, and a warning where the file could not be understood:
/// no file (`None`) is a silent empty configuration, a parse error an empty
/// configuration with a warning.
pub fn load(path: &str, parsed: Option<Result<ConfigFile, String>>) -> (r: (
    ConfigFile,
    Option<String>,
))
    ensures
        loaded(path@, parsed, r),
{
    match parsed {
        Some(Ok(cfg)) => (cfg, None),
        Some(Err(e)) => {
            let mut w = "marina: ignoring ".to_owned();
            w.append(path);
            w.append(": ");
            w.append(e.as_str());
            (ConfigFile::default(), Some(w))
        },
        None => (ConfigFile::default(), None),
    }
}

} // verus!
