//! Where the configuration and the cache live (XDG Base Directory layout).
//!
//! The environment is read by the caller, who hands over the values of
//! `XDG_CONFIG_HOME` / `XDG_CACHE_HOME` and `HOME` (when they are set and are
//! valid Unicode).
use vstd::prelude::*;
use crate::paths::{join_path, path_join};

verus! {

/// The directory under which a user-level directory is resolved: the XDG
/// variable when set, otherwise `$HOME/<fallback>`, otherwise `.`.
pub open spec fn xdg_base(xdg: Option<Seq<char>>, home: Option<Seq<char>>, fallback: Seq<char>) -> Seq<char> {
    match xdg {
        Some(x) => x,
        None => match home {
            Some(h) => path_join(h, fallback),
            None => "."@,
        },
    }
}

/// The configuration file: `<base>/sonic-bridge/config.toml`, with the base
/// from `XDG_CONFIG_HOME` or `$HOME/.config`.
pub open spec fn spec_config_path(xdg_config_home: Option<Seq<char>>, home: Option<Seq<char>>) -> Seq<char> {
    path_join(path_join(xdg_base(xdg_config_home, home, ".config"@), "sonic-bridge"@), "config.toml"@)
}

/// The cache directory: `<base>/sonic-bridge`, with the base from
/// `XDG_CACHE_HOME` or `$HOME/.cache`.
pub open spec fn spec_cache_path(xdg_cache_home: Option<Seq<char>>, home: Option<Seq<char>>) -> Seq<char> {
    path_join(xdg_base(xdg_cache_home, home, ".cache"@), "sonic-bridge"@)
}

/// The view of an optional string.
pub open spec fn opt_view(o: Option<&str>) -> Option<Seq<char>> {
    match o {
        Some(s) => Some(s@),
        None => None,
    }
}

/// The base directory for the given environment values.
fn base_dir(xdg: Option<&str>, home: Option<&str>, fallback: &str) -> (r: String)
    ensures
        r@ == xdg_base(opt_view(xdg), opt_view(home), fallback@),
{
    match xdg {
        Some(x) => String::from_str(x),
        None => match home {
            Some(h) => join_path(h, fallback),
            None => String::from_str("."),
        },
    }
}

/// Resolves the configuration file path from `XDG_CONFIG_HOME` and `HOME`.
pub fn resolve_config_path(xdg_config_home: Option<&str>, home: Option<&str>) -> (r: String)
    ensures
        r@ == spec_config_path(opt_view(xdg_config_home), opt_view(home)),
{
    let base = base_dir(xdg_config_home, home, ".config");
    let dir = join_path(base.as_str(), "sonic-bridge");
    join_path(dir.as_str(), "config.toml")
}

/// Resolves the cache directory from `XDG_CACHE_HOME` and `HOME`.
pub fn resolve_cache_path(xdg_cache_home: Option<&str>, home: Option<&str>) -> (r: String)
    ensures
        r@ == spec_cache_path(opt_view(xdg_cache_home), opt_view(home)),
{
    let base = base_dir(xdg_cache_home, home, ".cache");
    join_path(base.as_str(), "sonic-bridge")
}

} // verus!
