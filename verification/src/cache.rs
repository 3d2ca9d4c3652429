//! Cache decisions: when the cached directory dump is fresh, and what to do next
//! while loading.
use vstd::prelude::*;

verus! {

/// How long a cached dump stays fresh, in seconds.
pub const DEFAULT_TTL_SECS: u64 = 24 * 60 * 60;

/// A dump of the given age (seconds and sub-second nanoseconds; unknown when the
/// file's modification time could not be read) is fresh when younger than `ttl_secs`.
pub fn is_fresh(age: Option<(u64, u32)>, ttl_secs: u64) -> (r: bool)
    ensures
        r == match age {
            Some((secs, _)) => secs < ttl_secs,
            None => false,
        },
{
    match age {
        Some((secs, _)) => secs < ttl_secs,
        None => false,
    }
}

/// What happened last while loading the directory.
pub enum LoadEvent {
    Start { force_refresh: bool, fresh: bool },
    CacheRead { ok: bool },
    CacheParsed { ok: bool },
    Fetched,
    Written,
}

/// What to do next while loading the directory.
#[derive(PartialEq, Eq, Structural, Debug)]
pub enum LoadAction {
    ReadCache,
    ParseCache,
    UseCache,
    Fetch,
    WriteCache,
    UseFetched,
}

/// The next step of loading: a fresh cache is read and parsed unless a refresh
/// is forced; any failure on that path falls back to fetching, and a fetched
/// dump is written to the cache before it is used.
pub fn next_load_action(event: LoadEvent) -> (a: LoadAction)
    ensures
        a == match event {
            LoadEvent::Start { force_refresh, fresh } => if !force_refresh && fresh {
                LoadAction::ReadCache
            } else {
                LoadAction::Fetch
            },
            LoadEvent::CacheRead { ok } => if ok {
                LoadAction::ParseCache
            } else {
                LoadAction::Fetch
            },
            LoadEvent::CacheParsed { ok } => if ok {
                LoadAction::UseCache
            } else {
                LoadAction::Fetch
            },
            LoadEvent::Fetched => LoadAction::WriteCache,
            LoadEvent::Written => LoadAction::UseFetched,
        },
{
    match event {
        LoadEvent::Start { force_refresh, fresh } => {
            if !force_refresh && fresh {
                LoadAction::ReadCache
            } else {
                LoadAction::Fetch
            }
        },
        LoadEvent::CacheRead { ok } => {
            if ok {
                LoadAction::ParseCache
            } else {
                LoadAction::Fetch
            }
        },
        LoadEvent::CacheParsed { ok } => {
            if ok {
                LoadAction::UseCache
            } else {
                LoadAction::Fetch
            }
        },
        LoadEvent::Fetched => LoadAction::WriteCache,
        LoadEvent::Written => LoadAction::UseFetched,
    }
}

} // verus!
