//! The directory's package records, as the logic reads them.
//!
//! A directory score is held in millionths (`score_micros`), and the natural
//! logarithm of a package's star count (at least one star) in millionths
//! (`log_stars_micros`): the ranking logic orders packages by these integers.
use vstd::prelude::*;
use crate::text::{lowercase, occurs_in, str_contains, str_eq, to_lowercase};

verus! {

/// The API's `newArchitecture` value: a boolean, or a string such as `"new-arch-only"`.
pub enum NewArchValue {
    Bool(bool),
    Str(String),
}

impl NewArchValue {
    /// Whether the value declares New Architecture support.
    pub open spec fn spec_supports(&self) -> bool {
        match self {
            NewArchValue::Bool(b) => *b,
            NewArchValue::Str(s) => s@ == "new-arch-only"@ || s@ == "true"@,
        }
    }

    pub fn supports(&self) -> (r: bool)
        ensures
            r == self.spec_supports(),
    {
        match self {
            NewArchValue::Bool(b) => *b,
            NewArchValue::Str(s) => str_eq(s.as_str(), "new-arch-only") || str_eq(
                s.as_str(),
                "true",
            ),
        }
    }
}

/// A field that the API gives as a boolean or as a string (a fork name, a plugin URL).
pub enum BoolOrStr {
    Bool(bool),
    Str(String),
}

impl BoolOrStr {
    /// A boolean is itself; a string is truthy when it is not empty.
    pub open spec fn spec_is_truthy(&self) -> bool {
        match self {
            BoolOrStr::Bool(b) => *b,
            BoolOrStr::Str(s) => s@.len() > 0,
        }
    }

    pub fn is_truthy(&self) -> (r: bool)
        ensures
            r == self.spec_is_truthy(),
    {
        match self {
            BoolOrStr::Bool(b) => *b,
            BoolOrStr::Str(s) => !s.as_str().is_empty(),
        }
    }
}

/// Repository license.
pub struct License {
    pub name: Option<String>,
    pub spdx_id: Option<String>,
}

/// Repository activity counters.
pub struct GithubStats {
    pub stars: u64,
    pub forks: u64,
    pub issues: u64,
    pub pushed_at: Option<String>,
    pub updated_at: Option<String>,
}

/// Repository facts.
pub struct GithubInfo {
    pub name: Option<String>,
    pub full_name: Option<String>,
    pub description: Option<String>,
    pub topics: Vec<String>,
    pub license: Option<License>,
    pub stats: Option<GithubStats>,
    pub is_archived: bool,
    pub has_types: bool,
    pub new_architecture: bool,
    pub has_native_code: bool,
    pub module_type: Option<String>,
}

/// npm facts.
pub struct NpmInfo {
    pub downloads: u64,
    pub week_downloads: u64,
    pub latest_release: Option<String>,
    pub latest_release_date: Option<String>,
}

/// One package of the directory.
pub struct Library {
    pub github_url: Option<String>,
    pub npm_pkg: Option<String>,
    pub ios: bool,
    pub android: bool,
    pub web: bool,
    pub macos: bool,
    pub tvos: bool,
    pub visionos: bool,
    pub windows: bool,
    pub fireos: bool,
    pub horizon: bool,
    pub vegaos: Option<BoolOrStr>,
    pub expo_go: bool,
    pub expo: bool,
    pub dev: bool,
    pub unmaintained: bool,
    pub nightly_program: bool,
    pub config_plugin: Option<BoolOrStr>,
    pub new_architecture: Option<NewArchValue>,
    /// The directory score in millionths.
    pub score_micros: Option<i64>,
    /// `ln(max(stars, 1))` in millionths.
    pub log_stars_micros: i64,
    pub topics_flat: String,
    pub alternatives: Option<Vec<String>>,
    pub github: Option<GithubInfo>,
    pub npm: Option<NpmInfo>,
}

impl Library {
    /// The npm package name, else the repository's full name, else `<unknown>`.
    pub open spec fn spec_name(&self) -> Seq<char> {
        match &self.npm_pkg {
            Some(p) => p@,
            None => match &self.github {
                Some(g) => match &g.full_name {
                    Some(f) => f@,
                    None => "<unknown>"@,
                },
                None => "<unknown>"@,
            },
        }
    }

    /// The repository description, else the empty string.
    pub open spec fn spec_description(&self) -> Seq<char> {
        match &self.github {
            Some(g) => match &g.description {
                Some(d) => d@,
                None => Seq::empty(),
            },
            None => Seq::empty(),
        }
    }

    pub open spec fn spec_stars(&self) -> u64 {
        match &self.github {
            Some(g) => match &g.stats {
                Some(s) => s.stars,
                None => 0,
            },
            None => 0,
        }
    }

    pub open spec fn spec_weekly_downloads(&self) -> u64 {
        match &self.npm {
            Some(n) => n.week_downloads,
            None => 0,
        }
    }

    pub open spec fn spec_pushed_at(&self) -> Option<Seq<char>> {
        match &self.github {
            Some(g) => match &g.stats {
                Some(s) => match &s.pushed_at {
                    Some(p) => Some(p@),
                    None => None,
                },
                None => None,
            },
            None => None,
        }
    }

    pub open spec fn spec_is_archived(&self) -> bool {
        match &self.github {
            Some(g) => g.is_archived,
            None => false,
        }
    }

    /// The top-level `newArchitecture` value when present, else the repository's flag,
    /// else unknown.
    pub open spec fn spec_supports_new_architecture(&self) -> Option<bool> {
        match &self.new_architecture {
            Some(v) => Some(v.spec_supports()),
            None => match &self.github {
                Some(g) => Some(g.new_architecture),
                None => None,
            },
        }
    }

    pub open spec fn spec_has_native_code(&self) -> bool {
        match &self.github {
            Some(g) => g.has_native_code,
            None => false,
        }
    }

    pub open spec fn spec_has_types(&self) -> bool {
        match &self.github {
            Some(g) => g.has_types,
            None => false,
        }
    }

    /// The score (millionths) with an absent score counted as zero.
    pub open spec fn spec_score(&self) -> int {
        match self.score_micros {
            Some(s) => s as int,
            None => 0,
        }
    }

    /// The lowercased query occurs in the lowercased name, description or topic string.
    pub open spec fn spec_matches_query(&self, q: Seq<char>) -> bool {
        let ql = lowercase(q);
        occurs_in(ql, lowercase(self.spec_name())) || occurs_in(
            ql,
            lowercase(self.spec_description()),
        ) || occurs_in(ql, lowercase(self.topics_flat@))
    }

    pub fn name(&self) -> (r: &str)
        ensures
            r@ == self.spec_name(),
    {
        match &self.npm_pkg {
            Some(p) => p.as_str(),
            None => match &self.github {
                Some(g) => match &g.full_name {
                    Some(f) => f.as_str(),
                    None => "<unknown>",
                },
                None => "<unknown>",
            },
        }
    }

    pub fn description(&self) -> (r: &str)
        ensures
            r@ == self.spec_description(),
    {
        match &self.github {
            Some(g) => match &g.description {
                Some(d) => d.as_str(),
                None => {
                    let e = "";
                    proof {
                        reveal_strlit("");
                    }
                    e
                },
            },
            None => {
                let e = "";
                proof {
                    reveal_strlit("");
                }
                e
            },
        }
    }

    pub fn stars(&self) -> (r: u64)
        ensures
            r == self.spec_stars(),
    {
        match &self.github {
            Some(g) => match &g.stats {
                Some(s) => s.stars,
                None => 0,
            },
            None => 0,
        }
    }

    pub fn weekly_downloads(&self) -> (r: u64)
        ensures
            r == self.spec_weekly_downloads(),
    {
        match &self.npm {
            Some(n) => n.week_downloads,
            None => 0,
        }
    }

    pub fn pushed_at(&self) -> (r: Option<&str>)
        ensures
            match r {
                Some(p) => self.spec_pushed_at() == Some(p@),
                None => self.spec_pushed_at() is None,
            },
    {
        match &self.github {
            Some(g) => match &g.stats {
                Some(s) => match &s.pushed_at {
                    Some(p) => Some(p.as_str()),
                    None => None,
                },
                None => None,
            },
            None => None,
        }
    }

    pub fn is_archived(&self) -> (r: bool)
        ensures
            r == self.spec_is_archived(),
    {
        match &self.github {
            Some(g) => g.is_archived,
            None => false,
        }
    }

    pub fn supports_new_architecture(&self) -> (r: Option<bool>)
        ensures
            r == self.spec_supports_new_architecture(),
    {
        match &self.new_architecture {
            Some(v) => Some(v.supports()),
            None => match &self.github {
                Some(g) => Some(g.new_architecture),
                None => None,
            },
        }
    }

    pub fn has_native_code(&self) -> (r: bool)
        ensures
            r == self.spec_has_native_code(),
    {
        match &self.github {
            Some(g) => g.has_native_code,
            None => false,
        }
    }

    pub fn has_types(&self) -> (r: bool)
        ensures
            r == self.spec_has_types(),
    {
        match &self.github {
            Some(g) => g.has_types,
            None => false,
        }
    }

    pub fn score(&self) -> (r: i64)
        ensures
            r == self.spec_score(),
    {
        match self.score_micros {
            Some(s) => s,
            None => 0,
        }
    }

    /// Case-insensitive search over the name, description and topic string.
    pub fn matches_query(&self, q: &str) -> (r: bool)
        ensures
            r == self.spec_matches_query(q@),
    {
        let ql = to_lowercase(q);
        let nl = to_lowercase(self.name());
        if str_contains(nl.as_str(), ql.as_str()) {
            return true;
        }
        let dl = to_lowercase(self.description());
        if str_contains(dl.as_str(), ql.as_str()) {
            return true;
        }
        let tl = to_lowercase(self.topics_flat.as_str());
        str_contains(tl.as_str(), ql.as_str())
    }
}

} // verus!
