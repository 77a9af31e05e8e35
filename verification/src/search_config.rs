//! What is searched, and whether.

use crate::paths;
use crate::paths::{path_key, Platform};
use crate::text;
use crate::text::{contains_text, copy_texts, string_of, trim};
use vstd::prelude::*;

verus! {

/// The version of the stored configuration.
pub const SEARCH_CONFIG_VERSION: u32 = 1;

/// What is searched. Without roots, those that the system offers are taken
/// when a search index is built.
#[derive(Debug, PartialEq, Eq)]
pub struct SearchConfig {
    pub version: u32,
    pub enabled: bool,
    pub roots: Vec<String>,
    pub exclusions: Vec<String>,
}

/// What a configuration says.
#[verifier::ext_equal]
pub struct SearchModel {
    pub version: u32,
    pub enabled: bool,
    pub roots: Seq<Seq<char>>,
    pub exclusions: Seq<Seq<char>>,
}

impl View for SearchConfig {
    type V = SearchModel;

    open spec fn view(&self) -> SearchModel {
        SearchModel {
            version: self.version,
            enabled: self.enabled,
            roots: text::texts(self.roots@),
            exclusions: text::texts(self.exclusions@),
        }
    }
}

pub fn search_config_version() -> (r: u32)
    ensures
        r == SEARCH_CONFIG_VERSION,
{
    SEARCH_CONFIG_VERSION
}

impl Clone for SearchConfig {
    fn clone(&self) -> (r: Self)
        ensures
            r@ == self@,
    {
        SearchConfig {
            version: self.version,
            enabled: self.enabled,
            roots: copy_texts(&self.roots),
            exclusions: copy_texts(&self.exclusions),
        }
    }
}

/// The paths without white space around them, each once and none empty.
pub open spec fn unique_paths(platform: Platform, v: Seq<Seq<char>>) -> Seq<Seq<char>>
    decreases v.len(),
{
    if v.len() == 0 {
        Seq::empty()
    } else {
        let earlier = unique_paths(platform, v.drop_last());
        let path = text::trimmed(v.last());
        if path.len() == 0 || path_keys(platform, earlier).contains(
            paths::path_key_of(platform, path),
        ) {
            earlier
        } else {
            earlier.push(path)
        }
    }
}

/// What tells some paths apart.
pub open spec fn path_keys(platform: Platform, v: Seq<Seq<char>>) -> Seq<Seq<char>> {
    v.map_values(|p: Seq<char>| paths::path_key_of(platform, p))
}

/// The paths without white space around them, each once and none empty.
pub fn normalize_unique_paths(platform: Platform, all: &Vec<String>) -> (r: Vec<String>)
    ensures
        text::texts(r@) == unique_paths(platform, text::texts(all@)),
{
    let ghost given = text::texts(all@);
    let mut r: Vec<String> = Vec::new();
    let mut seen: Vec<String> = Vec::new();
    assert(text::texts(r@) =~= unique_paths(platform, given.take(0)));
    assert(text::texts(seen@) =~= path_keys(platform, text::texts(r@)));
    for i in 0..all.len()
        invariant
            given == text::texts(all@),
            text::texts(r@) == unique_paths(platform, given.take(i as int)),
            text::texts(seen@) == path_keys(platform, text::texts(r@)),
    {
        let ghost before = text::texts(r@);
        let ghost seen_before = text::texts(seen@);
        assert(given.take(i + 1).drop_last() =~= given.take(i as int));
        assert(given[i as int] == all@[i as int]@);
        let chars = trim(all[i].as_str());
        if chars.len() > 0 {
            let path = string_of(chars.as_slice());
            let key = path_key(platform, path.as_str());
            if !contains_text(&seen, key.as_str()) {
                seen.push(key);
                r.push(path);
                assert(text::texts(seen@) =~= seen_before.push(key@));
                assert(text::texts(r@) =~= before.push(path@));
                assert(path_keys(platform, text::texts(r@)) =~= seen_before.push(key@));
            }
        }
    }
    assert(given.take(given.len() as int) =~= given);
    r
}

/// No two normalised paths are the same, and none is empty.
pub proof fn unique_paths_differ(platform: Platform, v: Seq<Seq<char>>)
    ensures
        path_keys(platform, unique_paths(platform, v)).no_duplicates(),
        forall|i: int|
            0 <= i < unique_paths(platform, v).len() ==> (#[trigger] unique_paths(
                platform,
                v,
            )[i]).len() > 0,
    decreases v.len(),
{
    if v.len() > 0 {
        let earlier = unique_paths(platform, v.drop_last());
        unique_paths_differ(platform, v.drop_last());
        let path = text::trimmed(v.last());
        let keys = path_keys(platform, earlier);
        let key = paths::path_key_of(platform, path);
        assert(path_keys(platform, earlier.push(path)) =~= keys.push(key));
    }
}

/// Every path that is not blank is among the normalised ones, up to how
/// paths are told apart.
pub proof fn unique_paths_lose_nothing(platform: Platform, v: Seq<Seq<char>>, i: int)
    requires
        0 <= i < v.len(),
        text::trimmed(v[i]).len() > 0,
    ensures
        path_keys(platform, unique_paths(platform, v)).contains(
            paths::path_key_of(platform, text::trimmed(v[i])),
        ),
    decreases v.len(),
{
    let earlier = unique_paths(platform, v.drop_last());
    let keys = path_keys(platform, earlier);
    let path = text::trimmed(v.last());
    let now = path_keys(platform, unique_paths(platform, v));
    let key = paths::path_key_of(platform, text::trimmed(v[i]));
    assert(path_keys(platform, earlier.push(path)) =~= keys.push(
        paths::path_key_of(platform, path),
    ));
    if i < v.len() - 1 {
        unique_paths_lose_nothing(platform, v.drop_last(), i);
        let k = keys.index_of(key);
        assert(keys[k] == key);
        assert(now[k] == key);
    } else if !keys.contains(key) {
        assert(now[now.len() - 1] == key);
    }
}

impl SearchConfig {
    /// The configuration before anything was chosen, on a machine with these
    /// roots: nothing is searched until it is enabled.
    pub fn with_roots(roots: Vec<String>) -> (r: Self)
        ensures
            r@ == (SearchModel {
                version: SEARCH_CONFIG_VERSION,
                enabled: false,
                roots: text::texts(roots@),
                exclusions: Seq::empty(),
            }),
    {
        let r = SearchConfig {
            version: SEARCH_CONFIG_VERSION,
            enabled: false,
            roots,
            exclusions: Vec::new(),
        };
        assert(text::texts(r.exclusions@) =~= Seq::empty());
        r
    }

    /// A stored configuration, brought up to date.
    pub fn read_config(platform: Platform, stored: SearchConfig) -> (r: Self)
        ensures
            r@ == (SearchModel {
                version: SEARCH_CONFIG_VERSION,
                enabled: stored.enabled,
                roots: unique_paths(platform, stored@.roots),
                exclusions: unique_paths(platform, stored@.exclusions),
            }),
    {
        SearchConfig {
            version: SEARCH_CONFIG_VERSION,
            enabled: stored.enabled,
            roots: normalize_unique_paths(platform, &stored.roots),
            exclusions: normalize_unique_paths(platform, &stored.exclusions),
        }
    }

    /// The configuration to search by: the directory of the index itself is
    /// left out too.
    pub fn runtime_config(&self, platform: Platform, data_dir: Option<&str>) -> (r: Self)
        ensures
            r@ == (SearchModel {
                exclusions: unique_paths(
                    platform,
                    match data_dir {
                        Some(d) => self@.exclusions.push(d@),
                        None => self@.exclusions,
                    },
                ),
                ..self@
            }),
    {
        let mut r = self.clone();
        let mut exclusions = copy_texts(&self.exclusions);
        match data_dir {
            Some(d) => {
                let ghost before = text::texts(exclusions@);
                exclusions.push(d.to_owned());
                assert(text::texts(exclusions@) =~= before.push(d@));
            },
            None => {},
        }
        r.exclusions = normalize_unique_paths(platform, &exclusions);
        r
    }
}

/// Whether searching is enabled now, and at the next start.
#[derive(Debug, Clone, Copy, PartialEq, Eq, Structural)]
pub struct SearchFeatureState {
    pub current_enabled: bool,
    pub next_launch_enabled: bool,
}

/// The stored choice whether searching is enabled.
#[derive(Debug)]
pub struct SearchPreferenceStore {
    config: SearchConfig,
}

impl View for SearchPreferenceStore {
    type V = SearchModel;

    closed spec fn view(&self) -> SearchModel {
        self.config@
    }
}

impl SearchPreferenceStore {
    /// Takes up the stored configuration; without a readable one searching
    /// is disabled.
    pub fn new(platform: Platform, stored: Option<SearchConfig>, fixed_roots: Vec<String>) -> (r: Self)
        ensures
            r@ == match stored {
                Some(s) => SearchModel {
                    version: SEARCH_CONFIG_VERSION,
                    enabled: s.enabled,
                    roots: unique_paths(platform, s@.roots),
                    exclusions: unique_paths(platform, s@.exclusions),
                },
                None => SearchModel {
                    version: SEARCH_CONFIG_VERSION,
                    enabled: false,
                    roots: text::texts(fixed_roots@),
                    exclusions: Seq::empty(),
                },
            },
    {
        let config = match stored {
            Some(s) => SearchConfig::read_config(platform, s),
            None => SearchConfig::with_roots(fixed_roots),
        };
        SearchPreferenceStore { config }
    }

    pub fn config(&self) -> (r: SearchConfig)
        ensures
            r@ == self@,
    {
        self.config.clone()
    }

    pub fn feature_state(&self, current_enabled: bool) -> (r: SearchFeatureState)
        ensures
            r.current_enabled == current_enabled,
            r.next_launch_enabled == self@.enabled,
    {
        SearchFeatureState { current_enabled, next_launch_enabled: self.config.enabled }
    }

    /// The configuration that has to be written for a choice to hold.
    pub fn config_with(&self, enabled: bool) -> (r: SearchConfig)
        ensures
            r@ == (SearchModel { version: SEARCH_CONFIG_VERSION, enabled, ..self@ }),
    {
        let mut r = self.config.clone();
        r.enabled = enabled;
        r.version = SEARCH_CONFIG_VERSION;
        r
    }

    /// Makes a choice, if it could be `written`; else the previous one stays.
    pub fn set_enabled(&mut self, enabled: bool, written: bool) -> (r: bool)
        ensures
            r == written,
            final(self)@ == (SearchModel {
                version: SEARCH_CONFIG_VERSION,
                enabled: if written {
                    enabled
                } else {
                    old(self)@.enabled
                },
                ..old(self)@
            }),
    {
        self.config.version = SEARCH_CONFIG_VERSION;
        if written {
            self.config.enabled = enabled;
        }
        written
    }

    /// Takes up a configuration that the search changed.
    pub fn set_config(&mut self, config: SearchConfig)
        ensures
            final(self)@ == config@,
    {
        self.config = config;
    }
}

/// Normalising adds nothing: every path is one of the given ones without the
/// white space around it. Of several spellings the first one is kept.
pub proof fn unique_paths_are_as_given(platform: Platform, v: Seq<Seq<char>>, i: int)
    requires
        0 <= i < v.len(),
        text::trimmed(v[i]).len() > 0,
        forall|k: int|
            0 <= k < i ==> paths::path_key_of(platform, text::trimmed(#[trigger] v[k]))
                != paths::path_key_of(platform, text::trimmed(v[i])),
    ensures
        unique_paths(platform, v).contains(text::trimmed(v[i])),
        forall|n: int|
            0 <= n < unique_paths(platform, v).len() ==> exists|k: int|
                0 <= k < v.len() && text::trimmed(#[trigger] v[k]) == #[trigger] unique_paths(
                    platform,
                    v,
                )[n],
{
    unique_paths_are_given(platform, v);
    first_spelling_is_kept(platform, v, i);
}

proof fn unique_paths_are_given(platform: Platform, v: Seq<Seq<char>>)
    ensures
        forall|n: int|
            0 <= n < unique_paths(platform, v).len() ==> exists|k: int|
                0 <= k < v.len() && text::trimmed(#[trigger] v[k]) == #[trigger] unique_paths(
                    platform,
                    v,
                )[n],
    decreases v.len(),
{
    if v.len() > 0 {
        let earlier = unique_paths(platform, v.drop_last());
        let all = unique_paths(platform, v);
        unique_paths_are_given(platform, v.drop_last());
        assert forall|n: int| 0 <= n < all.len() implies exists|k: int|
            0 <= k < v.len() && text::trimmed(#[trigger] v[k]) == #[trigger] all[n] by {
            if n < earlier.len() {
                assert(all[n] == earlier[n]);
                let k = choose|k: int|
                    0 <= k < v.drop_last().len() && text::trimmed(#[trigger] v.drop_last()[k])
                        == earlier[n];
                assert(text::trimmed(v[k]) == all[n]);
            } else {
                assert(text::trimmed(v[v.len() - 1]) == all[n]);
            }
        }
    }
}

proof fn first_spelling_is_kept(platform: Platform, v: Seq<Seq<char>>, i: int)
    requires
        0 <= i < v.len(),
        text::trimmed(v[i]).len() > 0,
        forall|k: int|
            0 <= k < i ==> paths::path_key_of(platform, text::trimmed(#[trigger] v[k]))
                != paths::path_key_of(platform, text::trimmed(v[i])),
    ensures
        unique_paths(platform, v).contains(text::trimmed(v[i])),
    decreases v.len(),
{
    let rest = v.drop_last();
    let earlier = unique_paths(platform, rest);
    let all = unique_paths(platform, v);
    let path = text::trimmed(v[i]);
    if i < v.len() - 1 {
        assert forall|k: int| 0 <= k < i implies paths::path_key_of(
            platform,
            text::trimmed(#[trigger] rest[k]),
        ) != paths::path_key_of(platform, text::trimmed(rest[i])) by {
            assert(rest[k] == v[k]);
        }
        first_spelling_is_kept(platform, rest, i);
        let n = choose|n: int| 0 <= n < earlier.len() && earlier[n] == path;
        assert(all[n] == path);
    } else {
        unique_paths_are_given(platform, rest);
        let key = paths::path_key_of(platform, path);
        if path_keys(platform, earlier).contains(key) {
            let n = choose|n: int|
                0 <= n < path_keys(platform, earlier).len() && path_keys(platform, earlier)[n]
                    == key;
            let k = choose|k: int|
                0 <= k < rest.len() && text::trimmed(#[trigger] rest[k]) == earlier[n];
            assert(v[k] == rest[k]);
        }
        assert(all.last() == path);
    }
}

} // verus!
