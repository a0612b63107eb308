//! Structures which describe the resolver configuration, and the total
//! parser that reads them from text.
//!
//! The grammar is a comma-separated list of route entries, each of the form
//! `name[=sub]:key=value:key=value...`. Only the `std` route is known; its
//! options are `threads` and `poll_ivl`. Entries that name a sub-resolver,
//! unknown route names, unknown keys and malformed values are ignored, so
//! every text yields a valid configuration.
use vstd::prelude::*;

use crate::text::{
    after_first, before_first, find_char, lemma_first_index, parse_positive, positive_value,
    same_text, split, split_once,
};

verus! {

/// Relies on void::Void: the uninhabited error type of an infallible parse.
#[verifier::external_type_specification]
#[verifier::external_body]
pub struct ExVoid(void::Void);

/// Configuration for the `std` (libc-based) resolver.
#[derive(PartialEq, Eq, Structural, Debug, Clone, Copy)]
#[non_exhaustive]
pub struct Std {
    /// Polling interval for subscriptions, in seconds (default: 1).
    ///
    /// The libc-based resolver cannot notify of changes, so subscriptions
    /// poll on this interval.
    pub poll_ivl: u64,
    /// Number of worker threads that run the blocking resolver (default: 4).
    pub threads: u32,
}

/// The resolver used for one suffix.
#[derive(PartialEq, Eq, Structural, Debug, Clone, Copy)]
#[non_exhaustive]
pub enum Route {
    /// A standard library (libc) based resolver.
    Std(Std),
}

/// Configuration of the resolver: today one fallthrough route, with room
/// for routes per suffix later.
#[derive(PartialEq, Eq, Structural, Debug, Clone, Copy)]
#[non_exhaustive]
pub struct Config {
    /// The route used when no more specific route matches a name.
    pub fallthrough: Route,
}

impl Std {
    /// A usable pool: a positive interval and at least one thread.
    pub open spec fn wf(&self) -> bool {
        self.poll_ivl >= 1 && self.threads >= 1
    }
}

impl Route {
    /// The route's resolver settings are usable.
    pub open spec fn wf(&self) -> bool {
        match self {
            Route::Std(s) => s.wf(),
        }
    }
}

impl Config {
    /// The fallthrough route is usable.
    pub open spec fn wf(&self) -> bool {
        self.fallthrough.wf()
    }
}

/// One second between polls, four threads.
pub open spec fn default_std() -> Std {
    Std { poll_ivl: 1, threads: 4 }
}

/// The configuration used when none is given: the default `std` route.
pub open spec fn default_config() -> Config {
    Config { fallthrough: Route::Std(default_std()) }
}

/// The effect of one `key=value` option on the `std` settings `r`.
pub open spec fn apply_option(r: Std, pair: Seq<char>) -> Std {
    let key = before_first(pair, '=');
    match after_first(pair, '=') {
        Some(val) => if key == "threads"@ {
            match positive_value(val, u32::MAX as nat) {
                Some(n) => Std { threads: n as u32, ..r },
                None => r,
            }
        } else if key == "poll_ivl"@ {
            match positive_value(val, u64::MAX as nat) {
                Some(n) => Std { poll_ivl: n as u64, ..r },
                None => r,
            }
        } else {
            r
        },
        None => r,
    }
}

/// The options applied in order, starting from `r`.
pub open spec fn apply_options(r: Std, pairs: Seq<Seq<char>>) -> Std
    decreases pairs.len(),
{
    if pairs.len() == 0 {
        r
    } else {
        apply_options(apply_option(r, pairs[0]), pairs.drop_first())
    }
}

/// The `std` settings that a colon-separated option list gives.
pub open spec fn options_of(s: Seq<char>) -> Std {
    apply_options(default_std(), split(s, ':'))
}

/// The effect of one route entry on the fallthrough route `root`.
pub open spec fn apply_route(root: Route, entry: Seq<char>) -> Route {
    let head = before_first(entry, ':');
    if after_first(head, '=') is Some {
        root
    } else if head == "std"@ {
        Route::Std(
            options_of(
                match after_first(entry, ':') {
                    Some(o) => o,
                    None => Seq::empty(),
                },
            ),
        )
    } else {
        root
    }
}

/// The route entries applied in order, starting from `root`.
pub open spec fn apply_routes(root: Route, entries: Seq<Seq<char>>) -> Route
    decreases entries.len(),
{
    if entries.len() == 0 {
        root
    } else {
        apply_routes(apply_route(root, entries[0]), entries.drop_first())
    }
}

/// The configuration that the text `s` describes.
pub open spec fn config_of(s: Seq<char>) -> Config {
    Config { fallthrough: apply_routes(Route::Std(default_std()), split(s, ',')) }
}

/// Applying options keeps the settings usable.
proof fn lemma_options_keep_wf(r: Std, pairs: Seq<Seq<char>>)
    requires
        r.wf(),
    ensures
        apply_options(r, pairs).wf(),
    decreases pairs.len(),
{
    if pairs.len() > 0 {
        lemma_options_keep_wf(apply_option(r, pairs[0]), pairs.drop_first());
    }
}

/// Applying route entries keeps the route usable.
proof fn lemma_routes_keep_wf(root: Route, entries: Seq<Seq<char>>)
    requires
        root.wf(),
    ensures
        apply_routes(root, entries).wf(),
    decreases entries.len(),
{
    if entries.len() > 0 {
        let e = entries[0];
        let o = match after_first(e, ':') {
            Some(o) => o,
            None => Seq::empty(),
        };
        lemma_options_keep_wf(default_std(), split(o, ':'));
        lemma_routes_keep_wf(apply_route(root, e), entries.drop_first());
    }
}

/// Parsing is total: every text, however malformed, describes a usable
/// configuration, with a positive poll interval and at least one thread.
pub proof fn lemma_parse_total(s: Seq<char>)
    ensures
        config_of(s).wf(),
{
    lemma_routes_keep_wf(Route::Std(default_std()), split(s, ','));
}

impl Default for Std {
    fn default() -> (r: Std)
        ensures
            r == default_std(),
    {
        Std { poll_ivl: 1, threads: 4 }
    }
}

impl Default for Route {
    fn default() -> (r: Route)
        ensures
            r == Route::Std(default_std()),
    {
        Route::Std(Std::default())
    }
}

impl Default for Config {
    fn default() -> (r: Config)
        ensures
            r == default_config(),
    {
        Config { fallthrough: Route::Std(Std::default()) }
    }
}

/// Applies one `key=value` option to `r`.
fn apply_option_text(r: Std, pair: &str) -> (out: Std)
    ensures
        out == apply_option(r, pair@),
{
    let (key, val) = split_once(pair, '=');
    match val {
        None => r,
        Some(v) => {
            if same_text(key, "threads") {
                match parse_positive(v, u32::MAX as u64) {
                    Some(n) => Std { threads: n as u32, ..r },
                    None => r,
                }
            } else if same_text(key, "poll_ivl") {
                match parse_positive(v, u64::MAX) {
                    Some(n) => Std { poll_ivl: n, ..r },
                    None => r,
                }
            } else {
                r
            }
        },
    }
}

impl Std {
    /// The number of worker threads for the resolver pool, or `None` when
    /// the settings ask for none (a pool needs at least one worker).
    pub fn pool_size(&self) -> (r: Option<usize>)
        ensures
            r == (if self.threads >= 1 {
                Some(self.threads as usize)
            } else {
                None
            }),
    {
        if self.threads >= 1 {
            Some(self.threads as usize)
        } else {
            None
        }
    }

    /// Reads the colon-separated options of a `std` entry, such as
    /// `threads=2:poll_ivl=10`. Later options override earlier ones;
    /// anything unrecognised or malformed leaves the default in place.
    pub fn parse_options(input: &str) -> (r: Std)
        ensures
            r == options_of(input@),
            r.wf(),
    {
        let ghost s = input@;
        let n = input.unicode_len();
        let mut r = Std::default();
        let mut start: usize = 0;
        proof {
            assert(s.skip(0) =~= s);
            lemma_options_keep_wf(default_std(), split(s, ':'));
        }
        loop
            invariant
                n == s.len(),
                s == input@,
                start <= n,
                apply_options(r, split(s.skip(start as int), ':')) == options_of(s),
                options_of(s).wf(),
            decreases n - start,
        {
            let k = find_char(input, start, ':');
            let pair = input.substring_char(start, k);
            let ghost rest = s.skip(start as int);
            proof {
                assert forall|j: int| 0 <= j < k - start implies rest[j] != ':' by {
                    assert(rest[j] == s[start + j]);
                }
                lemma_first_index(rest, ':', k - start);
                assert(pair@ =~= rest.take(k - start));
            }
            let ghost pieces = split(rest, ':');
            let ghost before = r;
            proof {
                if k == n {
                    assert(rest.take(k - start) =~= rest);
                }
                assert(pieces[0] == pair@);
                assert(apply_options(before, pieces) == apply_options(
                    apply_option(before, pair@),
                    pieces.drop_first(),
                ));
            }
            r = apply_option_text(r, pair);
            if k == n {
                assert(pieces.drop_first().len() == 0);
                assert(apply_options(r, pieces.drop_first()) == r);
                return r;
            }
            proof {
                assert(rest.skip(k - start + 1) =~= s.skip(k + 1));
                assert(pieces.drop_first() =~= split(s.skip(k + 1), ':'));
            }
            start = k + 1;
        }
    }
}

/// Applies one route entry to the fallthrough route `root`.
fn apply_route_text(root: Route, entry: &str) -> (out: Route)
    ensures
        out == apply_route(root, entry@),
{
    let (head, opts) = split_once(entry, ':');
    let (_name, sub) = split_once(head, '=');
    match sub {
        Some(_) => root,
        None => {
            if same_text(head, "std") {
                match opts {
                    Some(o) => Route::Std(Std::parse_options(o)),
                    None => {
                        proof {
                            reveal_strlit("");
                            assert(""@ =~= Seq::<char>::empty());
                        }
                        Route::Std(Std::parse_options(""))
                    },
                }
            } else {
                root
            }
        },
    }
}

impl Config {
    /// Parses a configuration directive, such as `std:threads=2:poll_ivl=5`.
    ///
    /// Never fails: empty text and `std` give the default configuration,
    /// and anything unrecognised or malformed is ignored.
    pub fn parse(val: &str) -> (r: Config)
        ensures
            r == config_of(val@),
            r.wf(),
    {
        let ghost s = val@;
        let n = val.unicode_len();
        let mut root = Route::default();
        let mut start: usize = 0;
        proof {
            assert(s.skip(0) =~= s);
            lemma_parse_total(s);
        }
        loop
            invariant
                n == s.len(),
                s == val@,
                start <= n,
                apply_routes(root, split(s.skip(start as int), ',')) == config_of(s).fallthrough,
                config_of(s).wf(),
            decreases n - start,
        {
            let k = find_char(val, start, ',');
            let entry = val.substring_char(start, k);
            let ghost rest = s.skip(start as int);
            proof {
                assert forall|j: int| 0 <= j < k - start implies rest[j] != ',' by {
                    assert(rest[j] == s[start + j]);
                }
                lemma_first_index(rest, ',', k - start);
                assert(entry@ =~= rest.take(k - start));
            }
            let ghost pieces = split(rest, ',');
            let ghost before = root;
            proof {
                if k == n {
                    assert(rest.take(k - start) =~= rest);
                }
                assert(pieces[0] == entry@);
                assert(apply_routes(before, pieces) == apply_routes(
                    apply_route(before, entry@),
                    pieces.drop_first(),
                ));
            }
            root = apply_route_text(root, entry);
            if k == n {
                assert(pieces.drop_first().len() == 0);
                assert(apply_routes(root, pieces.drop_first()) == root);
                return Config { fallthrough: root };
            }
            proof {
                assert(rest.skip(k - start + 1) =~= s.skip(k + 1));
                assert(pieces.drop_first() =~= split(s.skip(k + 1), ','));
            }
            start = k + 1;
        }
    }
}

impl std::str::FromStr for Config {
    type Err = void::Void;

    /// Parses like `Config::parse`: always `Ok`, with a usable configuration.
    fn from_str(val: &str) -> (r: Result<Config, void::Void>)
        ensures
            r == Ok::<Config, void::Void>(config_of(val@)),
            r matches Ok(c) && c.wf(),
    {
        Ok(Config::parse(val))
    }
}

/// The configuration in force when the environment holds `env_value` and
/// the caller's default is `default`: a present, non-empty value is parsed
/// and overrides the default; an absent or empty one leaves the default.
pub fn effective_config(env_value: Option<&str>, default: &Config) -> (r: Config)
    ensures
        r == (match env_value {
            Some(v) => if v@.len() > 0 {
                config_of(v@)
            } else {
                *default
            },
            None => *default,
        }),
{
    match env_value {
        Some(v) => {
            if v.unicode_len() > 0 {
                Config::parse(v)
            } else {
                *default
            }
        },
        None => *default,
    }
}

} // verus!
