use ns_env_config::config::effective_config;
use ns_env_config::{Config, Route, Std};

fn std_route(poll_ivl: u64, threads: u32) -> Std {
    let mut s = Std::default();
    s.poll_ivl = poll_ivl;
    s.threads = threads;
    s
}

fn std_config(poll_ivl: u64, threads: u32) -> Config {
    let mut c = Config::default();
    c.fallthrough = Route::Std(std_route(poll_ivl, threads));
    c
}

fn parsed(text: &str) -> Config {
    text.parse().unwrap()
}

fn assert_usable(c: &Config) {
    if let Route::Std(s) = c.fallthrough {
        assert!(s.poll_ivl >= 1);
        assert!(s.threads >= 1);
    } else {
        panic!("the fallthrough route is not std");
    }
}

#[test]
fn test_default_std() {
    assert_eq!(Config::default(), "".parse().unwrap());
    assert_eq!(Config::default(), "std".parse().unwrap());
    assert_eq!(std_config(2, 4), "std:poll_ivl=2".parse().unwrap());
    assert_eq!(std_config(1, 7), "std:threads=7".parse().unwrap());
    assert_eq!(std_config(7, 1), "std:threads=1:poll_ivl=7".parse().unwrap());
}

#[test]
fn default_values() {
    assert_eq!(Std::default(), std_route(1, 4));
    assert_eq!(Route::default(), Route::Std(std_route(1, 4)));
    assert_eq!(Config::default(), std_config(1, 4));
}

#[test]
fn parse_matches_from_str() {
    for text in ["", "std", "std:threads=3", "garbage", "std:poll_ivl=9,x"] {
        assert_eq!(Config::parse(text), parsed(text));
    }
}

#[test]
fn unknown_route_is_ignored() {
    assert_eq!(parsed("dns:threads=9"), Config::default());
    assert_eq!(parsed("stdx:threads=9"), Config::default());
    assert_eq!(parsed("STD:threads=9"), Config::default());
}

#[test]
fn sub_resolver_entry_is_ignored() {
    assert_eq!(parsed("std=other:threads=9"), Config::default());
    assert_eq!(parsed("std:threads=2,std=x:threads=9"), std_config(1, 2));
}

#[test]
fn unknown_option_is_ignored() {
    assert_eq!(parsed("std:colour=blue:threads=3"), std_config(1, 3));
    assert_eq!(parsed("std:threads"), Config::default());
    assert_eq!(parsed("std::threads=5:"), std_config(1, 5));
}

#[test]
fn malformed_numbers_keep_defaults() {
    assert_eq!(parsed("std:threads=x"), Config::default());
    assert_eq!(parsed("std:threads="), Config::default());
    assert_eq!(parsed("std:threads=-3"), Config::default());
    assert_eq!(parsed("std:threads=3s"), Config::default());
    assert_eq!(parsed("std:threads=+"), Config::default());
    assert_eq!(parsed("std:poll_ivl=1.5"), Config::default());
    assert_eq!(parsed("std:poll_ivl= 2"), Config::default());
}

#[test]
fn zero_is_not_a_valid_value() {
    assert_eq!(parsed("std:threads=0"), Config::default());
    assert_eq!(parsed("std:poll_ivl=0"), Config::default());
    assert_eq!(parsed("std:poll_ivl=000"), Config::default());
}

#[test]
fn number_forms() {
    assert_eq!(parsed("std:threads=+5"), std_config(1, 5));
    assert_eq!(parsed("std:threads=007"), std_config(1, 7));
    assert_eq!(parsed("std:poll_ivl=120"), std_config(120, 4));
}

#[test]
fn largest_values() {
    assert_eq!(parsed("std:threads=4294967295"), std_config(1, u32::MAX));
    assert_eq!(parsed("std:threads=4294967296"), Config::default());
    assert_eq!(
        parsed("std:poll_ivl=18446744073709551615"),
        std_config(u64::MAX, 4)
    );
    assert_eq!(parsed("std:poll_ivl=18446744073709551616"), Config::default());
    assert_eq!(parsed("std:poll_ivl=99999999999999999999999"), Config::default());
}

#[test]
fn later_settings_win() {
    assert_eq!(parsed("std:threads=2:threads=6"), std_config(1, 6));
    assert_eq!(parsed("std:threads=2:threads=bad"), std_config(1, 2));
    assert_eq!(parsed("std:threads=2,std:poll_ivl=3"), std_config(3, 4));
    assert_eq!(parsed("std:threads=2,other:x=1"), std_config(1, 2));
}

#[test]
fn garbage_gives_usable_config() {
    for text in [
        ",,,", ":", "=", "std:", "std,", "::==::", "std:=5", "\u{e9}t\u{e9}:threads=2",
        "std:threads=\u{0663}", "std:poll_ivl=2:threads=\u{ff11}", "std:threads=1=2",
    ] {
        assert_usable(&parsed(text));
    }
    assert_eq!(parsed("std:threads=1=2"), Config::default());
    assert_eq!(parsed("std:threads=\u{0663}"), Config::default());
}

#[test]
fn options_parsed_alone() {
    assert_eq!(Std::parse_options(""), Std::default());
    assert_eq!(Std::parse_options("threads=3:poll_ivl=8"), std_route(8, 3));
    assert_eq!(Std::parse_options("poll_ivl=8:bogus"), std_route(8, 4));
}

#[test]
fn environment_value_overrides_default() {
    let fallback = std_config(5, 2);
    assert_eq!(effective_config(None, &fallback), fallback);
    assert_eq!(effective_config(Some(""), &fallback), fallback);
    assert_eq!(effective_config(Some("std"), &fallback), Config::default());
    assert_eq!(effective_config(Some("std:threads=9"), &fallback), std_config(1, 9));
    assert_eq!(effective_config(Some("junk"), &fallback), Config::default());
}

#[test]
fn pool_size_needs_a_thread() {
    assert_eq!(std_route(1, 3).pool_size(), Some(3));
    assert_eq!(std_route(1, 0).pool_size(), None);
    assert_eq!(Std::default().pool_size(), Some(4));
}
