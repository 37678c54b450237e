//! Strings, ordered collections and clocks.

use nix_tools::model::{manifest_millis, Clock, EngineError, SystemClock, TargetKind};
use nix_tools::ordered::{sorted, StringMap, StringSet};
use nix_tools::outcome::{Error, ErrorKind};
use nix_tools::store::{derivation_build_label, store_derivation};
use nix_tools::text;
use nix_tools::ui::model::Model;

#[test]
fn clock_readings_fit_a_manifest() {
    assert_eq!(manifest_millis(None), 0);
    assert_eq!(manifest_millis(Some(7)), 7);
    assert_eq!(manifest_millis(Some(u128::from(u64::MAX) + 1)), u64::MAX);
    assert!(SystemClock.now_millis() > 1_600_000_000_000);
}

#[test]
fn a_display_keeps_time_by_itself() {
    let model = Model::new("check");
    let before = model.elapsed();
    std::hint::black_box((0..100_000u64).sum::<u64>());
    assert!(model.elapsed() >= before);
}

#[test]
fn maps_list_their_keys_in_order() {
    let mut map = StringMap::new();
    for (key, value) in [("b", 1), ("π", 2), ("a", 3), ("b", 4)] {
        map.insert(key.to_owned(), value);
    }
    let keys: Vec<&String> = (0..map.len()).map(|index| map.key_at(index)).collect();
    assert_eq!(keys, ["a", "b", "π"]);
    assert_eq!(map.get("b"), Some(&4));
    assert_eq!(map.remove("a"), Some(3));
    assert_eq!(map.remove("a"), None);
    assert_eq!(map.len(), 2);
    assert!(!map.contains_key("a"));
}

#[test]
fn sets_hold_a_member_once() {
    let mut set = StringSet::new();
    assert!(set.insert("b".to_owned()));
    assert!(set.insert("a".to_owned()));
    assert!(!set.insert("b".to_owned()));
    assert_eq!(set.to_list(), ["a", "b"]);
    assert_eq!(sorted(&["b".to_owned(), "a".to_owned(), "b".to_owned()]), ["a", "b"]);
}

#[test]
fn strings_compare_by_code_point() {
    assert_eq!(text::compare("a", "b"), text::Order::Before);
    assert_eq!(text::compare("ab", "a"), text::Order::After);
    assert_eq!(text::compare("π", "π"), text::Order::Same);
    assert!(text::contains("nix-tools", "x-t"));
    assert!(!text::contains("nix-tools", "xt"));
    assert!(text::ends_with("a.drv", ".drv"));
    assert_eq!(text::decimal(0), "0");
    assert_eq!(text::decimal(1_208), "1208");
    assert_eq!(text::signed(i32::MIN), "-2147483648");
    assert_eq!(text::byte_len("π"), 2);
    assert_eq!(text::lines("a\n\nb"), ["a", "", "b"]);
    assert_eq!(text::join(&vec!["a".to_owned(), "b".to_owned()], ", "), "a, b");
}

#[test]
fn store_paths_name_their_derivations() {
    assert_eq!(
        derivation_build_label("/nix/store/aaaaaaaaaaaaaaaaaaaaaaaaaaaaaaaa-core-1.0.drv"),
        "core-1.0"
    );
    assert_eq!(derivation_build_label("plain.drv"), "plain");
    assert!(store_derivation("/nix/store/aaaaaaaaaaaaaaaaaaaaaaaaaaaaaaaa-core.drv"));
    assert!(!store_derivation("../core.drv"));
}

#[test]
fn errors_carry_kind_words_and_status() {
    let error = Error::cancelled(200, "late".to_owned());
    assert_eq!((error.kind, error.exit_code), (ErrorKind::Cancelled, 1));
    assert_eq!(Error::cancelled(2, String::new()).exit_code, 130);
    assert_eq!(Error::child(0, String::new()).exit_code, 1);
    assert_eq!(Error::child(300, String::new()).exit_code, 1);
    assert_eq!(Error::child(7, String::new()).exit_code, 7);
    let engine = EngineError::new("code", "words".to_owned());
    assert_eq!((engine.code(), engine.message()), ("code", "words"));
    assert_eq!(TargetKind::App.as_str(), "app");
    assert_eq!(TargetKind::Check.attribute(), "checks");
}
