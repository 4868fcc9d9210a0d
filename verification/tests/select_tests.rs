use sdkpath::record::{display_option, Sdk};
use sdkpath::select::{best_match, choose_action, query_output, resolve_path, SdkAction};
use sdkpath::order::{dedup_records, sort_records, str_eq, str_le};

fn record(display: &str, build: Option<&str>, path: &str) -> Sdk {
    Sdk {
        canonical_name: format!("id.{}", display),
        display_name: display.to_string(),
        is_base_sdk: false,
        platform: "platform".to_string(),
        platform_path: "/platform".to_string(),
        platform_version: "1.0".to_string(),
        sdk_path: path.to_string(),
        sdk_version: "1.0".to_string(),
        build_id: build.map(|s| s.to_string()),
        product_build_version: None,
        product_copyright: None,
        product_name: None,
        product_version: None,
        i_ossupport_version: None,
        product_user_visible_version: None,
    }
}

#[test]
fn sort_by_display_name() {
    let v = vec![
        record("iPhoneOS17.0.sdk", Some("b"), "/p1"),
        record("MacOSX14.0.sdk", Some("a"), "/p2"),
        record("AppleTVOS17.0.sdk", Some("c"), "/p3"),
    ];
    let sorted = sort_records(v, true);
    let names: Vec<&str> = sorted.iter().map(|r| r.display_name.as_str()).collect();
    assert_eq!(names, vec!["AppleTVOS17.0.sdk", "MacOSX14.0.sdk", "iPhoneOS17.0.sdk"]);
}

#[test]
fn sort_by_build_id_absent_first() {
    let v = vec![
        record("b", Some("22X100"), "/p1"),
        record("a", None, "/p2"),
        record("c", Some("21A5248v"), "/p3"),
    ];
    let sorted = sort_records(v, false);
    let builds: Vec<Option<&str>> = sorted.iter().map(|r| r.build_id.as_deref()).collect();
    assert_eq!(builds, vec![None, Some("21A5248v"), Some("22X100")]);
}

#[test]
fn dedup_shared_build_id_keeps_first() {
    // two records share a build id; after dedup exactly one survives, the
    // earlier of the two in the input order, since the sort is stable
    let v = vec![
        record("MacOSX14.0.sdk", Some("21A5248v"), "/mac"),
        record("DriverKit23.0.sdk", Some("21A5248v"), "/driver"),
        record("iPhoneOS17.0.sdk", Some("21F79"), "/ios"),
    ];
    let sorted = sort_records(v, false);
    let deduped = dedup_records(sorted);
    assert_eq!(deduped.len(), 2);
    let shared: Vec<&Sdk> = deduped
        .iter()
        .filter(|r| r.build_id.as_deref() == Some("21A5248v"))
        .collect();
    assert_eq!(shared.len(), 1);
    assert_eq!(shared[0].display_name, "MacOSX14.0.sdk");
}

#[test]
fn dedup_absent_build_ids_collapse() {
    let v = vec![
        record("a", None, "/p1"),
        record("b", None, "/p2"),
        record("c", Some("21A5248v"), "/p3"),
    ];
    let deduped = dedup_records(sort_records(v, false));
    assert_eq!(deduped.len(), 2);
    assert_eq!(deduped[0].display_name, "a");
    assert_eq!(deduped[1].display_name, "c");
}

#[test]
fn dedup_idempotent() {
    let v = vec![
        record("a", Some("x"), "/p1"),
        record("b", Some("x"), "/p2"),
        record("c", Some("y"), "/p3"),
    ];
    let once = dedup_records(sort_records(v, false));
    let twice = dedup_records(once.clone());
    assert_eq!(once.len(), twice.len());
    for (r1, r2) in once.iter().zip(twice.iter()) {
        assert_eq!(r1.display_name, r2.display_name);
        assert_eq!(r1.build_id, r2.build_id);
    }
}

#[test]
fn best_match_picks_highest_score() {
    let v = vec![
        record("MacOSX14.0.sdk", Some("a"), "/mac"),
        record("iPhoneOS17.0.sdk", Some("b"), "/ios"),
    ];
    let i = best_match(&v, "OS17");
    assert_eq!(i, 1);
    let j = best_match(&v, "OSX14");
    assert_eq!(j, 0);
}

#[test]
fn best_match_tie_keeps_first() {
    let v = vec![
        record("MacOSX14.0.sdk", Some("a"), "/mac"),
        record("iPhoneOS17.0.sdk", Some("b"), "/ios"),
    ];
    // no trigram of the query occurs in either name: every score is zero
    let i = best_match(&v, "zzz");
    assert_eq!(i, 0);
}

#[test]
fn query_selects_mac_record() {
    // two records without build ids collapse to the first, the MacOSX one,
    // and the default action prints its sdk path unchanged
    let v = vec![
        record("MacOSX14.0.sdk", None, "/Applications/Xcode.app/MacOSX14.0.sdk"),
        record("iPhoneOS17.0.sdk", None, "/Applications/Xcode.app/iPhoneOS17.0.sdk"),
    ];
    let out = query_output(v, "mac", false);
    assert_eq!(out.as_deref(), Some("/Applications/Xcode.app/MacOSX14.0.sdk"));
    assert_eq!(choose_action(false, false, false), SdkAction::PrintPath);
}

#[test]
fn query_empty_records_gives_nothing() {
    let out = query_output(Vec::new(), "mac", false);
    assert!(out.is_none());
}

#[test]
fn query_with_frameworks_flag() {
    let v = vec![record("MacOSX14.0.sdk", None, "/sdks/MacOSX14.0.sdk")];
    let out = query_output(v, "MacOSX", true);
    assert_eq!(out.as_deref(), Some("/sdks/MacOSX14.0.sdk/System/Library/Frameworks"));
}

#[test]
fn resolved_path_no_trailing_newline() {
    // what would be copied to the clipboard is exactly the path
    let v = vec![record("MacOSX14.0.sdk", None, "/sdks/MacOSX14.0.sdk")];
    let out = query_output(v, "MacOSX", false).unwrap();
    assert_eq!(out, "/sdks/MacOSX14.0.sdk");
    assert!(!out.ends_with('\n'));
    assert_eq!(choose_action(false, false, true), SdkAction::CopyPath);
}

#[test]
fn resolve_path_cases() {
    assert_eq!(resolve_path("/a/b", false), "/a/b");
    assert_eq!(resolve_path("/a/b", true), "/a/b/System/Library/Frameworks");
    assert_eq!(resolve_path("/a/b/", true), "/a/b/System/Library/Frameworks");
    assert_eq!(resolve_path("", true), "System/Library/Frameworks");
}

#[test]
fn action_priority_order() {
    assert_eq!(choose_action(true, true, true), SdkAction::Open);
    assert_eq!(choose_action(false, true, true), SdkAction::Reveal);
    assert_eq!(choose_action(false, false, true), SdkAction::CopyPath);
    assert_eq!(choose_action(false, false, false), SdkAction::PrintPath);
}

#[test]
fn display_option_absent_is_empty() {
    assert_eq!(display_option(&None), "");
    assert_eq!(display_option(&Some("14.0".to_string())), "14.0");
}

#[test]
fn string_order_is_lexicographic() {
    assert!(str_le("", "a"));
    assert!(str_le("abc", "abd"));
    assert!(!str_le("abd", "abc"));
    assert!(str_le("ab", "abc"));
    assert!(!str_le("abc", "ab"));
    assert!(str_le("MacOSX", "iPhone"));
    assert!(str_eq("abc", "abc"));
    assert!(!str_eq("abc", "abd"));
}
