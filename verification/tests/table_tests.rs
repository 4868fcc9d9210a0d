use sdkpath::record::Sdk;
use sdkpath::table::listing_output;

fn record(display: &str, product_name: Option<&str>) -> Sdk {
    Sdk {
        canonical_name: format!("canonical.{}", display),
        display_name: display.to_string(),
        is_base_sdk: display.starts_with("MacOSX"),
        platform: "platform".to_string(),
        platform_path: "/hidden/platform/path".to_string(),
        platform_version: "14.0".to_string(),
        sdk_path: "/hidden/sdk/path".to_string(),
        sdk_version: "14.0".to_string(),
        build_id: Some("hiddenbuild".to_string()),
        product_build_version: None,
        product_copyright: Some("hidden copyright".to_string()),
        product_name: product_name.map(|s| s.to_string()),
        product_version: None,
        i_ossupport_version: Some("hidden support".to_string()),
        product_user_visible_version: Some("hidden visible".to_string()),
    }
}

#[test]
fn listing_is_a_table_sorted_by_display_name() {
    let v = vec![
        record("iPhoneOS17.0.sdk", Some("iOS")),
        record("MacOSX14.0.sdk", Some("macOS")),
    ];
    let out = listing_output(v);
    // a rendered grid, not the raw cells handed back
    assert!(out.contains('|'));
    assert!(out.contains('+'));
    // header row present
    assert!(out.contains("display_name"));
    assert!(out.contains("is_base_sdk"));
    assert!(out.contains("product_version"));
    // rows ordered by display name ascending: capitals sort first
    let mac = out.find("MacOSX14.0.sdk").unwrap();
    let ios = out.find("iPhoneOS17.0.sdk").unwrap();
    assert!(mac < ios);
    // shown values
    assert!(out.contains("true"));
    assert!(out.contains("false"));
    assert!(out.contains("macOS"));
}

#[test]
fn listing_excludes_hidden_columns() {
    let v = vec![record("MacOSX14.0.sdk", Some("macOS"))];
    let out = listing_output(v);
    assert!(!out.contains("canonical.MacOSX14.0.sdk"));
    assert!(!out.contains("/hidden/platform/path"));
    assert!(!out.contains("/hidden/sdk/path"));
    assert!(!out.contains("hiddenbuild"));
    assert!(!out.contains("hidden copyright"));
    assert!(!out.contains("hidden support"));
    assert!(!out.contains("hidden visible"));
}

#[test]
fn listing_absent_optionals_render_empty() {
    let v = vec![record("MacOSX14.0.sdk", None)];
    let out = listing_output(v);
    // the product_name column exists, and the record's cell under it is blank
    assert!(out.contains("product_name"));
    for line in out.lines().filter(|l| l.contains("MacOSX14.0.sdk")) {
        let cells: Vec<&str> = line.split('|').map(|c| c.trim()).collect();
        // column order: display_name, is_base_sdk, platform, platform_version,
        // sdk_version, product_build_version, product_name, product_version
        assert_eq!(cells[1], "MacOSX14.0.sdk");
        assert_eq!(cells[6], "");
        assert_eq!(cells[7], "");
        assert_eq!(cells[8], "");
    }
}
