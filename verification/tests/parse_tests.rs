use sdkpath::parse::{parse_sdks, sdk_from_fields, FieldValue, ParseError};

const GOOD: &str = r#"[
  {
    "canonicalName": "macosx14.0",
    "displayName": "MacOSX14.0.sdk",
    "isBaseSdk": true,
    "platform": "macosx",
    "platformPath": "/platforms/MacOSX.platform",
    "platformVersion": "14.0",
    "sdkPath": "/sdks/MacOSX14.0.sdk",
    "sdkVersion": "14.0",
    "buildID": "21A5248v",
    "productBuildVersion": "23A334",
    "productCopyright": "1983-2023 Apple Inc.",
    "productName": "macOS",
    "productVersion": "14.0",
    "iOSSupportVersion": "17.0",
    "productUserVisibleVersion": "14.0"
  },
  {
    "canonicalName": "iphoneos17.0",
    "displayName": "iPhoneOS17.0.sdk",
    "isBaseSdk": false,
    "platform": "iphoneos",
    "platformPath": "/platforms/iPhoneOS.platform",
    "platformVersion": "17.0",
    "sdkPath": "/sdks/iPhoneOS17.0.sdk",
    "sdkVersion": "17.0",
    "productCopyright": null
  }
]"#;

#[test]
fn parse_full_record() {
    let sdks = parse_sdks(GOOD).unwrap();
    assert_eq!(sdks.len(), 2);
    let mac = &sdks[0];
    assert_eq!(mac.canonical_name, "macosx14.0");
    assert_eq!(mac.display_name, "MacOSX14.0.sdk");
    assert!(mac.is_base_sdk);
    assert_eq!(mac.platform, "macosx");
    assert_eq!(mac.platform_path, "/platforms/MacOSX.platform");
    assert_eq!(mac.platform_version, "14.0");
    assert_eq!(mac.sdk_path, "/sdks/MacOSX14.0.sdk");
    assert_eq!(mac.sdk_version, "14.0");
    assert_eq!(mac.build_id.as_deref(), Some("21A5248v"));
    assert_eq!(mac.product_build_version.as_deref(), Some("23A334"));
    assert_eq!(mac.product_copyright.as_deref(), Some("1983-2023 Apple Inc."));
    assert_eq!(mac.product_name.as_deref(), Some("macOS"));
    assert_eq!(mac.product_version.as_deref(), Some("14.0"));
    assert_eq!(mac.i_ossupport_version.as_deref(), Some("17.0"));
    assert_eq!(mac.product_user_visible_version.as_deref(), Some("14.0"));
}

#[test]
fn parse_absent_and_null_optionals() {
    let sdks = parse_sdks(GOOD).unwrap();
    let ios = &sdks[1];
    assert_eq!(ios.build_id, None);
    assert_eq!(ios.product_build_version, None);
    assert_eq!(ios.product_copyright, None);
    assert_eq!(ios.product_name, None);
    assert_eq!(ios.i_ossupport_version, None);
}

#[test]
fn parse_rejects_bad_syntax() {
    assert_eq!(parse_sdks("not json").unwrap_err(), ParseError::Syntax);
    assert_eq!(parse_sdks("[{]").unwrap_err(), ParseError::Syntax);
}

#[test]
fn parse_rejects_non_array_root() {
    assert_eq!(parse_sdks("{}").unwrap_err(), ParseError::NotArray);
    assert_eq!(parse_sdks("\"x\"").unwrap_err(), ParseError::NotArray);
}

#[test]
fn parse_rejects_non_object_element() {
    assert_eq!(parse_sdks("[3]").unwrap_err(), ParseError::NotObject);
}

#[test]
fn parse_rejects_missing_required_field() {
    let json = r#"[{"canonicalName": "x"}]"#;
    assert_eq!(parse_sdks(json).unwrap_err(), ParseError::BadField);
}

#[test]
fn parse_rejects_wrong_field_type() {
    let json = r#"[
      {
        "canonicalName": "x",
        "displayName": 5,
        "isBaseSdk": true,
        "platform": "p",
        "platformPath": "/p",
        "platformVersion": "1",
        "sdkPath": "/s",
        "sdkVersion": "1"
      }
    ]"#;
    assert_eq!(parse_sdks(json).unwrap_err(), ParseError::BadField);
    let json2 = json.replace("\"displayName\": 5", "\"displayName\": \"d\", \"buildID\": 7");
    assert_eq!(parse_sdks(&json2).unwrap_err(), ParseError::BadField);
}

#[test]
fn parse_empty_array() {
    let sdks = parse_sdks("[]").unwrap();
    assert!(sdks.is_empty());
}

#[test]
fn parse_ignores_unknown_fields() {
    let json = r#"[
      {
        "canonicalName": "x",
        "displayName": "d",
        "isBaseSdk": false,
        "platform": "p",
        "platformPath": "/p",
        "platformVersion": "1",
        "sdkPath": "/s",
        "sdkVersion": "1",
        "somethingElse": {"nested": [1, 2, 3]}
      }
    ]"#;
    let sdks = parse_sdks(json).unwrap();
    assert_eq!(sdks.len(), 1);
    assert_eq!(sdks[0].display_name, "d");
}

#[test]
fn schema_mapping_direct() {
    let fields = vec![
        ("canonicalName".to_string(), FieldValue::Str("x".to_string())),
        ("displayName".to_string(), FieldValue::Str("d".to_string())),
        ("isBaseSdk".to_string(), FieldValue::Bool(true)),
        ("platform".to_string(), FieldValue::Str("p".to_string())),
        ("platformPath".to_string(), FieldValue::Str("/p".to_string())),
        ("platformVersion".to_string(), FieldValue::Str("1".to_string())),
        ("sdkPath".to_string(), FieldValue::Str("/s".to_string())),
        ("sdkVersion".to_string(), FieldValue::Str("1".to_string())),
        ("buildID".to_string(), FieldValue::Str("21A5248v".to_string())),
        ("productName".to_string(), FieldValue::Null),
    ];
    let rec = sdk_from_fields(&fields).unwrap();
    assert_eq!(rec.display_name, "d");
    assert!(rec.is_base_sdk);
    assert_eq!(rec.build_id.as_deref(), Some("21A5248v"));
    assert_eq!(rec.product_name, None);
    assert_eq!(rec.product_version, None);
    let bad = vec![("canonicalName".to_string(), FieldValue::Num)];
    assert!(sdk_from_fields(&bad).is_err());
}

#[test]
fn parse_error_names_first_failure() {
    // the first failing element decides which error comes back
    let bad_field_first = r#"[{"canonicalName": 1}, 3]"#;
    assert_eq!(parse_sdks(bad_field_first).unwrap_err(), ParseError::BadField);
    let non_object_first = r#"[3, {"canonicalName": 1}]"#;
    assert_eq!(parse_sdks(non_object_first).unwrap_err(), ParseError::NotObject);
}
