//! The record that describes one installed SDK variant.

use vstd::prelude::*;

verus! {

/// One installed SDK variant, as reported by the external SDK enumerator.
///
/// All path-valued fields are held as plain strings; `build_id` and the
/// `product_*` fields are optional metadata that may be absent from the
/// enumerator's output.
#[derive(Clone, Debug)]
pub struct Sdk {
    pub canonical_name: String,
    pub display_name: String,
    pub is_base_sdk: bool,
    pub platform: String,
    pub platform_path: String,
    pub platform_version: String,
    pub sdk_path: String,
    pub sdk_version: String,
    pub build_id: Option<String>,
    pub product_build_version: Option<String>,
    pub product_copyright: Option<String>,
    pub product_name: Option<String>,
    pub product_version: Option<String>,
    pub i_ossupport_version: Option<String>,
    pub product_user_visible_version: Option<String>,
}

/// How an optional field is shown: its value when present, empty when absent.
pub open spec fn opt_display(o: Option<String>) -> Seq<char> {
    match o {
        Option::Some(s) => s@,
        Option::None => Seq::<char>::empty(),
    }
}

/// Renders an optional field for display: the contained string when present,
/// the empty string when absent.
pub fn display_option(option: &Option<String>) -> (r: String)
    ensures
        r@ == opt_display(*option),
{
    match option {
        Option::Some(s) => s.clone(),
        Option::None => String::new(),
    }
}

/// The key that deduplication and query-mode sorting use: the record's
/// `build_id`, with all absent values equal to one another.
pub open spec fn build_key(r: Sdk) -> Option<Seq<char>> {
    match r.build_id {
        Option::Some(s) => Option::Some(s@),
        Option::None => Option::None,
    }
}

/// The key that listing mode sorts by: the record's display name.
pub open spec fn name_key(r: Sdk) -> Seq<char> {
    r.display_name@
}

} // verus!
