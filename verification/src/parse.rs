//! Parsing the SDK listing: serde_json reads the document, and the schema
//! mapping from the external tool's field names to records is verified.

use vstd::prelude::*;

use crate::order::opt_view;
use crate::record::Sdk;

verus! {

/// serde_json's JSON value type, declared so that the wrappers below can
/// take a reference to one; the crate never looks inside a value directly.
#[verifier::external_type_specification]
#[verifier::external_body]
pub struct ExValue(serde_json::Value);

/// Whether serde_json accepts `s` as a JSON document.
pub uninterp spec fn json_parses(s: Seq<char>) -> bool;

/// What the document `s` holds, as far as the record schema reads it.
/// `None` when the root is not an array. Otherwise one entry per element
/// of the root array: `None` for an element that is not an object, and for
/// an object its fields, keyed as serde_json holds them. The parse is a
/// function of the text alone.
pub uninterp spec fn doc_elems(s: Seq<char>) -> Option<Seq<Option<Seq<(String, FieldValue)>>>>;

/// The elements of the document's root array.
pub open spec fn elems_of(s: Seq<char>) -> Seq<Option<Seq<(String, FieldValue)>>> {
    doc_elems(s)->0
}

/// What one field of a parsed JSON object holds, as far as the record
/// schema cares: strings and booleans are kept, everything else only by
/// kind.
pub enum FieldValue {
    Null,
    Bool(bool),
    Str(String),
    Num,
    Arr,
    Obj,
}

/// Why a listing was refused.
#[derive(Clone, Copy, Debug, PartialEq, Eq, Structural)]
pub enum ParseError {
    /// The text is not a JSON document.
    Syntax,
    /// The document's root is not an array.
    NotArray,
    /// An element of the array is not an object.
    NotObject,
    /// A field required by the schema is missing or has the wrong type.
    BadField,
}

/// Relies on serde_json::from_str for serde_json::Value: whether the text
/// is a JSON document. The parse never panics and depends on the text
/// alone.
#[verifier::external_body]
fn json_ok(s: &str) -> (r: bool)
    ensures
        r == json_parses(s@),
{
    serde_json::from_str::<serde_json::Value>(s).is_ok()
}

/// Relies on serde_json::from_str and Value::as_array: how many elements
/// the document's root array has, or nothing when the root is not an
/// array.
#[verifier::external_body]
fn root_elem_count(s: &str) -> (r: Option<usize>)
    requires
        json_parses(s@),
    ensures
        r is Some <==> doc_elems(s@) is Some,
        r is Some ==> r->0 == elems_of(s@).len(),
{
    let v: serde_json::Value = serde_json::from_str(s).ok()?;
    v.as_array().map(|a| a.len())
}

/// Relies on serde_json::from_str, Value::as_array, Value::get and
/// Value::as_object: the fields of the i-th element of the root array, or
/// nothing when that element is not an object.
#[verifier::external_body]
fn element_fields(s: &str, i: usize) -> (r: Option<Vec<(String, FieldValue)>>)
    requires
        json_parses(s@),
        doc_elems(s@) is Some,
        i < elems_of(s@).len(),
    ensures
        r is Some <==> elems_of(s@)[i as int] is Some,
        r is Some ==> r->0@ == elems_of(s@)[i as int]->0,
{
    let v: serde_json::Value = serde_json::from_str(s).ok()?;
    let obj = v.as_array()?.get(i)?.as_object()?;
    Some(obj.iter().map(|(k, fv)| (k.clone(), value_into_field(fv))).collect())
}

/// Relies on serde_json::Value: tells the kinds of value apart, handing
/// strings and booleans over unchanged.
#[verifier::external_body]
fn value_into_field(v: &serde_json::Value) -> (r: FieldValue)
{
    match v {
        serde_json::Value::Null => FieldValue::Null,
        serde_json::Value::Bool(b) => FieldValue::Bool(*b),
        serde_json::Value::String(s) => FieldValue::Str(s.clone()),
        serde_json::Value::Number(_) => FieldValue::Num,
        serde_json::Value::Array(_) => FieldValue::Arr,
        serde_json::Value::Object(_) => FieldValue::Obj,
    }
}

/// The first field named `key`, when there is one.
pub open spec fn lookup(fs: Seq<(String, FieldValue)>, key: Seq<char>) -> Option<FieldValue>
    decreases fs.len(),
{
    if fs.len() == 0 {
        Option::None
    } else if fs[0].0@ == key {
        Option::Some(fs[0].1)
    } else {
        lookup(fs.skip(1), key)
    }
}

/// A required string field: its characters when present with the right
/// type, nothing otherwise.
pub open spec fn req_str_spec(fs: Seq<(String, FieldValue)>, key: Seq<char>) -> Option<Seq<char>> {
    match lookup(fs, key) {
        Option::Some(FieldValue::Str(s)) => Option::Some(s@),
        _ => Option::None,
    }
}

/// An optional string field is well-formed when it is absent, null, or a
/// string.
pub open spec fn opt_ok_spec(fs: Seq<(String, FieldValue)>, key: Seq<char>) -> bool {
    match lookup(fs, key) {
        Option::None => true,
        Option::Some(FieldValue::Null) => true,
        Option::Some(FieldValue::Str(_)) => true,
        _ => false,
    }
}

/// The value of an optional string field: its characters when it is a
/// string, nothing when it is absent or null.
pub open spec fn opt_str_spec(fs: Seq<(String, FieldValue)>, key: Seq<char>) -> Option<Seq<char>> {
    match lookup(fs, key) {
        Option::Some(FieldValue::Str(s)) => Option::Some(s@),
        _ => Option::None,
    }
}

/// A required boolean field.
pub open spec fn bool_spec(fs: Seq<(String, FieldValue)>, key: Seq<char>) -> Option<bool> {
    match lookup(fs, key) {
        Option::Some(FieldValue::Bool(b)) => Option::Some(b),
        _ => Option::None,
    }
}

/// Skipping fields whose keys all differ from `key` does not change the
/// lookup.
proof fn lemma_lookup_skip(fs: Seq<(String, FieldValue)>, key: Seq<char>, j: int)
    requires
        0 <= j <= fs.len(),
        forall|m: int| 0 <= m < j ==> (#[trigger] fs[m].0)@ != key,
    ensures
        lookup(fs, key) == lookup(fs.skip(j), key),
    decreases j,
{
    if j == 0 {
        assert(fs.skip(0) =~= fs);
    } else {
        assert(fs[0].0@ != key);
        assert(lookup(fs, key) == lookup(fs.skip(1), key));
        assert forall|m: int| 0 <= m < j - 1 implies (#[trigger] fs.skip(1)[m].0)@ != key by {
            assert(fs.skip(1)[m] == fs[m + 1]);
        }
        lemma_lookup_skip(fs.skip(1), key, j - 1);
        assert(fs.skip(1).skip(j - 1) =~= fs.skip(j));
    }
}

/// Finds the first field named `key`.
#[verifier::loop_isolation(false)]
fn find_field(fields: &Vec<(String, FieldValue)>, key: &str) -> (r: Option<usize>)
    ensures
        match r {
            Option::None => lookup(fields@, key@) is None,
            Option::Some(i) => i < fields@.len() && lookup(fields@, key@) == Option::Some(
                fields@[i as int].1,
            ),
        },
{
    let n = fields.len();
    let mut j: usize = 0;
    while j < n
        invariant
            j <= n,
            forall|m: int| 0 <= m < j ==> (#[trigger] fields@[m].0)@ != key@,
        decreases n - j,
    {
        let hit = crate::order::str_eq(fields[j].0.as_str(), key);
        if hit {
            proof {
                lemma_lookup_skip(fields@, key@, j as int);
                assert(fields@.skip(j as int)[0] == fields@[j as int]);
            }
            return Option::Some(j);
        }
        j = j + 1;
    }
    proof {
        lemma_lookup_skip(fields@, key@, n as int);
    }
    Option::None
}

/// Reads a required string field.
fn get_req_str(fields: &Vec<(String, FieldValue)>, key: &str) -> (r: Result<String, ParseError>)
    ensures
        r is Ok <==> req_str_spec(fields@, key@) is Some,
        r is Ok ==> r->Ok_0@ == req_str_spec(fields@, key@)->0,
        r is Err ==> r->Err_0 == ParseError::BadField,
{
    match find_field(fields, key) {
        Option::Some(i) => {
            let f = &fields[i];
            match &f.1 {
                FieldValue::Str(s) => Result::Ok(s.clone()),
                _ => Result::Err(ParseError::BadField),
            }
        },
        Option::None => Result::Err(ParseError::BadField),
    }
}

/// Reads an optional string field: absent and null both give nothing.
fn get_opt_str(fields: &Vec<(String, FieldValue)>, key: &str) -> (r: Result<
    Option<String>,
    ParseError,
>)
    ensures
        r is Ok <==> opt_ok_spec(fields@, key@),
        r is Ok ==> opt_view(r->Ok_0) == opt_str_spec(fields@, key@),
        r is Err ==> r->Err_0 == ParseError::BadField,
{
    match find_field(fields, key) {
        Option::Some(i) => {
            let f = &fields[i];
            match &f.1 {
                FieldValue::Str(s) => Result::Ok(Option::Some(s.clone())),
                FieldValue::Null => Result::Ok(Option::None),
                _ => Result::Err(ParseError::BadField),
            }
        },
        Option::None => Result::Ok(Option::None),
    }
}

/// Reads a required boolean field.
fn get_bool(fields: &Vec<(String, FieldValue)>, key: &str) -> (r: Result<bool, ParseError>)
    ensures
        r is Ok <==> bool_spec(fields@, key@) is Some,
        r is Ok ==> r->Ok_0 == bool_spec(fields@, key@)->0,
        r is Err ==> r->Err_0 == ParseError::BadField,
{
    match find_field(fields, key) {
        Option::Some(i) => {
            let f = &fields[i];
            match &f.1 {
                FieldValue::Bool(b) => Result::Ok(*b),
                _ => Result::Err(ParseError::BadField),
            }
        },
        Option::None => Result::Err(ParseError::BadField),
    }
}

/// The fields make a well-formed record: every required field is present
/// with its type, and every optional field is absent, null or a string.
pub open spec fn schema_ok(fs: Seq<(String, FieldValue)>) -> bool {
    &&& req_str_spec(fs, "canonicalName"@) is Some
    &&& req_str_spec(fs, "displayName"@) is Some
    &&& bool_spec(fs, "isBaseSdk"@) is Some
    &&& req_str_spec(fs, "platform"@) is Some
    &&& req_str_spec(fs, "platformPath"@) is Some
    &&& req_str_spec(fs, "platformVersion"@) is Some
    &&& req_str_spec(fs, "sdkPath"@) is Some
    &&& req_str_spec(fs, "sdkVersion"@) is Some
    &&& opt_ok_spec(fs, "buildID"@)
    &&& opt_ok_spec(fs, "productBuildVersion"@)
    &&& opt_ok_spec(fs, "productCopyright"@)
    &&& opt_ok_spec(fs, "productName"@)
    &&& opt_ok_spec(fs, "productVersion"@)
    &&& opt_ok_spec(fs, "iOSSupportVersion"@)
    &&& opt_ok_spec(fs, "productUserVisibleVersion"@)
}

/// The record that well-formed fields describe: the schema mapping from
/// the external tool's field names to the record's own, with `buildID` and
/// `iOSSupportVersion` the two renamed fields.
pub open spec fn record_matches(fs: Seq<(String, FieldValue)>, r: Sdk) -> bool {
    &&& Option::Some(r.canonical_name@) == req_str_spec(fs, "canonicalName"@)
    &&& Option::Some(r.display_name@) == req_str_spec(fs, "displayName"@)
    &&& Option::Some(r.is_base_sdk) == bool_spec(fs, "isBaseSdk"@)
    &&& Option::Some(r.platform@) == req_str_spec(fs, "platform"@)
    &&& Option::Some(r.platform_path@) == req_str_spec(fs, "platformPath"@)
    &&& Option::Some(r.platform_version@) == req_str_spec(fs, "platformVersion"@)
    &&& Option::Some(r.sdk_path@) == req_str_spec(fs, "sdkPath"@)
    &&& Option::Some(r.sdk_version@) == req_str_spec(fs, "sdkVersion"@)
    &&& opt_view(r.build_id) == opt_str_spec(fs, "buildID"@)
    &&& opt_view(r.product_build_version) == opt_str_spec(fs, "productBuildVersion"@)
    &&& opt_view(r.product_copyright) == opt_str_spec(fs, "productCopyright"@)
    &&& opt_view(r.product_name) == opt_str_spec(fs, "productName"@)
    &&& opt_view(r.product_version) == opt_str_spec(fs, "productVersion"@)
    &&& opt_view(r.i_ossupport_version) == opt_str_spec(fs, "iOSSupportVersion"@)
    &&& opt_view(r.product_user_visible_version) == opt_str_spec(fs, "productUserVisibleVersion"@)
}

/// Builds one record from an object's fields, or refuses the object.
pub fn sdk_from_fields(fields: &Vec<(String, FieldValue)>) -> (r: Result<Sdk, ParseError>)
    ensures
        r is Ok <==> schema_ok(fields@),
        r is Ok ==> record_matches(fields@, r->Ok_0),
        r is Err ==> r->Err_0 == ParseError::BadField,
{
    let canonical_name = match get_req_str(fields, "canonicalName") {
        Result::Ok(s) => s,
        Result::Err(e) => { return Result::Err(e); },
    };
    let display_name = match get_req_str(fields, "displayName") {
        Result::Ok(s) => s,
        Result::Err(e) => { return Result::Err(e); },
    };
    let is_base_sdk = match get_bool(fields, "isBaseSdk") {
        Result::Ok(b) => b,
        Result::Err(e) => { return Result::Err(e); },
    };
    let platform = match get_req_str(fields, "platform") {
        Result::Ok(s) => s,
        Result::Err(e) => { return Result::Err(e); },
    };
    let platform_path = match get_req_str(fields, "platformPath") {
        Result::Ok(s) => s,
        Result::Err(e) => { return Result::Err(e); },
    };
    let platform_version = match get_req_str(fields, "platformVersion") {
        Result::Ok(s) => s,
        Result::Err(e) => { return Result::Err(e); },
    };
    let sdk_path = match get_req_str(fields, "sdkPath") {
        Result::Ok(s) => s,
        Result::Err(e) => { return Result::Err(e); },
    };
    let sdk_version = match get_req_str(fields, "sdkVersion") {
        Result::Ok(s) => s,
        Result::Err(e) => { return Result::Err(e); },
    };
    let build_id = match get_opt_str(fields, "buildID") {
        Result::Ok(o) => o,
        Result::Err(e) => { return Result::Err(e); },
    };
    let product_build_version = match get_opt_str(fields, "productBuildVersion") {
        Result::Ok(o) => o,
        Result::Err(e) => { return Result::Err(e); },
    };
    let product_copyright = match get_opt_str(fields, "productCopyright") {
        Result::Ok(o) => o,
        Result::Err(e) => { return Result::Err(e); },
    };
    let product_name = match get_opt_str(fields, "productName") {
        Result::Ok(o) => o,
        Result::Err(e) => { return Result::Err(e); },
    };
    let product_version = match get_opt_str(fields, "productVersion") {
        Result::Ok(o) => o,
        Result::Err(e) => { return Result::Err(e); },
    };
    let i_ossupport_version = match get_opt_str(fields, "iOSSupportVersion") {
        Result::Ok(o) => o,
        Result::Err(e) => { return Result::Err(e); },
    };
    let product_user_visible_version = match get_opt_str(fields, "productUserVisibleVersion") {
        Result::Ok(o) => o,
        Result::Err(e) => { return Result::Err(e); },
    };
    Result::Ok(
        Sdk {
            canonical_name,
            display_name,
            is_base_sdk,
            platform,
            platform_path,
            platform_version,
            sdk_path,
            sdk_version,
            build_id,
            product_build_version,
            product_copyright,
            product_name,
            product_version,
            i_ossupport_version,
            product_user_visible_version,
        },
    )
}

/// The i-th element of the root array is an object whose fields fit the
/// record schema.
pub open spec fn elem_ok(s: Seq<char>, i: int) -> bool {
    elems_of(s)[i] is Some && schema_ok(elems_of(s)[i]->0)
}

/// Every element of the root array before position `i` fits the schema.
pub open spec fn prefix_ok(s: Seq<char>, i: int) -> bool {
    forall|j: int| 0 <= j < i ==> #[trigger] elem_ok(s, j)
}

/// The text is a JSON array of objects that all fit the record schema.
pub open spec fn listing_ok(s: Seq<char>) -> bool {
    json_parses(s) && doc_elems(s) is Some && prefix_ok(s, elems_of(s).len() as int)
}

/// Parses the external tool's whole listing: a JSON array of objects, one
/// record each. Returns the records of a conforming listing; otherwise the
/// error of the first failure found, scanning the elements in order:
/// the text is not JSON, the root is not an array, an element is not an
/// object, or an object does not fit the schema.
#[verifier::loop_isolation(false)]
pub fn parse_sdks(s: &str) -> (r: Result<Vec<Sdk>, ParseError>)
    ensures
        r is Ok <==> listing_ok(s@),
        r is Ok ==> r->Ok_0@.len() == elems_of(s@).len(),
        r is Ok ==> forall|i: int|
            0 <= i < elems_of(s@).len() ==> record_matches(
                elems_of(s@)[i]->0,
                #[trigger] r->Ok_0@[i],
            ),
        r is Err && r->Err_0 == ParseError::Syntax <==> !json_parses(s@),
        r is Err && r->Err_0 == ParseError::NotArray <==> json_parses(s@) && doc_elems(s@) is None,
        r is Err && r->Err_0 == ParseError::NotObject <==> json_parses(s@) && doc_elems(s@) is Some
            && (exists|i: int|
            0 <= i < elems_of(s@).len() && elems_of(s@)[i] is None && #[trigger] prefix_ok(s@, i)),
        r is Err && r->Err_0 == ParseError::BadField <==> json_parses(s@) && doc_elems(s@) is Some
            && (exists|i: int|
            0 <= i < elems_of(s@).len() && elems_of(s@)[i] is Some && !schema_ok(
                elems_of(s@)[i]->0,
            ) && #[trigger] prefix_ok(s@, i)),
{
    if !json_ok(s) {
        return Result::Err(ParseError::Syntax);
    }
    let n = match root_elem_count(s) {
        Option::Some(n) => n,
        Option::None => { return Result::Err(ParseError::NotArray); },
    };
    let mut out: Vec<Sdk> = Vec::new();
    let mut i: usize = 0;
    while i < n
        invariant
            i <= n,
            out@.len() == i,
            prefix_ok(s@, i as int),
            forall|j: int|
                0 <= j < i ==> record_matches(elems_of(s@)[j]->0, #[trigger] out@[j]),
        decreases n - i,
    {
        let fields = match element_fields(s, i) {
            Option::Some(f) => f,
            Option::None => {
                proof {
                    lemma_first_failure(s@, i as int);
                }
                return Result::Err(ParseError::NotObject);
            },
        };
        let rec = match sdk_from_fields(&fields) {
            Result::Ok(rec) => rec,
            Result::Err(_) => {
                proof {
                    lemma_first_failure(s@, i as int);
                }
                return Result::Err(ParseError::BadField);
            },
        };
        out.push(rec);
        proof {
            assert forall|j: int| 0 <= j < i + 1 implies #[trigger] elem_ok(s@, j) by {
                if j == i {
                    assert(elems_of(s@)[j] is Some && schema_ok(elems_of(s@)[j]->0));
                }
            }
        }
        i = i + 1;
    }
    proof {
        lemma_no_failure(s@);
    }
    Result::Ok(out)
}

/// A failure at the first non-conforming element excludes a failure of the
/// other kind: every other failing position lacks a conforming prefix.
proof fn lemma_first_failure(s: Seq<char>, i: int)
    requires
        0 <= i < elems_of(s).len(),
        prefix_ok(s, i),
        !elem_ok(s, i),
    ensures
        elems_of(s)[i] is None ==> !(exists|k: int|
            0 <= k < elems_of(s).len() && elems_of(s)[k] is Some && !schema_ok(elems_of(s)[k]->0)
                && #[trigger] prefix_ok(s, k)),
        elems_of(s)[i] is Some ==> !(exists|k: int|
            0 <= k < elems_of(s).len() && elems_of(s)[k] is None && #[trigger] prefix_ok(s, k)),
        !listing_ok(s) || !json_parses(s),
{
    assert forall|k: int|
        0 <= k < elems_of(s).len() && !elem_ok(s, k) && k != i implies !prefix_ok(s, k) by {
        if k < i {
            assert(elem_ok(s, k));
        } else {
            if prefix_ok(s, k) {
                assert(elem_ok(s, i));
            }
        }
    }
    if listing_ok(s) {
        assert(prefix_ok(s, elems_of(s).len() as int));
        assert(elem_ok(s, i));
    }
}

/// A fully conforming listing leaves no failing position at all.
proof fn lemma_no_failure(s: Seq<char>)
    requires
        doc_elems(s) is Some,
        prefix_ok(s, elems_of(s).len() as int),
    ensures
        forall|k: int|
            0 <= k < elems_of(s).len() ==> elems_of(s)[k] is Some && schema_ok(
                #[trigger] elems_of(s)[k]->0,
            ),
{
    assert forall|k: int|
        0 <= k < elems_of(s).len() implies elems_of(s)[k] is Some && schema_ok(
        #[trigger] elems_of(s)[k]->0,
    ) by {
        assert(elem_ok(s, k));
    }
}


} // verus!
