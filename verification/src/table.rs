//! Listing mode: the records sorted by display name, rendered as a table
//! of the displayed columns.

use vstd::prelude::*;
use vstd::string::StringExecFns;

use crate::order::{sort_rec, sort_records};
use crate::record::{display_option, opt_display, Sdk};

verus! {

/// The column headers of the listing, in display order.
pub open spec fn header_row() -> Seq<Seq<char>> {
    seq![
        "display_name"@,
        "is_base_sdk"@,
        "platform"@,
        "platform_version"@,
        "sdk_version"@,
        "product_build_version"@,
        "product_name"@,
        "product_version"@,
    ]
}

/// How a boolean cell is shown.
pub open spec fn bool_text(b: bool) -> Seq<char> {
    if b {
        "true"@
    } else {
        "false"@
    }
}

/// The cells of one record's listing row: the displayed columns only, and
/// absent optional fields as empty cells.
pub open spec fn row_of(r: Sdk) -> Seq<Seq<char>> {
    seq![
        r.display_name@,
        bool_text(r.is_base_sdk),
        r.platform@,
        r.platform_version@,
        r.sdk_version@,
        opt_display(r.product_build_version),
        opt_display(r.product_name),
        opt_display(r.product_version),
    ]
}

/// The whole grid of the listing: the header row, then one row per record.
pub open spec fn listing_cells(s: Seq<Sdk>) -> Seq<Seq<Seq<char>>> {
    Seq::new(
        s.len() + 1,
        |i: int|
            if i == 0 {
                header_row()
            } else {
                row_of(s[i - 1])
            },
    )
}

/// The text that the table renderer produces for a grid of cells.
pub uninterp spec fn table_text_of(rows: Seq<Seq<Seq<char>>>) -> Seq<char>;

/// Relies on tabled's Builder and Table: renders the rows as a plain text
/// table, one line per row; the text depends on the cells alone.
#[verifier::external_body]
fn render_rows(rows: Vec<Vec<String>>) -> (r: String)
    ensures
        r@ == table_text_of(rows.deep_view()),
{
    tabled::builder::Builder::from_iter(rows).build().to_string()
}

/// Shows a boolean as text.
fn bool_string(b: bool) -> (r: String)
    ensures
        r@ == bool_text(b),
{
    if b {
        String::from_str("true")
    } else {
        String::from_str("false")
    }
}

/// The header cells.
fn header_vec() -> (r: Vec<String>)
    ensures
        r.deep_view() == header_row(),
{
    let mut r: Vec<String> = Vec::new();
    r.push(String::from_str("display_name"));
    r.push(String::from_str("is_base_sdk"));
    r.push(String::from_str("platform"));
    r.push(String::from_str("platform_version"));
    r.push(String::from_str("sdk_version"));
    r.push(String::from_str("product_build_version"));
    r.push(String::from_str("product_name"));
    r.push(String::from_str("product_version"));
    proof {
        assert(r.deep_view() =~= header_row());
    }
    r
}

/// The cells of one record's row.
fn record_row(rec: &Sdk) -> (r: Vec<String>)
    ensures
        r.deep_view() == row_of(*rec),
{
    let mut r: Vec<String> = Vec::new();
    r.push(rec.display_name.clone());
    r.push(bool_string(rec.is_base_sdk));
    r.push(rec.platform.clone());
    r.push(rec.platform_version.clone());
    r.push(rec.sdk_version.clone());
    r.push(display_option(&rec.product_build_version));
    r.push(display_option(&rec.product_name));
    r.push(display_option(&rec.product_version));
    proof {
        assert(r.deep_view() =~= row_of(*rec));
    }
    r
}

/// Builds the grid of the listing for the given record order.
#[verifier::loop_isolation(false)]
fn listing_rows(v: &Vec<Sdk>) -> (rows: Vec<Vec<String>>)
    ensures
        rows.deep_view() == listing_cells(v@),
{
    let mut rows: Vec<Vec<String>> = Vec::new();
    rows.push(header_vec());
    let n = v.len();
    let mut i: usize = 0;
    while i < n
        invariant
            i <= n,
            rows@.len() == i + 1,
            rows@[0].deep_view() == header_row(),
            forall|k: int| 0 <= k < i ==> #[trigger] rows@[k + 1].deep_view() == row_of(v@[k]),
        decreases n - i,
    {
        rows.push(record_row(&v[i]));
        i = i + 1;
    }
    proof {
        assert forall|j: int| 0 <= j < rows@.len() implies rows.deep_view()[j] == listing_cells(
            v@,
        )[j] by {
            if j > 0 {
                assert(rows@[(j - 1) + 1].deep_view() == row_of(v@[j - 1]));
            }
        }
        assert(rows.deep_view() =~= listing_cells(v@));
    }
    rows
}

/// Runs listing mode: sorts the records by display name and renders the
/// table of their displayed columns.
pub fn listing_output(records: Vec<Sdk>) -> (r: String)
    ensures
        r@ == table_text_of(listing_cells(sort_rec(records@, true))),
{
    let sorted = sort_records(records, true);
    let rows = listing_rows(&sorted);
    render_rows(rows)
}

} // verus!
