//! Lexicographic ordering of strings and optional strings, a stable
//! insertion sort over records, and adjacent deduplication by build id.

use vstd::prelude::*;

use crate::record::{build_key, name_key, Sdk};

verus! {

/// Lexicographic `<=` on character sequences: a prefix comes first, and
/// otherwise the first differing character decides.
pub open spec fn chars_le(a: Seq<char>, b: Seq<char>) -> bool
    decreases a.len(),
{
    if a.len() == 0 {
        true
    } else if b.len() == 0 {
        false
    } else if (a[0] as u32) < (b[0] as u32) {
        true
    } else if (b[0] as u32) < (a[0] as u32) {
        false
    } else {
        chars_le(a.skip(1), b.skip(1))
    }
}

/// Two characters with the same code point are the same character.
proof fn lemma_char_cast_eq(c1: char, c2: char)
    requires
        c1 as u32 == c2 as u32,
    ensures
        c1 == c2,
{
}

pub proof fn lemma_chars_le_refl(a: Seq<char>)
    ensures
        chars_le(a, a),
    decreases a.len(),
{
    if a.len() > 0 {
        lemma_chars_le_refl(a.skip(1));
    }
}

pub proof fn lemma_chars_le_total(a: Seq<char>, b: Seq<char>)
    ensures
        chars_le(a, b) || chars_le(b, a),
    decreases a.len(),
{
    if a.len() == 0 {
        assert(chars_le(a, b));
    } else if b.len() == 0 {
        assert(chars_le(b, a));
    } else if (a[0] as u32) < (b[0] as u32) {
        assert(chars_le(a, b));
    } else if (b[0] as u32) < (a[0] as u32) {
        assert(chars_le(b, a));
    } else {
        lemma_chars_le_total(a.skip(1), b.skip(1));
        assert(chars_le(a, b) == chars_le(a.skip(1), b.skip(1)));
        assert(chars_le(b, a) == chars_le(b.skip(1), a.skip(1)));
    }
}

pub proof fn lemma_chars_le_antisym(a: Seq<char>, b: Seq<char>)
    requires
        chars_le(a, b),
        chars_le(b, a),
    ensures
        a == b,
    decreases a.len(),
{
    if a.len() == 0 {
        if b.len() > 0 {
            assert(!chars_le(b, a));
        }
        assert(a =~= b);
    } else {
        if b.len() == 0 {
            assert(!chars_le(a, b));
        }
        if (a[0] as u32) < (b[0] as u32) {
            assert(!chars_le(b, a));
        }
        if (b[0] as u32) < (a[0] as u32) {
            assert(!chars_le(a, b));
        }
        assert(b.len() > 0);
        assert((a[0] as u32) == (b[0] as u32));
        lemma_char_cast_eq(a[0], b[0]);
        assert(a[0] == b[0]);
        assert(chars_le(a.skip(1), b.skip(1)) == chars_le(a, b));
        assert(chars_le(b.skip(1), a.skip(1)) == chars_le(b, a));
        lemma_chars_le_antisym(a.skip(1), b.skip(1));
        assert forall|i: int| 0 <= i < a.len() implies a[i] == b[i] by {
            if i > 0 {
                assert(a[i] == a.skip(1)[i - 1]);
                assert(b[i] == b.skip(1)[i - 1]);
            }
        }
        assert(a =~= b);
    }
}

pub proof fn lemma_chars_le_trans(a: Seq<char>, b: Seq<char>, c: Seq<char>)
    requires
        chars_le(a, b),
        chars_le(b, c),
    ensures
        chars_le(a, c),
    decreases a.len(),
{
    if a.len() == 0 {
        assert(chars_le(a, c));
    } else {
        if b.len() == 0 {
            assert(!chars_le(a, b));
        }
        if c.len() == 0 {
            assert(!chars_le(b, c));
        }
        assert(b.len() > 0 && c.len() > 0);
        if (b[0] as u32) < (a[0] as u32) {
            assert(!chars_le(a, b));
        }
        if (c[0] as u32) < (b[0] as u32) {
            assert(!chars_le(b, c));
        }
        if (a[0] as u32) < (c[0] as u32) {
            assert(chars_le(a, c));
        } else {
            lemma_char_cast_eq(a[0], b[0]);
            lemma_char_cast_eq(b[0], c[0]);
            assert(a[0] == b[0] && b[0] == c[0]);
            assert(chars_le(a.skip(1), b.skip(1)) == chars_le(a, b));
            assert(chars_le(b.skip(1), c.skip(1)) == chars_le(b, c));
            lemma_chars_le_trans(a.skip(1), b.skip(1), c.skip(1));
            assert(chars_le(a.skip(1), c.skip(1)) == chars_le(a, c));
        }
    }
}

/// Skipping a shared prefix does not change the comparison.
proof fn lemma_chars_le_skip(a: Seq<char>, b: Seq<char>, i: int)
    requires
        0 <= i <= a.len(),
        i <= b.len(),
        a.subrange(0, i) == b.subrange(0, i),
    ensures
        chars_le(a, b) == chars_le(a.skip(i), b.skip(i)),
    decreases i,
{
    if i == 0 {
        assert(a.skip(0) =~= a);
        assert(b.skip(0) =~= b);
    } else {
        assert(a[0] == b[0]) by {
            assert(a.subrange(0, i)[0] == a[0]);
            assert(b.subrange(0, i)[0] == b[0]);
        }
        assert(a.len() > 0 && b.len() > 0);
        assert(chars_le(a, b) == chars_le(a.skip(1), b.skip(1)));
        assert(a.skip(1).subrange(0, i - 1) == b.skip(1).subrange(0, i - 1)) by {
            assert(a.skip(1).subrange(0, i - 1) =~= a.subrange(0, i).skip(1));
            assert(b.skip(1).subrange(0, i - 1) =~= b.subrange(0, i).skip(1));
        }
        lemma_chars_le_skip(a.skip(1), b.skip(1), i - 1);
        assert(a.skip(1).skip(i - 1) =~= a.skip(i));
        assert(b.skip(1).skip(i - 1) =~= b.skip(i));
    }
}

/// Decides lexicographic `<=` on two strings, character by character.
pub fn str_le(a: &str, b: &str) -> (r: bool)
    ensures
        r == chars_le(a@, b@),
{
    let la = a.unicode_len();
    let lb = b.unicode_len();
    let mut i: usize = 0;
    loop
        invariant
            i <= la,
            i <= lb,
            la == a@.len(),
            lb == b@.len(),
            a@.subrange(0, i as int) == b@.subrange(0, i as int),
        decreases la - i,
    {
        proof {
            lemma_chars_le_skip(a@, b@, i as int);
        }
        if i == la {
            return true;
        }
        if i == lb {
            return false;
        }
        let ca = a.get_char(i);
        let cb = b.get_char(i);
        if (ca as u32) < (cb as u32) {
            return true;
        }
        if (cb as u32) < (ca as u32) {
            return false;
        }
        proof {
            assert(a@.subrange(0, i + 1) =~= b@.subrange(0, i + 1));
        }
        i = i + 1;
    }
}

/// Decides string equality by comparing both ways.
pub fn str_eq(a: &str, b: &str) -> (r: bool)
    ensures
        r == (a@ == b@),
{
    let le1 = str_le(a, b);
    let le2 = str_le(b, a);
    proof {
        if le1 && le2 {
            lemma_chars_le_antisym(a@, b@);
        }
        if a@ == b@ {
            lemma_chars_le_refl(a@);
        }
    }
    le1 && le2
}

/// `<=` on optional character sequences: an absent value comes before any
/// present one, and present values compare lexicographically.
pub open spec fn opt_chars_le(a: Option<Seq<char>>, b: Option<Seq<char>>) -> bool {
    match (a, b) {
        (Option::None, _) => true,
        (Option::Some(_), Option::None) => false,
        (Option::Some(x), Option::Some(y)) => chars_le(x, y),
    }
}

/// The sequence of characters held by an optional string, when present.
pub open spec fn opt_view(o: Option<String>) -> Option<Seq<char>> {
    match o {
        Option::Some(s) => Option::Some(s@),
        Option::None => Option::None,
    }
}

pub proof fn lemma_opt_le_total(a: Option<Seq<char>>, b: Option<Seq<char>>)
    ensures
        opt_chars_le(a, b) || opt_chars_le(b, a),
{
    if a is Some && b is Some {
        lemma_chars_le_total(a->0, b->0);
    }
}

pub proof fn lemma_opt_le_antisym(a: Option<Seq<char>>, b: Option<Seq<char>>)
    requires
        opt_chars_le(a, b),
        opt_chars_le(b, a),
    ensures
        a == b,
{
    if a is Some && b is Some {
        lemma_chars_le_antisym(a->0, b->0);
    }
}

pub proof fn lemma_opt_le_trans(a: Option<Seq<char>>, b: Option<Seq<char>>, c: Option<Seq<char>>)
    requires
        opt_chars_le(a, b),
        opt_chars_le(b, c),
    ensures
        opt_chars_le(a, c),
{
    if a is Some && b is Some && c is Some {
        lemma_chars_le_trans(a->0, b->0, c->0);
    }
}

/// Decides `opt_chars_le` on two optional strings.
pub fn opt_str_le(a: &Option<String>, b: &Option<String>) -> (r: bool)
    ensures
        r == opt_chars_le(opt_view(*a), opt_view(*b)),
{
    match (a, b) {
        (Option::None, _) => true,
        (Option::Some(_), Option::None) => false,
        (Option::Some(x), Option::Some(y)) => str_le(x.as_str(), y.as_str()),
    }
}

/// Decides whether two optional strings hold the same value, absent values
/// counting as equal to each other.
pub fn opt_str_eq(a: &Option<String>, b: &Option<String>) -> (r: bool)
    ensures
        r == (opt_view(*a) == opt_view(*b)),
{
    match (a, b) {
        (Option::None, Option::None) => true,
        (Option::Some(_), Option::None) => false,
        (Option::None, Option::Some(_)) => false,
        (Option::Some(x), Option::Some(y)) => str_eq(x.as_str(), y.as_str()),
    }
}

/// The key a record is sorted by: its display name in listing mode, its
/// build id in query mode.
pub open spec fn sort_key(r: Sdk, by_name: bool) -> Option<Seq<char>> {
    if by_name {
        Option::Some(name_key(r))
    } else {
        build_key(r)
    }
}

/// `<=` between two records under the chosen key.
pub open spec fn rec_le(a: Sdk, b: Sdk, by_name: bool) -> bool {
    opt_chars_le(sort_key(a, by_name), sort_key(b, by_name))
}

/// Decides `rec_le` on two records.
pub fn rec_le_exec(a: &Sdk, b: &Sdk, by_name: bool) -> (r: bool)
    ensures
        r == rec_le(*a, *b, by_name),
{
    if by_name {
        str_le(a.display_name.as_str(), b.display_name.as_str())
    } else {
        opt_str_le(&a.build_id, &b.build_id)
    }
}

/// Inserts `x` after every element whose key is `<=` the key of `x`: the
/// insertion step of a stable insertion sort.
pub open spec fn insert_rec(s: Seq<Sdk>, x: Sdk, by_name: bool) -> Seq<Sdk>
    decreases s.len(),
{
    if s.len() == 0 {
        seq![x]
    } else if rec_le(s[0], x, by_name) {
        seq![s[0]] + insert_rec(s.skip(1), x, by_name)
    } else {
        seq![x] + s
    }
}

/// Stable insertion sort, folding the input front to back.
pub open spec fn sort_rec(s: Seq<Sdk>, by_name: bool) -> Seq<Sdk>
    decreases s.len(),
{
    if s.len() == 0 {
        Seq::empty()
    } else {
        insert_rec(sort_rec(s.drop_last(), by_name), s.last(), by_name)
    }
}

pub proof fn lemma_insert_len(s: Seq<Sdk>, x: Sdk, by_name: bool)
    ensures
        insert_rec(s, x, by_name).len() == s.len() + 1,
    decreases s.len(),
{
    if s.len() > 0 && rec_le(s[0], x, by_name) {
        lemma_insert_len(s.skip(1), x, by_name);
    }
}

pub proof fn lemma_sort_len(s: Seq<Sdk>, by_name: bool)
    ensures
        sort_rec(s, by_name).len() == s.len(),
    decreases s.len(),
{
    if s.len() > 0 {
        lemma_sort_len(s.drop_last(), by_name);
        lemma_insert_len(sort_rec(s.drop_last(), by_name), s.last(), by_name);
    }
}

/// Where the scan of the exec insertion stops, the spec insertion places `x`.
proof fn lemma_insert_at(s: Seq<Sdk>, x: Sdk, by_name: bool, j: int)
    requires
        0 <= j <= s.len(),
        forall|i: int| 0 <= i < j ==> rec_le(#[trigger] s[i], x, by_name),
        j < s.len() ==> !rec_le(s[j], x, by_name),
    ensures
        insert_rec(s, x, by_name) == s.insert(j, x),
    decreases j,
{
    if j == 0 {
        if s.len() == 0 {
            assert(insert_rec(s, x, by_name) =~= s.insert(0, x));
        } else {
            assert(!rec_le(s[0], x, by_name));
            assert(insert_rec(s, x, by_name) =~= s.insert(0, x));
        }
    } else {
        assert(rec_le(s[0], x, by_name));
        assert(forall|i: int| 0 <= i < j - 1 ==> rec_le(#[trigger] s.skip(1)[i], x, by_name));
        lemma_insert_at(s.skip(1), x, by_name, j - 1);
        assert(seq![s[0]] + s.skip(1).insert(j - 1, x) =~= s.insert(j, x));
    }
}

/// Every element of the inserted sequence is `x` or comes from `s`.
proof fn lemma_insert_contains(s: Seq<Sdk>, x: Sdk, by_name: bool)
    ensures
        forall|k: int|
            0 <= k < insert_rec(s, x, by_name).len() ==> (#[trigger] insert_rec(s, x, by_name)[k]
                == x || s.contains(insert_rec(s, x, by_name)[k])),
    decreases s.len(),
{
    if s.len() == 0 {
    } else if rec_le(s[0], x, by_name) {
        lemma_insert_contains(s.skip(1), x, by_name);
        assert forall|k: int| 0 <= k < insert_rec(s, x, by_name).len() implies (
        #[trigger] insert_rec(s, x, by_name)[k] == x || s.contains(
            insert_rec(s, x, by_name)[k],
        )) by {
            if k > 0 {
                let t = insert_rec(s.skip(1), x, by_name);
                assert(insert_rec(s, x, by_name)[k] == t[k - 1]);
                if t[k - 1] != x {
                    let m = choose|m: int| 0 <= m < s.skip(1).len() && s.skip(1)[m] == t[k - 1];
                    assert(s[m + 1] == t[k - 1]);
                }
            }
        }
    } else {
        assert forall|k: int| 0 <= k < insert_rec(s, x, by_name).len() implies (
        #[trigger] insert_rec(s, x, by_name)[k] == x || s.contains(
            insert_rec(s, x, by_name)[k],
        )) by {
            if k > 0 {
                assert(insert_rec(s, x, by_name)[k] == s[k - 1]);
            }
        }
    }
}

/// Every record of the sorted sequence comes from the input.
pub proof fn lemma_sort_contains(s: Seq<Sdk>, by_name: bool)
    ensures
        forall|k: int|
            0 <= k < sort_rec(s, by_name).len() ==> s.contains(#[trigger] sort_rec(s, by_name)[k]),
    decreases s.len(),
{
    if s.len() > 0 {
        let s0 = s.drop_last();
        let t = sort_rec(s0, by_name);
        lemma_sort_contains(s0, by_name);
        lemma_insert_contains(t, s.last(), by_name);
        assert forall|k: int| 0 <= k < sort_rec(s, by_name).len() implies s.contains(
            #[trigger] sort_rec(s, by_name)[k],
        ) by {
            let x = sort_rec(s, by_name)[k];
            if x == s.last() {
                assert(s[s.len() - 1] == x);
            } else {
                assert(t.contains(x));
                let m = choose|m: int| 0 <= m < t.len() && t[m] == x;
                assert(s0.contains(x));
                let p = choose|p: int| 0 <= p < s0.len() && s0[p] == x;
                assert(s[p] == x);
            }
        }
    }
}

/// Every record of the deduplicated sequence comes from the input.
pub proof fn lemma_dedup_contains(s: Seq<Sdk>)
    ensures
        forall|k: int| 0 <= k < dedup_rec(s).len() ==> s.contains(#[trigger] dedup_rec(s)[k]),
    decreases s.len(),
{
    if s.len() > 0 {
        let s0 = s.drop_last();
        lemma_dedup_contains(s0);
        assert forall|k: int| 0 <= k < dedup_rec(s).len() implies s.contains(
            #[trigger] dedup_rec(s)[k],
        ) by {
            let x = dedup_rec(s)[k];
            if k < dedup_rec(s0).len() {
                assert(dedup_rec(s0)[k] == x);
                let p = choose|p: int| 0 <= p < s0.len() && s0[p] == x;
                assert(s[p] == x);
            } else {
                assert(x == s.last());
                assert(s[s.len() - 1] == x);
            }
        }
    }
}

/// A sequence is sorted under the chosen key when every pair of positions is
/// ordered.
pub open spec fn sorted_rec(s: Seq<Sdk>, by_name: bool) -> bool {
    forall|i: int, j: int| 0 <= i < j < s.len() ==> rec_le(#[trigger] s[i], #[trigger] s[j], by_name)
}

proof fn lemma_insert_sorted(s: Seq<Sdk>, x: Sdk, by_name: bool)
    requires
        sorted_rec(s, by_name),
    ensures
        sorted_rec(insert_rec(s, x, by_name), by_name),
    decreases s.len(),
{
    let t = insert_rec(s, x, by_name);
    if s.len() == 0 {
    } else if rec_le(s[0], x, by_name) {
        let rest = insert_rec(s.skip(1), x, by_name);
        assert(sorted_rec(s.skip(1), by_name));
        lemma_insert_sorted(s.skip(1), x, by_name);
        lemma_insert_contains(s.skip(1), x, by_name);
        assert forall|i: int, j: int| 0 <= i < j < t.len() implies rec_le(
            #[trigger] t[i],
            #[trigger] t[j],
            by_name,
        ) by {
            if i == 0 {
                // t[0] == s[0]; t[j] is x or an element of s.skip(1)
                assert(t[j] == rest[j - 1]);
                if rest[j - 1] == x {
                    assert(rec_le(s[0], x, by_name));
                } else {
                    let m = choose|m: int|
                        0 <= m < s.skip(1).len() && s.skip(1)[m] == rest[j - 1];
                    assert(s[m + 1] == rest[j - 1]);
                    assert(rec_le(s[0], s[m + 1], by_name));
                }
            } else {
                assert(t[i] == rest[i - 1] && t[j] == rest[j - 1]);
            }
        }
    } else {
        lemma_opt_le_total(sort_key(s[0], by_name), sort_key(x, by_name));
        assert(rec_le(x, s[0], by_name));
        assert forall|i: int, j: int| 0 <= i < j < t.len() implies rec_le(
            #[trigger] t[i],
            #[trigger] t[j],
            by_name,
        ) by {
            if i == 0 {
                assert(t[j] == s[j - 1]);
                if j == 1 {
                } else {
                    assert(rec_le(s[0], s[j - 1], by_name));
                    lemma_opt_le_trans(
                        sort_key(x, by_name),
                        sort_key(s[0], by_name),
                        sort_key(s[j - 1], by_name),
                    );
                }
            } else {
                assert(t[i] == s[i - 1] && t[j] == s[j - 1]);
            }
        }
    }
}

/// The result of the stable insertion sort is sorted under the chosen key.
pub proof fn lemma_sort_sorted(s: Seq<Sdk>, by_name: bool)
    ensures
        sorted_rec(sort_rec(s, by_name), by_name),
    decreases s.len(),
{
    if s.len() > 0 {
        lemma_sort_sorted(s.drop_last(), by_name);
        lemma_insert_sorted(sort_rec(s.drop_last(), by_name), s.last(), by_name);
    }
}

/// For every record sequence, the listing order is sorted non-decreasingly
/// by display name.
pub proof fn lemma_listing_sorted(s: Seq<Sdk>)
    ensures
        forall|i: int, j: int|
            0 <= i < j < sort_rec(s, true).len() ==> chars_le(
                name_key(#[trigger] sort_rec(s, true)[i]),
                name_key(#[trigger] sort_rec(s, true)[j]),
            ),
{
    lemma_sort_sorted(s, true);
}

/// Sorts the records by the chosen key with a stable insertion sort:
/// records with equal keys keep their relative order.
pub fn sort_records(v: Vec<Sdk>, by_name: bool) -> (r: Vec<Sdk>)
    ensures
        r@ == sort_rec(v@, by_name),
{
    let ghost orig = v@;
    let mut rest = v;
    let mut out: Vec<Sdk> = Vec::new();
    let ghost k: int = 0;
    while rest.len() > 0
        invariant
            0 <= k <= orig.len(),
            rest@ == orig.skip(k),
            out@ == sort_rec(orig.take(k), by_name),
        decreases rest@.len(),
    {
        let x = rest.remove(0);
        proof {
            assert(x == orig[k]);
            assert(rest@ =~= orig.skip(k + 1));
        }
        let ghost before = out@;
        let mut j: usize = 0;
        loop
            invariant
                j <= out.len(),
                out@ == before,
                forall|i: int| 0 <= i < j ==> rec_le(#[trigger] out@[i], x, by_name),
            ensures
                j <= out.len(),
                out@ == before,
                forall|i: int| 0 <= i < j ==> rec_le(#[trigger] out@[i], x, by_name),
                j < out@.len() ==> !rec_le(out@[j as int], x, by_name),
            decreases out@.len() - j,
        {
            if j == out.len() {
                break ;
            }
            let keep_going = rec_le_exec(&out[j], &x, by_name);
            if !keep_going {
                break ;
            }
            j = j + 1;
        }
        proof {
            lemma_insert_at(before, x, by_name, j as int);
        }
        out.insert(j, x);
        proof {
            k = k + 1;
            assert(orig.take(k).drop_last() =~= orig.take(k - 1));
            assert(orig.take(k).last() == orig[k - 1]);
            assert(orig.take(k).len() == k);
        }
    }
    proof {
        assert(orig.take(k) =~= orig);
    }
    out
}

/// Inserting a record whose build key occurs nowhere in the list leaves it
/// with a position that no equal build key precedes.
proof fn lemma_insert_new_key(t: Seq<Sdk>, x: Sdk, by_name: bool)
    requires
        forall|q: int| 0 <= q < t.len() ==> build_key(#[trigger] t[q]) != build_key(x),
    ensures
        exists|p: int|
            0 <= p < insert_rec(t, x, by_name).len() && #[trigger] insert_rec(t, x, by_name)[p]
                == x && (forall|q: int|
                0 <= q < p ==> build_key(#[trigger] insert_rec(t, x, by_name)[q]) != build_key(x)),
    decreases t.len(),
{
    let u = insert_rec(t, x, by_name);
    if t.len() == 0 {
        assert(u[0] == x);
        assert(forall|q: int| 0 <= q < 0 ==> build_key(#[trigger] u[q]) != build_key(x));
    } else if rec_le(t[0], x, by_name) {
        let rest = insert_rec(t.skip(1), x, by_name);
        assert forall|q: int| 0 <= q < t.skip(1).len() implies build_key(#[trigger] t.skip(1)[q])
            != build_key(x) by {
            assert(t.skip(1)[q] == t[q + 1]);
        }
        lemma_insert_new_key(t.skip(1), x, by_name);
        let p = choose|p: int|
            0 <= p < rest.len() && #[trigger] rest[p] == x && (forall|q: int|
                0 <= q < p ==> build_key(#[trigger] rest[q]) != build_key(x));
        assert(u[p + 1] == x);
        assert forall|q: int| 0 <= q < p + 1 implies build_key(#[trigger] u[q]) != build_key(
            x,
        ) by {
            if q == 0 {
                assert(u[0] == t[0]);
            } else {
                assert(u[q] == rest[q - 1]);
            }
        }
    } else {
        assert(u[0] == x);
        assert(forall|q: int| 0 <= q < 0 ==> build_key(#[trigger] u[q]) != build_key(x));
    }
}

/// Inserting a record into a sorted list keeps the first record of every
/// build-key run first: nothing with the same key lands in front of it.
proof fn lemma_insert_keeps_first(t: Seq<Sdk>, x: Sdk, p: int)
    requires
        sorted_rec(t, false),
        0 <= p < t.len(),
        forall|q: int| 0 <= q < p ==> build_key(#[trigger] t[q]) != build_key(t[p]),
    ensures
        exists|p2: int|
            0 <= p2 < insert_rec(t, x, false).len() && #[trigger] insert_rec(t, x, false)[p2]
                == t[p] && (forall|q: int|
                0 <= q < p2 ==> build_key(#[trigger] insert_rec(t, x, false)[q]) != build_key(
                    t[p],
                )),
    decreases t.len(),
{
    let u = insert_rec(t, x, false);
    if rec_le(t[0], x, false) {
        let rest = insert_rec(t.skip(1), x, false);
        if p == 0 {
            assert(u[0] == t[0]);
            assert(forall|q: int| 0 <= q < 0 ==> build_key(#[trigger] u[q]) != build_key(t[p]));
        } else {
            assert(sorted_rec(t.skip(1), false)) by {
                assert forall|a: int, b: int| 0 <= a < b < t.skip(1).len() implies rec_le(
                    #[trigger] t.skip(1)[a],
                    #[trigger] t.skip(1)[b],
                    false,
                ) by {
                    assert(t.skip(1)[a] == t[a + 1] && t.skip(1)[b] == t[b + 1]);
                }
            }
            assert forall|q: int| 0 <= q < p - 1 implies build_key(#[trigger] t.skip(1)[q])
                != build_key(t.skip(1)[p - 1]) by {
                assert(t.skip(1)[q] == t[q + 1]);
                assert(t.skip(1)[p - 1] == t[p]);
            }
            assert(t.skip(1)[p - 1] == t[p]);
            lemma_insert_keeps_first(t.skip(1), x, p - 1);
            let p2 = choose|p2: int|
                0 <= p2 < rest.len() && #[trigger] rest[p2] == t[p] && (forall|q: int|
                    0 <= q < p2 ==> build_key(#[trigger] rest[q]) != build_key(t[p]));
            assert(u[p2 + 1] == t[p]);
            assert forall|q: int| 0 <= q < p2 + 1 implies build_key(#[trigger] u[q]) != build_key(
                t[p],
            ) by {
                if q == 0 {
                    assert(u[0] == t[0]);
                } else {
                    assert(u[q] == rest[q - 1]);
                }
            }
        }
    } else {
        // x goes in front, and its key is strictly below the key of t[0],
        // hence below the key of t[p]
        lemma_opt_le_total(build_key(t[0]), build_key(x));
        assert(opt_chars_le(build_key(x), build_key(t[0])));
        assert(build_key(x) != build_key(t[0])) by {
            if build_key(x) == build_key(t[0]) {
                lemma_opt_le_refl(build_key(t[0]));
                assert(rec_le(t[0], x, false));
            }
        }
        assert(build_key(x) != build_key(t[p])) by {
            if build_key(x) == build_key(t[p]) {
                if p > 0 {
                    assert(rec_le(t[0], t[p], false));
                }
                lemma_opt_le_antisym(build_key(x), build_key(t[0]));
            }
        }
        assert(u[p + 1] == t[p]);
        assert forall|q: int| 0 <= q < p + 1 implies build_key(#[trigger] u[q]) != build_key(
            t[p],
        ) by {
            if q > 0 {
                assert(u[q] == t[q - 1]);
            }
        }
    }
}

/// In the sorted sequence, the first record of the input carrying a given
/// build key stands in front of every other record with that key.
proof fn lemma_sort_keeps_first(s: Seq<Sdk>, i: int)
    requires
        0 <= i < s.len(),
        forall|j: int| 0 <= j < i ==> build_key(#[trigger] s[j]) != build_key(s[i]),
    ensures
        exists|p: int|
            0 <= p < sort_rec(s, false).len() && #[trigger] sort_rec(s, false)[p] == s[i] && (
            forall|q: int|
                0 <= q < p ==> build_key(#[trigger] sort_rec(s, false)[q]) != build_key(s[i])),
    decreases s.len(),
{
    let s0 = s.drop_last();
    let t = sort_rec(s0, false);
    let x = s.last();
    let u = insert_rec(t, x, false);
    assert(sort_rec(s, false) == u);
    lemma_sort_sorted(s0, false);
    if i < s.len() - 1 {
        assert forall|j: int| 0 <= j < i implies build_key(#[trigger] s0[j]) != build_key(
            s0[i],
        ) by {
            assert(s0[j] == s[j] && s0[i] == s[i]);
        }
        lemma_sort_keeps_first(s0, i);
        let p = choose|p: int|
            0 <= p < t.len() && #[trigger] t[p] == s0[i] && (forall|q: int|
                0 <= q < p ==> build_key(#[trigger] t[q]) != build_key(s0[i]));
        assert(s0[i] == s[i]);
        lemma_insert_keeps_first(t, x, p);
        let p2 = choose|p2: int|
            0 <= p2 < u.len() && #[trigger] u[p2] == t[p] && (forall|q: int|
                0 <= q < p2 ==> build_key(#[trigger] u[q]) != build_key(t[p]));
        assert(sort_rec(s, false)[p2] == s[i]);
        assert forall|q: int| 0 <= q < p2 implies build_key(#[trigger] sort_rec(s, false)[q])
            != build_key(s[i]) by {
            assert(sort_rec(s, false)[q] == u[q]);
        }
    } else {
        // s[i] is the inserted record itself, and no record of the rest of
        // the input carries its key
        assert(x == s[i]);
        lemma_sort_contains(s0, false);
        assert forall|q: int| 0 <= q < t.len() implies build_key(#[trigger] t[q]) != build_key(
            x,
        ) by {
            assert(s0.contains(t[q]));
            let m = choose|m: int| 0 <= m < s0.len() && s0[m] == t[q];
            assert(s[m] == t[q]);
        }
        lemma_insert_new_key(t, x, false);
        let p2 = choose|p2: int|
            0 <= p2 < u.len() && #[trigger] u[p2] == x && (forall|q: int|
                0 <= q < p2 ==> build_key(#[trigger] u[q]) != build_key(x));
        assert(sort_rec(s, false)[p2] == s[i]);
        assert forall|q: int| 0 <= q < p2 implies build_key(#[trigger] sort_rec(s, false)[q])
            != build_key(s[i]) by {
            assert(sort_rec(s, false)[q] == u[q]);
        }
    }
}

/// In a sorted sequence, the first record of every build-key run survives
/// deduplication.
proof fn lemma_dedup_keeps_run_head(t: Seq<Sdk>, p: int)
    requires
        sorted_rec(t, false),
        0 <= p < t.len(),
        forall|q: int| 0 <= q < p ==> build_key(#[trigger] t[q]) != build_key(t[p]),
    ensures
        dedup_rec(t).contains(t[p]),
    decreases t.len(),
{
    let t0 = t.drop_last();
    let d0 = dedup_rec(t0);
    if p < t.len() - 1 {
        assert(sorted_rec(t0, false));
        lemma_dedup_keeps_run_head(t0, p);
        let m = choose|m: int| 0 <= m < d0.len() && d0[m] == t0[p];
        if dedup_rec(t) == d0 {
            assert(dedup_rec(t)[m] == t[p]);
        } else {
            assert(dedup_rec(t) == d0.push(t.last()));
            assert(dedup_rec(t)[m] == t[p]);
        }
    } else {
        // t[p] is the last record, and opens its run: its key differs from
        // the key of the last kept record
        if t0.len() == 0 {
            assert(dedup_rec(t) =~= seq![t.last()]);
            assert(dedup_rec(t)[0] == t[p]);
        } else {
            assert(sorted_rec(t0, false));
            lemma_dedup_sorted_distinct(t0);
            assert(build_key(d0.last()) == build_key(t0.last()));
            assert(build_key(t0.last()) != build_key(t[p])) by {
                assert(t0.last() == t[t.len() - 2]);
            }
            assert(dedup_rec(t) == d0.push(t.last()));
            assert(dedup_rec(t)[d0.len() as int] == t[p]);
        }
    }
}

/// Of several records sharing a build id, the earliest in the input order
/// is the one that survives into the deduplicated, sorted sequence: the
/// sort is stable, and deduplication keeps the first record of each run.
/// Together with `lemma_dedup_sorted_distinct`, which leaves at most one
/// record per build key, this pins the survivor exactly.
pub proof fn lemma_dedup_keeps_earliest(s: Seq<Sdk>, i: int)
    requires
        0 <= i < s.len(),
        forall|j: int| 0 <= j < i ==> build_key(#[trigger] s[j]) != build_key(s[i]),
    ensures
        dedup_rec(sort_rec(s, false)).contains(s[i]),
{
    lemma_sort_sorted(s, false);
    lemma_sort_keeps_first(s, i);
    let p = choose|p: int|
        0 <= p < sort_rec(s, false).len() && #[trigger] sort_rec(s, false)[p] == s[i] && (forall|
            q: int,
        |
            0 <= q < p ==> build_key(#[trigger] sort_rec(s, false)[q]) != build_key(s[i]));
    lemma_dedup_keeps_run_head(sort_rec(s, false), p);
}

/// Collapses each run of adjacent records with equal build keys to its first
/// record, folding the input front to back.
pub open spec fn dedup_rec(s: Seq<Sdk>) -> Seq<Sdk>
    decreases s.len(),
{
    if s.len() == 0 {
        Seq::empty()
    } else {
        let d = dedup_rec(s.drop_last());
        if d.len() > 0 && build_key(d.last()) == build_key(s.last()) {
            d
        } else {
            d.push(s.last())
        }
    }
}

/// Removes every record whose build key equals the key of the previously
/// kept record: of each run of adjacent equal keys, the first survives.
pub fn dedup_records(v: Vec<Sdk>) -> (r: Vec<Sdk>)
    ensures
        r@ == dedup_rec(v@),
{
    let ghost orig = v@;
    let mut rest = v;
    let mut out: Vec<Sdk> = Vec::new();
    let ghost k: int = 0;
    while rest.len() > 0
        invariant
            0 <= k <= orig.len(),
            rest@ == orig.skip(k),
            out@ == dedup_rec(orig.take(k)),
        decreases rest@.len(),
    {
        let x = rest.remove(0);
        proof {
            assert(x == orig[k]);
            assert(rest@ =~= orig.skip(k + 1));
        }
        let n = out.len();
        let dup = if n > 0 {
            opt_str_eq(&out[n - 1].build_id, &x.build_id)
        } else {
            false
        };
        if !dup {
            out.push(x);
        }
        proof {
            k = k + 1;
            assert(orig.take(k).drop_last() =~= orig.take(k - 1));
            assert(orig.take(k).last() == orig[k - 1]);
        }
    }
    proof {
        assert(orig.take(k) =~= orig);
    }
    out
}

/// No two adjacent records share a build key.
pub open spec fn adj_distinct(s: Seq<Sdk>) -> bool {
    forall|i: int| 0 <= i < s.len() - 1 ==> build_key(#[trigger] s[i]) != build_key(s[i + 1])
}

/// Deduplication leaves no adjacent pair of equal build keys behind.
pub proof fn lemma_dedup_adj_distinct(s: Seq<Sdk>)
    ensures
        adj_distinct(dedup_rec(s)),
    decreases s.len(),
{
    if s.len() > 0 {
        lemma_dedup_adj_distinct(s.drop_last());
    }
}

/// A sequence without adjacent equal build keys deduplicates to itself.
pub proof fn lemma_dedup_fixed(s: Seq<Sdk>)
    requires
        adj_distinct(s),
    ensures
        dedup_rec(s) == s,
    decreases s.len(),
{
    if s.len() > 0 {
        assert(adj_distinct(s.drop_last()));
        lemma_dedup_fixed(s.drop_last());
        let d = dedup_rec(s.drop_last());
        if d.len() > 0 && build_key(d.last()) == build_key(s.last()) {
            assert(s[s.len() - 2] == d.last());
            assert(false);
        }
        assert(s.drop_last().push(s.last()) =~= s);
    }
}

/// Deduplication is idempotent: a second pass changes nothing.
pub proof fn lemma_dedup_idempotent(s: Seq<Sdk>)
    ensures
        dedup_rec(dedup_rec(s)) == dedup_rec(s),
{
    lemma_dedup_adj_distinct(s);
    lemma_dedup_fixed(dedup_rec(s));
}

/// Deduplication keeps at least one record of a non-empty input.
pub proof fn lemma_dedup_nonempty(s: Seq<Sdk>)
    ensures
        s.len() > 0 ==> dedup_rec(s).len() > 0,
    decreases s.len(),
{
    if s.len() > 0 {
        lemma_dedup_nonempty(s.drop_last());
    }
}

/// On an input sorted by build key, no two records of the deduplicated
/// sequence share a build key, anywhere, and the result stays sorted.
pub proof fn lemma_dedup_sorted_distinct(s: Seq<Sdk>)
    requires
        sorted_rec(s, false),
    ensures
        sorted_rec(dedup_rec(s), false),
        forall|i: int, j: int|
            0 <= i < j < dedup_rec(s).len() ==> build_key(#[trigger] dedup_rec(s)[i]) != build_key(
                #[trigger] dedup_rec(s)[j],
            ),
        s.len() > 0 ==> dedup_rec(s).len() > 0 && build_key(dedup_rec(s).last()) == build_key(
            s.last(),
        ),
    decreases s.len(),
{
    if s.len() > 0 {
        let s0 = s.drop_last();
        let x = s.last();
        let d0 = dedup_rec(s0);
        let d = dedup_rec(s);
        assert(sorted_rec(s0, false));
        lemma_dedup_sorted_distinct(s0);
        if s0.len() == 0 {
            assert(d =~= seq![x]);
        } else {
            assert(build_key(d0.last()) == build_key(s0.last()));
            assert(rec_le(s0.last(), x, false)) by {
                assert(s[s.len() - 2] == s0.last() && s[s.len() - 1] == x);
            }
            // the last kept key is `<=` the key of x
            assert(opt_chars_le(build_key(d0.last()), build_key(x)));
            if build_key(d0.last()) == build_key(x) {
                assert(d == d0);
            } else {
                assert(d == d0.push(x));
                // every key in d0 is `<=` the last key of d0
                assert forall|i: int| 0 <= i < d0.len() implies opt_chars_le(
                    build_key(#[trigger] d0[i]),
                    build_key(d0.last()),
                ) by {
                    if i < d0.len() - 1 {
                        assert(rec_le(d0[i], d0.last(), false));
                    } else {
                        lemma_opt_le_refl(build_key(d0[i]));
                    }
                }
                // no key of d0 equals the key of x: otherwise the last key of
                // d0 would be squeezed between two equal keys
                assert forall|i: int| 0 <= i < d0.len() implies build_key(#[trigger] d0[i])
                    != build_key(x) by {
                    if build_key(d0[i]) == build_key(x) {
                        lemma_opt_le_refl(build_key(d0[i]));
                        lemma_opt_le_trans(
                            build_key(x),
                            build_key(d0[i]),
                            build_key(d0.last()),
                        );
                        lemma_opt_le_antisym(build_key(d0.last()), build_key(x));
                    }
                }
                assert forall|i: int, j: int| 0 <= i < j < d.len() implies rec_le(
                    #[trigger] d[i],
                    #[trigger] d[j],
                    false,
                ) by {
                    if j == d.len() - 1 {
                        assert(d[i] == d0[i] && d[j] == x);
                        assert(opt_chars_le(build_key(d0[i]), build_key(d0.last())));
                        lemma_opt_le_trans(
                            build_key(d0[i]),
                            build_key(d0.last()),
                            build_key(x),
                        );
                    } else {
                        assert(d[i] == d0[i] && d[j] == d0[j]);
                    }
                }
            }
        }
    }
}

pub proof fn lemma_opt_le_refl(a: Option<Seq<char>>)
    ensures
        opt_chars_le(a, a),
{
    if a is Some {
        lemma_chars_le_refl(a->0);
    }
}

} // verus!
