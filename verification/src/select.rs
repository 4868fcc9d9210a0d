//! Query mode: pick the record whose display name is most similar to the
//! query, resolve its path, and choose the action to take on it.

use vstd::prelude::*;

use crate::order::{dedup_rec, dedup_records, sort_rec, sort_records};
use crate::order::{lemma_dedup_contains, lemma_dedup_nonempty, lemma_sort_contains, lemma_sort_len};
use crate::record::Sdk;
use crate::similarity::{score_gt, score_gt_exec, sim_den, sim_num, similarity_counts};

verus! {

/// The similarity numerator of a record's display name against the query.
pub open spec fn rec_num(r: Sdk, q: Seq<char>) -> nat {
    sim_num(r.display_name@, q)
}

/// The similarity denominator of a record's display name against the query.
pub open spec fn rec_den(r: Sdk, q: Seq<char>) -> nat {
    sim_den(r.display_name@, q)
}

/// The index of the record with the highest similarity to `q`, the earliest
/// of several equally similar records winning: a later record displaces an
/// earlier one only when its score is strictly greater.
pub open spec fn best_idx(s: Seq<Sdk>, q: Seq<char>) -> int
    decreases s.len(),
{
    if s.len() <= 1 {
        0
    } else {
        let b = best_idx(s.drop_last(), q);
        if score_gt(rec_num(s.last(), q), rec_den(s.last(), q), rec_num(s[b], q), rec_den(s[b], q)) {
            s.len() - 1
        } else {
            b
        }
    }
}

pub proof fn lemma_best_idx_range(s: Seq<Sdk>, q: Seq<char>)
    requires
        s.len() > 0,
    ensures
        0 <= best_idx(s, q) < s.len(),
    decreases s.len(),
{
    if s.len() > 1 {
        lemma_best_idx_range(s.drop_last(), q);
    }
}

/// No score is strictly greater than itself or than a score it is beaten
/// by.
proof fn lemma_score_gt_asym(n1: nat, d1: nat, n2: nat, d2: nat)
    requires
        score_gt(n1, d1, n2, d2),
    ensures
        !score_gt(n2, d2, n1, d1),
{
}

/// A score strictly above a second is strictly above everything the second
/// is not beaten by.
proof fn lemma_score_gt_chain(n1: nat, d1: nat, n2: nat, d2: nat, n3: nat, d3: nat)
    requires
        score_gt(n1, d1, n2, d2),
        !score_gt(n3, d3, n2, d2),
    ensures
        score_gt(n1, d1, n3, d3),
{
    if d3 == 0 {
        if d2 != 0 {
            assert(n1 * d2 > n2 * d1);
            assert(n1 > 0) by (nonlinear_arith)
                requires
                    n1 * d2 > n2 * d1,
            {
            }
        }
    } else {
        assert(d1 > 0);
        if d2 == 0 {
            assert(n3 == 0);
            assert(n1 * d3 > n3 * d1) by (nonlinear_arith)
                requires
                    n1 > 0,
                    d3 > 0,
                    n3 == 0,
            {
            }
        } else {
            assert(n1 * d2 > n2 * d1);
            assert(n3 * d2 <= n2 * d3);
            assert(n1 * d3 > n3 * d1) by (nonlinear_arith)
                requires
                    n1 * d2 > n2 * d1,
                    n3 * d2 <= n2 * d3,
                    d1 > 0,
                    d2 > 0,
                    d3 > 0,
            {
                assert(n1 * d2 * d3 > n2 * d1 * d3);
                assert(n3 * d2 * d1 <= n2 * d3 * d1);
                assert(n1 * d3 * d2 > n3 * d1 * d2);
            }
        }
    }
}

/// The chosen index holds a strict maximum of the scores: no record scores
/// strictly higher, and every earlier record scores strictly lower, so of
/// several records with the top score the first is chosen.
pub proof fn lemma_best_is_max(s: Seq<Sdk>, q: Seq<char>)
    requires
        s.len() > 0,
    ensures
        0 <= best_idx(s, q) < s.len(),
        forall|j: int|
            0 <= j < s.len() ==> !score_gt(
                rec_num(#[trigger] s[j], q),
                rec_den(s[j], q),
                rec_num(s[best_idx(s, q)], q),
                rec_den(s[best_idx(s, q)], q),
            ),
        forall|j: int|
            0 <= j < best_idx(s, q) ==> score_gt(
                rec_num(s[best_idx(s, q)], q),
                rec_den(s[best_idx(s, q)], q),
                rec_num(#[trigger] s[j], q),
                rec_den(s[j], q),
            ),
    decreases s.len(),
{
    lemma_best_idx_range(s, q);
    let b = best_idx(s, q);
    if s.len() == 1 {
        assert(!score_gt(rec_num(s[0], q), rec_den(s[0], q), rec_num(s[0], q), rec_den(s[0], q)));
    } else {
        let s0 = s.drop_last();
        let b0 = best_idx(s0, q);
        let x = s.last();
        lemma_best_is_max(s0, q);
        assert(forall|j: int| 0 <= j < s0.len() ==> s0[j] == s[j]);
        if score_gt(rec_num(x, q), rec_den(x, q), rec_num(s0[b0], q), rec_den(s0[b0], q)) {
            assert(b == s.len() - 1);
            assert forall|j: int| 0 <= j < s.len() implies !score_gt(
                rec_num(#[trigger] s[j], q),
                rec_den(s[j], q),
                rec_num(s[b], q),
                rec_den(s[b], q),
            ) by {
                if j < s.len() - 1 {
                    lemma_score_gt_chain(
                        rec_num(x, q),
                        rec_den(x, q),
                        rec_num(s0[b0], q),
                        rec_den(s0[b0], q),
                        rec_num(s0[j], q),
                        rec_den(s0[j], q),
                    );
                    lemma_score_gt_asym(
                        rec_num(x, q),
                        rec_den(x, q),
                        rec_num(s0[j], q),
                        rec_den(s0[j], q),
                    );
                } else {
                    assert(!score_gt(
                        rec_num(s[j], q),
                        rec_den(s[j], q),
                        rec_num(s[b], q),
                        rec_den(s[b], q),
                    ));
                }
            }
            assert forall|j: int| 0 <= j < b implies score_gt(
                rec_num(s[b], q),
                rec_den(s[b], q),
                rec_num(#[trigger] s[j], q),
                rec_den(s[j], q),
            ) by {
                lemma_score_gt_chain(
                    rec_num(x, q),
                    rec_den(x, q),
                    rec_num(s0[b0], q),
                    rec_den(s0[b0], q),
                    rec_num(s0[j], q),
                    rec_den(s0[j], q),
                );
            }
        } else {
            assert(b == b0);
        }
    }
}

/// Finds the best-matching record: the exec counterpart of `best_idx`.
#[verifier::loop_isolation(false)]
pub fn best_match(v: &Vec<Sdk>, q: &str) -> (best: usize)
    requires
        v@.len() > 0,
        forall|j: int|
            0 <= j < v@.len() ==> #[trigger] v@[j].display_name@.len() + q@.len() <= usize::MAX,
    ensures
        best < v@.len(),
        best as int == best_idx(v@, q@),
{
    let sc0 = similarity_counts(v[0].display_name.as_str(), q);
    let mut best: usize = 0;
    let mut bn = sc0.0;
    let mut bd = sc0.1;
    let n = v.len();
    let mut i: usize = 1;
    proof {
        assert(best_idx(v@.take(1), q@) == 0);
    }
    while i < n
        invariant
            1 <= i <= n,
            best < i,
            best as int == best_idx(v@.take(i as int), q@),
            bn == rec_num(v@[best as int], q@),
            bd == rec_den(v@[best as int], q@),
        decreases n - i,
    {
        let sc = similarity_counts(v[i].display_name.as_str(), q);
        proof {
            assert(v@.take(i + 1).drop_last() =~= v@.take(i as int));
            assert(v@.take(i + 1).last() == v@[i as int]);
            lemma_best_idx_range(v@.take(i as int), q@);
            assert(v@.take(i + 1)[best as int] == v@[best as int]);
        }
        if score_gt_exec(sc.0, sc.1, bn, bd) {
            best = i;
            bn = sc.0;
            bd = sc.1;
        }
        i = i + 1;
    }
    proof {
        assert(v@.take(n as int) =~= v@);
    }
    best
}

/// The candidate sequence of query mode: the records sorted by build id,
/// with adjacent duplicates collapsed.
pub open spec fn query_candidates(s: Seq<Sdk>) -> Seq<Sdk> {
    dedup_rec(sort_rec(s, false))
}

/// The record that a query resolves to: the best match among the candidates.
pub open spec fn chosen_record(s: Seq<Sdk>, q: Seq<char>) -> Sdk {
    query_candidates(s)[best_idx(query_candidates(s), q)]
}

/// The fixed relative path appended in frameworks mode.
pub open spec fn frameworks_suffix() -> Seq<char> {
    "System/Library/Frameworks"@
}

/// The path that a matched record resolves to: its own path, or that path
/// joined with the frameworks suffix, a single separator standing between
/// the two parts.
pub open spec fn resolved_path(p: Seq<char>, frameworks: bool) -> Seq<char> {
    if !frameworks {
        p
    } else if p.len() == 0 {
        frameworks_suffix()
    } else if p[p.len() - 1] == '/' {
        p + frameworks_suffix()
    } else {
        p + seq!['/'] + frameworks_suffix()
    }
}

/// Resolves a record's path, appending the frameworks suffix when asked to.
pub fn resolve_path(sdk_path: &str, frameworks: bool) -> (r: String)
    ensures
        r@ == resolved_path(sdk_path@, frameworks),
{
    if !frameworks {
        return sdk_path.to_owned();
    }
    let n = sdk_path.unicode_len();
    let mut out = sdk_path.to_owned();
    if n == 0 {
        out.append("System/Library/Frameworks");
        proof {
            assert(out@ =~= frameworks_suffix());
        }
        return out;
    }
    let lastc = sdk_path.get_char(n - 1);
    if lastc == '/' {
        out.append("System/Library/Frameworks");
        out
    } else {
        out.append("/");
        out.append("System/Library/Frameworks");
        proof {
            reveal_strlit("/");
            assert("/"@ =~= seq!['/']);
            assert(out@ =~= sdk_path@ + seq!['/'] + frameworks_suffix());
        }
        out
    }
}

/// What is done with the resolved path.
#[derive(Clone, Copy, Debug, PartialEq, Eq, Structural)]
pub enum SdkAction {
    /// Open the path.
    Open,
    /// Reveal the path in the file browser.
    Reveal,
    /// Copy the path to the clipboard.
    CopyPath,
    /// Print the path to standard output.
    PrintPath,
}

/// Which action the flags call for, the first set flag winning, in the
/// priority order open, reveal, copy, print.
pub open spec fn action_for(open: bool, reveal: bool, copy: bool) -> SdkAction {
    if open {
        SdkAction::Open
    } else if reveal {
        SdkAction::Reveal
    } else if copy {
        SdkAction::CopyPath
    } else {
        SdkAction::PrintPath
    }
}

/// Chooses the action for the given flags.
pub fn choose_action(open: bool, reveal: bool, copy: bool) -> (a: SdkAction)
    ensures
        a == action_for(open, reveal, copy),
{
    if open {
        SdkAction::Open
    } else if reveal {
        SdkAction::Reveal
    } else if copy {
        SdkAction::CopyPath
    } else {
        SdkAction::PrintPath
    }
}

/// Runs query mode: sorts by build id, collapses duplicate build ids,
/// picks the best match for the query and resolves its path. Returns the
/// resolved path, or nothing when there are no records at all.
pub fn query_output(records: Vec<Sdk>, query: &str, frameworks: bool) -> (r: Option<String>)
    requires
        forall|j: int|
            0 <= j < records@.len() ==> #[trigger] records@[j].display_name@.len() + query@.len()
                <= usize::MAX,
    ensures
        r is Some <==> records@.len() > 0,
        records@.len() > 0 ==> r->0@ == resolved_path(
            chosen_record(records@, query@).sdk_path@,
            frameworks,
        ),
{
    let ghost orig = records@;
    if records.len() == 0 {
        return Option::None;
    }
    let sorted = sort_records(records, false);
    let deduped = dedup_records(sorted);
    proof {
        lemma_sort_len(orig, false);
        lemma_dedup_nonempty(sort_rec(orig, false));
        lemma_sort_contains(orig, false);
        lemma_dedup_contains(sort_rec(orig, false));
        assert forall|j: int|
            0 <= j < deduped@.len() implies #[trigger] deduped@[j].display_name@.len() + query@.len()
            <= usize::MAX by {
            assert(sort_rec(orig, false).contains(deduped@[j]));
            let m = choose|m: int|
                0 <= m < sort_rec(orig, false).len() && sort_rec(orig, false)[m] == deduped@[j];
            assert(orig.contains(deduped@[j]));
            let p = choose|p: int| 0 <= p < orig.len() && orig[p] == deduped@[j];
        }
    }
    let best = best_match(&deduped, query);
    let rec = &deduped[best];
    let out = resolve_path(rec.sdk_path.as_str(), frameworks);
    Option::Some(out)
}

} // verus!
