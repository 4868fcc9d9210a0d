//! Trigram similarity: the fraction of shared three-character substrings
//! relative to the union of the trigrams of both strings, held as an exact
//! pair of integer counts.

use vstd::prelude::*;

verus! {

broadcast use vstd::set::group_set_axioms, vstd::seq_lib::seq_to_set_is_finite;

/// The trigram of `s` that starts at position `i`.
pub open spec fn tri_at(s: Seq<char>, i: int) -> (char, char, char) {
    (s[i], s[i + 1], s[i + 2])
}

/// How many trigram positions `s` has.
pub open spec fn tri_count(s: Seq<char>) -> int {
    if s.len() < 3 {
        0
    } else {
        s.len() - 2
    }
}

/// All trigrams of `s`, in order of position.
pub open spec fn tri_seq(s: Seq<char>) -> Seq<(char, char, char)> {
    Seq::new(tri_count(s) as nat, |i: int| tri_at(s, i))
}

/// The set of trigrams of `s`.
pub open spec fn tri_set(s: Seq<char>) -> Set<(char, char, char)> {
    tri_seq(s).to_set()
}

/// The numerator of the similarity of `a` and `b`: how many trigrams the two
/// strings share.
pub open spec fn sim_num(a: Seq<char>, b: Seq<char>) -> nat {
    tri_set(a).intersect(tri_set(b)).len()
}

/// The denominator of the similarity of `a` and `b`: how many distinct
/// trigrams the two strings have between them.
pub open spec fn sim_den(a: Seq<char>, b: Seq<char>) -> nat {
    tri_set(a).union(tri_set(b)).len()
}

/// Similarity does not depend on the order of its two arguments.
pub proof fn lemma_similarity_symmetric(a: Seq<char>, b: Seq<char>)
    ensures
        sim_num(a, b) == sim_num(b, a),
        sim_den(a, b) == sim_den(b, a),
{
    assert(tri_set(a).intersect(tri_set(b)) =~= tri_set(b).intersect(tri_set(a)));
    assert(tri_set(a).union(tri_set(b)) =~= tri_set(b).union(tri_set(a)));
}

/// A string of three or more characters has full similarity with itself:
/// numerator and denominator agree and are positive.
pub proof fn lemma_similarity_self(a: Seq<char>)
    requires
        a.len() >= 3,
    ensures
        sim_num(a, a) == sim_den(a, a),
        sim_den(a, a) > 0,
{
    assert(tri_set(a).intersect(tri_set(a)) =~= tri_set(a));
    assert(tri_set(a).union(tri_set(a)) =~= tri_set(a));
    let t = tri_at(a, 0);
    assert(tri_seq(a)[0] == t);
    assert(tri_seq(a).contains(t));
    assert(tri_set(a).contains(t));
    assert(tri_set(a).remove(t).len() == tri_set(a).len() - 1);
}

/// Two strings with no trigram in common have similarity zero.
pub proof fn lemma_similarity_disjoint(a: Seq<char>, b: Seq<char>)
    requires
        forall|t: (char, char, char)| !(tri_set(a).contains(t) && tri_set(b).contains(t)),
    ensures
        sim_num(a, b) == 0,
{
    assert(tri_set(a).intersect(tri_set(b)) =~= Set::empty());
}

/// The characters of `s`, as a vector.
fn chars_vec(s: &str) -> (r: Vec<char>)
    ensures
        r@ == s@,
{
    let n = s.unicode_len();
    let mut r: Vec<char> = Vec::new();
    let mut i: usize = 0;
    while i < n
        invariant
            i <= n,
            n == s@.len(),
            r@ == s@.subrange(0, i as int),
        decreases n - i,
    {
        let c = s.get_char(i);
        r.push(c);
        proof {
            assert(r@ =~= s@.subrange(0, i + 1));
        }
        i = i + 1;
    }
    proof {
        assert(s@.subrange(0, n as int) =~= s@);
    }
    r
}

/// Whether the trigram list holds `t`.
fn tri_contains(v: &Vec<(char, char, char)>, t: (char, char, char)) -> (r: bool)
    ensures
        r == v@.contains(t),
{
    let n = v.len();
    let mut i: usize = 0;
    while i < n
        invariant
            i <= n,
            n == v@.len(),
            forall|j: int| 0 <= j < i ==> v@[j] != t,
        decreases n - i,
    {
        let u = v[i];
        if u.0 == t.0 && u.1 == t.1 && u.2 == t.2 {
            assert(v@[i as int] == t);
            return true;
        }
        i = i + 1;
    }
    false
}

/// A trigram appended to a duplicate-free list it is absent from leaves the
/// list duplicate-free, and is afterwards held by it.
proof fn lemma_push_distinct(s: Seq<(char, char, char)>, t: (char, char, char))
    requires
        s.no_duplicates(),
        !s.contains(t),
    ensures
        s.push(t).no_duplicates(),
        forall|u: (char, char, char)| s.push(t).contains(u) <==> (s.contains(u) || u == t),
{
    assert forall|i: int, j: int|
        0 <= i < s.push(t).len() && 0 <= j < s.push(t).len() && i != j implies s.push(t)[i]
        != s.push(t)[j] by {
        if i < s.len() && j < s.len() {
        } else if j == s.len() {
            assert(s.push(t)[i] == s[i]);
            if s[i] == t {
                assert(s.contains(t));
            }
        } else {
            assert(s.push(t)[j] == s[j]);
            if s[j] == t {
                assert(s.contains(t));
            }
        }
    }
    assert forall|u: (char, char, char)| s.push(t).contains(u) implies (s.contains(u) || u
        == t) by {
        let j = choose|j: int| 0 <= j < s.push(t).len() && s.push(t)[j] == u;
        if j < s.len() {
            assert(s[j] == u);
        }
    }
    assert forall|u: (char, char, char)| (s.contains(u) || u == t) implies s.push(t).contains(
        u,
    ) by {
        if u == t {
            assert(s.push(t)[s.len() as int] == u);
        } else {
            let j = choose|j: int| 0 <= j < s.len() && s[j] == u;
            assert(s.push(t)[j] == u);
        }
    }
}

/// Collects the distinct trigrams of `s`, each at its first occurrence.
#[verifier::loop_isolation(false)]
fn trigram_list(s: &str) -> (r: Vec<(char, char, char)>)
    ensures
        r@.no_duplicates(),
        r@.to_set() == tri_set(s@),
        r@.len() <= tri_count(s@),
{
    let cs = chars_vec(s);
    let n = cs.len();
    let mut r: Vec<(char, char, char)> = Vec::new();
    if n < 3 {
        proof {
            assert(r@.to_set() =~= tri_set(s@));
        }
        return r;
    }
    let m = n - 2;
    let mut i: usize = 0;
    while i < m
        invariant
            i <= m,
            r@.no_duplicates(),
            forall|t: (char, char, char)|
                r@.contains(t) <==> exists|j: int| 0 <= j < i && tri_at(s@, j) == t,
            r@.len() <= i,
        decreases m - i,
    {
        let t = (cs[i], cs[i + 1], cs[i + 2]);
        assert(t == tri_at(s@, i as int));
        let seen = tri_contains(&r, t);
        if !seen {
            let ghost old_r = r@;
            r.push(t);
            proof {
                lemma_push_distinct(old_r, t);
                assert(r@ == old_r.push(t));
                assert forall|u: (char, char, char)| r@.contains(u) implies exists|j: int|
                    0 <= j < i + 1 && tri_at(s@, j) == u by {
                    if u == t {
                        assert(tri_at(s@, i as int) == u);
                    } else {
                        assert(old_r.contains(u));
                        let j = choose|j: int| 0 <= j < i && tri_at(s@, j) == u;
                        assert(0 <= j < i + 1 && tri_at(s@, j) == u);
                    }
                }
                assert forall|u: (char, char, char)| (exists|j: int|
                    0 <= j < i + 1 && tri_at(s@, j) == u) implies r@.contains(u) by {
                    let j = choose|j: int| 0 <= j < i + 1 && tri_at(s@, j) == u;
                    if j < i {
                        assert(old_r.contains(u));
                    } else {
                        assert(u == t);
                    }
                }
            }
        } else {
            proof {
                assert forall|u: (char, char, char)| (exists|j: int|
                    0 <= j < i + 1 && tri_at(s@, j) == u) implies r@.contains(u) by {
                    let j = choose|j: int| 0 <= j < i + 1 && tri_at(s@, j) == u;
                    if j < i {
                    } else {
                        assert(u == t);
                        assert(r@.contains(t));
                    }
                }
            }
        }
        i = i + 1;
    }
    proof {
        assert forall|t: (char, char, char)| r@.to_set().contains(t) implies tri_set(
            s@,
        ).contains(t) by {
            let j = choose|j: int| 0 <= j < m && tri_at(s@, j) == t;
            assert(tri_seq(s@)[j] == t);
            assert(tri_seq(s@).contains(t));
        }
        assert forall|t: (char, char, char)| tri_set(s@).contains(t) implies r@.to_set().contains(
            t,
        ) by {
            let j = choose|j: int| 0 <= j < tri_seq(s@).len() && tri_seq(s@)[j] == t;
            assert(tri_at(s@, j) == t);
        }
        assert(r@.to_set() =~= tri_set(s@));
        tri_seq(s@).lemma_cardinality_of_set();
        r@.unique_seq_to_set();
    }
    r
}

/// Taking one more element of a list makes its set grow by that element.
proof fn lemma_take_one_more(s: Seq<(char, char, char)>, i: int)
    requires
        0 <= i < s.len(),
    ensures
        s.take(i + 1).to_set() =~= s.take(i).to_set().insert(s[i]),
{
    assert(s.take(i + 1) =~= s.take(i).push(s[i]));
    assert forall|u: (char, char, char)| s.take(i + 1).to_set().contains(u) implies s.take(
        i,
    ).to_set().insert(s[i]).contains(u) by {
        let j = choose|j: int| 0 <= j < s.take(i + 1).len() && #[trigger] s.take(i + 1)[j] == u;
        if j < i {
            assert(s.take(i)[j] == u);
        }
    }
    assert forall|u: (char, char, char)| s.take(i).to_set().insert(s[i]).contains(u) implies s.take(
        i + 1,
    ).to_set().contains(u) by {
        if u == s[i] {
            assert(s.take(i + 1)[i] == u);
        } else {
            let j = choose|j: int| 0 <= j < s.take(i).len() && s.take(i)[j] == u;
            assert(s.take(i + 1)[j] == u);
        }
    }
}

/// Computes the similarity of `a` and `b` as the exact pair of the shared
/// trigram count and the combined distinct trigram count.
#[verifier::loop_isolation(false)]
pub fn similarity_counts(a: &str, b: &str) -> (r: (usize, usize))
    requires
        a@.len() + b@.len() <= usize::MAX,
    ensures
        r.0 == sim_num(a@, b@),
        r.1 == sim_den(a@, b@),
        r.0 <= r.1,
{
    let ta = trigram_list(a);
    let tb = trigram_list(b);
    let ghost aset = tri_set(a@);
    let ghost bset = tri_set(b@);
    let na = ta.len();
    let nb = tb.len();
    proof {
        ta@.unique_seq_to_set();
        tb@.unique_seq_to_set();
    }

    // count the trigrams of `a` that `b` also has
    let mut inter: usize = 0;
    let mut i: usize = 0;
    proof {
        assert(ta@.take(0).to_set().intersect(bset) =~= Set::empty());
    }
    while i < na
        invariant
            i <= na,
            inter as int == ta@.take(i as int).to_set().intersect(bset).len(),
            inter <= i,
        decreases na - i,
    {
        let ghost pre = ta@.take(i as int).to_set().intersect(bset);
        let t = ta[i];
        proof {
            lemma_take_one_more(ta@, i as int);
            assert(!ta@.take(i as int).contains(t)) by {
                if ta@.take(i as int).contains(t) {
                    let j = choose|j: int| 0 <= j < i && ta@.take(i as int)[j] == t;
                    assert(ta@[j] == ta@[i as int]);
                }
            }
            assert(!pre.contains(t));
        }
        let hit = tri_contains(&tb, t);
        if hit {
            proof {
                assert(bset.contains(t));
                assert(ta@.take(i + 1).to_set().intersect(bset) =~= pre.insert(t));
            }
            inter = inter + 1;
        } else {
            proof {
                assert(!bset.contains(t));
                assert(ta@.take(i + 1).to_set().intersect(bset) =~= pre);
            }
        }
        i = i + 1;
    }
    proof {
        assert(ta@.take(na as int) =~= ta@);
        assert(aset.intersect(bset).len() == inter);
    }

    // count the trigrams of `b` that `a` does not have; together with all of
    // `a`'s trigrams these make up the union
    let mut extra: usize = 0;
    let mut k: usize = 0;
    proof {
        assert(tb@.take(0).to_set() =~= Set::empty());
        assert(aset.union(tb@.take(0).to_set()) =~= aset);
    }
    while k < nb
        invariant
            k <= nb,
            na as int + extra as int == aset.union(tb@.take(k as int).to_set()).len(),
            extra <= k,
        decreases nb - k,
    {
        let ghost pre = aset.union(tb@.take(k as int).to_set());
        let t = tb[k];
        proof {
            lemma_take_one_more(tb@, k as int);
            assert(aset.union(tb@.take(k + 1).to_set()) =~= pre.insert(t));
            assert(!tb@.take(k as int).contains(t)) by {
                if tb@.take(k as int).contains(t) {
                    let j = choose|j: int| 0 <= j < k && tb@.take(k as int)[j] == t;
                    assert(tb@[j] == tb@[k as int]);
                }
            }
        }
        let hit = tri_contains(&ta, t);
        if !hit {
            proof {
                assert(!aset.contains(t));
                assert(!pre.contains(t));
                assert(na as int + extra as int + 1 <= usize::MAX) by {
                    assert(na <= tri_count(a@) && tri_count(a@) <= a@.len());
                    assert(extra + 1 <= nb);
                    assert(nb <= tri_count(b@) && tri_count(b@) <= b@.len());
                }
            }
            extra = extra + 1;
        } else {
            proof {
                assert(aset.contains(t));
                assert(pre.insert(t) =~= pre);
            }
        }
        k = k + 1;
    }
    proof {
        assert(tb@.take(nb as int) =~= tb@);
        assert(aset.union(bset).len() == na as int + extra as int);
        assert(aset.intersect(bset).subset_of(aset.union(bset)));
        vstd::set_lib::lemma_len_subset(aset.intersect(bset), aset.union(bset));
        assert(na <= tri_count(a@) && tri_count(a@) <= a@.len());
        assert(extra <= nb && nb <= tri_count(b@) && tri_count(b@) <= b@.len());
    }
    let den = na + extra;
    (inter, den)
}

/// The score `n1 / d1` is strictly greater than `n2 / d2`, an empty
/// denominator counting as score zero.
pub open spec fn score_gt(n1: nat, d1: nat, n2: nat, d2: nat) -> bool {
    if d2 == 0 {
        d1 > 0 && n1 > 0
    } else if d1 == 0 {
        false
    } else {
        n1 * d2 > n2 * d1
    }
}

/// Decides `score_gt` exactly, with the cross products taken in 128 bits so
/// that they cannot overflow.
pub fn score_gt_exec(n1: usize, d1: usize, n2: usize, d2: usize) -> (r: bool)
    ensures
        r == score_gt(n1 as nat, d1 as nat, n2 as nat, d2 as nat),
{
    if d2 == 0 {
        d1 > 0 && n1 > 0
    } else if d1 == 0 {
        false
    } else {
        let n1w = n1 as u128;
        let d1w = d1 as u128;
        let n2w = n2 as u128;
        let d2w = d2 as u128;
        proof {
            assert(n1w * d2w <= u128::MAX && n2w * d1w <= u128::MAX) by (nonlinear_arith)
                requires
                    n1w <= 0xFFFF_FFFF_FFFF_FFFFu128,
                    d2w <= 0xFFFF_FFFF_FFFF_FFFFu128,
                    n2w <= 0xFFFF_FFFF_FFFF_FFFFu128,
                    d1w <= 0xFFFF_FFFF_FFFF_FFFFu128,
            {
            }
        }
        let p1 = n1w * d2w;
        let p2 = n2w * d1w;
        p1 > p2
    }
}

} // verus!
