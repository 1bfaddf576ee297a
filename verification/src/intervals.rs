//! Interval algebra over the version domain: comparing and merging bounded
//! intervals, and normalizing a collection of intervals into an ordered
//! sequence of disjoint, non-adjacent ones covering the same versions.

use crate::version::{
    lemma_idx_bounds, lemma_idx_extremes, lemma_idx_injective, ver_le, ver_lt, DependencyVersion,
    Relation, VersionRange,
};
use vstd::prelude::*;

verus! {

/// Whether the domain position `x` lies in at least one interval of `s`.
pub open spec fn in_union(s: Seq<VersionRange>, x: int) -> bool {
    exists|i: int| 0 <= i < s.len() && s[i].has(x)
}

/// Every interval of `s` admits at least one position.
pub open spec fn all_nonempty(s: Seq<VersionRange>) -> bool {
    forall|i: int| 0 <= i < s.len() ==> !(#[trigger] s[i]).is_empty_spec()
}

/// Consecutive intervals are separated by a gap of at least one position:
/// they neither overlap nor touch.
pub open spec fn sorted_disjoint(s: Seq<VersionRange>) -> bool {
    forall|i: int| 0 <= i < s.len() - 1 ==> (#[trigger] s[i]).hi_eff() + 1 < s[i + 1].lo_eff()
}

/// The lower bound of `r` is taken verbatim from one of the intervals of `s`.
pub open spec fn lower_from(s: Seq<VersionRange>, r: VersionRange) -> bool {
    exists|i: int|
        0 <= i < s.len() && r.lower == (#[trigger] s[i]).lower && r.lower_relation
            == s[i].lower_relation
}

/// The higher bound of `r` is taken verbatim from one of the intervals of `s`.
pub open spec fn upper_from(s: Seq<VersionRange>, r: VersionRange) -> bool {
    exists|i: int|
        0 <= i < s.len() && r.higher == (#[trigger] s[i]).higher && r.higher_relation
            == s[i].higher_relation
}

/// Appending an interval adds exactly its positions to the union.
proof fn lemma_in_union_push(s: Seq<VersionRange>, v: VersionRange)
    ensures
        forall|x: int| in_union(s.push(v), x) <==> (in_union(s, x) || v.has(x)),
{
    assert forall|x: int| in_union(s.push(v), x) <==> (in_union(s, x) || v.has(x)) by {
        if in_union(s.push(v), x) {
            let i = choose|i: int| 0 <= i < s.push(v).len() && s.push(v)[i].has(x);
            if i < s.len() {
                assert(s[i].has(x));
            } else {
                assert(v.has(x));
            }
        }
        if in_union(s, x) {
            let i = choose|i: int| 0 <= i < s.len() && s[i].has(x);
            assert(s.push(v)[i].has(x));
        }
        if v.has(x) {
            assert(s.push(v)[s.len() as int].has(x));
        }
    }
}

/// Removing an interval removes at most its positions from the union.
proof fn lemma_in_union_remove(s: Seq<VersionRange>, i: int)
    requires
        0 <= i < s.len(),
    ensures
        forall|x: int| in_union(s, x) <==> (in_union(s.remove(i), x) || s[i].has(x)),
{
    let t = s.remove(i);
    assert forall|x: int| in_union(s, x) <==> (in_union(t, x) || s[i].has(x)) by {
        if in_union(s, x) {
            let j = choose|j: int| 0 <= j < s.len() && s[j].has(x);
            if j < i {
                assert(t[j].has(x));
            } else if j > i {
                assert(t[j - 1].has(x));
            }
        }
        if in_union(t, x) {
            let j = choose|j: int| 0 <= j < t.len() && t[j].has(x);
            if j < i {
                assert(s[j].has(x));
            } else {
                assert(s[j + 1].has(x));
            }
        }
        if s[i].has(x) {
            assert(in_union(s, x));
        }
    }
}

/// In a sorted, disjoint, nonempty sequence the gap between consecutive
/// intervals extends to every later interval.
pub proof fn lemma_chain(s: Seq<VersionRange>, i: int, j: int)
    requires
        sorted_disjoint(s),
        all_nonempty(s),
        0 <= i < j < s.len(),
    ensures
        s[i].hi_eff() + 1 < s[j].lo_eff(),
    decreases j - i,
{
    if j == i + 1 {
    } else {
        lemma_chain(s, i, j - 1);
        assert(!s[j - 1].is_empty_spec());
    }
}

/// Whether `a` starts at or before `b`, measured by effective lower bounds.
pub fn lower_le(a: &VersionRange, b: &VersionRange) -> (r: bool)
    ensures
        r == (a.lo_eff() <= b.lo_eff()),
{
    if ver_lt(&a.lower, &b.lower) {
        true
    } else if ver_lt(&b.lower, &a.lower) {
        match (a.lower_relation, b.lower_relation) {
            (Relation::LTE, Relation::LT) => {
                match b.lower.successor() {
                    Ok(s) => s == a.lower,
                    Err(_) => {
                        proof {
                            lemma_idx_bounds(a.lower);
                            lemma_idx_extremes(b.lower);
                        }
                        false
                    },
                }
            },
            _ => false,
        }
    } else {
        proof {
            lemma_idx_injective(a.lower, b.lower);
        }
        match (a.lower_relation, b.lower_relation) {
            (Relation::LT, Relation::LTE) => false,
            _ => true,
        }
    }
}

/// Whether `a` ends at or before `b`, measured by effective higher bounds.
pub fn upper_le(a: &VersionRange, b: &VersionRange) -> (r: bool)
    ensures
        r == (a.hi_eff() <= b.hi_eff()),
{
    if ver_lt(&a.higher, &b.higher) {
        true
    } else if ver_lt(&b.higher, &a.higher) {
        match (a.higher_relation, b.higher_relation) {
            (Relation::LT, Relation::LTE) => {
                match b.higher.successor() {
                    Ok(s) => s == a.higher,
                    Err(_) => {
                        proof {
                            lemma_idx_bounds(a.higher);
                            lemma_idx_extremes(b.higher);
                        }
                        false
                    },
                }
            },
            _ => false,
        }
    } else {
        proof {
            lemma_idx_injective(a.higher, b.higher);
        }
        match (a.higher_relation, b.higher_relation) {
            (Relation::LTE, Relation::LT) => false,
            _ => true,
        }
    }
}

/// Whether `b` starts no later than one position past the end of `a`, so
/// that the two intervals overlap or are adjacent in the discrete domain.
pub fn touches(a: &VersionRange, b: &VersionRange) -> (r: bool)
    ensures
        r == (b.lo_eff() <= a.hi_eff() + 1),
{
    match (a.higher_relation, b.lower_relation) {
        (Relation::LTE, Relation::LTE) => {
            if ver_le(&b.lower, &a.higher) {
                true
            } else {
                match a.higher.successor() {
                    Ok(s) => s == b.lower,
                    Err(_) => {
                        proof {
                            lemma_idx_bounds(b.lower);
                            lemma_idx_extremes(a.higher);
                        }
                        true
                    },
                }
            }
        },
        (Relation::LTE, Relation::LT) => ver_le(&b.lower, &a.higher),
        (Relation::LT, Relation::LTE) => ver_le(&b.lower, &a.higher),
        (Relation::LT, Relation::LT) => ver_lt(&b.lower, &a.higher),
    }
}

/// Whether the interval admits no version at all.
pub fn range_is_empty(r: &VersionRange) -> (res: bool)
    ensures
        res == r.is_empty_spec(),
{
    match (r.lower_relation, r.higher_relation) {
        (Relation::LTE, Relation::LTE) => ver_lt(&r.higher, &r.lower),
        (Relation::LTE, Relation::LT) => ver_le(&r.higher, &r.lower),
        (Relation::LT, Relation::LTE) => ver_le(&r.higher, &r.lower),
        (Relation::LT, Relation::LT) => {
            match r.lower.successor() {
                Ok(s) => ver_le(&r.higher, &s),
                Err(_) => {
                    proof {
                        lemma_idx_bounds(r.higher);
                        lemma_idx_extremes(r.lower);
                    }
                    true
                },
            }
        },
    }
}

/// The convex hull of two overlapping or adjacent intervals, which covers
/// exactly the positions the two cover together. The bounds of the hull are
/// taken verbatim from the inputs.
pub fn hull(a: &VersionRange, b: &VersionRange) -> (r: VersionRange)
    requires
        a.lo_eff() <= b.lo_eff(),
        !a.is_empty_spec(),
        !b.is_empty_spec(),
        b.lo_eff() <= a.hi_eff() + 1,
    ensures
        forall|x: int| r.has(x) <==> (a.has(x) || b.has(x)),
        !r.is_empty_spec(),
        r.lo_eff() == a.lo_eff(),
        r.hi_eff() == if a.hi_eff() >= b.hi_eff() {
            a.hi_eff()
        } else {
            b.hi_eff()
        },
        r.lower == a.lower && r.lower_relation == a.lower_relation,
        (r.higher == a.higher && r.higher_relation == a.higher_relation) || (r.higher == b.higher
            && r.higher_relation == b.higher_relation),
{
    if upper_le(a, b) {
        VersionRange {
            lower: a.lower,
            lower_relation: a.lower_relation,
            higher_relation: b.higher_relation,
            higher: b.higher,
        }
    } else {
        VersionRange {
            lower: a.lower,
            lower_relation: a.lower_relation,
            higher_relation: a.higher_relation,
            higher: a.higher,
        }
    }
}

/// The union of `s` admits at least one position.
pub open spec fn union_nonempty(s: Seq<VersionRange>) -> bool {
    exists|x: int| in_union(s, x)
}

/// The union of `s` has no holes: every position lying between two members
/// of the union is itself a member.
pub open spec fn union_convex(s: Seq<VersionRange>) -> bool {
    forall|x: int, y: int, z: int|
        #![trigger in_union(s, x), in_union(s, y), in_union(s, z)]
        x <= y <= z && in_union(s, x) && in_union(s, z) ==> in_union(s, y)
}

/// A normalized sequence of intervals covers a nonempty, hole-free set of
/// versions exactly when it consists of a single interval: zero intervals
/// cover nothing, and two or more leave a gap between the first pair.
pub proof fn lemma_normalized_decision(s: Seq<VersionRange>)
    requires
        all_nonempty(s),
        sorted_disjoint(s),
    ensures
        s.len() == 0 ==> !union_nonempty(s),
        s.len() == 1 ==> union_nonempty(s) && union_convex(s),
        s.len() >= 2 ==> !union_convex(s),
{
    if s.len() == 0 {
        assert(!union_nonempty(s));
    } else if s.len() == 1 {
        assert(!s[0].is_empty_spec());
        assert(s[0].has(s[0].lo_eff()));
        assert(in_union(s, s[0].lo_eff()));
        assert forall|x: int, y: int, z: int|
            #![trigger in_union(s, x), in_union(s, y), in_union(s, z)]
            x <= y <= z && in_union(s, x) && in_union(s, z) implies in_union(s, y) by {
            if x <= y <= z && in_union(s, x) && in_union(s, z) {
                let i = choose|i: int| 0 <= i < s.len() && s[i].has(x);
                let j = choose|j: int| 0 <= j < s.len() && s[j].has(z);
                assert(i == 0 && j == 0);
                assert(s[0].has(y));
            }
        }
    } else {
        let x0 = s[0].hi_eff();
        let y0 = s[0].hi_eff() + 1;
        let z0 = s[1].lo_eff();
        assert(!s[0].is_empty_spec());
        assert(!s[1].is_empty_spec());
        assert(s[0].has(x0));
        assert(in_union(s, x0));
        assert(s[1].has(z0));
        assert(in_union(s, z0));
        assert(!in_union(s, y0)) by {
            if in_union(s, y0) {
                let i = choose|i: int| 0 <= i < s.len() && s[i].has(y0);
                if i >= 1 {
                    lemma_chain(s, 0, i);
                }
            }
        }
        assert(x0 <= y0 <= z0);
        assert(!union_convex(s));
    }
}

/// Two interval sequences covering the same positions agree on whether the
/// union is nonempty and whether it is hole-free.
pub proof fn lemma_union_equiv_transfer(a: Seq<VersionRange>, b: Seq<VersionRange>)
    requires
        forall|x: int| in_union(a, x) <==> in_union(b, x),
    ensures
        union_nonempty(a) <==> union_nonempty(b),
        union_convex(a) <==> union_convex(b),
{
    assert(union_nonempty(a) <==> union_nonempty(b)) by {
        if union_nonempty(a) {
            let x = choose|x: int| in_union(a, x);
            assert(in_union(b, x));
        }
        if union_nonempty(b) {
            let x = choose|x: int| in_union(b, x);
            assert(in_union(a, x));
        }
    }
    assert(union_convex(a) ==> union_convex(b)) by {
        if union_convex(a) {
            assert forall|x: int, y: int, z: int|
                #![trigger in_union(b, x), in_union(b, y), in_union(b, z)]
                x <= y <= z && in_union(b, x) && in_union(b, z) implies in_union(b, y) by {
                if x <= y <= z && in_union(b, x) && in_union(b, z) {
                    assert(in_union(a, x));
                    assert(in_union(a, z));
                    assert(in_union(a, y) ==> in_union(b, y));
                }
            }
        }
    }
    assert(union_convex(b) ==> union_convex(a)) by {
        if union_convex(b) {
            assert forall|x: int, y: int, z: int|
                #![trigger in_union(a, x), in_union(a, y), in_union(a, z)]
                x <= y <= z && in_union(a, x) && in_union(a, z) implies in_union(a, y) by {
                if x <= y <= z && in_union(a, x) && in_union(a, z) {
                    assert(in_union(b, x));
                    assert(in_union(b, z));
                    assert(in_union(b, y) ==> in_union(a, y));
                }
            }
        }
    }
}

/// Converts a nonempty interval back into a constraint: a single-point
/// interval collapses to the exact version at that point, and any other
/// interval is returned as a range with its bounds untouched.
pub fn interval_to_constraint(iv: &VersionRange) -> (r: DependencyVersion)
    requires
        !iv.is_empty_spec(),
    ensures
        forall|x: int| r.has(x) <==> iv.has(x),
        (iv.lo_eff() == iv.hi_eff()) <==> (r matches DependencyVersion::SpecificVersion(_)),
        iv.lo_eff() < iv.hi_eff() ==> r == DependencyVersion::VersionRange(*iv),
{
    proof {
        lemma_idx_bounds(iv.lower);
        lemma_idx_bounds(iv.higher);
        lemma_idx_extremes(iv.lower);
        lemma_idx_extremes(iv.higher);
    }
    let single: bool = match (iv.lower_relation, iv.higher_relation) {
        (Relation::LTE, Relation::LTE) => iv.lower == iv.higher,
        (Relation::LTE, Relation::LT) | (Relation::LT, Relation::LTE) => {
            match iv.lower.successor() {
                Ok(s) => {
                    proof {
                        lemma_idx_injective(s, iv.higher);
                    }
                    s == iv.higher
                },
                Err(_) => false,
            }
        },
        (Relation::LT, Relation::LT) => {
            match iv.lower.successor() {
                Ok(s) => {
                    proof {
                        lemma_idx_bounds(s);
                        lemma_idx_extremes(s);
                    }
                    match s.successor() {
                        Ok(s2) => {
                            proof {
                                lemma_idx_injective(s2, iv.higher);
                            }
                            s2 == iv.higher
                        },
                        Err(_) => false,
                    }
                },
                Err(_) => false,
            }
        },
    };
    proof {
        lemma_idx_injective(iv.lower, iv.higher);
    }
    if single {
        let point = match iv.lower_relation {
            Relation::LTE => iv.lower,
            Relation::LT => {
                match iv.lower.successor() {
                    Ok(s) => s,
                    Err(_) => {
                        proof {
                            assert(false);
                        }
                        iv.lower
                    },
                }
            },
        };
        DependencyVersion::SpecificVersion(point)
    } else {
        DependencyVersion::VersionRange(*iv)
    }
}

/// Normalizes a collection of intervals: empty intervals are dropped, and
/// any two that overlap or are adjacent are merged into their convex hull,
/// repeatedly, until the result is an ordered sequence of disjoint,
/// non-adjacent, nonempty intervals covering exactly the same versions.
/// Every bound of the result is taken verbatim from some input interval.
pub fn normalize_union(ivs: Vec<VersionRange>) -> (r: Vec<VersionRange>)
    ensures
        forall|x: int| in_union(r@, x) <==> in_union(ivs@, x),
        all_nonempty(r@),
        sorted_disjoint(r@),
        forall|k: int|
            0 <= k < r@.len() ==> lower_from(ivs@, #[trigger] r@[k]) && upper_from(ivs@, r@[k]),
{
    // Drop empty intervals.
    let mut work: Vec<VersionRange> = Vec::new();
    let mut i: usize = 0;
    while i < ivs.len()
        invariant
            i <= ivs@.len(),
            all_nonempty(work@),
            forall|x: int| in_union(work@, x) <==> in_union(ivs@.take(i as int), x),
            forall|k: int|
                0 <= k < work@.len() ==> lower_from(ivs@, #[trigger] work@[k]) && upper_from(
                    ivs@,
                    work@[k],
                ),
        decreases ivs@.len() - i,
    {
        let iv = ivs[i];
        let ghost oldwork = work@;
        if !range_is_empty(&iv) {
            work.push(iv);
        }
        proof {
            assert(ivs@.take(i + 1) =~= ivs@.take(i as int).push(iv));
            assert forall|x: int| in_union(work@, x) <==> in_union(ivs@.take(i + 1), x) by {
                lemma_in_union_push(ivs@.take(i as int), iv);
                lemma_in_union_push(oldwork, iv);
                assert(in_union(ivs@.take(i + 1), x) == (in_union(ivs@.take(i as int), x)
                    || iv.has(x)));
                if iv.is_empty_spec() {
                    assert(!iv.has(x));
                } else {
                    assert(in_union(work@, x) == (in_union(oldwork, x) || iv.has(x)));
                }
            }
        }
        i += 1;
    }
    proof {
        assert(ivs@.take(ivs@.len() as int) =~= ivs@);
    }
    // Sort by effective lower bound, smallest first.
    let ghost whole = ivs@;
    let mut sorted_v: Vec<VersionRange> = Vec::new();
    while work.len() > 0
        invariant
            all_nonempty(work@),
            all_nonempty(sorted_v@),
            forall|x: int| (in_union(sorted_v@, x) || in_union(work@, x)) <==> in_union(whole, x),
            forall|p: int, q: int|
                0 <= p < q < sorted_v@.len() ==> (#[trigger] sorted_v@[p]).lo_eff() <= (
                #[trigger] sorted_v@[q]).lo_eff(),
            forall|p: int, q: int|
                0 <= p < sorted_v@.len() && 0 <= q < work@.len() ==> (
                #[trigger] sorted_v@[p]).lo_eff() <= (#[trigger] work@[q]).lo_eff(),
            forall|k: int|
                0 <= k < work@.len() ==> lower_from(whole, #[trigger] work@[k]) && upper_from(
                    whole,
                    work@[k],
                ),
            forall|k: int|
                0 <= k < sorted_v@.len() ==> lower_from(whole, #[trigger] sorted_v@[k])
                    && upper_from(whole, sorted_v@[k]),
        decreases work@.len(),
    {
        let mut m: usize = 0;
        let mut j: usize = 1;
        while j < work.len()
            invariant
                work@.len() > 0,
                m < j <= work@.len(),
                forall|q: int| 0 <= q < j ==> work@[m as int].lo_eff() <= (#[trigger] work@[q]).lo_eff(),
            decreases work@.len() - j,
        {
            if !lower_le(&work[m], &work[j]) {
                m = j;
            }
            j += 1;
        }
        let ghost pre = work@;
        let iv = work.remove(m);
        proof {
            lemma_in_union_remove(pre, m as int);
            assert(forall|q: int| 0 <= q < m ==> pre.remove(m as int)[q] == pre[q]);
            assert(forall|q: int|
                m <= q < pre.len() - 1 ==> pre.remove(m as int)[q] == pre[q + 1]);
            lemma_in_union_push(sorted_v@, iv);
        }
        sorted_v.push(iv);
    }
    // Sweep once, merging every interval that overlaps or touches the last.
    let mut res: Vec<VersionRange> = Vec::new();
    let mut k: usize = 0;
    while k < sorted_v.len()
        invariant
            k <= sorted_v@.len(),
            all_nonempty(sorted_v@),
            forall|p: int, q: int|
                0 <= p < q < sorted_v@.len() ==> (#[trigger] sorted_v@[p]).lo_eff() <= (
                #[trigger] sorted_v@[q]).lo_eff(),
            forall|k2: int|
                0 <= k2 < sorted_v@.len() ==> lower_from(whole, #[trigger] sorted_v@[k2])
                    && upper_from(whole, sorted_v@[k2]),
            forall|x: int| in_union(sorted_v@, x) <==> in_union(whole, x),
            all_nonempty(res@),
            sorted_disjoint(res@),
            k > 0 ==> res@.len() > 0,
            k == 0 ==> res@.len() == 0,
            forall|x: int| in_union(res@, x) <==> in_union(sorted_v@.take(k as int), x),
            forall|q: int|
                k <= q < sorted_v@.len() && res@.len() > 0 ==> res@[res@.len() - 1].lo_eff() <= (
                #[trigger] sorted_v@[q]).lo_eff(),
            forall|k2: int|
                0 <= k2 < res@.len() ==> lower_from(whole, #[trigger] res@[k2]) && upper_from(
                    whole,
                    res@[k2],
                ),
        decreases sorted_v@.len() - k,
    {
        let iv = sorted_v[k];
        let ghost oldres = res@;
        proof {
            assert(sorted_v@.take(k + 1) =~= sorted_v@.take(k as int).push(iv));
        }
        if res.len() == 0 {
            res.push(iv);
            proof {
                assert forall|x: int| in_union(res@, x) <==> in_union(sorted_v@.take(k + 1), x) by {
                    lemma_in_union_push(sorted_v@.take(k as int), iv);
                    lemma_in_union_push(oldres, iv);
                    assert(in_union(sorted_v@.take(k + 1), x) == (in_union(
                        sorted_v@.take(k as int),
                        x,
                    ) || iv.has(x)));
                    assert(in_union(res@, x) == (in_union(oldres, x) || iv.has(x)));
                }
            }
        } else {
            let last = res[res.len() - 1];
            if touches(&last, &iv) {
                let merged = hull(&last, &iv);
                let _ = res.pop();
                res.push(merged);
                proof {
                    assert(oldres =~= oldres.drop_last().push(last));
                    assert forall|x: int|
                        in_union(res@, x) <==> in_union(sorted_v@.take(k + 1), x) by {
                        lemma_in_union_push(oldres.drop_last(), last);
                        lemma_in_union_push(oldres.drop_last(), merged);
                        lemma_in_union_push(sorted_v@.take(k as int), iv);
                        assert(res@ == oldres.drop_last().push(merged));
                        assert(in_union(res@, x) == (in_union(oldres.drop_last(), x)
                            || merged.has(x)));
                        assert(merged.has(x) == (last.has(x) || iv.has(x)));
                        assert(in_union(oldres, x) == (in_union(oldres.drop_last(), x)
                            || last.has(x)));
                        assert(in_union(sorted_v@.take(k + 1), x) == (in_union(
                            sorted_v@.take(k as int),
                            x,
                        ) || iv.has(x)));
                    }
                }
            } else {
                res.push(iv);
                proof {
                    assert forall|x: int|
                        in_union(res@, x) <==> in_union(sorted_v@.take(k + 1), x) by {
                        lemma_in_union_push(sorted_v@.take(k as int), iv);
                        lemma_in_union_push(oldres, iv);
                        assert(in_union(sorted_v@.take(k + 1), x) == (in_union(
                            sorted_v@.take(k as int),
                            x,
                        ) || iv.has(x)));
                        assert(in_union(res@, x) == (in_union(oldres, x) || iv.has(x)));
                    }
                }
            }
        }
        k += 1;
    }
    proof {
        assert(sorted_v@.take(sorted_v@.len() as int) =~= sorted_v@);
    }
    res
}

} // verus!
