//! Fail-soft aggregation: apply a fallible operation to every item of a
//! sequence, never stopping early, and hand back either all successes or
//! all failures.

use vstd::prelude::*;

verus! {

/// The successes among `rs`, in their original order.
pub open spec fn oks_of<U, E>(rs: Seq<Result<U, E>>) -> Seq<U>
    decreases rs.len(),
{
    if rs.len() == 0 {
        Seq::empty()
    } else {
        match rs.last() {
            Ok(u) => oks_of(rs.drop_last()).push(u),
            Err(_) => oks_of(rs.drop_last()),
        }
    }
}

/// The failures among `rs`, in their original order.
pub open spec fn errs_of<U, E>(rs: Seq<Result<U, E>>) -> Seq<E>
    decreases rs.len(),
{
    if rs.len() == 0 {
        Seq::empty()
    } else {
        match rs.last() {
            Ok(_) => errs_of(rs.drop_last()),
            Err(e) => errs_of(rs.drop_last()).push(e),
        }
    }
}

/// What fail-soft aggregation owes for the per-item outcomes `rs`: when no
/// item failed, all successes in order; when any failed, all failures in
/// order and no success at all.
pub open spec fn aggregate_outcome<U, E>(rs: Seq<Result<U, E>>, r: Result<Vec<U>, Vec<E>>) -> bool {
    if errs_of(rs).len() == 0 {
        r matches Ok(us) && us@ == oks_of(rs)
    } else {
        r matches Err(es) && es@ == errs_of(rs)
    }
}

/// When nothing failed, the successes are the outcomes themselves, one
/// per item and in the same order.
pub proof fn lemma_oks_pointwise<U, E>(rs: Seq<Result<U, E>>)
    requires
        errs_of(rs).len() == 0,
    ensures
        oks_of(rs).len() == rs.len(),
        forall|i: int|
            0 <= i < rs.len() ==> (#[trigger] rs[i]) is Ok && oks_of(rs)[i] == rs[i]->Ok_0,
    decreases rs.len(),
{
    if rs.len() > 0 {
        match rs.last() {
            Ok(u) => {
                lemma_oks_pointwise(rs.drop_last());
                assert forall|i: int|
                    0 <= i < rs.len() implies (#[trigger] rs[i]) is Ok && oks_of(rs)[i]
                    == rs[i]->Ok_0 by {
                    if i < rs.len() - 1 {
                        assert(rs.drop_last()[i] == rs[i]);
                        assert(oks_of(rs)[i] == oks_of(rs.drop_last())[i]);
                    }
                }
            },
            Err(e) => {
                assert(errs_of(rs).len() > 0);
            },
        }
    }
}

/// Runs `f` on every item in order, regardless of earlier failures. If no
/// call failed, the result is the ordered list of all successes; if any
/// failed, it is the ordered list of all failures, and every success is
/// discarded. The per-item outcomes are exactly the outcomes `f` admits.
pub fn try_with_progress<T, U, E>(items: Vec<T>, f: impl Fn(T) -> Result<U, E>) -> (r: Result<
    Vec<U>,
    Vec<E>,
>)
    requires
        forall|i: int| 0 <= i < items@.len() ==> call_requires(f, ((#[trigger] items@[i]),)),
    ensures
        exists|rs: Seq<Result<U, E>>|
            #![auto]
            {
                &&& rs.len() == items@.len()
                &&& (forall|i: int|
                    0 <= i < rs.len() ==> call_ensures(f, (items@[i],), #[trigger] rs[i]))
                &&& aggregate_outcome(rs, r)
            },
{
    let ghost orig = items@;
    let mut todo = items;
    let total: usize = todo.len();
    proof {
        assert(orig.len() == total);
    }
    let mut goods: Vec<U> = Vec::new();
    let mut errs: Vec<E> = Vec::new();
    let ghost mut rs: Seq<Result<U, E>> = Seq::empty();
    let mut j: usize = 0;
    while todo.len() > 0
        invariant
            orig.len() == total,
            orig.len() == j + todo@.len(),
            todo@ == orig.skip(j as int),
            forall|i: int| 0 <= i < orig.len() ==> call_requires(f, ((#[trigger] orig[i]),)),
            rs.len() == j,
            forall|i: int| 0 <= i < j ==> call_ensures(f, (orig[i],), #[trigger] rs[i]),
            goods@ == oks_of(rs),
            errs@ == errs_of(rs),
        decreases todo@.len(),
    {
        let ghost pre = todo@;
        let x = todo.remove(0);
        proof {
            assert(pre[0] == orig[j as int]);
            assert(pre.remove(0) =~= orig.skip(j + 1));
        }
        let res = f(x);
        match res {
            Ok(u) => {
                proof {
                    let rs2 = rs.push(Ok::<U, E>(u));
                    assert(rs2.drop_last() =~= rs);
                    rs = rs2;
                }
                goods.push(u);
            },
            Err(e) => {
                proof {
                    let rs2 = rs.push(Err::<U, E>(e));
                    assert(rs2.drop_last() =~= rs);
                    rs = rs2;
                }
                errs.push(e);
            },
        }
        j += 1;
    }
    proof {
        assert(rs.len() == orig.len());
    }
    if errs.len() == 0 {
        Ok(goods)
    } else {
        Err(errs)
    }
}

} // verus!
