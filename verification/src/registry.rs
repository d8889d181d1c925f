//! Pruning the destination registry after a broadcast pass.
//!
//! A broadcast writes one frame to every registered destination in registry
//! order and notes, per destination, whether the write succeeded.  A failed
//! destination is then removed; the survivors keep their relative order.
//! The registry itself is an ordered collection owned by the caller — here
//! the pass's outcome is turned into the pruned collection.

use vstd::prelude::*;

verus! {

/// Which items survive a broadcast pass: item `i` stays exactly when
/// `ok[i]`, and the survivors keep their relative order.
pub open spec fn keep_ok<T>(items: Seq<T>, ok: Seq<bool>) -> Seq<T>
    recommends
        items.len() == ok.len(),
    decreases items.len(),
{
    if items.len() == 0 || ok.len() == 0 {
        Seq::<T>::empty()
    } else {
        let rest = keep_ok(items.skip(1), ok.skip(1));
        if ok[0] {
            seq![items[0]] + rest
        } else {
            rest
        }
    }
}

/// Removes from `items` every entry whose write failed (`ok[i]` false),
/// keeping the survivors in their original order.
pub fn prune_failed<T>(items: Vec<T>, ok: &Vec<bool>) -> (r: Vec<T>)
    requires
        items@.len() == ok@.len(),
    ensures
        r@ == keep_ok(items@, ok@),
{
    let ghost orig = items@;
    let n: usize = ok.len();
    let mut rest = items;
    let mut r: Vec<T> = Vec::new();
    let mut i: usize = 0;
    proof {
        assert(orig.skip(0) =~= orig);
        assert(ok@.skip(0) =~= ok@);
        assert(r@ + keep_ok(orig, ok@) =~= keep_ok(orig, ok@));
    }
    while rest.len() > 0
        invariant
            ok@.len() == orig.len(),
            n == ok@.len(),
            i <= orig.len(),
            rest@ == orig.skip(i as int),
            keep_ok(orig, ok@) == r@ + keep_ok(rest@, ok@.skip(i as int)),
        decreases rest@.len(),
    {
        let ghost rest0 = rest@;
        let x = rest.remove(0);
        assert(rest@ =~= rest0.skip(1));
        assert(rest@ =~= orig.skip(i + 1));
        let keep: bool = ok[i];
        proof {
            assert(ok@.skip(i as int)[0] == ok@[i as int]);
            assert(ok@.skip(i as int).skip(1) =~= ok@.skip(i + 1));
            assert(rest0[0] == orig[i as int]);
        }
        if keep {
            let ghost r0 = r@;
            r.push(x);
            proof {
                assert(r@ =~= r0 + seq![x]);
                assert(r0 + (seq![x] + keep_ok(rest@, ok@.skip(i + 1))) =~= (r0 + seq![x])
                    + keep_ok(rest@, ok@.skip(i + 1)));
            }
        }
        i = i + 1;
    }
    proof {
        assert(keep_ok(rest@, ok@.skip(i as int)) =~= Seq::<T>::empty());
        assert(r@ + Seq::<T>::empty() =~= r@);
    }
    r
}

/// After a pass, a destination whose write failed is gone and every
/// destination whose write succeeded is still there: pruning removes exactly
/// the failures, so one failure never costs the remaining destinations their
/// place.
pub proof fn lemma_keep_ok_membership<T>(items: Seq<T>, ok: Seq<bool>)
    requires
        items.len() == ok.len(),
    ensures
        forall|i: int|
            0 <= i < items.len() && ok[i] ==> keep_ok(items, ok).contains(#[trigger] items[i]),
        forall|x: T|
            keep_ok(items, ok).contains(x) ==> exists|i: int|
                0 <= i < items.len() && ok[i] && items[i] == x,
    decreases items.len(),
{
    if items.len() == 0 {
    } else {
        let it = items.skip(1);
        let ot = ok.skip(1);
        lemma_keep_ok_membership(it, ot);
        let rest = keep_ok(it, ot);
        assert forall|i: int|
            0 <= i < items.len() && ok[i] implies keep_ok(items, ok).contains(
            #[trigger] items[i],
        ) by {
            if i == 0 {
                assert(keep_ok(items, ok)[0] == items[0]);
            } else {
                assert(it[i - 1] == items[i]);
                assert(rest.contains(it[i - 1]));
                let j = choose|j: int| 0 <= j < rest.len() && rest[j] == it[i - 1];
                if ok[0] {
                    assert(keep_ok(items, ok)[j + 1] == rest[j]);
                } else {
                    assert(keep_ok(items, ok)[j] == rest[j]);
                }
            }
        }
        assert forall|x: T| keep_ok(items, ok).contains(x) implies exists|i: int|
            0 <= i < items.len() && ok[i] && items[i] == x by {
            let k = choose|k: int|
                0 <= k < keep_ok(items, ok).len() && keep_ok(items, ok)[k] == x;
            if ok[0] && k == 0 {
                assert(items[0] == x && ok[0]);
            } else {
                let kr: int = if ok[0] {
                    k - 1
                } else {
                    k
                };
                assert(rest[kr] == x);
                assert(rest.contains(x));
                let i = choose|i: int| 0 <= i < it.len() && ot[i] && it[i] == x;
                assert(items[i + 1] == x && ok[i + 1]);
            }
        }
    }
}

} // verus!
