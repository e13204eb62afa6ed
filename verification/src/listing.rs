//! Ascending listings of the numbers below a bound that a predicate keeps.
//!
//! Both the offsets at which a pattern matches and the offsets at which the
//! tokens of a text begin are such listings.

use vstd::prelude::*;

verus! {

/// The numbers from zero up to `k`, without `k`, ascending.
pub open spec fn offsets_below(k: nat) -> Seq<int> {
    Seq::new(k, |i: int| i)
}

/// The numbers below `k` that `keep` accepts, ascending.
pub open spec fn kept_below(k: nat, keep: spec_fn(int) -> bool) -> Seq<int> {
    offsets_below(k).filter(keep)
}

/// Raising the bound by one appends the old bound if `keep` accepts it, and
/// changes nothing otherwise.
pub proof fn lemma_kept_step(k: nat, keep: spec_fn(int) -> bool)
    ensures
        kept_below(k + 1, keep) == if keep(k as int) {
            kept_below(k, keep).push(k as int)
        } else {
            kept_below(k, keep)
        },
{
    reveal(Seq::filter);
    let more = offsets_below(k + 1);
    assert(more.drop_last() == offsets_below(k));
    assert(more.last() == k);
}

/// The listing holds only numbers below the bound that `keep` accepts, each
/// of them, and in strictly ascending order.
pub proof fn lemma_kept_below(k: nat, keep: spec_fn(int) -> bool)
    ensures
        forall|j: int|
            0 <= j < kept_below(k, keep).len() ==> {
                &&& 0 <= (#[trigger] kept_below(k, keep)[j]) < k
                &&& keep(kept_below(k, keep)[j])
            },
        forall|i: int| 0 <= i < k && keep(i) ==> #[trigger] kept_below(k, keep).contains(i),
        forall|a: int, b: int|
            0 <= a < b < kept_below(k, keep).len() ==> kept_below(k, keep)[a] < kept_below(
                k,
                keep,
            )[b],
        kept_below(k, keep).len() <= k,
    decreases k,
{
    if k > 0 {
        let fewer = (k - 1) as nat;
        lemma_kept_below(fewer, keep);
        lemma_kept_step(fewer, keep);
        let before = kept_below(fewer, keep);
        let kept = kept_below(k, keep);
        assert forall|i: int| 0 <= i < k && keep(i) implies #[trigger] kept.contains(i) by {
            if i < k - 1 {
                assert(before.contains(i));
                let j = choose|j: int| 0 <= j < before.len() && before[j] == i;
                assert(kept[j] == i);
            } else {
                assert(kept[kept.len() - 1] == i);
            }
        }
    } else {
        reveal(Seq::filter);
    }
}

/// Where `keep` accepts every number below the bound, the listing holds
/// them all.
pub proof fn lemma_kept_all(k: nat, keep: spec_fn(int) -> bool)
    requires
        forall|i: int| 0 <= i < k ==> #[trigger] keep(i),
    ensures
        kept_below(k, keep) == offsets_below(k),
    decreases k,
{
    if k > 0 {
        let fewer = (k - 1) as nat;
        lemma_kept_all(fewer, keep);
        lemma_kept_step(fewer, keep);
        assert(offsets_below(fewer).push(fewer as int) == offsets_below(k));
    } else {
        reveal(Seq::filter);
    }
}

/// Raising the bound from `a` to `b` changes nothing where `keep` accepts
/// no number from `a` up to `b`.
pub proof fn lemma_kept_none_between(a: nat, b: nat, keep: spec_fn(int) -> bool)
    requires
        a <= b,
        forall|i: int| a <= i < b ==> !#[trigger] keep(i),
    ensures
        kept_below(b, keep) == kept_below(a, keep),
    decreases b - a,
{
    if a < b {
        let fewer = (b - 1) as nat;
        lemma_kept_none_between(a, fewer, keep);
        lemma_kept_step(fewer, keep);
    }
}

/// Two predicates that agree on every number below the bound keep the same
/// numbers.
pub proof fn lemma_kept_agree(k: nat, keep: spec_fn(int) -> bool, other: spec_fn(int) -> bool)
    requires
        forall|i: int| 0 <= i < k ==> #[trigger] keep(i) == other(i),
    ensures
        kept_below(k, keep) == kept_below(k, other),
    decreases k,
{
    if k > 0 {
        let fewer = (k - 1) as nat;
        lemma_kept_agree(fewer, keep, other);
        lemma_kept_step(fewer, keep);
        lemma_kept_step(fewer, other);
        assert(keep(fewer as int) == other(fewer as int));
    } else {
        reveal(Seq::filter);
    }
}

} // verus!
