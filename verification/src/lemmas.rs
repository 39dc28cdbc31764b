use vstd::prelude::*;

use crate::model::{init_model, inv, nondecreasing, seq_sum};

verus! {

/// Appending a part adds it to the sum.
pub(crate) proof fn lemma_sum_push(s: Seq<usize>, v: usize)
    ensures
        seq_sum(s.push(v)) == seq_sum(s) + v,
{
    assert(s.push(v).drop_last() =~= s);
    assert(s.push(v).last() == v);
}

/// Extending a prefix by one slot adds that slot's value to its sum.
pub(crate) proof fn lemma_sum_take_succ(s: Seq<usize>, i: int)
    requires
        0 <= i < s.len(),
    ensures
        seq_sum(s.take(i + 1)) == seq_sum(s.take(i)) + s[i],
{
    assert(s.take(i + 1) =~= s.take(i).push(s[i]));
    lemma_sum_push(s.take(i), s[i]);
}

/// A sequence of positive parts sums to at least its length.
pub(crate) proof fn lemma_sum_ge_len(s: Seq<usize>)
    requires
        forall|i: int| 0 <= i < s.len() ==> 1 <= s[i],
    ensures
        seq_sum(s) >= s.len(),
    decreases s.len(),
{
    if s.len() > 0 {
        assert forall|i: int| 0 <= i < s.drop_last().len() implies 1 <= s.drop_last()[i] by {
            assert(s.drop_last()[i] == s[i]);
        }
        lemma_sum_ge_len(s.drop_last());
    }
}

/// No part exceeds the sum of its sequence.
pub(crate) proof fn lemma_sum_ge_elem(s: Seq<usize>, i: int)
    requires
        0 <= i < s.len(),
    ensures
        seq_sum(s) >= s[i],
    decreases s.len(),
{
    if i == s.len() - 1 {
    } else {
        lemma_sum_ge_elem(s.drop_last(), i);
        assert(s.drop_last()[i] == s[i]);
    }
}

/// A freshly built state satisfies the generator's invariant.
pub(crate) proof fn lemma_init_model_wf(n: usize)
    requires
        n < usize::MAX,
    ensures
        inv(init_model(n)),
{
    let s = init_model(n);
    if n == 0 {
    } else {
        let t = s.a.take(1);
        assert(t.len() == 1 && t[0] == 0);
        assert(t.drop_last() =~= Seq::<usize>::empty());
        assert(seq_sum(Seq::<usize>::empty()) == 0);
        assert(seq_sum(t) == 0);
        assert(nondecreasing(t));
    }
}

} // verus!
